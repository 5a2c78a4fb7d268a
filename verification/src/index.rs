//! The immutable inverted index and its mathematical model.

use vstd::prelude::*;

use crate::tokenize::string_views;

verus! {

/// A term: one `/`-separated path segment, matched byte for byte.
pub type Term = String;

/// The identifier an archive is known by to callers (for instance a content
/// hash or a file name).
pub type DocumentId = String;

/// One input record: an archive identifier and the file paths it contains.
#[derive(Debug, Clone)]
pub struct FileData {
    /// name of the archive
    pub name: DocumentId,
    /// list of files in the archive
    pub files: Vec<String>,
}

/// The inputs of the inverse-document-frequency formula for one term:
/// `df`, the number of documents containing the term, and `num_docs`, the
/// total number of documents in the same index generation. The formula
/// itself, `ln((num_docs - df + 0.5) / (df + 0.5) + 1)`, is a transcendental
/// function; a consumer evaluates it from these two exact integers.
#[derive(Clone, Copy, Debug, PartialEq, Eq, Structural)]
pub struct IdfWeight {
    pub df: usize,
    pub num_docs: usize,
}

impl IdfWeight {
    /// Builds a weight, clamping `df` to `num_docs` so that malformed
    /// inputs with `df > num_docs` cannot drive the formula negative.
    pub fn new(df: usize, num_docs: usize) -> (w: IdfWeight)
        ensures
            w.num_docs == num_docs,
            w.df == if df <= num_docs {
                df as int
            } else {
                num_docs as int
            },
    {
        if df <= num_docs {
            IdfWeight { df, num_docs }
        } else {
            IdfWeight { df: num_docs, num_docs }
        }
    }
}

/// The mathematical content of an index: everything query answering and the
/// build contract depend on, with strings and vectors abstracted to
/// sequences.
#[verifier::ext_equal]
pub struct IndexModel {
    /// the distinct terms, in first-seen order
    pub terms: Seq<Seq<char>>,
    /// for each term, the ordinals of the documents containing it
    pub postings: Seq<Seq<usize>>,
    /// for each term, the stored inverse-document-frequency inputs
    pub idf: Seq<IdfWeight>,
    /// ordinal to document identifier
    pub names: Seq<Seq<char>>,
    /// total number of documents
    pub num_docs: int,
}

/// The element sequences of a sequence of posting vectors.
pub open spec fn postings_views(ps: Seq<Vec<usize>>) -> Seq<Seq<usize>> {
    ps.map_values(|p: Vec<usize>| p@)
}

/// A posting list is well formed when it is non-empty, strictly increasing,
/// and every ordinal lies below `num_docs`.
pub open spec fn posting_wf(p: Seq<usize>, num_docs: int) -> bool {
    &&& p.len() > 0
    &&& forall|k: int| 0 <= k < p.len() ==> p[k] < num_docs
    &&& forall|k1: int, k2: int| 0 <= k1 < k2 < p.len() ==> p[k1] < p[k2]
}

impl IndexModel {
    /// Well-formedness: parallel tables of equal length, distinct terms,
    /// well-formed posting lists, and an idf table computed exactly from
    /// the final posting-list sizes and the document count.
    pub open spec fn wf(self) -> bool {
        &&& self.postings.len() == self.terms.len()
        &&& self.idf.len() == self.terms.len()
        &&& self.names.len() == self.num_docs
        &&& 0 <= self.num_docs
        &&& forall|j1: int, j2: int|
            0 <= j1 < j2 < self.terms.len() ==> self.terms[j1] != self.terms[j2]
        &&& forall|j: int|
            0 <= j < self.terms.len() ==> posting_wf(#[trigger] self.postings[j], self.num_docs)
        &&& forall|j: int|
            0 <= j < self.terms.len() ==> #[trigger] self.idf[j] == (IdfWeight {
                df: self.postings[j].len() as usize,
                num_docs: self.num_docs as usize,
            })
    }

    /// Whether `t` is a term of the index.
    pub open spec fn contains_term(self, t: Seq<char>) -> bool {
        self.terms.contains(t)
    }

    /// Whether document ordinal `d` contains the term `t`.
    pub open spec fn term_hits(self, t: Seq<char>, d: usize) -> bool {
        exists|j: int|
            0 <= j < self.terms.len() && self.terms[j] == t && #[trigger] self.postings[j].contains(
                d,
            )
    }
}

/// A strictly increasing sequence of ordinals below `num_docs` cannot be
/// longer than `num_docs` itself: position `k` holds a value of at least `k`.
pub proof fn lemma_posting_len_le_num_docs(p: Seq<usize>, num_docs: int)
    requires
        posting_wf(p, num_docs),
    ensures
        p.len() <= num_docs,
{
    assert forall|k: int| 0 <= k < p.len() implies p[k] >= k by {
        lemma_increasing_ge_index(p, k);
    }
    assert(p[p.len() - 1] >= p.len() - 1);
}

proof fn lemma_increasing_ge_index(p: Seq<usize>, k: int)
    requires
        forall|k1: int, k2: int| 0 <= k1 < k2 < p.len() ==> p[k1] < p[k2],
        0 <= k < p.len(),
    ensures
        p[k] >= k,
    decreases k,
{
    if k > 0 {
        lemma_increasing_ge_index(p, k - 1);
    }
}

/// The inverted index: postings, document table and idf inputs, immutable
/// once built. `wf()` of its model is the invariant every constructor
/// establishes and every reader may assume.
#[derive(Debug)]
pub struct IndexedData {
    /// the distinct terms, in first-seen order
    pub terms: Vec<Term>,
    /// parallel to `terms`: the posting list of each term
    pub postings: Vec<Vec<usize>>,
    /// parallel to `terms`: the stored idf inputs of each term
    pub idf: Vec<IdfWeight>,
    /// document ordinal to document identifier, in ingestion order
    pub names: Vec<DocumentId>,
    /// number of documents this index was built from
    pub num_docs: usize,
}

impl IndexedData {
    /// The mathematical model of this index.
    pub open spec fn model(self) -> IndexModel {
        IndexModel {
            terms: string_views(self.terms@),
            postings: postings_views(self.postings@),
            idf: self.idf@,
            names: string_views(self.names@),
            num_docs: self.num_docs as int,
        }
    }

    pub open spec fn wf(self) -> bool {
        self.model().wf()
    }

    /// An empty index: no documents, no terms.
    pub fn new() -> (idx: IndexedData)
        ensures
            idx.wf(),
            idx.model().terms =~= Seq::<Seq<char>>::empty(),
            idx.model().names =~= Seq::<Seq<char>>::empty(),
            idx.model().num_docs == 0,
    {
        IndexedData {
            terms: Vec::new(),
            postings: Vec::new(),
            idf: Vec::new(),
            names: Vec::new(),
            num_docs: 0,
        }
    }

    /// The position of `t` in the term table, if `t` is indexed.
    pub fn find_term(&self, t: &Term) -> (r: Option<usize>)
        ensures
            match r {
                Some(j) => j < self.terms@.len() && self.model().terms[j as int] == t@,
                None => !self.model().contains_term(t@),
            },
    {
        find_term_in(&self.terms, t)
    }

    /// The posting list of `t`: the ordinals of the documents containing
    /// `t`, ascending. `None` exactly when `t` is not indexed.
    pub fn postings_for(&self, t: &Term) -> (r: Option<&Vec<usize>>)
        requires
            self.wf(),
        ensures
            match r {
                Some(p) => self.model().contains_term(t@) && exists|j: int|
                    0 <= j < self.model().terms.len() && self.model().terms[j] == t@
                        && p@ == #[trigger] self.model().postings[j],
                None => !self.model().contains_term(t@),
            },
    {
        match self.find_term(t) {
            Some(j) => {
                proof {
                    assert(self.model().terms[j as int] == t@);
                    assert(self.model().postings[j as int] == self.postings@[j as int]@);
                }
                Some(&self.postings[j])
            },
            None => None,
        }
    }

    /// The stored idf inputs of `t`. `None` exactly when `t` is not
    /// indexed; otherwise the weight holds the term's document frequency
    /// and this index's document count.
    pub fn idf_for(&self, t: &Term) -> (r: Option<IdfWeight>)
        requires
            self.wf(),
        ensures
            match r {
                Some(w) => self.model().contains_term(t@) && w.num_docs == self.num_docs
                    && exists|j: int|
                    0 <= j < self.model().terms.len() && self.model().terms[j] == t@
                        && w.df == #[trigger] self.model().postings[j].len(),
                None => !self.model().contains_term(t@),
            },
    {
        match self.find_term(t) {
            Some(j) => {
                proof {
                    assert(self.model().terms[j as int] == t@);
                    assert(self.model().postings[j as int] == self.postings@[j as int]@);
                    lemma_posting_len_le_num_docs(
                        self.model().postings[j as int],
                        self.model().num_docs,
                    );
                    assert(self.model().idf[j as int] == (IdfWeight {
                        df: self.model().postings[j as int].len() as usize,
                        num_docs: self.num_docs,
                    }));
                }
                Some(self.idf[j])
            },
            None => None,
        }
    }

    /// The identifier of the document with ordinal `ord`.
    pub fn name_of(&self, ord: usize) -> (r: &DocumentId)
        requires
            self.wf(),
            ord < self.model().num_docs,
        ensures
            r@ == self.model().names[ord as int],
    {
        &self.names[ord]
    }

    /// A deep copy whose model is identical, so that every query answers
    /// the same on the copy as on the original.
    pub fn duplicate(&self) -> (r: IndexedData)
        ensures
            r.model() == self.model(),
    {
        let r = IndexedData {
            terms: clone_strings(&self.terms),
            postings: clone_postings(&self.postings),
            idf: clone_weights(&self.idf),
            names: clone_strings(&self.names),
            num_docs: self.num_docs,
        };
        proof {
            assert(postings_views(r.postings@) =~= postings_views(self.postings@));
            assert(r.model() =~= self.model());
        }
        r
    }
}

/// The position of `t` in `terms`, scanning from the front.
pub fn find_term_in(terms: &Vec<Term>, t: &Term) -> (r: Option<usize>)
    ensures
        match r {
            Some(j) => j < terms@.len() && terms@[j as int]@ == t@,
            None => !string_views(terms@).contains(t@),
        },
{
    let ghost views = string_views(terms@);
    let mut j: usize = 0;
    while j < terms.len()
        invariant
            0 <= j <= terms@.len(),
            views == string_views(terms@),
            forall|k: int| 0 <= k < j ==> views[k] != t@,
        decreases terms@.len() - j,
    {
        proof {
            assert(views[j as int] == terms@[j as int]@);
        }
        if terms[j].eq(t) {
            return Some(j);
        }
        j = j + 1;
    }
    proof {
        assert forall|k: int| 0 <= k < views.len() implies views[k] != t@ by {}
    }
    None
}

fn clone_strings(v: &Vec<String>) -> (r: Vec<String>)
    ensures
        r@ =~= v@,
{
    let mut r: Vec<String> = Vec::new();
    let mut i: usize = 0;
    while i < v.len()
        invariant
            0 <= i <= v@.len(),
            r@ =~= v@.subrange(0, i as int),
        decreases v@.len() - i,
    {
        r.push(v[i].clone());
        i = i + 1;
    }
    r
}

fn clone_usizes(v: &Vec<usize>) -> (r: Vec<usize>)
    ensures
        r@ =~= v@,
{
    let mut r: Vec<usize> = Vec::new();
    let mut i: usize = 0;
    while i < v.len()
        invariant
            0 <= i <= v@.len(),
            r@ =~= v@.subrange(0, i as int),
        decreases v@.len() - i,
    {
        r.push(v[i]);
        i = i + 1;
    }
    r
}

fn clone_postings(v: &Vec<Vec<usize>>) -> (r: Vec<Vec<usize>>)
    ensures
        r@.len() == v@.len(),
        forall|k: int| 0 <= k < v@.len() ==> #[trigger] r@[k]@ == v@[k]@,
{
    let mut r: Vec<Vec<usize>> = Vec::new();
    let mut i: usize = 0;
    while i < v.len()
        invariant
            0 <= i <= v@.len(),
            r@.len() == i,
            forall|k: int| 0 <= k < i ==> #[trigger] r@[k]@ == v@[k]@,
        decreases v@.len() - i,
    {
        let p = clone_usizes(&v[i]);
        proof {
            assert(p@ == v@[i as int]@);
        }
        r.push(p);
        i = i + 1;
    }
    r
}

fn clone_weights(v: &Vec<IdfWeight>) -> (r: Vec<IdfWeight>)
    ensures
        r@ =~= v@,
{
    let mut r: Vec<IdfWeight> = Vec::new();
    let mut i: usize = 0;
    while i < v.len()
        invariant
            0 <= i <= v@.len(),
            r@ =~= v@.subrange(0, i as int),
        decreases v@.len() - i,
    {
        r.push(v[i]);
        i = i + 1;
    }
    r
}

/// Computes the idf table for a posting table: for each posting list its
/// length as the document frequency, clamped to `num_docs`, paired with
/// `num_docs` itself.
pub fn compute_idf(postings: &Vec<Vec<usize>>, num_docs: usize) -> (r: Vec<IdfWeight>)
    ensures
        r@.len() == postings@.len(),
        forall|j: int|
            0 <= j < r@.len() ==> #[trigger] r@[j] == (IdfWeight {
                df: if postings@[j]@.len() <= num_docs {
                    postings@[j]@.len() as usize
                } else {
                    num_docs
                },
                num_docs,
            }),
{
    let mut r: Vec<IdfWeight> = Vec::new();
    let mut j: usize = 0;
    while j < postings.len()
        invariant
            0 <= j <= postings@.len(),
            r@.len() == j,
            forall|k: int|
                0 <= k < j ==> #[trigger] r@[k] == (IdfWeight {
                    df: if postings@[k]@.len() <= num_docs {
                        postings@[k]@.len() as usize
                    } else {
                        num_docs
                    },
                    num_docs,
                }),
        decreases postings@.len() - j,
    {
        let w = IdfWeight::new(postings[j].len(), num_docs);
        r.push(w);
        j = j + 1;
    }
    r
}


/// If every adjacent pair of a sequence increases, every pair does.
proof fn lemma_adjacent_increasing(p: Seq<usize>, k1: int, k2: int)
    requires
        forall|k: int| 0 <= k < p.len() - 1 ==> #[trigger] p[k] < p[k + 1],
        0 <= k1 < k2 < p.len(),
    ensures
        p[k1] < p[k2],
    decreases k2 - k1,
{
    if k2 > k1 + 1 {
        lemma_adjacent_increasing(p, k1, k2 - 1);
    }
}

impl IndexedData {
    /// Decides at run time whether this index is well formed: the exact
    /// invariant `wf()`, decidable for data loaded from an untrusted
    /// source such as a persisted snapshot.
    pub fn check_wf(&self) -> (r: bool)
        ensures
            r == self.wf(),
    {
        let ghost m = self.model();
        let tlen = self.terms.len();
        if self.postings.len() != tlen {
            return false;
        }
        if self.idf.len() != tlen {
            return false;
        }
        if self.names.len() != self.num_docs {
            return false;
        }
        // distinct terms
        let mut j: usize = 0;
        while j < tlen
            invariant
                m == self.model(),
                tlen == self.terms@.len(),
                0 <= j <= tlen,
                forall|a: int, b: int| 0 <= a < b < tlen && a < j ==> m.terms[a] != m.terms[b],
            decreases tlen - j,
        {
            let mut k: usize = j + 1;
            while k < tlen
                invariant
                    m == self.model(),
                    tlen == self.terms@.len(),
                    0 <= j < tlen,
                    j + 1 <= k <= tlen,
                    forall|b: int| j < b < k ==> m.terms[j as int] != m.terms[b],
                decreases tlen - k,
            {
                proof {
                    assert(m.terms[j as int] == self.terms@[j as int]@);
                    assert(m.terms[k as int] == self.terms@[k as int]@);
                }
                if self.terms[j].eq(&self.terms[k]) {
                    proof {
                        assert(m.terms[j as int] == m.terms[k as int]);
                        assert(!m.wf());
                    }
                    return false;
                }
                k = k + 1;
            }
            j = j + 1;
        }
        // well-formed posting lists
        let mut j2: usize = 0;
        while j2 < tlen
            invariant
                m == self.model(),
                tlen == self.terms@.len(),
                m.terms.len() == tlen,
                m.postings.len() == tlen,
                0 <= j2 <= tlen,
                forall|a: int| 0 <= a < j2 ==> posting_wf(#[trigger] m.postings[a], m.num_docs),
            decreases tlen - j2,
        {
            let pj = &self.postings[j2];
            proof {
                assert(pj@ == m.postings[j2 as int]);
            }
            let plen = pj.len();
            if plen == 0 {
                proof {
                    assert(!posting_wf(m.postings[j2 as int], m.num_docs));
                    assert(!m.wf());
                }
                return false;
            }
            let mut k: usize = 0;
            while k < plen
                invariant
                    m == self.model(),
                    m.terms.len() == tlen,
                    m.postings.len() == tlen,
                    tlen == self.terms@.len(),
                    0 <= j2 < tlen,
                    pj@ == m.postings[j2 as int],
                    plen == pj@.len(),
                    0 <= k <= plen,
                    forall|a: int| 0 <= a < k ==> #[trigger] pj@[a] < m.num_docs,
                    forall|a: int| 0 <= a < k && a + 1 < plen ==> #[trigger] pj@[a] < pj@[a + 1],
                decreases plen - k,
            {
                if pj[k] >= self.num_docs {
                    proof {
                        assert(!posting_wf(m.postings[j2 as int], m.num_docs));
                        assert(!m.wf());
                    }
                    return false;
                }
                if k + 1 < plen {
                    if pj[k] >= pj[k + 1] {
                        proof {
                            assert(!posting_wf(m.postings[j2 as int], m.num_docs));
                            assert(!m.wf());
                        }
                        return false;
                    }
                }
                k = k + 1;
            }
            proof {
                assert forall|a1: int, a2: int|
                    0 <= a1 < a2 < pj@.len() implies pj@[a1] < pj@[a2] by {
                    lemma_adjacent_increasing(pj@, a1, a2);
                }
                assert(posting_wf(m.postings[j2 as int], m.num_docs));
            }
            j2 = j2 + 1;
        }
        // idf table computed from the final posting sizes
        let mut j3: usize = 0;
        while j3 < tlen
            invariant
                m == self.model(),
                tlen == self.terms@.len(),
                m.terms.len() == tlen,
                m.postings.len() == tlen,
                m.idf.len() == tlen,
                0 <= j3 <= tlen,
                forall|a: int|
                    0 <= a < j3 ==> #[trigger] m.idf[a] == (IdfWeight {
                        df: m.postings[a].len() as usize,
                        num_docs: m.num_docs as usize,
                    }),
            decreases tlen - j3,
        {
            let expected = IdfWeight { df: self.postings[j3].len(), num_docs: self.num_docs };
            proof {
                assert(self.postings@[j3 as int]@ == m.postings[j3 as int]);
            }
            if !(self.idf[j3] == expected) {
                proof {
                    assert(m.idf[j3 as int] == self.idf@[j3 as int]);
                    assert(!m.wf());
                }
                return false;
            }
            j3 = j3 + 1;
        }
        proof {
            assert(m.wf());
        }
        true
    }
}

} // verus!
