//! Building an index from a sequence of records.

use vstd::prelude::*;
use vstd::seq_lib::lemma_seq_contains_after_push;

use crate::index::FileData;
use crate::index::IndexModel;
use crate::index::IndexedData;
use crate::index::Term;
use crate::index::compute_idf;
use crate::index::find_term_in;
use crate::index::lemma_posting_len_le_num_docs;
use crate::index::posting_wf;
use crate::index::postings_views;
use crate::tokenize::segments;
use crate::tokenize::string_views;
use crate::tokenize::tokenize;

verus! {

/// All terms of a document, in order: the concatenation of the segment
/// sequences of its file paths.
pub open spec fn doc_tokens(files: Seq<Seq<char>>) -> Seq<Seq<char>>
    decreases files.len(),
{
    if files.len() == 0 {
        Seq::empty()
    } else {
        doc_tokens(files.drop_last()) + segments(files.last())
    }
}

/// Whether the document described by `fd` contains the term `t` in any of
/// its paths.
pub open spec fn doc_contains_term(fd: FileData, t: Seq<char>) -> bool {
    doc_tokens(string_views(fd.files@)).contains(t)
}

/// How many records a build consumes: all of them, or the cap if one is
/// given and smaller.
pub open spec fn effective_len(n_records: int, limit: Option<usize>) -> int {
    match limit {
        Some(l) => if l as int <= n_records {
            l as int
        } else {
            n_records
        },
        None => n_records,
    }
}

/// The build contract: `m` is a well-formed index of exactly the first `n`
/// records. Terms are exactly the terms occurring in those records, each
/// posting list holds exactly the ordinals of the documents containing its
/// term, and the document table holds the record names in ingestion order.
pub open spec fn built_from(m: IndexModel, records: Seq<FileData>, n: int) -> bool {
    &&& m.wf()
    &&& m.num_docs == n
    &&& 0 <= n <= records.len()
    &&& forall|i: int| 0 <= i < n ==> m.names[i] == #[trigger] records[i].name@
    &&& forall|t: Seq<char>|
        #[trigger] m.contains_term(t) <==> exists|i: int|
            0 <= i < n && #[trigger] doc_contains_term(records[i], t)
    &&& forall|j: int, d: usize|
        0 <= j < m.terms.len() && 0 <= d < n ==> (#[trigger] m.postings[j].contains(d)
            <==> doc_contains_term(records[d as int], m.terms[j]))
}

/// Shared shape of the term and posting tables while a build is running:
/// parallel tables, distinct terms, and posting lists that are non-empty,
/// strictly increasing and bounded by `bound`.
pub open spec fn tables_wf(terms: Seq<Seq<char>>, postings: Seq<Seq<usize>>, bound: int) -> bool {
    &&& postings.len() == terms.len()
    &&& forall|j1: int, j2: int| 0 <= j1 < j2 < terms.len() ==> terms[j1] != terms[j2]
    &&& forall|j: int|
        0 <= j < postings.len() ==> (#[trigger] postings[j]).len() > 0
    &&& forall|j: int, k1: int, k2: int|
        #![trigger postings[j][k1], postings[j][k2]]
        0 <= j < postings.len() && 0 <= k1 < k2 < postings[j].len() ==> postings[j][k1]
            < postings[j][k2]
    &&& forall|j: int, k: int|
        0 <= j < postings.len() && 0 <= k < postings[j].len() ==> (#[trigger] postings[j][k])
            <= bound
}

/// In a strictly increasing list bounded by `i`, containing `i` is the same
/// as ending with `i`.
proof fn lemma_last_iff_contains(p: Seq<usize>, i: usize)
    requires
        p.len() > 0,
        forall|k1: int, k2: int| 0 <= k1 < k2 < p.len() ==> p[k1] < p[k2],
        forall|k: int| 0 <= k < p.len() ==> p[k] <= i,
    ensures
        p.contains(i) <==> p.last() == i,
{
    if p.contains(i) {
        let k = choose|k: int| 0 <= k < p.len() && p[k] == i;
        if k < p.len() - 1 {
            assert(p[k] < p[p.len() - 1]);
        }
    }
}

/// Records one occurrence of term `t` in document `i`: appends `i` to the
/// term's posting list unless it is already there, creating the term if it
/// is new.
fn insert_token(terms: &mut Vec<Term>, postings: &mut Vec<Vec<usize>>, t: &Term, i: usize)
    requires
        tables_wf(string_views(old(terms)@), postings_views(old(postings)@), i as int),
    ensures
        tables_wf(string_views(final(terms)@), postings_views(final(postings)@), i as int),
        ({
            let t0 = string_views(old(terms)@);
            let p0 = postings_views(old(postings)@);
            let t1 = string_views(final(terms)@);
            let p1 = postings_views(final(postings)@);
            &&& t1 == if t0.contains(t@) {
                t0
            } else {
                t0.push(t@)
            }
            &&& forall|j: int| 0 <= j < t0.len() ==> t1[j] == t0[j]
            &&& forall|j: int, d: usize|
                0 <= j < t1.len() && d != i ==> (#[trigger] p1[j].contains(d) <==> j < t0.len()
                    && p0[j].contains(d))
            &&& forall|j: int|
                0 <= j < t1.len() ==> (#[trigger] p1[j].contains(i) <==> (j < t0.len()
                    && p0[j].contains(i)) || t1[j] == t@)
        }),
{
    let ghost t0 = string_views(terms@);
    let ghost p0 = postings_views(postings@);
    match find_term_in(terms, t) {
        Some(j) => {
            proof {
                assert(t0[j as int] == t@);
                assert(t0.contains(t@));
            }
            let mut pj = postings.remove(j);
            let ghost pj0 = pj@;
            proof {
                assert(pj0 == p0[j as int]);
                lemma_last_iff_contains(pj0, i);
            }
            let last = pj[pj.len() - 1];
            if last != i {
                proof {
                    assert(!pj0.contains(i));
                    assert forall|k: int| 0 <= k < pj0.len() implies pj0[k] < i by {
                        if k < pj0.len() - 1 {
                            assert(pj0[k] < pj0[pj0.len() - 1]);
                        }
                        assert(pj0[k] != i) by {
                            assert(pj0.contains(i) <==> pj0.last() == i);
                        }
                    }
                }
                pj.push(i);
            }
            let ghost pj1 = pj@;
            postings.insert(j, pj);
            proof {
                assert(postings@ == old(postings)@.remove(j as int).insert(j as int, pj));
                assert(postings_views(postings@) =~= p0.update(j as int, pj1));
                let p1 = postings_views(postings@);
                assert(string_views(terms@) == t0);
                assert forall|jj: int, d: usize|
                    0 <= jj < t0.len() && d != i implies (#[trigger] p1[jj].contains(d) <==> jj
                        < t0.len() && p0[jj].contains(d)) by {
                    if jj == j {
                        assert forall|d2: usize| d2 != i implies (pj1.contains(d2)
                            <==> pj0.contains(d2)) by {
                            if pj1 != pj0 {
                                assert(pj1 == pj0.push(i));
                                if pj1.contains(d2) {
                                    let k = choose|k: int| 0 <= k < pj1.len() && pj1[k] == d2;
                                    assert(k < pj0.len());
                                    assert(pj0[k] == d2);
                                    assert(pj0.contains(d2));
                                }
                                if pj0.contains(d2) {
                                    let k = choose|k: int| 0 <= k < pj0.len() && pj0[k] == d2;
                                    assert(pj1[k] == d2);
                                    assert(pj1.contains(d2));
                                }
                            }
                        }
                    }
                }
                assert forall|jj: int|
                    0 <= jj < t0.len() implies (#[trigger] p1[jj].contains(i) <==> (jj < t0.len()
                        && p0[jj].contains(i)) || t0[jj] == t@) by {
                    if jj == j {
                        if pj1 != pj0 {
                            assert(pj1 == pj0.push(i));
                            assert(pj1[pj1.len() - 1] == i);
                            assert(pj1.contains(i));
                        } else {
                            assert(pj0.last() == i);
                            assert(pj0.contains(i));
                        }
                    } else {
                        assert(t0[jj] != t0[j as int]);
                    }
                }
                assert(tables_wf(t0, p1, i as int)) by {
                    assert forall|jj: int, k1: int, k2: int|
                        #![trigger p1[jj][k1], p1[jj][k2]]
                        0 <= jj < p1.len() && 0 <= k1 < k2 < p1[jj].len() implies p1[jj][k1]
                            < p1[jj][k2] by {
                        if jj == j && pj1 != pj0 {
                            assert(pj1 == pj0.push(i));
                            if k2 < pj1.len() - 1 {
                                assert(pj0[k1] < pj0[k2]);
                            } else {
                                if k1 < pj0.len() - 1 {
                                    assert(pj0[k1] < pj0[pj0.len() - 1]);
                                }
                            }
                        }
                    }
                }
            }
        },
        None => {
            proof {
                assert(!t0.contains(t@));
            }
            let mut np: Vec<usize> = Vec::new();
            np.push(i);
            terms.push(t.clone());
            postings.push(np);
            proof {
                let t1 = string_views(terms@);
                let p1 = postings_views(postings@);
                assert(t1 =~= t0.push(t@));
                assert(p1 =~= p0.push(seq![i]));
                assert(seq![i][0] == i);
                assert(seq![i].contains(i));
                assert forall|d: usize| seq![i].contains(d) implies d == i by {
                    let k = choose|k: int| 0 <= k < seq![i].len() && seq![i][k] == d;
                }
                assert forall|j1: int, j2: int|
                    0 <= j1 < j2 < t1.len() implies t1[j1] != t1[j2] by {
                    if j2 == t1.len() - 1 {
                        assert(t0.contains(t@) <==> exists|k: int|
                            0 <= k < t0.len() && t0[k] == t@);
                        assert(t1[j1] == t0[j1]);
                    }
                }
            }
        },
    }
}


/// Feeds one record into the tables: afterwards the terms are the old terms
/// plus the record's terms, and ordinal `i` stands exactly in the posting
/// lists of the terms the record contains.
fn add_record(terms: &mut Vec<Term>, postings: &mut Vec<Vec<usize>>, fd: &FileData, i: usize)
    requires
        tables_wf(string_views(old(terms)@), postings_views(old(postings)@), i as int - 1),
    ensures
        tables_wf(string_views(final(terms)@), postings_views(final(postings)@), i as int),
        ({
            let t0 = string_views(old(terms)@);
            let p0 = postings_views(old(postings)@);
            let t1 = string_views(final(terms)@);
            let p1 = postings_views(final(postings)@);
            &&& t1.len() >= t0.len()
            &&& forall|j: int| 0 <= j < t0.len() ==> t1[j] == t0[j]
            &&& forall|tt: Seq<char>|
                #[trigger] t1.contains(tt) <==> t0.contains(tt) || doc_contains_term(*fd, tt)
            &&& forall|j: int, d: usize|
                0 <= j < t1.len() && d != i ==> (#[trigger] p1[j].contains(d) <==> j < t0.len()
                    && p0[j].contains(d))
            &&& forall|j: int|
                0 <= j < t1.len() ==> (#[trigger] p1[j].contains(i) <==> doc_contains_term(
                    *fd,
                    t1[j],
                ))
        }),
{
    let ghost t0 = string_views(terms@);
    let ghost p0 = postings_views(postings@);
    let ghost fv = string_views(fd.files@);

    // Collect every token of every path of this record, in order.
    let mut toks: Vec<String> = Vec::new();
    let mut k: usize = 0;
    while k < fd.files.len()
        invariant
            0 <= k <= fd.files@.len(),
            fv == string_views(fd.files@),
            string_views(toks@) =~= doc_tokens(fv.subrange(0, k as int)),
        decreases fd.files@.len() - k,
    {
        let mut segs = tokenize(&fd.files[k]);
        let ghost old_toks = toks@;
        let ghost segs_v = segs@;
        toks.append(&mut segs);
        proof {
            assert(toks@ == old_toks + segs_v);
            assert(string_views(toks@) =~= string_views(old_toks) + string_views(segs_v));
            assert(fv.subrange(0, k as int + 1).drop_last() =~= fv.subrange(0, k as int));
            assert(fv.subrange(0, k as int + 1).last() == fv[k as int]);
            assert(fv[k as int] == fd.files@[k as int]@);
            assert(doc_tokens(fv.subrange(0, k as int + 1)) == doc_tokens(fv.subrange(0, k as int))
                + segments(fv[k as int]));
            assert(string_views(toks@) =~= doc_tokens(fv.subrange(0, k as int + 1)));
        }
        k = k + 1;
    }
    proof {
        assert(fv.subrange(0, fv.len() as int) =~= fv);
        assert(string_views(toks@) == doc_tokens(fv));
    }
    let ghost tv = string_views(toks@);

    // Record each token against ordinal `i`.
    proof {
        assert(tables_wf(t0, p0, i as int));
        assert forall|j: int| 0 <= j < t0.len() implies !(#[trigger] p0[j].contains(i)) by {
            if p0[j].contains(i) {
                let k2 = choose|k2: int| 0 <= k2 < p0[j].len() && p0[j][k2] == i;
                assert(p0[j][k2] <= i - 1);
            }
        }
        assert(tv.subrange(0, 0) =~= Seq::<Seq<char>>::empty());
    }
    let mut p: usize = 0;
    while p < toks.len()
        invariant
            0 <= p <= toks@.len(),
            tv == string_views(toks@),
            tables_wf(string_views(terms@), postings_views(postings@), i as int),
            string_views(terms@).len() >= t0.len(),
            forall|j: int| 0 <= j < t0.len() ==> string_views(terms@)[j] == t0[j],
            forall|tt: Seq<char>|
                #[trigger] string_views(terms@).contains(tt) <==> t0.contains(tt) || tv.subrange(
                    0,
                    p as int,
                ).contains(tt),
            forall|j: int, d: usize|
                0 <= j < string_views(terms@).len() && d != i ==> (
                #[trigger] postings_views(postings@)[j].contains(d) <==> j < t0.len()
                    && p0[j].contains(d)),
            forall|j: int|
                0 <= j < string_views(terms@).len() ==> (
                #[trigger] postings_views(postings@)[j].contains(i) <==> tv.subrange(
                    0,
                    p as int,
                ).contains(string_views(terms@)[j])),
        decreases toks@.len() - p,
    {
        let ghost t_a = string_views(terms@);
        let ghost p_a = postings_views(postings@);
        let t = &toks[p];
        proof {
            assert(t@ == tv[p as int]);
        }
        insert_token(terms, postings, t, i);
        proof {
            let t_b = string_views(terms@);
            let p_b = postings_views(postings@);
            let sub_old = tv.subrange(0, p as int);
            let sub_new = tv.subrange(0, p as int + 1);
            assert(sub_new =~= sub_old.push(tv[p as int]));
            lemma_seq_contains_after_push(sub_old, tv[p as int], tv[p as int]);
            assert(sub_new.contains(t@));
            assert forall|tt: Seq<char>|
                #[trigger] t_b.contains(tt) <==> t0.contains(tt) || sub_new.contains(tt) by {
                lemma_seq_contains_after_push(sub_old, tv[p as int], tt);
                if t_a.contains(t@) {
                    assert(t_b == t_a);
                } else {
                    assert(t_b == t_a.push(t@));
                    lemma_seq_contains_after_push(t_a, t@, tt);
                }
            }
            assert forall|j: int|
                0 <= j < t_b.len() implies (#[trigger] p_b[j].contains(i) <==> sub_new.contains(
                t_b[j],
            )) by {
                lemma_seq_contains_after_push(sub_old, tv[p as int], t_b[j]);
                if t_b[j] == t@ {
                    assert(p_b[j].contains(i));
                } else {
                    if j < t_a.len() {
                        assert(t_b[j] == t_a[j]);
                    } else {
                        assert(t_b == t_a.push(t@));
                        assert(t_b[j] == t@);
                    }
                }
            }
        }
        p = p + 1;
    }
    proof {
        assert(tv.subrange(0, toks@.len() as int) =~= tv);
        let t1 = string_views(terms@);
        let p1 = postings_views(postings@);
        assert forall|tt: Seq<char>|
            #[trigger] t1.contains(tt) <==> t0.contains(tt) || doc_contains_term(*fd, tt) by {
            assert(t1.contains(tt) <==> t0.contains(tt) || tv.contains(tt));
        }
        assert forall|j: int|
            0 <= j < t1.len() implies (#[trigger] p1[j].contains(i) <==> doc_contains_term(
            *fd,
            t1[j],
        )) by {
            assert(p1[j].contains(i) <==> tv.contains(t1[j]));
        }
    }
}


/// Builds an index over the first `effective_len` records: assigns ordinals
/// in ingestion order, tokenizes every path, fills the posting lists with
/// each ordinal at most once per term, and computes the idf table from the
/// final posting-list sizes and the document count.
pub fn build(records: &Vec<FileData>, limit: Option<usize>) -> (idx: IndexedData)
    ensures
        built_from(idx.model(), records@, effective_len(records@.len() as int, limit)),
{
    let n: usize = match limit {
        Some(l) => if l <= records.len() {
            l
        } else {
            records.len()
        },
        None => records.len(),
    };
    proof {
        assert(n as int == effective_len(records@.len() as int, limit));
    }
    let mut terms: Vec<Term> = Vec::new();
    let mut postings: Vec<Vec<usize>> = Vec::new();
    let mut names: Vec<String> = Vec::new();
    let mut i: usize = 0;
    while i < n
        invariant
            0 <= i <= n,
            n <= records@.len(),
            tables_wf(string_views(terms@), postings_views(postings@), i as int - 1),
            forall|tt: Seq<char>|
                #[trigger] string_views(terms@).contains(tt) <==> exists|i2: int|
                    0 <= i2 < i && #[trigger] doc_contains_term(records@[i2], tt),
            forall|j: int, d: usize|
                0 <= j < string_views(terms@).len() && 0 <= d < i ==> (
                #[trigger] postings_views(postings@)[j].contains(d) <==> doc_contains_term(
                    records@[d as int],
                    string_views(terms@)[j],
                )),
            names@.len() == i,
            forall|k: int| 0 <= k < i ==> #[trigger] names@[k]@ == records@[k].name@,
        decreases n - i,
    {
        let ghost t_a = string_views(terms@);
        let ghost p_a = postings_views(postings@);
        let fd = &records[i];
        add_record(&mut terms, &mut postings, fd, i);
        let ghost old_names = names@;
        names.push(fd.name.clone());
        proof {
            let t_b = string_views(terms@);
            let p_b = postings_views(postings@);
            assert forall|tt: Seq<char>|
                #[trigger] t_b.contains(tt) <==> exists|i2: int|
                    0 <= i2 < i + 1 && #[trigger] doc_contains_term(records@[i2], tt) by {
                if t_b.contains(tt) {
                    if t_a.contains(tt) {
                        let w = choose|i2: int|
                            0 <= i2 < i && #[trigger] doc_contains_term(records@[i2], tt);
                        assert(doc_contains_term(records@[w], tt));
                    } else {
                        assert(doc_contains_term(records@[i as int], tt));
                    }
                }
                if exists|i2: int| 0 <= i2 < i + 1 && #[trigger] doc_contains_term(
                    records@[i2],
                    tt,
                ) {
                    let w = choose|i2: int|
                        0 <= i2 < i + 1 && #[trigger] doc_contains_term(records@[i2], tt);
                    if w < i {
                        assert(t_a.contains(tt));
                    } else {
                        assert(doc_contains_term(*fd, tt));
                    }
                }
            }
            assert forall|j: int, d: usize|
                0 <= j < t_b.len() && 0 <= d < i + 1 implies (#[trigger] p_b[j].contains(d)
                    <==> doc_contains_term(records@[d as int], t_b[j])) by {
                if (d as int) < i {
                    if j < t_a.len() {
                        assert(t_b[j] == t_a[j]);
                        assert(p_b[j].contains(d) <==> p_a[j].contains(d));
                    } else {
                        assert(!p_b[j].contains(d));
                        assert(!t_a.contains(t_b[j])) by {
                            if t_a.contains(t_b[j]) {
                                let w = choose|jj: int|
                                    0 <= jj < t_a.len() && t_a[jj] == t_b[j];
                                assert(t_b[w] == t_b[j]);
                            }
                        }
                        assert(!doc_contains_term(records@[d as int], t_b[j]));
                    }
                } else {
                    assert(p_b[j].contains(i) <==> doc_contains_term(*fd, t_b[j]));
                }
            }
            assert forall|k: int| 0 <= k < i + 1 implies #[trigger] names@[k]@
                == records@[k].name@ by {
                if k < i {
                    assert(names@[k] == old_names[k]);
                }
            }
        }
        i = i + 1;
    }
    let idf = compute_idf(&postings, n);
    let idx = IndexedData { terms, postings, idf, names, num_docs: n };
    proof {
        let m = idx.model();
        assert(m.terms == string_views(idx.terms@));
        assert(m.postings == postings_views(idx.postings@));
        assert forall|j: int|
            0 <= j < m.terms.len() implies posting_wf(#[trigger] m.postings[j], m.num_docs) by {
            assert(m.postings[j].len() > 0);
        }
        assert forall|j: int|
            0 <= j < m.terms.len() implies #[trigger] m.idf[j] == (crate::index::IdfWeight {
                df: m.postings[j].len() as usize,
                num_docs: m.num_docs as usize,
            }) by {
            lemma_posting_len_le_num_docs(m.postings[j], m.num_docs);
        }
        assert(m.wf());
    }
    idx
}


/// A term contained in none of the indexed documents is absent from the
/// index's term set; and no stored posting list is empty, so every indexed
/// term has a positive document frequency.
pub proof fn lemma_absent_term_not_indexed(
    m: IndexModel,
    records: Seq<FileData>,
    n: int,
    t: Seq<char>,
)
    requires
        built_from(m, records, n),
        forall|i: int| 0 <= i < n ==> !(#[trigger] doc_contains_term(records[i], t)),
    ensures
        !m.contains_term(t),
        forall|j: int| 0 <= j < m.terms.len() ==> (#[trigger] m.postings[j]).len() > 0,
{
    if m.contains_term(t) {
        let i = choose|i: int| 0 <= i < n && #[trigger] doc_contains_term(records[i], t);
    }
}

/// The stored idf inputs are a function of the final document frequencies
/// and the document count alone, fixed at build time: for every term the
/// table holds exactly its posting-list length and the index's document
/// count. Nothing in the index ever changes after the build, so the weights
/// are stable across queries against the same generation.
pub proof fn lemma_idf_fixed_at_build(m: IndexModel, records: Seq<FileData>, n: int)
    requires
        built_from(m, records, n),
    ensures
        forall|j: int|
            0 <= j < m.terms.len() ==> #[trigger] m.idf[j] == (crate::index::IdfWeight {
                df: m.postings[j].len() as usize,
                num_docs: m.num_docs as usize,
            }),
{
}

} // verus!