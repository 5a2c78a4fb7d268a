//! Query answering: counting term hits and ranking documents.

use vstd::prelude::*;
use vstd::seq_lib::lemma_seq_contains_after_push;

use crate::errors::IndexError;
use crate::index::DocumentId;
use crate::index::IndexModel;
use crate::index::IndexedData;
use crate::score::Score;
use crate::tokenize::string_views;

verus! {

/// A query: the terms to look up, an optional score floor and an optional
/// cap on the number of returned matches.
#[derive(Debug, Clone)]
pub struct SearchData {
    pub terms: Vec<String>,
    pub min_score: Option<Score>,
    pub max_length: Option<u32>,
}

impl SearchData {
    /// A meaningful score floor needs a positive denominator.
    pub open spec fn wf(self) -> bool {
        match self.min_score {
            Some(s) => s.den > 0,
            None => true,
        }
    }
}

/// One ranked match: the document's identifier and its score, the fraction
/// of the query's terms the document contains.
#[derive(Debug, Clone)]
pub struct SearchMatch {
    pub md5: DocumentId,
    pub score: Score,
}

/// The outcome of a query: every match that passed the score floor, sorted,
/// possibly truncated; `total` counts the matches before truncation.
#[derive(Debug, Clone)]
pub struct SearchResult {
    pub total: usize,
    pub matches: Vec<SearchMatch>,
}

/// How many positions of the query `q` hold a term that document `d`
/// contains. A term repeated in the query counts once per repetition.
pub open spec fn doc_hits(m: IndexModel, q: Seq<Seq<char>>, d: usize) -> nat
    decreases q.len(),
{
    if q.len() == 0 {
        0
    } else {
        doc_hits(m, q.drop_last(), d) + (if m.term_hits(q.last(), d) {
            1nat
        } else {
            0nat
        })
    }
}

pub proof fn lemma_doc_hits_le_len(m: IndexModel, q: Seq<Seq<char>>, d: usize)
    ensures
        doc_hits(m, q, d) <= q.len(),
    decreases q.len(),
{
    if q.len() > 0 {
        lemma_doc_hits_le_len(m, q.drop_last(), d);
    }
}

/// The document ordinals `0, 1, ..., n - 1` in order.
pub open spec fn ord_seq(n: int) -> Seq<usize> {
    Seq::new(n as nat, |d: int| d as usize)
}

/// The ordinals below `d` whose hit count for `q` is exactly `c`, ascending.
pub open spec fn docs_with_hits_upto(m: IndexModel, q: Seq<Seq<char>>, c: nat, d: int) -> Seq<
    usize,
> {
    ord_seq(m.num_docs).subrange(0, d).filter(|dd: usize| doc_hits(m, q, dd) == c)
}

/// All ordinals whose hit count for `q` is exactly `c`, ascending.
pub open spec fn docs_with_hits(m: IndexModel, q: Seq<Seq<char>>, c: nat) -> Seq<usize> {
    docs_with_hits_upto(m, q, c, m.num_docs)
}

/// Each ordinal paired with the hit count `c`.
pub open spec fn level_pairs(ds: Seq<usize>, c: nat) -> Seq<(usize, nat)> {
    ds.map_values(|d: usize| (d, c))
}

/// Whether a document with `c` hits passes the score floor `ms` for a query
/// of `qlen` terms: `c / qlen >= ms` by cross multiplication.
pub open spec fn score_pass(c: nat, qlen: nat, ms: Option<Score>) -> bool {
    match ms {
        None => true,
        Some(s) => c * s.den >= s.num * qlen,
    }
}

/// The ranked matches with hit counts from `c` down to `1` that pass the
/// score floor: hit count descending, ordinal ascending within one count.
/// Documents with zero hits never appear.
pub open spec fn kept_from(m: IndexModel, q: Seq<Seq<char>>, ms: Option<Score>, c: nat) -> Seq<
    (usize, nat),
>
    decreases c,
{
    if c == 0 {
        Seq::empty()
    } else {
        (if score_pass(c, q.len(), ms) {
            level_pairs(docs_with_hits(m, q, c), c)
        } else {
            Seq::empty()
        }) + kept_from(m, q, ms, (c - 1) as nat)
    }
}

/// Every ranked match of query `q` against index `m` that passes the score
/// floor `ms`, in their reported order.
pub open spec fn kept(m: IndexModel, q: Seq<Seq<char>>, ms: Option<Score>) -> Seq<(usize, nat)> {
    kept_from(m, q, ms, q.len())
}

/// The full contract of a search: for an empty query an empty result;
/// otherwise `total` counts every kept match, and `matches` lists the kept
/// matches in order, cut to the cap, each carrying the document's name and
/// its exact score.
pub open spec fn result_matches(
    m: IndexModel,
    q: Seq<Seq<char>>,
    ms: Option<Score>,
    cap: Option<u32>,
    res: SearchResult,
) -> bool {
    if q.len() == 0 {
        res.total == 0 && res.matches@.len() == 0
    } else {
        let kept_all = kept(m, q, ms);
        let shown = match cap {
            Some(c) => if (c as int) < kept_all.len() {
                kept_all.subrange(0, c as int)
            } else {
                kept_all
            },
            None => kept_all,
        };
        &&& res.total == kept_all.len()
        &&& res.matches@.len() == shown.len()
        &&& forall|x: int|
            0 <= x < shown.len() ==> (#[trigger] res.matches@[x]).md5@ == m.names[shown[x].0 as int]
                && res.matches@[x].score == (Score { num: shown[x].1 as u64, den: q.len() as u64 })
    }
}

/// Hitting a term that stands at position `j` of the term table is the same
/// as standing in posting list `j`.
proof fn lemma_term_hits_at(m: IndexModel, t: Seq<char>, j: int, d: usize)
    requires
        m.wf(),
        0 <= j < m.terms.len(),
        m.terms[j] == t,
    ensures
        m.term_hits(t, d) <==> m.postings[j].contains(d),
{
    if m.term_hits(t, d) {
        let j2 = choose|j2: int|
            0 <= j2 < m.terms.len() && m.terms[j2] == t && #[trigger] m.postings[j2].contains(d);
        if j2 != j {
            assert(m.terms[j2] != m.terms[j]);
        }
    }
}

/// A term absent from the term table hits no document.
proof fn lemma_term_hits_absent(m: IndexModel, t: Seq<char>, d: usize)
    requires
        !m.contains_term(t),
    ensures
        !m.term_hits(t, d),
{
    if m.term_hits(t, d) {
        let j = choose|j: int|
            0 <= j < m.terms.len() && m.terms[j] == t && #[trigger] m.postings[j].contains(d);
        assert(m.terms[j] == t);
    }
}

/// Counts, for every document ordinal, how many positions of `terms` hold a
/// term the document contains.
fn count_hits(data: &IndexedData, terms: &Vec<String>) -> (counter: Vec<u64>)
    requires
        data.wf(),
    ensures
        counter@.len() == data.model().num_docs,
        forall|dd: usize|
            dd < data.model().num_docs ==> #[trigger] counter@[dd as int] as nat == doc_hits(
                data.model(),
                string_views(terms@),
                dd,
            ),
{
    let ghost m = data.model();
    let ghost qv = string_views(terms@);
    let qlen = terms.len();
    let mut counter: Vec<u64> = Vec::new();
    let mut d0: usize = 0;
    while d0 < data.num_docs
        invariant
            0 <= d0 <= data.num_docs,
            counter@.len() == d0,
            forall|k: int| 0 <= k < d0 ==> counter@[k] == 0,
        decreases data.num_docs - d0,
    {
        counter.push(0);
        d0 = d0 + 1;
    }
    proof {
        assert(qv.subrange(0, 0).len() == 0);
        assert forall|dd: usize|
            dd < m.num_docs implies counter@[dd as int] as nat == doc_hits(
            m,
            qv.subrange(0, 0),
            dd,
        ) by {}
    }
    let mut p: usize = 0;
    while p < qlen
        invariant
            data.wf(),
            m == data.model(),
            qv == string_views(terms@),
            qlen == terms@.len(),
            0 <= p <= qlen,
            counter@.len() == m.num_docs,
            forall|dd: usize|
                dd < m.num_docs ==> #[trigger] counter@[dd as int] as nat == doc_hits(
                    m,
                    qv.subrange(0, p as int),
                    dd,
                ),
        decreases qlen - p,
    {
        let ghost sub_old = qv.subrange(0, p as int);
        let ghost sub_new = qv.subrange(0, p as int + 1);
        proof {
            assert(sub_new.drop_last() =~= sub_old);
            assert(sub_new.last() == qv[p as int]);
            assert(qv[p as int] == terms@[p as int]@);
        }
        let t = &terms[p];
        match data.find_term(t) {
            Some(j) => {
                proof {
                    assert(m.terms[j as int] == t@);
                    assert(m.postings.len() == m.terms.len());
                    assert(data.postings@.len() == m.postings.len());
                    assert forall|dd: usize| true implies (m.term_hits(t@, dd)
                        <==> m.postings[j as int].contains(dd)) by {
                        lemma_term_hits_at(m, t@, j as int, dd);
                    }
                }
                let pj = &data.postings[j];
                proof {
                    assert(pj@ == m.postings[j as int]);
                }
                let plen = pj.len();
                let mut k: usize = 0;
                while k < plen
                    invariant
                        data.wf(),
                        m == data.model(),
                        0 <= k <= plen,
                        plen == pj@.len(),
                        pj@ == m.postings[j as int],
                        0 <= j < m.terms.len(),
                        counter@.len() == m.num_docs,
                        0 <= p < qlen,
                        qlen == qv.len(),
                        sub_old == qv.subrange(0, p as int),
                        forall|dd: usize|
                            dd < m.num_docs ==> #[trigger] counter@[dd as int] as nat == doc_hits(
                                m,
                                sub_old,
                                dd,
                            ) + (if pj@.subrange(0, k as int).contains(dd) {
                                1nat
                            } else {
                                0nat
                            }),
                    decreases plen - k,
                {
                    let dd = pj[k];
                    proof {
                        assert(crate::index::posting_wf(pj@, m.num_docs));
                        assert(pj@[k as int] < m.num_docs);
                        assert(!pj@.subrange(0, k as int).contains(dd)) by {
                            if pj@.subrange(0, k as int).contains(dd) {
                                let k2 = choose|k2: int|
                                    0 <= k2 < k && pj@.subrange(0, k as int)[k2] == dd;
                                assert(pj@[k2] == dd);
                                assert(pj@[k2] < pj@[k as int]);
                            }
                        }
                        lemma_doc_hits_le_len(m, sub_old, dd);
                        assert(counter@[dd as int] as nat <= p);
                    }
                    let cur = counter[dd];
                    counter[dd] = cur + 1;
                    proof {
                        let sub_k = pj@.subrange(0, k as int);
                        let sub_k1 = pj@.subrange(0, k as int + 1);
                        assert(sub_k1 =~= sub_k.push(pj@[k as int]));
                        assert forall|d2: usize|
                            d2 < m.num_docs implies #[trigger] counter@[d2 as int] as nat
                            == doc_hits(m, sub_old, d2) + (if sub_k1.contains(d2) {
                            1nat
                        } else {
                            0nat
                        }) by {
                            lemma_seq_contains_after_push(sub_k, pj@[k as int], d2);
                        }
                    }
                    k = k + 1;
                }
                proof {
                    assert(pj@.subrange(0, plen as int) =~= pj@);
                    assert forall|dd: usize|
                        dd < m.num_docs implies #[trigger] counter@[dd as int] as nat == doc_hits(
                        m,
                        sub_new,
                        dd,
                    ) by {
                        assert(doc_hits(m, sub_new, dd) == doc_hits(m, sub_old, dd) + (
                        if m.term_hits(qv[p as int], dd) {
                            1nat
                        } else {
                            0nat
                        }));
                    }
                }
            },
            None => {
                proof {
                    assert forall|dd: usize|
                        dd < m.num_docs implies #[trigger] counter@[dd as int] as nat == doc_hits(
                        m,
                        sub_new,
                        dd,
                    ) by {
                        lemma_term_hits_absent(m, t@, dd);
                        assert(doc_hits(m, sub_new, dd) == doc_hits(m, sub_old, dd) + (
                        if m.term_hits(qv[p as int], dd) {
                            1nat
                        } else {
                            0nat
                        }));
                    }
                }
            },
        }
        p = p + 1;
    }
    proof {
        assert(qv.subrange(0, qlen as int) =~= qv);
    }
    counter
}


proof fn lemma_upto_zero(m: IndexModel, q: Seq<Seq<char>>, c: nat)
    requires
        m.num_docs >= 0,
    ensures
        docs_with_hits_upto(m, q, c, 0) == Seq::<usize>::empty(),
{
    reveal(Seq::filter);
    assert(ord_seq(m.num_docs).subrange(0, 0) =~= Seq::<usize>::empty());
}

/// Extending the scanned range by one ordinal appends it to the level
/// exactly when its hit count is `c`.
proof fn lemma_upto_step(m: IndexModel, q: Seq<Seq<char>>, c: nat, d: int)
    requires
        0 <= d < m.num_docs,
    ensures
        docs_with_hits_upto(m, q, c, d + 1) == if doc_hits(m, q, d as usize) == c {
            docs_with_hits_upto(m, q, c, d).push(d as usize)
        } else {
            docs_with_hits_upto(m, q, c, d)
        },
{
    reveal(Seq::filter);
    let s0 = ord_seq(m.num_docs).subrange(0, d);
    let s1 = ord_seq(m.num_docs).subrange(0, d + 1);
    assert(s1.drop_last() =~= s0);
    assert(s1.last() == d as usize);
}

/// Ranks the documents counted in `counter`: hit count descending, ordinal
/// ascending, keeping those that pass the score floor.
pub fn run_search(data: &IndexedData, query: &SearchData) -> (res: SearchResult)
    requires
        data.wf(),
        query.wf(),
    ensures
        result_matches(
            data.model(),
            string_views(query.terms@),
            query.min_score,
            query.max_length,
            res,
        ),
{
    let ghost m = data.model();
    let ghost qv = string_views(query.terms@);
    let ghost ms = query.min_score;
    let qlen = query.terms.len();
    if qlen == 0 {
        return SearchResult { total: 0, matches: Vec::new() };
    }
    let counter = count_hits(data, &query.terms);
    let mut found: Vec<SearchMatch> = Vec::new();
    let ghost mut pairs: Seq<(usize, nat)> = Seq::empty();
    let mut c: usize = qlen;
    proof {
        assert(kept(m, qv, ms) =~= pairs + kept_from(m, qv, ms, c as nat));
    }
    while c > 0
        invariant
            data.wf(),
            query.wf(),
            m == data.model(),
            qv == string_views(query.terms@),
            ms == query.min_score,
            qlen == query.terms@.len(),
            qlen == qv.len(),
            qlen > 0,
            0 <= c <= qlen,
            counter@.len() == m.num_docs,
            forall|dd: usize|
                dd < m.num_docs ==> #[trigger] counter@[dd as int] as nat == doc_hits(m, qv, dd),
            kept(m, qv, ms) =~= pairs + kept_from(m, qv, ms, c as nat),
            found@.len() == pairs.len(),
            forall|x: int|
                0 <= x < pairs.len() ==> 0 <= (#[trigger] pairs[x]).0 < m.num_docs
                    && found@[x].md5@ == m.names[pairs[x].0 as int] && found@[x].score == (Score {
                    num: pairs[x].1 as u64,
                    den: qlen as u64,
                }),
        decreases c,
    {
        let passes = match &query.min_score {
            None => true,
            Some(s) => {
                let level = Score { num: c as u64, den: qlen as u64 };
                level.ge(s)
            },
        };
        proof {
            assert(passes == score_pass(c as nat, qv.len(), ms));
        }
        if passes {
            let ghost pairs0 = pairs;
            proof {
                lemma_upto_zero(m, qv, c as nat);
                assert(pairs =~= pairs0 + level_pairs(
                    docs_with_hits_upto(m, qv, c as nat, 0),
                    c as nat,
                ));
            }
            let mut d: usize = 0;
            while d < data.num_docs
                invariant
                    data.wf(),
                    m == data.model(),
                    qv == string_views(query.terms@),
                    qlen == query.terms@.len(),
                    qlen == qv.len(),
                    qlen > 0,
                    0 < c <= qlen,
                    0 <= d <= m.num_docs,
                    counter@.len() == m.num_docs,
                    forall|dd: usize|
                        dd < m.num_docs ==> #[trigger] counter@[dd as int] as nat == doc_hits(
                            m,
                            qv,
                            dd,
                        ),
                    pairs =~= pairs0 + level_pairs(
                        docs_with_hits_upto(m, qv, c as nat, d as int),
                        c as nat,
                    ),
                    found@.len() == pairs.len(),
                    forall|x: int|
                        0 <= x < pairs.len() ==> 0 <= (#[trigger] pairs[x]).0 < m.num_docs
                            && found@[x].md5@ == m.names[pairs[x].0 as int] && found@[x].score
                            == (Score { num: pairs[x].1 as u64, den: qlen as u64 }),
                decreases m.num_docs - d,
            {
                proof {
                    lemma_upto_step(m, qv, c as nat, d as int);
                }
                if counter[d] == c as u64 {
                    proof {
                        assert(doc_hits(m, qv, d) == c as nat);
                    }
                    let name = data.names[d].clone();
                    let ghost old_found = found@;
                    found.push(SearchMatch { md5: name, score: Score { num: c as u64, den: qlen as u64 } });
                    proof {
                        let upto_old = docs_with_hits_upto(m, qv, c as nat, d as int);
                        let upto_new = docs_with_hits_upto(m, qv, c as nat, d as int + 1);
                        assert(upto_new == upto_old.push(d));
                        assert(level_pairs(upto_new, c as nat) =~= level_pairs(
                            upto_old,
                            c as nat,
                        ).push((d, c as nat)));
                        pairs = pairs.push((d, c as nat));
                        assert(pairs =~= pairs0 + level_pairs(upto_new, c as nat));
                        assert(found@[old_found.len() as int].md5@ == m.names[d as int]);
                    }
                } else {
                    proof {
                        assert(doc_hits(m, qv, d) != c as nat);
                        assert(docs_with_hits_upto(m, qv, c as nat, d as int + 1)
                            == docs_with_hits_upto(m, qv, c as nat, d as int));
                    }
                }
                d = d + 1;
            }
            proof {
                assert(docs_with_hits_upto(m, qv, c as nat, m.num_docs) == docs_with_hits(
                    m,
                    qv,
                    c as nat,
                ));
                assert(kept_from(m, qv, ms, c as nat) == level_pairs(
                    docs_with_hits(m, qv, c as nat),
                    c as nat,
                ) + kept_from(m, qv, ms, (c - 1) as nat));
                assert(kept(m, qv, ms) =~= pairs + kept_from(m, qv, ms, (c - 1) as nat));
            }
        } else {
            proof {
                assert(kept_from(m, qv, ms, c as nat) == Seq::<(usize, nat)>::empty() + kept_from(
                    m,
                    qv,
                    ms,
                    (c - 1) as nat,
                ));
                assert(kept(m, qv, ms) =~= pairs + kept_from(m, qv, ms, (c - 1) as nat));
            }
        }
        c = c - 1;
    }
    proof {
        assert(kept_from(m, qv, ms, 0) == Seq::<(usize, nat)>::empty());
        assert(kept(m, qv, ms) =~= pairs);
        assert(kept(m, qv, ms) == pairs);
    }
    let total = found.len();
    let mut matches = found;
    match &query.max_length {
        Some(cap) => {
            matches.truncate(*cap as usize);
        },
        None => {},
    }
    let res = SearchResult { total, matches };
    proof {
        let kept_all = kept(m, qv, ms);
        let shown = match query.max_length {
            Some(cc) => if (cc as int) < kept_all.len() {
                kept_all.subrange(0, cc as int)
            } else {
                kept_all
            },
            None => kept_all,
        };
        assert(res.matches@.len() == shown.len());
        assert forall|x: int|
            0 <= x < shown.len() implies (#[trigger] res.matches@[x]).md5@ == m.names[shown[x].0 as int]
                && res.matches@[x].score == (Score { num: shown[x].1 as u64, den: qv.len() as u64 }) by {
            assert(shown[x] == pairs[x]);
        }
    }
    res
}


/// Validates a query and answers it. The one malformed query is a score
/// floor whose denominator is zero: it is rejected as `QueryError`. Every
/// other query succeeds; a term that is not indexed simply matches nothing.
pub fn search(data: &IndexedData, query: &SearchData) -> (r: Result<SearchResult, IndexError>)
    requires
        data.wf(),
    ensures
        match r {
            Ok(res) => query.wf() && result_matches(
                data.model(),
                string_views(query.terms@),
                query.min_score,
                query.max_length,
                res,
            ),
            Err(e) => e == IndexError::QueryError && !query.wf(),
        },
{
    let valid = match &query.min_score {
        Some(s) => s.den > 0,
        None => true,
    };
    if valid {
        Ok(run_search(data, query))
    } else {
        Err(IndexError::QueryError)
    }
}

/// The same query against the same index snapshot has exactly one answer:
/// any two results meeting the search contract agree in the reported total
/// and, match for match, in document identifier and score. Repeating a
/// query against an unmutated index therefore reproduces the result,
/// tie-break order included.
pub proof fn lemma_search_deterministic(
    m: IndexModel,
    q: Seq<Seq<char>>,
    ms: Option<Score>,
    cap: Option<u32>,
    r1: SearchResult,
    r2: SearchResult,
)
    requires
        result_matches(m, q, ms, cap, r1),
        result_matches(m, q, ms, cap, r2),
    ensures
        r1.total == r2.total,
        r1.matches@.len() == r2.matches@.len(),
        forall|x: int|
            0 <= x < r1.matches@.len() ==> (#[trigger] r1.matches@[x]).md5@ == r2.matches@[x].md5@
                && r1.matches@[x].score == r2.matches@[x].score,
{
}

/// Appending a query term that hits no document leaves every hit count
/// unchanged, hence every pairwise ranking; and, the denominator having
/// grown from `q.len()` to `q.len() + 1`, each unchanged hit count now
/// stands for a score that is at most the old one (the inequality is the
/// cross-multiplied comparison of `h / (q.len() + 1)` against
/// `h / q.len()`).
pub proof fn lemma_unmatched_term_added(m: IndexModel, q: Seq<Seq<char>>, t: Seq<char>)
    requires
        forall|d: usize| !m.term_hits(t, d),
    ensures
        forall|d: usize| #[trigger] doc_hits(m, q.push(t), d) == doc_hits(m, q, d),
        forall|d1: usize, d2: usize|
            #![trigger doc_hits(m, q.push(t), d1), doc_hits(m, q.push(t), d2)]
            (doc_hits(m, q.push(t), d1) >= doc_hits(m, q.push(t), d2)) <==> (doc_hits(m, q, d1)
                >= doc_hits(m, q, d2)),
        forall|d: usize|
            #[trigger] doc_hits(m, q, d) * q.len() <= doc_hits(m, q, d) * (q.len() + 1),
{
    assert forall|d: usize| #[trigger] doc_hits(m, q.push(t), d) == doc_hits(m, q, d) by {
        assert(q.push(t).drop_last() =~= q);
        assert(q.push(t).last() == t);
        assert(!m.term_hits(t, d));
    }
    assert forall|d: usize|
        #[trigger] doc_hits(m, q, d) * q.len() <= doc_hits(m, q, d) * (q.len() + 1) by {
        let h = doc_hits(m, q, d);
        assert(h * (q.len() + 1) == h * q.len() + h) by (nonlinear_arith);
    }
}


/// Two queries giving every document the same hit count select the same
/// ordinals at every level.
proof fn lemma_upto_congruent(
    m: IndexModel,
    q1: Seq<Seq<char>>,
    q2: Seq<Seq<char>>,
    c: nat,
    d: int,
)
    requires
        forall|dd: usize| #[trigger] doc_hits(m, q1, dd) == doc_hits(m, q2, dd),
        0 <= d <= m.num_docs,
    ensures
        docs_with_hits_upto(m, q1, c, d) == docs_with_hits_upto(m, q2, c, d),
    decreases d,
{
    if d == 0 {
        lemma_upto_zero(m, q1, c);
        lemma_upto_zero(m, q2, c);
    } else {
        lemma_upto_congruent(m, q1, q2, c, d - 1);
        lemma_upto_step(m, q1, c, d - 1);
        lemma_upto_step(m, q2, c, d - 1);
        assert(doc_hits(m, q1, (d - 1) as usize) == doc_hits(m, q2, (d - 1) as usize));
    }
}

/// A hit count no document reaches selects no ordinal.
proof fn lemma_level_empty(m: IndexModel, q: Seq<Seq<char>>, c: nat, d: int)
    requires
        forall|dd: usize| #[trigger] doc_hits(m, q, dd) != c,
        0 <= d <= m.num_docs,
    ensures
        docs_with_hits_upto(m, q, c, d) == Seq::<usize>::empty(),
    decreases d,
{
    if d == 0 {
        lemma_upto_zero(m, q, c);
    } else {
        lemma_level_empty(m, q, c, d - 1);
        lemma_upto_step(m, q, c, d - 1);
        assert(doc_hits(m, q, (d - 1) as usize) != c);
    }
}

/// Without a score floor, two queries giving every document the same hit
/// count keep the same ranked list, level for level.
proof fn lemma_kept_from_congruent(m: IndexModel, q1: Seq<Seq<char>>, q2: Seq<Seq<char>>, c: nat)
    requires
        forall|dd: usize| #[trigger] doc_hits(m, q1, dd) == doc_hits(m, q2, dd),
        m.num_docs >= 0,
    ensures
        kept_from(m, q1, None, c) == kept_from(m, q2, None, c),
    decreases c,
{
    if c > 0 {
        lemma_upto_congruent(m, q1, q2, c, m.num_docs);
        lemma_kept_from_congruent(m, q1, q2, (c - 1) as nat);
    }
}

/// Appending a query term that hits no document leaves the ranking itself
/// untouched: without a score floor, the ranked list of ordinals and hit
/// counts of the extended query is exactly the original query's list, so no
/// match changes its relative rank. Only the reported scores change, their
/// denominator having grown by one.
pub proof fn lemma_unmatched_term_keeps_ranking(m: IndexModel, q: Seq<Seq<char>>, t: Seq<char>)
    requires
        m.num_docs >= 0,
        forall|d: usize| !m.term_hits(t, d),
    ensures
        kept(m, q.push(t), None) == kept(m, q, None),
{
    lemma_unmatched_term_added(m, q, t);
    let q2 = q.push(t);
    assert(q2.len() == q.len() + 1);
    assert forall|dd: usize| #[trigger] doc_hits(m, q2, dd) != q2.len() by {
        lemma_doc_hits_le_len(m, q, dd);
        assert(doc_hits(m, q2, dd) == doc_hits(m, q, dd));
    }
    lemma_level_empty(m, q2, q2.len(), m.num_docs);
    assert(level_pairs(Seq::<usize>::empty(), q2.len()) =~= Seq::<(usize, nat)>::empty());
    assert(kept_from(m, q2, None, q2.len()) =~= kept_from(m, q2, None, q.len()));
    lemma_kept_from_congruent(m, q2, q, q.len());
    assert(kept(m, q2, None) == kept(m, q, None));
}


} // verus!
