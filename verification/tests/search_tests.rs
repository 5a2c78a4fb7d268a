use pathindex::FileData;
use pathindex::IndexError;
use pathindex::Score;
use pathindex::SearchData;
use pathindex::builder::build;
use pathindex::search::run_search;
use pathindex::search::search;

fn fd(name: &str, files: &[&str]) -> FileData {
    FileData {
        name: name.to_string(),
        files: files.iter().map(|f| f.to_string()).collect(),
    }
}

fn query(terms: &[&str]) -> SearchData {
    SearchData {
        terms: terms.iter().map(|t| t.to_string()).collect(),
        min_score: None,
        max_length: None,
    }
}

#[test]
fn score_ge_compares_as_rationals() {
    let half = Score { num: 1, den: 2 };
    let third = Score { num: 1, den: 3 };
    let two_quarters = Score { num: 2, den: 4 };
    assert!(half.ge(&third));
    assert!(!third.ge(&half));
    assert!(half.ge(&two_quarters));
    assert!(two_quarters.ge(&half));
}

#[test]
fn end_to_end_example() {
    // documents {"a": ["x/y", "x/z"], "b": ["x/y"]}, query ["x", "z"]
    let records = vec![fd("a", &["x/y", "x/z"]), fd("b", &["x/y"])];
    let idx = build(&records, None);
    let res = run_search(&idx, &query(&["x", "z"]));
    assert_eq!(res.total, 2);
    assert_eq!(res.matches.len(), 2);
    assert_eq!(res.matches[0].md5, "a");
    assert_eq!(res.matches[0].score, Score { num: 2, den: 2 });
    assert_eq!(res.matches[1].md5, "b");
    assert_eq!(res.matches[1].score, Score { num: 1, den: 2 });
}

#[test]
fn empty_query_yields_empty_result() {
    let records = vec![fd("a", &["x/y"])];
    let idx = build(&records, None);
    let res = run_search(&idx, &query(&[]));
    assert_eq!(res.total, 0);
    assert!(res.matches.is_empty());
}

#[test]
fn unknown_term_is_no_error_just_zero_matches() {
    let records = vec![fd("a", &["x/y"])];
    let idx = build(&records, None);
    let res = run_search(&idx, &query(&["nosuch"]));
    assert_eq!(res.total, 0);
    assert!(res.matches.is_empty());
}

#[test]
fn min_score_above_every_candidate_empties_total_too() {
    // total is counted after filtering, before truncation
    let records = vec![fd("a", &["x/y", "x/z"]), fd("b", &["x/y"])];
    let idx = build(&records, None);
    let mut q = query(&["x", "z"]);
    q.min_score = Some(Score { num: 3, den: 1 });
    let res = run_search(&idx, &q);
    assert_eq!(res.total, 0);
    assert!(res.matches.is_empty());
}

#[test]
fn min_score_filters_partial_matches() {
    let records = vec![fd("a", &["x/y", "x/z"]), fd("b", &["x/y"])];
    let idx = build(&records, None);
    let mut q = query(&["x", "z"]);
    q.min_score = Some(Score { num: 3, den: 4 });
    let res = run_search(&idx, &q);
    assert_eq!(res.total, 1);
    assert_eq!(res.matches.len(), 1);
    assert_eq!(res.matches[0].md5, "a");
}

#[test]
fn max_length_truncates_but_total_counts_all() {
    let records = vec![fd("a", &["x/y", "x/z"]), fd("b", &["x/y"])];
    let idx = build(&records, None);
    let mut q = query(&["x", "z"]);
    q.max_length = Some(1);
    let res = run_search(&idx, &q);
    assert_eq!(res.total, 2);
    assert_eq!(res.matches.len(), 1);
    assert_eq!(res.matches[0].md5, "a");
}

#[test]
fn repeated_query_term_counts_twice() {
    let records = vec![fd("a", &["x"]), fd("b", &["y"])];
    let idx = build(&records, None);
    let res = run_search(&idx, &query(&["x", "x"]));
    assert_eq!(res.total, 1);
    assert_eq!(res.matches[0].md5, "a");
    assert_eq!(res.matches[0].score, Score { num: 2, den: 2 });
}

#[test]
fn ties_break_by_ingestion_order() {
    let records = vec![fd("a", &["x"]), fd("b", &["x"]), fd("c", &["x"])];
    let idx = build(&records, None);
    let res = run_search(&idx, &query(&["x"]));
    assert_eq!(res.total, 3);
    let names: Vec<&str> = res.matches.iter().map(|m| m.md5.as_str()).collect();
    assert_eq!(names, vec!["a", "b", "c"]);
}

#[test]
fn repeating_a_query_reproduces_the_result() {
    let records = vec![fd("a", &["x/y", "x/z"]), fd("b", &["x/y"]), fd("c", &["z/q"])];
    let idx = build(&records, None);
    let q = query(&["x", "z", "q"]);
    let r1 = run_search(&idx, &q);
    let r2 = run_search(&idx, &q);
    assert_eq!(r1.total, r2.total);
    assert_eq!(r1.matches.len(), r2.matches.len());
    for (m1, m2) in r1.matches.iter().zip(r2.matches.iter()) {
        assert_eq!(m1.md5, m2.md5);
        assert_eq!(m1.score, m2.score);
    }
}

#[test]
fn adding_unmatched_term_keeps_ranks_and_lowers_scores() {
    let records = vec![fd("a", &["x/y", "x/z"]), fd("b", &["x/y"])];
    let idx = build(&records, None);
    let before = run_search(&idx, &query(&["x", "z"]));
    let after = run_search(&idx, &query(&["x", "z", "nosuch"]));
    // the relative order of the documents is unchanged
    let names_before: Vec<&str> = before.matches.iter().map(|m| m.md5.as_str()).collect();
    let names_after: Vec<&str> = after.matches.iter().map(|m| m.md5.as_str()).collect();
    assert_eq!(names_before, names_after);
    // every score weakly decreases: hits stay, the denominator grows
    for (b, a) in before.matches.iter().zip(after.matches.iter()) {
        assert_eq!(b.score.num, a.score.num);
        assert_eq!(b.score.den, 2);
        assert_eq!(a.score.den, 3);
        assert!(b.score.ge(&a.score));
        assert!(!a.score.ge(&b.score) || a.score.num == 0);
    }
}

#[test]
fn zero_denominator_floor_is_a_query_error() {
    let records = vec![fd("a", &["x"])];
    let idx = build(&records, None);
    let mut q = query(&["x"]);
    q.min_score = Some(Score { num: 1, den: 0 });
    let res = search(&idx, &q);
    assert_eq!(res.unwrap_err(), IndexError::QueryError);
}

#[test]
fn valid_query_through_search_succeeds() {
    let records = vec![fd("a", &["x"])];
    let idx = build(&records, None);
    let res = search(&idx, &query(&["x"])).expect("query should succeed");
    assert_eq!(res.total, 1);
    assert_eq!(res.matches[0].md5, "a");
}
