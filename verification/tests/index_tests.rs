use pathindex::FileData;
use pathindex::IdfWeight;
use pathindex::IndexedData;
use pathindex::builder::build;
use pathindex::index::compute_idf;
use pathindex::tokenize::tokenize;

fn fd(name: &str, files: &[&str]) -> FileData {
    FileData {
        name: name.to_string(),
        files: files.iter().map(|f| f.to_string()).collect(),
    }
}

#[test]
fn tokenize_plain_path() {
    assert_eq!(tokenize("x/y"), vec!["x".to_string(), "y".to_string()]);
}

#[test]
fn tokenize_single_segment() {
    assert_eq!(tokenize("alpha"), vec!["alpha".to_string()]);
}

#[test]
fn tokenize_empty_path_is_one_empty_segment() {
    assert_eq!(tokenize(""), vec!["".to_string()]);
}

#[test]
fn tokenize_keeps_empty_segments() {
    assert_eq!(
        tokenize("/a//b/"),
        vec![
            "".to_string(),
            "a".to_string(),
            "".to_string(),
            "b".to_string(),
            "".to_string()
        ]
    );
}

#[test]
fn new_index_is_empty() {
    let idx = IndexedData::new();
    assert_eq!(idx.num_docs, 0);
    assert_eq!(idx.terms.len(), 0);
    assert_eq!(idx.names.len(), 0);
}

#[test]
fn build_assigns_ordinals_in_ingestion_order() {
    let records = vec![fd("a", &["x/y", "x/z"]), fd("b", &["x/y"])];
    let idx = build(&records, None);
    assert_eq!(idx.num_docs, 2);
    assert_eq!(idx.names, vec!["a".to_string(), "b".to_string()]);
}

#[test]
fn build_postings_match_example() {
    let records = vec![fd("a", &["x/y", "x/z"]), fd("b", &["x/y"])];
    let idx = build(&records, None);
    let postings_of = |t: &str| -> Vec<usize> {
        idx.postings_for(&t.to_string()).expect("term missing").clone()
    };
    assert_eq!(postings_of("x"), vec![0, 1]);
    assert_eq!(postings_of("y"), vec![0, 1]);
    assert_eq!(postings_of("z"), vec![0]);
}

#[test]
fn term_in_no_document_is_absent() {
    let records = vec![fd("a", &["x/y"])];
    let idx = build(&records, None);
    assert!(idx.postings_for(&"q".to_string()).is_none());
    assert!(idx.find_term(&"q".to_string()).is_none());
    // no stored posting list is empty
    for p in &idx.postings {
        assert!(!p.is_empty());
    }
}

#[test]
fn repeated_term_in_one_document_is_posted_once() {
    let records = vec![fd("a", &["x/x", "x", "y/x"])];
    let idx = build(&records, None);
    assert_eq!(
        idx.postings_for(&"x".to_string()).expect("term missing"),
        &vec![0usize]
    );
}

#[test]
fn build_respects_record_limit() {
    let records = vec![fd("a", &["x"]), fd("b", &["y"]), fd("c", &["z"])];
    let idx = build(&records, Some(2));
    assert_eq!(idx.num_docs, 2);
    assert_eq!(idx.names, vec!["a".to_string(), "b".to_string()]);
    assert!(idx.postings_for(&"z".to_string()).is_none());
}

#[test]
fn build_with_zero_limit_is_empty() {
    let records = vec![fd("a", &["x"])];
    let idx = build(&records, Some(0));
    assert_eq!(idx.num_docs, 0);
    assert_eq!(idx.terms.len(), 0);
}

#[test]
fn idf_holds_df_and_doc_count() {
    let records = vec![fd("a", &["x/y", "x/z"]), fd("b", &["x/y"])];
    let idx = build(&records, None);
    let w = idx.idf_for(&"x".to_string()).expect("term missing");
    assert_eq!(w, IdfWeight { df: 2, num_docs: 2 });
    let w = idx.idf_for(&"z".to_string()).expect("term missing");
    assert_eq!(w, IdfWeight { df: 1, num_docs: 2 });
    assert!(idx.idf_for(&"q".to_string()).is_none());
}

#[test]
fn compute_idf_clamps_malformed_document_frequency() {
    // a posting table longer than the claimed document count: df is clamped
    let postings = vec![vec![0usize, 1, 2], vec![0usize]];
    let table = compute_idf(&postings, 2);
    assert_eq!(table[0], IdfWeight { df: 2, num_docs: 2 });
    assert_eq!(table[1], IdfWeight { df: 1, num_docs: 2 });
}

#[test]
fn name_of_returns_ingested_names() {
    let records = vec![fd("first", &["x"]), fd("second", &["y"])];
    let idx = build(&records, None);
    assert_eq!(idx.name_of(0), "first");
    assert_eq!(idx.name_of(1), "second");
}

#[test]
fn duplicate_preserves_contents() {
    let records = vec![fd("a", &["x/y"]), fd("b", &["y"])];
    let idx = build(&records, None);
    let copy = idx.duplicate();
    assert_eq!(copy.num_docs, idx.num_docs);
    assert_eq!(copy.terms, idx.terms);
    assert_eq!(copy.postings, idx.postings);
    assert_eq!(copy.names, idx.names);
    assert_eq!(copy.idf, idx.idf);
}

#[test]
fn tokenize_handles_multibyte_characters() {
    assert_eq!(
        tokenize("données/α β/读"),
        vec!["données".to_string(), "α β".to_string(), "读".to_string()]
    );
}

#[test]
fn check_wf_accepts_built_index() {
    let records = vec![fd("a", &["x/y"]), fd("b", &["y/z"])];
    let idx = build(&records, None);
    assert!(idx.check_wf());
}

#[test]
fn check_wf_rejects_corrupt_index() {
    let records = vec![fd("a", &["x/y"]), fd("b", &["y/z"])];

    // an ordinal beyond the document count
    let mut bad = build(&records, None);
    bad.postings[0].push(7);
    assert!(!bad.check_wf());

    // a duplicated term
    let mut bad = build(&records, None);
    let t = bad.terms[0].clone();
    bad.terms.push(t);
    bad.postings.push(vec![0]);
    bad.idf.push(pathindex::IdfWeight { df: 1, num_docs: 2 });
    assert!(!bad.check_wf());

    // an idf entry that does not match its posting list
    let mut bad = build(&records, None);
    bad.idf[0] = pathindex::IdfWeight { df: 0, num_docs: 2 };
    assert!(!bad.check_wf());

    // an empty posting list
    let mut bad = build(&records, None);
    bad.postings[0] = Vec::new();
    assert!(!bad.check_wf());
}
