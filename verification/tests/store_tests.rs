use pathindex::FileData;
use pathindex::IndexError;
use pathindex::IndexStore;
use pathindex::IndexedData;
use pathindex::Score;
use pathindex::SearchData;
use pathindex::builder::build;
use pathindex::search::run_search;

fn fd(name: &str, files: &[&str]) -> FileData {
    FileData {
        name: name.to_string(),
        files: files.iter().map(|f| f.to_string()).collect(),
    }
}

fn query(terms: &[&str]) -> SearchData {
    SearchData {
        terms: terms.iter().map(|t| t.to_string()).collect(),
        min_score: None,
        max_length: None,
    }
}

#[test]
fn store_serves_published_index() {
    let store = IndexStore::new(IndexedData::new());
    let records = vec![fd("a", &["x/y"])];
    store.publish(build(&records, None));
    let res = store.search_current(&query(&["x"])).expect("query should succeed");
    assert_eq!(res.total, 1);
    assert_eq!(res.matches[0].md5, "a");
}

#[test]
fn store_starts_with_what_it_was_given() {
    let store = IndexStore::new(IndexedData::new());
    let res = store.search_current(&query(&["x"])).expect("query should succeed");
    assert_eq!(res.total, 0);
}

#[test]
fn snapshot_survives_a_publish() {
    // a query holding the old snapshot is unaffected by a concurrent swap
    let store = IndexStore::new(IndexedData::new());
    let old_records = vec![fd("a", &["x/y"]), fd("b", &["x/z"])];
    store.publish(build(&old_records, None));
    let snap = store.snapshot();
    let before = run_search(&snap, &query(&["x", "y"]));

    let new_records = vec![fd("c", &["x"])];
    store.publish(build(&new_records, None));

    let after = run_search(&snap, &query(&["x", "y"]));
    assert_eq!(before.total, after.total);
    assert_eq!(before.matches.len(), after.matches.len());
    for (m1, m2) in before.matches.iter().zip(after.matches.iter()) {
        assert_eq!(m1.md5, m2.md5);
        assert_eq!(m1.score, m2.score);
    }
    assert_eq!(after.matches[0].md5, "a");

    // a fresh snapshot sees the new generation
    let fresh = run_search(&store.snapshot(), &query(&["x", "y"]));
    assert_eq!(fresh.total, 1);
    assert_eq!(fresh.matches[0].md5, "c");
}

#[test]
fn second_rebuild_is_rejected_until_the_first_ends() {
    let store = IndexStore::new(IndexedData::new());
    assert!(store.try_begin_rebuild().is_ok());
    assert_eq!(
        store.try_begin_rebuild().unwrap_err(),
        IndexError::ConcurrentRebuildRejected
    );
    store.abort_rebuild();
    assert!(store.try_begin_rebuild().is_ok());
    store.publish(IndexedData::new());
    assert!(store.try_begin_rebuild().is_ok());
}

#[test]
fn rejected_query_leaves_the_store_serving() {
    let store = IndexStore::new(IndexedData::new());
    let records = vec![fd("a", &["x"])];
    store.publish(build(&records, None));
    let mut bad = query(&["x"]);
    bad.min_score = Some(Score { num: 1, den: 0 });
    assert_eq!(
        store.search_current(&bad).unwrap_err(),
        IndexError::QueryError
    );
    let good = store.search_current(&query(&["x"])).expect("query should succeed");
    assert_eq!(good.total, 1);
}
