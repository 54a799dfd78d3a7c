use simsearch::SimSearch;

#[test]
fn doc_example_typo_query() {
    let mut engine: SimSearch<u32> = SimSearch::new();
    engine.insert(1, "Things Fall Apart");
    engine.insert(2, "The Old Man and the Sea");
    engine.insert(3, "James Joyce");
    let results: Vec<u32> = engine.search("thngs");
    assert_eq!(results, &[1]);
}

#[test]
fn scenario_three_books() {
    let mut engine: SimSearch<u32> = SimSearch::new();
    engine.insert(1, "Things Fall Apart");
    engine.insert(2, "The Old Man and the Sea");
    engine.insert(3, "James Joyce");
    assert_eq!(engine.search("thngs apa"), &[1]);
    assert_eq!(engine.search("odl sea"), &[2]);
    engine.delete(&1);
    let empty: Vec<u32> = engine.search("thngs");
    assert!(empty.is_empty());
}

#[test]
fn search_tokens_doc_example() {
    let mut engine: SimSearch<u32> = SimSearch::new();
    engine.insert(1, "Things Fall Apart");
    engine.insert(2, "The Old Man and the Sea");
    engine.insert(3, "James Joyce");
    let results: Vec<u32> = engine.search_tokens(&["thngs", "apa"]);
    assert_eq!(results, &[1]);
}

#[test]
fn round_trip_exact_content() {
    let mut engine: SimSearch<u32> = SimSearch::new();
    engine.insert(7, "correct horse battery staple");
    let results = engine.search("correct horse battery staple");
    assert!(results.contains(&7));
}

#[test]
fn round_trip_str_ids() {
    let mut engine: SimSearch<&str> = SimSearch::new();
    engine.insert_tokens(
        "Arya Stark",
        &["Arya Stark", "a fictional character", "portrayed by an English actress"],
    );
    let results = engine.search("arya stark");
    assert_eq!(results, &["Arya Stark"]);
}

#[test]
fn reinsert_replaces_entry() {
    let mut engine: SimSearch<u32> = SimSearch::new();
    engine.insert(1, "apple banana");
    engine.insert(1, "cherry");
    let old_tokens: Vec<u32> = engine.search("apple");
    assert!(old_tokens.is_empty());
    assert_eq!(engine.search("cherry"), &[1]);

    let mut fresh: SimSearch<u32> = SimSearch::new();
    fresh.insert(1, "cherry");
    assert_eq!(engine.search("cherry"), fresh.search("cherry"));
    assert_eq!(engine.search("apple"), fresh.search("apple"));
    assert_eq!(engine.search("banana"), fresh.search("banana"));
}

#[test]
fn delete_removes_findability_and_is_idempotent() {
    let mut engine: SimSearch<u32> = SimSearch::new();
    engine.insert(1, "unique marker token");
    engine.insert(2, "another entry entirely");
    engine.delete(&1);
    assert!(engine.search("unique").is_empty());
    assert!(engine.search("marker").is_empty());
    // deleting again must be a harmless no-op
    engine.delete(&1);
    assert!(engine.search("unique").is_empty());
    assert_eq!(engine.search("another"), &[2]);
    // deleting an identifier that never existed is a no-op too
    engine.delete(&99);
    assert_eq!(engine.search("another"), &[2]);
}

#[test]
fn exact_match_ranks_before_near_match() {
    let mut engine: SimSearch<u32> = SimSearch::new();
    engine.insert(2, "abce");
    engine.insert(1, "abcd");
    // "abcd" scores 1.0 against entry 1 and lower against entry 2
    assert_eq!(engine.search("abcd"), &[1, 2]);
}

#[test]
fn equal_scores_tie_break_by_insertion_order() {
    let mut engine: SimSearch<u32> = SimSearch::new();
    engine.insert(5, "zeta");
    engine.insert(3, "zeta");
    // both entries score identically; insertion order decides
    assert_eq!(engine.search("zeta"), &[5, 3]);
}

#[test]
fn unrelated_query_returns_nothing() {
    let mut engine: SimSearch<u32> = SimSearch::new();
    engine.insert(1, "Things Fall Apart");
    let results = engine.search("zzzzqqqq");
    assert!(results.is_empty());
}

#[test]
fn empty_engine_returns_nothing() {
    let engine: SimSearch<u32> = SimSearch::new();
    assert!(engine.search("anything").is_empty());
    assert!(engine.search("").is_empty());
}
