use simsearch::options::DEFAULT_THRESHOLD;
use simsearch::options::SCORE_SCALE;
use simsearch::OptionsError;
use simsearch::SearchOptions;
use simsearch::SimSearch;

#[test]
fn threshold_out_of_range_is_rejected() {
    let options = SearchOptions::new().threshold(SCORE_SCALE + 1);
    let engine: Result<SimSearch<u32>, OptionsError> = SimSearch::new_with(options);
    match engine {
        Ok(_) => panic!("an out-of-range threshold was accepted"),
        Err(e) => assert_eq!(e, OptionsError::ThresholdOutOfRange),
    }
}

#[test]
fn threshold_bounds_are_accepted() {
    let zero: Result<SimSearch<u32>, OptionsError> =
        SimSearch::new_with(SearchOptions::new().threshold(0));
    assert!(zero.is_ok());
    let one: Result<SimSearch<u32>, OptionsError> =
        SimSearch::new_with(SearchOptions::new().threshold(SCORE_SCALE));
    assert!(one.is_ok());
}

#[test]
fn threshold_at_one_matches_nothing() {
    let options = SearchOptions::new().threshold(SCORE_SCALE);
    let mut engine: SimSearch<u32> = SimSearch::new_with(options).unwrap();
    engine.insert(1, "exact");
    // even a perfect score does not strictly exceed the maximal threshold
    assert!(engine.search("exact").is_empty());
}

#[test]
fn raising_threshold_never_adds_results() {
    let queries = ["thngs", "thngs apa", "odl sea", "james"];
    let thresholds = [DEFAULT_THRESHOLD, 1020054732, 1063004405];
    let mut previous: Option<Vec<Vec<u32>>> = None;
    for t in thresholds {
        let mut engine: SimSearch<u32> =
            SimSearch::new_with(SearchOptions::new().threshold(t)).unwrap();
        engine.insert(1, "Things Fall Apart");
        engine.insert(2, "The Old Man and the Sea");
        engine.insert(3, "James Joyce");
        let results: Vec<Vec<u32>> = queries.iter().map(|q| engine.search(q)).collect();
        if let Some(prev) = &previous {
            for (wide, narrow) in prev.iter().zip(results.iter()) {
                for id in narrow {
                    assert!(wide.contains(id), "raising the threshold added {id}");
                }
            }
        }
        previous = Some(results);
    }
}

#[test]
fn stop_words_split_tokens() {
    let options = SearchOptions::new().stop_words(vec!["/".to_string(), "\\".to_string()]);
    let mut engine: SimSearch<usize> = SimSearch::new_with(options).unwrap();
    engine.insert(1, "the old/man/and/the sea");
    assert_eq!(engine.search("old"), &[1]);
    assert_eq!(engine.search("man"), &[1]);
}

#[test]
fn empty_stop_word_splits_into_characters() {
    let options = SearchOptions::new().stop_words(vec![String::new()]);
    let mut engine: SimSearch<u32> = SimSearch::new_with(options).unwrap();
    engine.insert(1, "ab");
    // "ab" is cut into "a" and "b"; a one-character query matches exactly
    assert_eq!(engine.search("a"), &[1]);
    // the query is split the same way, so both of its characters match
    assert_eq!(engine.search("ab"), &[1]);
}

#[test]
fn case_sensitive_distinguishes_case() {
    let mut sensitive: SimSearch<u32> =
        SimSearch::new_with(SearchOptions::new().case_sensitive(true)).unwrap();
    sensitive.insert(1, "ABC");
    assert!(sensitive.search("abc").is_empty());
    assert_eq!(sensitive.search("ABC"), &[1]);

    let mut folded: SimSearch<u32> = SimSearch::new();
    folded.insert(1, "ABC");
    assert_eq!(folded.search("abc"), &[1]);
    assert_eq!(folded.search("ABC"), &[1]);
}

#[test]
fn whitespace_splitting_can_be_disabled() {
    let options = SearchOptions::new().stop_whitespace(false);
    let mut engine: SimSearch<u32> = SimSearch::new_with(options).unwrap();
    engine.insert(1, "the old man and the sea");
    // the whole content is one token; a small fragment scores too low
    assert!(engine.search_tokens(&["old"]).is_empty());
    assert_eq!(engine.search_tokens(&["the old man and the sea"]), &[1]);
}

#[test]
fn levenshtein_mode_matches_close_ascii() {
    let options = SearchOptions::new().levenshtein(true);
    let mut engine: SimSearch<u32> = SimSearch::new_with(options).unwrap();
    engine.insert(1, "Things Fall Apart");
    // one edit away from "things", length six: score 5/6 exceeds the default
    assert_eq!(engine.search("thins"), &[1]);
    // "thngs" is one insertion from "things": same score
    assert_eq!(engine.search("thngs"), &[1]);
    // far-off queries stay out
    assert!(engine.search("zzzzzz").is_empty());
}

#[test]
fn levenshtein_score_at_threshold_is_excluded() {
    // distance 1 on max length 5 scores exactly 0.8: not strictly above 0.8
    let options = SearchOptions::new().levenshtein(true).threshold(858993459);
    let mut engine: SimSearch<u32> = SimSearch::new_with(options).unwrap();
    engine.insert(1, "hello");
    assert!(engine.search("helo").is_empty());
    // with a lower threshold the same pair qualifies
    let options = SearchOptions::new().levenshtein(true).threshold(751619276);
    let mut engine: SimSearch<u32> = SimSearch::new_with(options).unwrap();
    engine.insert(1, "hello");
    assert_eq!(engine.search("helo"), &[1]);
}

#[test]
fn weird_inputs_never_panic() {
    let mut engine: SimSearch<u32> = SimSearch::new();
    engine.insert(1, "");
    engine.insert(2, " \t\n\r ");
    engine.insert(3, "日本語のテキスト zürich żółć");
    engine.insert(4, "emoji 🦀🦀 mixed");
    engine.insert(5, "a");
    for q in ["", " ", "\t\n", "日本語", "🦀", "ü", "\u{0}", "a b c", "ｚ"] {
        let _ = engine.search(q);
    }
    let _ = engine.search_tokens(&[]);
    let _ = engine.search_tokens(&["", "", ""]);
    engine.delete(&1);
    engine.delete(&1);
    let _ = engine.search("anything at all");
}

#[test]
fn weird_inputs_never_panic_levenshtein() {
    let options = SearchOptions::new().levenshtein(true);
    let mut engine: SimSearch<u32> = SimSearch::new_with(options).unwrap();
    engine.insert(1, "日本語のテキスト");
    engine.insert(2, "plain ascii text");
    for q in ["", "日本語", "🦀", "plain", "\u{7f}"] {
        let _ = engine.search(q);
    }
}

#[test]
fn empty_content_is_a_legal_unsearchable_entry() {
    let mut engine: SimSearch<u32> = SimSearch::new();
    engine.insert(1, "");
    assert!(engine.search("").is_empty());
    assert!(engine.search("anything").is_empty());
    engine.insert(2, "findable");
    assert_eq!(engine.search("findable"), &[2]);
    engine.delete(&1);
    assert_eq!(engine.search("findable"), &[2]);
}

#[test]
fn stop_words_never_remain_inside_tokens() {
    let options = SearchOptions::new().stop_words(vec!["ab".to_string()]);
    let mut engine: SimSearch<u32> = SimSearch::new_with(options).unwrap();
    engine.insert(1, "xaby");
    // "xaby" is cut into "x" and "y"; the stop word survives in no token
    assert_eq!(engine.search("x"), &[1]);
    assert_eq!(engine.search("y"), &[1]);
    // a query of the stop word alone tokenizes to nothing and matches nothing
    assert!(engine.search("ab").is_empty());
}
