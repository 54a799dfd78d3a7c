use simsearch::SearchOptions;
use simsearch::SimSearch;

/// A tiny deterministic generator, so the sequence below is reproducible.
fn next_state(state: &mut u64) -> u64 {
    *state = state.wrapping_mul(6364136223846793005).wrapping_add(1442695040888963407);
    *state >> 33
}

#[test]
fn random_insert_delete_sequences_stay_consistent() {
    let words = ["alpha", "beta", "gamma", "delta", "epsilon", "zeta", "eta", "theta"];
    let mut engine: SimSearch<u64> = SimSearch::new();
    let mut live: Vec<(u64, &str)> = Vec::new();
    let mut state: u64 = 12345;
    for step in 0..200u64 {
        let id = next_state(&mut state) % 16;
        match next_state(&mut state) % 3 {
            0 | 1 => {
                let word = words[(next_state(&mut state) % words.len() as u64) as usize];
                engine.insert(id, word);
                live.retain(|(i, _)| *i != id);
                live.push((id, word));
            },
            _ => {
                engine.delete(&id);
                live.retain(|(i, _)| *i != id);
            },
        }
        // every live entry is found under its own exact content, and no
        // deleted or replaced entry is found under anything else
        for word in words {
            let results = engine.search(word);
            let expected: Vec<u64> =
                live.iter().filter(|(_, w)| *w == word).map(|(i, _)| *i).collect();
            for id2 in &expected {
                assert!(results.contains(id2), "step {step}: {id2} lost under {word}");
            }
            for r in &results {
                assert!(
                    live.iter().any(|(i, _)| i == r),
                    "step {step}: dead identifier {r} returned"
                );
            }
        }
    }
}

#[test]
fn builder_calls_are_order_insensitive() {
    let a = SearchOptions::new().case_sensitive(true).threshold(7).levenshtein(true);
    let b = SearchOptions::new().levenshtein(true).threshold(7).case_sensitive(true);
    let mut ea: SimSearch<u32> = SimSearch::new_with(a).unwrap();
    let mut eb: SimSearch<u32> = SimSearch::new_with(b).unwrap();
    for (id, text) in [(1, "Such Text"), (2, "other words")] {
        ea.insert(id, text);
        eb.insert(id, text);
    }
    for q in ["Such", "such", "other", "words", "wrds"] {
        assert_eq!(ea.search(q), eb.search(q));
    }
}
