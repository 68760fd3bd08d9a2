use markov::MarkovChain;

fn words(text: &str) -> Vec<String> {
    text.split_ascii_whitespace().map(String::from).collect()
}

#[test]
fn test_empty_chain() {
    let chain = MarkovChain::new(1);

    assert_eq!(chain.len(), 0);
    assert!(chain.generate_text(16).is_none());
}

#[test]
fn test_chain() {
    let mut chain = MarkovChain::new(2);

    chain.train(&words("lorem ipsum dolor sit amet"));

    assert_eq!(chain.len(), 3);
    assert!(chain
        .generate_text(16)
        .is_some_and(|text| text.ends_with("dolor sit amet")));
}

#[test]
fn test_text_generation() {
    let mut chain = MarkovChain::new(1);

    chain.train(&words("a a a a"));

    assert_eq!(chain.len(), 1);
    assert_eq!(chain.generate_text(1).unwrap(), "a a");
    assert_eq!(chain.generate_text(2).unwrap(), "a a a");
    assert_eq!(chain.generate_text(3).unwrap(), "a a a a");
}

#[test]
fn short_input_trains_nothing() {
    let mut chain = MarkovChain::new(3);

    chain.train(&words("one two three"));
    assert_eq!(chain.len(), 0);
    assert!(chain.is_empty());

    chain.train(&Vec::new());
    assert_eq!(chain.len(), 0);

    chain.train(&words("one two three four"));
    assert_eq!(chain.len(), 1);
    assert!(!chain.is_empty());
}

#[test]
fn counts_aggregate_per_token() {
    let mut chain = MarkovChain::new(1);

    chain.train(&words("a a a a"));

    assert_eq!(chain.len(), 1);
    let row = chain.lookup(&words("a")).unwrap();
    assert_eq!(row, vec![("a".to_string(), 3)]);
}

#[test]
fn contexts_of_order_two() {
    let mut chain = MarkovChain::new(2);

    chain.train(&words("lorem ipsum dolor sit amet"));

    assert_eq!(chain.len(), 3);
    assert_eq!(
        chain.lookup(&words("lorem ipsum")).unwrap(),
        vec![("dolor".to_string(), 1)]
    );
    assert_eq!(
        chain.lookup(&words("dolor sit")).unwrap(),
        vec![("amet".to_string(), 1)]
    );
    assert!(chain.lookup(&words("sit amet")).is_none());
}

#[test]
fn training_accumulates_across_calls() {
    let mut chain = MarkovChain::new(1);

    chain.train(&words("a b"));
    chain.train(&words("a b"));
    chain.train(&words("a c"));

    assert_eq!(chain.len(), 1);
    let row = chain.lookup(&words("a")).unwrap();
    assert_eq!(row, vec![("b".to_string(), 2), ("c".to_string(), 1)]);
}

#[test]
fn no_context_spans_two_calls() {
    let mut chain = MarkovChain::new(1);

    chain.train(&words("a b c"));
    chain.train(&words("d e"));

    assert_eq!(chain.len(), 3);
    assert!(chain.lookup(&words("c")).is_none());
    assert_eq!(chain.lookup(&words("d")).unwrap(), vec![("e".to_string(), 1)]);
}

#[test]
fn zero_additional_tokens_returns_seed() {
    let mut chain = MarkovChain::new(2);

    chain.train(&words("lorem ipsum dolor sit amet"));

    let text = chain.generate_text(0).unwrap();
    assert_eq!(text.split_ascii_whitespace().count(), 2);
}

#[test]
fn single_path_generation_is_deterministic() {
    let mut chain = MarkovChain::new(2);

    chain.train(&words("lorem ipsum dolor sit amet"));

    for _ in 0..50 {
        let text = chain.generate_text(16).unwrap();
        assert!(text.ends_with("dolor sit amet"));
    }
}

#[test]
fn save_load_round_trip() {
    let mut chain = MarkovChain::new(2);

    chain.train(&words("lorem ipsum dolor sit amet"));
    chain.train(&words("lorem ipsum sed do eiusmod"));

    let bytes = chain.save();
    let loaded = MarkovChain::load(&bytes).unwrap();

    assert_eq!(loaded.len(), chain.len());
    assert_eq!(loaded.entries(), chain.entries());
    assert_eq!(
        loaded.lookup(&words("lorem ipsum")).unwrap(),
        vec![("dolor".to_string(), 1), ("sed".to_string(), 1)]
    );
}

#[test]
fn save_load_round_trip_empty() {
    let chain = MarkovChain::new(5);

    let loaded = MarkovChain::load(&chain.save()).unwrap();

    assert_eq!(loaded.len(), 0);
    assert!(loaded.generate_text(4).is_none());
}

#[test]
fn load_rejects_bad_bytes() {
    assert!(MarkovChain::load(&Vec::new()).is_err());
    assert!(MarkovChain::load(&vec![1, 2, 3]).is_err());

    // A zero order is rejected.
    let mut zero_order = vec![0u8; 16];
    assert!(MarkovChain::load(&zero_order).is_err());
    // A truncated save is rejected.
    let mut chain = MarkovChain::new(1);
    chain.train(&words("a b c"));
    let mut bytes = chain.save();
    bytes.pop();
    assert!(MarkovChain::load(&bytes).is_err());
    // Trailing garbage is rejected.
    let mut bytes2 = chain.save();
    bytes2.push(0);
    assert!(MarkovChain::load(&bytes2).is_err());
    zero_order[0] = 1;
    // One entry promised, none present.
    zero_order[8] = 1;
    assert!(MarkovChain::load(&zero_order).is_err());
}

#[test]
fn from_parts_checks_the_invariant() {
    let good = vec![(words("a"), vec![("b".to_string(), 2u32)])];
    let chain = MarkovChain::from_parts(1, good.clone()).unwrap();
    assert_eq!(chain.len(), 1);
    assert_eq!(chain.lookup(&words("a")).unwrap(), vec![("b".to_string(), 2)]);

    // Order zero is rejected.
    assert!(MarkovChain::from_parts(0, good.clone()).is_none());
    // A context of the wrong length is rejected.
    assert!(MarkovChain::from_parts(2, good.clone()).is_none());
    // A zero count is rejected.
    let zero_count = vec![(words("a"), vec![("b".to_string(), 0u32)])];
    assert!(MarkovChain::from_parts(1, zero_count).is_none());
    // An empty continuation list is rejected.
    let empty_row = vec![(words("a"), Vec::new())];
    assert!(MarkovChain::from_parts(1, empty_row).is_none());
    // Duplicate contexts are rejected.
    let dup = vec![
        (words("a"), vec![("b".to_string(), 1u32)]),
        (words("a"), vec![("c".to_string(), 1u32)]),
    ];
    assert!(MarkovChain::from_parts(1, dup).is_none());
    // Duplicate tokens within one list are rejected.
    let dup_tok = vec![(words("a"), vec![("b".to_string(), 1u32), ("b".to_string(), 1u32)])];
    assert!(MarkovChain::from_parts(1, dup_tok).is_none());
}

#[test]
fn sampling_follows_the_counts() {
    // One context with continuations of weights 2 and 1: over many runs the
    // heavier one comes out about two thirds of the time.
    let mut chain = MarkovChain::new(1);
    chain.train(&words("a a a b"));
    assert_eq!(chain.len(), 1);
    assert_eq!(
        chain.lookup(&words("a")).unwrap(),
        vec![("a".to_string(), 2), ("b".to_string(), 1)]
    );

    let runs = 3000;
    let mut heavier = 0;
    for _ in 0..runs {
        let text = chain.generate_text(1).unwrap();
        if text == "a a" {
            heavier += 1;
        } else {
            assert_eq!(text, "a b");
        }
    }
    let freq = heavier as f64 / runs as f64;
    assert!(freq > 0.60 && freq < 0.73, "frequency {freq} is out of tolerance");
}

#[test]
fn unicode_tokens_round_trip() {
    let mut chain = MarkovChain::new(1);

    chain.train(&words("χαῖρε ὦ κόσμε χαῖρε"));

    let loaded = MarkovChain::load(&chain.save()).unwrap();
    assert_eq!(loaded.entries(), chain.entries());
    assert_eq!(
        loaded.lookup(&words("χαῖρε")).unwrap(),
        vec![("ὦ".to_string(), 1)]
    );
}
