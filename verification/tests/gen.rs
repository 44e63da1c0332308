use pass_gen::gen::{generate_passphrase, join_words, PassGenError};

fn words_of(list: &[&str]) -> Vec<String> {
    list.iter().map(|s| s.to_string()).collect()
}

#[test]
fn join_basic() {
    let words = words_of(&["alpha", "beta", "gamma"]);
    let joined = join_words(&words, &vec![0, 2, 1], "-");
    assert_eq!(joined, "alpha-gamma-beta");
}

#[test]
fn join_single_word_has_no_separator() {
    let words = words_of(&["alpha", "beta"]);
    let joined = join_words(&words, &vec![1], "--");
    assert_eq!(joined, "beta");
}

#[test]
fn join_empty_separator() {
    let words = words_of(&["alpha", "beta"]);
    let joined = join_words(&words, &vec![0, 1], "");
    assert_eq!(joined, "alphabeta");
}

#[test]
fn join_with_repeats() {
    let words = words_of(&["alpha", "beta"]);
    let joined = join_words(&words, &vec![1, 1, 1], " ");
    assert_eq!(joined, "beta beta beta");
}

#[test]
fn generate_empty_wordlist_fails() {
    let words: Vec<String> = Vec::new();
    let r = generate_passphrase(&words, 5, " ");
    assert!(matches!(r, Err(PassGenError::EmptyWordlist)));
}

#[test]
fn generate_single_word_list() {
    let words = words_of(&["w"]);
    let p = generate_passphrase(&words, 4, "-").unwrap();
    assert_eq!(p, "w-w-w-w");
}

#[test]
fn generate_token_count_and_membership() {
    let words = words_of(&["alpha", "beta", "gamma", "delta"]);
    let p = generate_passphrase(&words, 20, "_").unwrap();
    let tokens: Vec<&str> = p.split('_').collect();
    assert_eq!(tokens.len(), 20);
    for t in tokens {
        assert!(words.iter().any(|w| w == t), "token {} not in wordlist", t);
    }
}

#[test]
fn generate_count_one_has_no_separator() {
    let words = words_of(&["alpha", "beta", "gamma"]);
    for _ in 0..50 {
        let p = generate_passphrase(&words, 1, "-").unwrap();
        assert!(!p.contains('-'));
        assert!(words.iter().any(|w| *w == p));
    }
}

#[test]
fn generate_every_word_reachable() {
    let words = words_of(&["a", "b", "c", "d"]);
    let mut counts = [0usize; 4];
    for _ in 0..2000 {
        let p = generate_passphrase(&words, 1, " ").unwrap();
        let idx = words.iter().position(|w| *w == p).expect("drawn word not in list");
        counts[idx] += 1;
    }
    for (i, c) in counts.iter().enumerate() {
        assert!(
            *c >= 100,
            "word {} drawn only {} times out of 2000; expected near 500",
            i,
            c
        );
    }
}
