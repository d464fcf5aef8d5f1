use markov_brain::chains::{Chains, SnapshotError};
use markov_brain::text::{join_tokens, tokenize};
use markov_brain::username::UserName;

#[test]
fn tokenize_splits_folds_and_strips() {
    let toks = tokenize("Hello;; World: 'quoted' \"x\"");
    assert_eq!(toks, vec![
        "hello".to_string(),
        "world".to_string(),
        "quoted".to_string(),
        "x".to_string(),
    ]);
}

#[test]
fn tokenize_empty_input() {
    let toks = tokenize("");
    assert!(toks.is_empty());
    let toks = tokenize("   \t  ");
    assert!(toks.is_empty());
}

#[test]
fn tokenize_handles_unicode_whitespace_and_case() {
    // U+00A0 and U+2003 are Unicode whitespace; folding is Unicode-wide
    let toks = tokenize("\u{41F}\u{420}\u{418}\u{412}\u{415}\u{422}\u{a0}\u{41C}\u{438}\u{440}\u{2003}\u{c4}rger");
    assert_eq!(toks, vec![
        "\u{43F}\u{440}\u{438}\u{432}\u{435}\u{442}".to_string(),
        "\u{43C}\u{438}\u{440}".to_string(),
        "\u{e4}rger".to_string(),
    ]);
}

#[test]
fn username_folds_beyond_ascii() {
    // two Cyrillic spellings differing only in case share one identity
    assert!(UserName::new("\u{401}\u{436}\u{438}\u{43A}") == UserName::new("\u{451}\u{436}\u{438}\u{43A}"));
    assert_eq!(UserName::new("\u{c4}rger").key_str(), "\u{e4}rger");
}

#[test]
fn fresh_model_generates_nothing() {
    let m = Chains::new(1, 2);
    assert!(m.gen_from_empty().is_empty());
    assert!(m.gen_from_token("word").is_empty());
}

#[test]
fn tokenize_is_idempotent_on_rejoined_tokens() {
    let toks = tokenize("The QUICK brown; Fox:");
    let joined = join_tokens(&toks);
    assert_eq!(tokenize(&joined), toks);
}

#[test]
fn join_tokens_single_spaces() {
    let toks = vec!["a".to_string(), "b".to_string(), "c".to_string()];
    assert_eq!(join_tokens(&toks), "a b c");
    assert_eq!(join_tokens(&Vec::new()), "");
}

#[test]
fn username_case_insensitive_equality() {
    let a = UserName::new("Bob");
    let b = UserName::new("bob");
    let c = UserName::new("BOB");
    assert!(a == b);
    assert!(b == c);
    assert!(a != UserName::new("alice"));
    assert_eq!(a.display(), "Bob");
    assert_eq!(a.key_str(), "bob");
}

#[test]
fn feed_marks_all_subsequences_known() {
    let mut m = Chains::new(1, 2);
    m.feed("The quick Brown fox");
    assert!(m.check_known(&vec!["the".to_string()]));
    assert!(m.check_known(&vec!["quick".to_string(), "brown".to_string()]));
    assert!(m.check_known(&vec![
        "the".to_string(),
        "quick".to_string(),
        "brown".to_string(),
        "fox".to_string(),
    ]));
    // case of the candidate does not matter
    assert!(m.check_known(&vec!["QUICK".to_string(), "BROWN".to_string()]));
    // non-contiguous and unseen sequences stay unknown
    assert!(!m.check_known(&vec!["the".to_string(), "brown".to_string()]));
    assert!(!m.check_known(&vec!["cat".to_string()]));
}

#[test]
fn generation_never_reproduces_fed_text() {
    let mut m = Chains::new(1, 2);
    let fed = "the quick brown fox jumps";
    m.feed(fed);
    m.feed("fox eats the lazy cat");
    for _ in 0..50 {
        for (_, toks) in m.gen_from_empty() {
            let text = join_tokens(&toks);
            assert_ne!(text, fed);
            // every surfaced candidate is novel as a whole
            assert!(!m.check_known(&toks));
        }
    }
}

#[test]
fn single_sentence_is_never_echoed() {
    let mut m = Chains::new(1, 2);
    let fed = "the quick brown fox jumps";
    m.feed(fed);
    for _ in 0..100 {
        for (order, toks) in m.gen_from_empty() {
            assert!(order == 1 || order == 2);
            assert_ne!(join_tokens(&toks), fed);
        }
    }
}

#[test]
fn generation_from_token_starts_with_seed() {
    let mut m = Chains::new(1, 2);
    m.feed("the quick brown fox");
    m.feed("fox eats the cat");
    for _ in 0..50 {
        for (_, toks) in m.gen_from_token("the") {
            if !toks.is_empty() {
                assert_eq!(toks[0], "the");
            }
            assert!(!m.check_known(&toks));
        }
    }
}

#[test]
fn snapshot_restore_preserves_dedup_membership() {
    let mut m = Chains::new(1, 2);
    m.feed("alpha beta gamma");
    m.feed("delta beta");
    let snap = m.snapshot().expect("snapshot should serialize");
    let mut r = Chains::new(1, 2);
    r.feed("something entirely different");
    r.restore(&snap).expect("restore of own snapshot");
    let probes: Vec<Vec<String>> = vec![
        vec!["alpha".to_string()],
        vec!["alpha".to_string(), "beta".to_string()],
        vec!["beta".to_string(), "gamma".to_string()],
        vec!["delta".to_string(), "beta".to_string()],
        vec!["gamma".to_string(), "delta".to_string()],
        vec!["something".to_string(), "entirely".to_string()],
        vec!["unrelated".to_string()],
    ];
    for p in &probes {
        assert_eq!(m.check_known(p), r.check_known(p));
    }
}

#[test]
fn restore_rejects_malformed_snapshots() {
    let mut m = Chains::new(1, 2);
    assert!(matches!(m.restore(""), Err(SnapshotError::Format)));
    assert!(matches!(m.restore("not a snapshot"), Err(SnapshotError::Format)));
    // a well-framed snapshot with a corrupt chain blob fails on the blob
    let mut good = Chains::new(1, 1);
    good.feed("one two");
    let snap = good.snapshot().expect("snapshot");
    let mut truncated = snap.clone();
    truncated.pop();
    assert!(matches!(m.restore(&truncated), Err(SnapshotError::Format)));
    // and the failed restores left the model usable
    m.feed("still alive");
    assert!(m.check_known(&vec!["still".to_string(), "alive".to_string()]));
}

#[test]
fn restore_reports_unreadable_chain_blobs() {
    let blob = "]]] not a chain [[[".to_string();
    let cs = markov_brain::codec::encode_snapshot(1, 1, &vec![blob], &Vec::new());
    let snap = markov_brain::strutil::string_from_chars(&cs);
    let mut m = Chains::new(1, 2);
    assert!(matches!(m.restore(&snap), Err(SnapshotError::ChainData(_))));
    // the failed restore left the model untouched
    m.feed("still here");
    assert!(m.check_known(&vec!["still".to_string(), "here".to_string()]));
}

#[test]
fn restore_round_trips_after_restore() {
    let mut m = Chains::new(1, 2);
    m.feed("round trip check");
    let snap = m.snapshot().expect("snapshot");
    let mut r = Chains::new(1, 2);
    r.restore(&snap).expect("restore");
    let snap2 = r.snapshot().expect("second snapshot");
    let mut r2 = Chains::new(1, 2);
    r2.restore(&snap2).expect("second restore");
    assert!(r2.check_known(&vec!["round".to_string(), "trip".to_string()]));
    assert!(!r2.check_known(&vec!["round".to_string(), "check".to_string()]));
}
