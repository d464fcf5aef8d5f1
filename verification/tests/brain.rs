use markov_brain::Settings;
use markov_brain::chains::Chains;
use markov_brain::registry::{Brain, HistoryRecord, RecordText, StoreEntry};
use markov_brain::username::UserName;

fn settings(persist_every: usize) -> Settings {
    Settings::new(1, 2, 100, 15, persist_every).expect("valid settings")
}

#[test]
fn settings_rejects_bad_ranges() {
    assert!(Settings::new(0, 2, 100, 15, 10).is_none());
    assert!(Settings::new(3, 2, 100, 15, 10).is_none());
    assert!(Settings::new(1, 2, 100, 15, 0).is_none());
    assert!(Settings::new(1, 1, 100, 15, 1).is_some());
}

#[test]
fn same_user_slot_for_different_casings() {
    let mut b = Brain::new(settings(10));
    let bob = UserName::new("Bob");
    let bob2 = UserName::new("bOB");
    assert!(!b.is_known_user(1, &bob));
    b.feed_message(1, &bob, "hello there", false).expect("feed");
    assert!(b.is_known_user(1, &bob));
    assert!(b.is_known_user(1, &bob2));
    assert!(!b.is_known_user(2, &bob));
}

#[test]
fn persistence_cadence_every_n_feeds() {
    let mut b = Brain::new(settings(3));
    let alice = UserName::new("Alice");
    let r1 = b.feed_message(5, &alice, "one two", true).expect("feed");
    assert!(r1.is_none());
    let r2 = b.feed_message(5, &alice, "three four", true).expect("feed");
    assert!(r2.is_none());
    let r3 = b.feed_message(5, &alice, "five six", true).expect("feed");
    let req = r3.expect("third persisting feed is due");
    assert_eq!(req.key, "5_alice");
    // the next window again persists only on its last feed
    assert!(b.feed_message(5, &alice, "seven", true).expect("feed").is_none());
    assert!(b.feed_message(5, &alice, "eight", true).expect("feed").is_none());
    assert!(b.feed_message(5, &alice, "nine", true).expect("feed").is_some());
}

#[test]
fn no_persistence_when_not_asked() {
    let mut b = Brain::new(settings(1));
    let alice = UserName::new("Alice");
    let r = b.feed_message(5, &alice, "one", false).expect("feed");
    assert!(r.is_none());
}

#[test]
fn store_key_uses_folded_name_and_decimal_chat() {
    let mut b = Brain::new(settings(1));
    let user = UserName::new("MiXeD Case");
    let req = b
        .feed_message(-42, &user, "some words", true)
        .expect("feed")
        .expect("due on every feed");
    assert_eq!(req.key, "-42_mixed case");
}

#[test]
fn hydration_scans_only_once() {
    let mut b = Brain::new(settings(10));
    assert_eq!(b.hydration_request(7).as_deref(), Some("7*"));
    b.apply_hydration(7, &Vec::new()).expect("hydrate empty chat");
    assert!(b.hydration_request(7).is_none());
    // the second call is a no-op
    b.apply_hydration(7, &Vec::new()).expect("repeat hydration");
    assert!(b.hydration_request(7).is_none());
    assert!(b.hydration_request(8).is_some());
}

#[test]
fn hydration_restores_stored_models() {
    let mut m = Chains::new(1, 2);
    m.feed("stored words of bob");
    let snap = m.snapshot().expect("snapshot");
    let entries = vec![StoreEntry { key: "7_bob".to_string(), value: snap }];
    let mut b = Brain::new(settings(10));
    b.apply_hydration(7, &entries).expect("hydrate");
    assert!(b.is_known_user(7, &UserName::new("Bob")));
    assert!(b.hydration_request(7).is_none());
    // a hydrated model can be persisted again
    let req = b
        .persist_request(7, &UserName::new("BOB"))
        .expect("snapshot")
        .expect("model exists");
    assert_eq!(req.key, "7_bob");
}

#[test]
fn hydration_folds_the_key_name() {
    let mut m = Chains::new(1, 2);
    m.feed("case folded storage");
    let snap = m.snapshot().expect("snapshot");
    let entries = vec![StoreEntry { key: "7_BoB".to_string(), value: snap }];
    let mut b = Brain::new(settings(10));
    b.apply_hydration(7, &entries).expect("hydrate");
    assert!(b.is_known_user(7, &UserName::new("bob")));
    assert!(b.is_known_user(7, &UserName::new("BOB")));
}

#[test]
fn hydration_failure_leaves_chat_retryable() {
    let mut b = Brain::new(settings(10));
    let bad = vec![StoreEntry { key: "nounderscore".to_string(), value: String::new() }];
    assert!(b.apply_hydration(9, &bad).is_err());
    assert!(b.hydration_request(9).is_some());
    let bad2 = vec![StoreEntry { key: "9_bob".to_string(), value: "garbage".to_string() }];
    assert!(b.apply_hydration(9, &bad2).is_err());
    assert!(b.hydration_request(9).is_some());
}

#[test]
fn learn_from_history_filtered_counts_and_persists_one() {
    let mut b = Brain::new(settings(10));
    let recs = vec![
        HistoryRecord {
            author: Some("Alice".to_string()),
            text: RecordText::Plain("first message".to_string()),
        },
        HistoryRecord {
            author: Some("Bob".to_string()),
            text: RecordText::Plain("bob speaks".to_string()),
        },
        HistoryRecord {
            author: Some("alice".to_string()),
            text: RecordText::Plain("second message".to_string()),
        },
        HistoryRecord {
            author: Some("Bob".to_string()),
            text: RecordText::Plain("bob again".to_string()),
        },
        HistoryRecord {
            author: Some("ALICE".to_string()),
            text: RecordText::Plain("third message".to_string()),
        },
    ];
    let filter = UserName::new("alice");
    let (count, reqs) = b.learn_from_hist(1, &recs, Some(&filter)).expect("learn");
    assert_eq!(count, 3);
    assert_eq!(reqs.len(), 1);
    assert_eq!(reqs[0].key, "1_alice");
    assert!(b.is_known_user(1, &filter));
    assert!(!b.is_known_user(1, &UserName::new("Bob")));
}

#[test]
fn learn_from_history_skips_non_plain_and_empty() {
    let mut b = Brain::new(settings(10));
    let recs = vec![
        HistoryRecord { author: None, text: RecordText::Plain("orphan".to_string()) },
        HistoryRecord { author: Some("Ann".to_string()), text: RecordText::Segments },
        HistoryRecord {
            author: Some("Ann".to_string()),
            text: RecordText::Plain(String::new()),
        },
        HistoryRecord {
            author: Some("Ann".to_string()),
            text: RecordText::Plain("real words".to_string()),
        },
    ];
    let (count, reqs) = b.learn_from_hist(2, &recs, None).expect("learn");
    assert_eq!(count, 1);
    assert_eq!(reqs.len(), 1);
    assert_eq!(reqs[0].key, "2_ann");
}

#[test]
fn unfiltered_learning_persists_every_author_once() {
    let mut b = Brain::new(settings(10));
    let recs = vec![
        HistoryRecord {
            author: Some("Alice".to_string()),
            text: RecordText::Plain("alpha words".to_string()),
        },
        HistoryRecord {
            author: Some("Bob".to_string()),
            text: RecordText::Plain("beta words".to_string()),
        },
        HistoryRecord {
            author: Some("ALICE".to_string()),
            text: RecordText::Plain("gamma words".to_string()),
        },
    ];
    let (count, reqs) = b.learn_from_hist(3, &recs, None).expect("learn");
    assert_eq!(count, 3);
    let mut keys: Vec<&str> = reqs.iter().map(|r| r.key.as_str()).collect();
    keys.sort();
    assert_eq!(keys, vec!["3_alice", "3_bob"]);
}

#[test]
fn unseen_seed_token_yields_no_reply() {
    let mut b = Brain::new(settings(10));
    let eve = UserName::new("Eve");
    b.feed_message(4, &eve, "the quick brown fox", false).expect("feed");
    // a seed the chain never saw produces only empty candidates,
    // which are never surfaced
    for _ in 0..5 {
        assert!(b.gen_from_token(4, "zebra", 1).is_none());
    }
}

#[test]
fn choose_user_empty_chat_is_none() {
    let b = Brain::new(settings(10));
    assert!(b.choose_user(3).is_none());
    assert!(b.gen_from_token(3, "word", 1).is_none());
    assert!(b.gen_from_empty(3, 1).is_none());
}

#[test]
fn choose_user_returns_registered_user() {
    let mut b = Brain::new(settings(10));
    let eve = UserName::new("Eve");
    b.feed_message(4, &eve, "hello world", false).expect("feed");
    let picked = b.choose_user(4).expect("one user registered");
    assert!(picked == eve);
}

#[test]
fn generated_replies_are_never_fed_verbatim() {
    let mut b = Brain::new(settings(10));
    let eve = UserName::new("Eve");
    let fed1 = "the quick brown fox jumps";
    let fed2 = "fox eats the lazy cat";
    b.feed_message(4, &eve, fed1, false).expect("feed");
    b.feed_message(4, &eve, fed2, false).expect("feed");
    for _ in 0..30 {
        if let Some((who, text)) = b.gen_from_empty(4, 1) {
            assert!(who == eve);
            assert_ne!(text, fed1);
            assert_ne!(text, fed2);
            assert!(text.split_whitespace().count() < 15);
        }
        if let Some((_, text)) = b.gen_from_token(4, "the", 1) {
            if !text.is_empty() {
                assert_eq!(text.split_whitespace().next(), Some("the"));
            }
            assert_ne!(text, fed1);
            assert_ne!(text, fed2);
        }
    }
}

#[test]
fn out_of_range_order_yields_nothing_from_chains() {
    let mut m = Chains::new(1, 2);
    m.feed("a few words here");
    for _ in 0..10 {
        for (order, _) in m.gen_from_empty() {
            assert!(order == 1 || order == 2);
        }
    }
}
