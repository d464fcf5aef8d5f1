use markov_brain::commands::{full_name, is_stale, parse_learn_command, parse_say_order};

#[test]
fn say_order_parses_count() {
    assert_eq!(parse_say_order("/say 2"), Some(2));
    assert_eq!(parse_say_order("/say 1"), Some(1));
    assert_eq!(parse_say_order("/say +7"), Some(7));
}

#[test]
fn say_order_defaults_to_one_on_junk() {
    assert_eq!(parse_say_order("/say abc"), Some(1));
    assert_eq!(parse_say_order("/say "), Some(1));
    assert_eq!(parse_say_order("/say 99999999999999999999999999"), Some(1));
}

#[test]
fn say_order_requires_argument() {
    assert_eq!(parse_say_order("/say"), None);
    assert_eq!(parse_say_order("say 2"), None);
    assert_eq!(parse_say_order(""), None);
}

#[test]
fn learn_command_splits_source_and_user() {
    assert_eq!(
        parse_learn_command("/learn http://host/export.json Bob"),
        Some(("http://host/export.json".to_string(), "Bob".to_string()))
    );
    assert_eq!(
        parse_learn_command("/learn   http://h/x.json  Ann Marie"),
        Some(("http://h/x.json".to_string(), " Ann Marie".to_string()))
    );
}

#[test]
fn learn_command_rejects_missing_parts() {
    assert_eq!(parse_learn_command("/learn"), None);
    assert_eq!(parse_learn_command("/learn urlonly"), None);
    assert_eq!(parse_learn_command("nothing here"), None);
}

#[test]
fn full_name_joins_with_space() {
    assert_eq!(full_name("Ada", Some("Lovelace")), "Ada Lovelace");
    assert_eq!(full_name("Ada", None), "Ada");
}

#[test]
fn staleness_compares_against_timeout() {
    assert!(is_stale(100, 80, 10));
    assert!(!is_stale(100, 95, 10));
    assert!(!is_stale(100, 120, 10));
    assert!(!is_stale(100, 90, 10));
}
