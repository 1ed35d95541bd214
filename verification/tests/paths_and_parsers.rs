//! Path joining, topic-name validation, and the flat `key=value` parser.

use confsync::errors::ConfigLoadErrors;
use confsync::etcd_conf::VarPathSpec;
use confsync::kafka_config::{parse_kafka_config, parse_kafka_line};
use confsync::mqtt::validate_topic_name;

fn single_key(spec: VarPathSpec) -> String {
    match spec {
        VarPathSpec::SingleVar(k) => k,
        VarPathSpec::Prefix(_) => panic!("expected a single-variable specification"),
    }
}

fn prefix_key(spec: VarPathSpec) -> String {
    match spec {
        VarPathSpec::Prefix(k) => k,
        VarPathSpec::SingleVar(_) => panic!("expected a prefix specification"),
    }
}

#[test]
fn join_uses_exactly_one_separator() {
    assert_eq!(single_key(VarPathSpec::new_var("base", "leaf")), "base/leaf");
    assert_eq!(single_key(VarPathSpec::new_var("base/", "leaf")), "base/leaf");
    assert_eq!(single_key(VarPathSpec::new_var("base//", "leaf")), "base/leaf");
    assert_eq!(single_key(VarPathSpec::new_var("base", "/leaf")), "base/leaf");
    assert_eq!(single_key(VarPathSpec::new_var("base/", "/leaf")), "base/leaf");
    assert_eq!(prefix_key(VarPathSpec::new_prefix("local/node/", "conf")), "local/node/conf");
}

#[test]
fn topic_names_reject_wildcards_and_empty_segments() {
    assert!(validate_topic_name("a/b/c"));
    assert!(validate_topic_name("single"));
    assert!(!validate_topic_name(""));
    assert!(!validate_topic_name("/a"));
    assert!(!validate_topic_name("a/"));
    assert!(!validate_topic_name("a//b"));
    assert!(!validate_topic_name("a/+/b"));
    assert!(!validate_topic_name("a/#"));
}

#[test]
fn kafka_lines_split_on_the_first_equals() {
    assert_eq!(
        parse_kafka_line("bootstrap.servers=localhost:9092").unwrap(),
        Some(("bootstrap.servers".to_string(), "localhost:9092".to_string()))
    );
    // the value is the segment between the first and second `=`
    assert_eq!(
        parse_kafka_line("a=b=c").unwrap(),
        Some(("a".to_string(), "b".to_string()))
    );
    assert_eq!(parse_kafka_line("  trimmed=v  ").unwrap(), Some(("trimmed".to_string(), "v".to_string())));
    assert_eq!(parse_kafka_line("# a comment").unwrap(), None);
    assert_eq!(parse_kafka_line("   ").unwrap(), None);
    assert_eq!(parse_kafka_line("").unwrap(), None);
}

#[test]
fn kafka_line_without_equals_is_a_split_error() {
    match parse_kafka_line("no separator here") {
        Err(ConfigLoadErrors::KeySplitError(l)) => assert_eq!(l, "no separator here"),
        other => panic!("expected the key-split error, got {:?}", other),
    }
}

#[test]
fn kafka_config_collects_pairs_in_order() {
    let lines: Vec<String> = vec![
        "# config".to_string(),
        "a=1".to_string(),
        "".to_string(),
        "b=2".to_string(),
    ];
    assert_eq!(
        parse_kafka_config(&lines).unwrap(),
        vec![("a".to_string(), "1".to_string()), ("b".to_string(), "2".to_string())]
    );
}

#[test]
fn kafka_config_reports_the_first_bad_line() {
    let lines: Vec<String> = vec!["a=1".to_string(), "broken".to_string(), "b=2".to_string()];
    match parse_kafka_config(&lines) {
        Err(ConfigLoadErrors::KeySplitError(l)) => assert_eq!(l, "broken"),
        other => panic!("expected the key-split error, got {:?}", other),
    }
}
