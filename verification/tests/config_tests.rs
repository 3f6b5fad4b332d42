//! Tests for nested insertion and whole-configuration loading.

use conftree::insert_nested_value;
use conftree::load_config;
use conftree::ConfigTree;
use conftree::ConfigValue;

fn s(x: &str) -> String {
    x.to_string()
}

fn lines_of(text: &str) -> Vec<String> {
    text.lines().map(String::from).collect()
}

#[test]
fn test_insert_nested_value() {
    let mut map = ConfigTree::new();
    insert_nested_value(
        &mut map,
        &[s("log"), s("file")],
        ConfigValue::Str(s("/var/log/console.log")),
    )
    .unwrap();
    insert_nested_value(&mut map, &[s("debug")], ConfigValue::Bool(true)).unwrap();

    assert_eq!(
        map.get("log").unwrap().get("file").unwrap(),
        &ConfigValue::Str(s("/var/log/console.log"))
    );
    assert_eq!(map.get("debug").unwrap(), &ConfigValue::Bool(true));
}

#[test]
fn test_load_config() {
    let config_str = r#"
            endpoint = localhost:3000
            debug = true
            log.file = /var/log/console.log
        "#;

    let config = load_config(&lines_of(config_str)).unwrap();

    assert_eq!(
        config.get("endpoint").unwrap(),
        &ConfigValue::Str(s("localhost:3000"))
    );
    assert_eq!(config.get("debug").unwrap(), &ConfigValue::Bool(true));
    assert_eq!(
        config.get("log").unwrap().get("file").unwrap(),
        &ConfigValue::Str(s("/var/log/console.log"))
    );
}

#[test]
fn single_segment_insert_then_lookup() {
    let mut map = ConfigTree::new();
    insert_nested_value(&mut map, &[s("port")], ConfigValue::Num(s("8080"))).unwrap();
    assert_eq!(map.get("port").unwrap(), &ConfigValue::Num(s("8080")));
}

#[test]
fn deep_insert_creates_intermediate_trees() {
    let mut map = ConfigTree::new();
    insert_nested_value(&mut map, &[s("a"), s("b"), s("c")], ConfigValue::Bool(false)).unwrap();
    let a = map.get("a").unwrap();
    assert!(matches!(a, ConfigValue::Tree(_)));
    let b = a.get("b").unwrap();
    assert!(matches!(b, ConfigValue::Tree(_)));
    assert_eq!(b.get("c").unwrap(), &ConfigValue::Bool(false));
}

#[test]
fn loading_twice_yields_equal_trees() {
    let text = "a.b = 1\nflag = true\nname = box\n";
    let first = load_config(&lines_of(text)).unwrap();
    let second = load_config(&lines_of(text)).unwrap();
    assert_eq!(first, second);
}

#[test]
fn comments_and_blank_lines_load_empty() {
    let text = "# a comment\n\n   \n   # another, indented\n\t\n";
    let config = load_config(&lines_of(text)).unwrap();
    assert_eq!(config, ConfigTree::new());
}

#[test]
fn end_to_end_scenario() {
    let text = "endpoint = localhost:3000\ndebug = true\nlog.file = /var/log/console.log\n";
    let config = load_config(&lines_of(text)).unwrap();

    let mut expected = ConfigTree::new();
    insert_nested_value(
        &mut expected,
        &[s("endpoint")],
        ConfigValue::Str(s("localhost:3000")),
    )
    .unwrap();
    insert_nested_value(&mut expected, &[s("debug")], ConfigValue::Bool(true)).unwrap();
    insert_nested_value(
        &mut expected,
        &[s("log"), s("file")],
        ConfigValue::Str(s("/var/log/console.log")),
    )
    .unwrap();
    assert_eq!(config, expected);
}

#[test]
fn malformed_line_is_skipped() {
    let with_bad = load_config(&lines_of("a = 1\nthis line has no equals sign\nb = 2\n")).unwrap();
    let without = load_config(&lines_of("a = 1\nb = 2\n")).unwrap();
    assert_eq!(with_bad, without);
    assert_eq!(with_bad.get("a").unwrap(), &ConfigValue::Num(s("1")));
    assert_eq!(with_bad.get("b").unwrap(), &ConfigValue::Num(s("2")));
}

#[test]
fn conflict_descending_into_leaf_fails_and_leaves_tree_unchanged() {
    let mut map = ConfigTree::new();
    insert_nested_value(&mut map, &[s("a")], ConfigValue::Num(s("1"))).unwrap();
    let r = insert_nested_value(&mut map, &[s("a"), s("b")], ConfigValue::Num(s("2")));
    assert!(r.is_err());
    assert_eq!(map.get("a").unwrap(), &ConfigValue::Num(s("1")));
}

#[test]
fn conflict_surfaces_from_load() {
    let r = load_config(&lines_of("a = 1\na.b = 2\n"));
    assert!(r.is_err());
}

#[test]
fn later_value_overwrites_earlier_one() {
    let config = load_config(&lines_of("a = 1\na = two\n")).unwrap();
    assert_eq!(config.get("a").unwrap(), &ConfigValue::Str(s("two")));
}

#[test]
fn leaf_overwrites_whole_subtree() {
    let config = load_config(&lines_of("a.b = 1\na = 2\n")).unwrap();
    assert_eq!(config.get("a").unwrap(), &ConfigValue::Num(s("2")));
}

#[test]
fn whitespace_around_key_and_value_is_trimmed() {
    let config = load_config(&lines_of("  spaced.key   =   some value  \n")).unwrap();
    assert_eq!(
        config.get("spaced").unwrap().get("key").unwrap(),
        &ConfigValue::Str(s("some value"))
    );
}

#[test]
fn empty_segments_pass_through() {
    let config = load_config(&lines_of("a..b = 1\n.c = 2\nd. = 3\n")).unwrap();
    assert_eq!(
        config.get("a").unwrap().get("").unwrap().get("b").unwrap(),
        &ConfigValue::Num(s("1"))
    );
    assert_eq!(
        config.get("").unwrap().get("c").unwrap(),
        &ConfigValue::Num(s("2"))
    );
    assert_eq!(
        config.get("d").unwrap().get("").unwrap(),
        &ConfigValue::Num(s("3"))
    );

    let bare = load_config(&lines_of("= 4\n")).unwrap();
    assert_eq!(bare.get("").unwrap(), &ConfigValue::Num(s("4")));
}

#[test]
fn value_containing_equals_splits_on_first() {
    let config = load_config(&lines_of("k = a=b\n")).unwrap();
    assert_eq!(config.get("k").unwrap(), &ConfigValue::Str(s("a=b")));
}

#[test]
fn missing_key_lookup_fails() {
    let config = load_config(&lines_of("a = 1\n")).unwrap();
    assert!(config.get("b").is_none());
    assert!(config.get("a").unwrap().get("x").is_none());
}
