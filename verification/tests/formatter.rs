use serde_yaml::Value;
use yars_yaml_formatter::format_yaml_dict;
use yars_yaml_formatter::format_yaml_string;
use yars_yaml_formatter::Tree;
use yars_yaml_formatter::YamlFormatError;

fn parse_yaml(text: &str) -> Value {
    serde_yaml::from_str(text).expect("YAML should parse")
}

fn chars(text: &str) -> Vec<char> {
    text.chars().collect()
}

#[test]
fn multiline_strings_become_literal_blocks() {
    let input = r#"
description: "This is a long description\nthat spans\nmultiple lines"
"#;
    let formatted = format_yaml_string(input.trim()).expect("formatting should succeed");

    assert!(formatted.contains("description: |-\n  This is a long description"));
    let parsed = parse_yaml(&formatted);
    assert_eq!(
        parsed["description"],
        Value::String("This is a long description\nthat spans\nmultiple lines".into())
    );
}

#[test]
fn leading_or_trailing_whitespace_stays_quoted() {
    let input = r#"
description: " leading space\nvalue "
"#;
    let formatted = format_yaml_string(input.trim()).expect("formatting should succeed");

    assert!(!formatted.contains("description: |"));
    assert!(formatted.contains(r#" " leading space\nvalue ""#));
}

#[test]
fn dictionary_keys_sorted_recursively() {
    let data = serde_yaml::from_str::<Value>(
        r#"
zebra: 1
apple:
  zed: 2
  beta: 1
middle: 3
"#,
    )
    .unwrap();

    let formatted = format_yaml_string(&serde_yaml::to_string(&data).unwrap()).unwrap();
    let lines: Vec<&str> = formatted.lines().collect();
    assert!(lines[0].starts_with("apple:"));
    assert!(lines[1].starts_with("  beta:"));
    assert!(lines[2].starts_with("  zed:"));
    assert!(lines[3].starts_with("middle:"));
    assert!(lines[4].starts_with("zebra:"));
}

#[test]
fn list_order_preserved() {
    let yaml = r#"
items:
  - zebra
  - apple
  - middle
"#;
    let formatted = format_yaml_string(yaml.trim()).unwrap();
    let parsed = parse_yaml(&formatted);
    let sequence = parsed["items"]
        .as_sequence()
        .expect("items should be a list");
    let names: Vec<String> = sequence
        .iter()
        .map(|value| value.as_str().unwrap().to_string())
        .collect();
    assert_eq!(names, ["zebra", "apple", "middle"]);
}

#[test]
fn formatter_is_idempotent() {
    let yaml = r#"
meta:
  description: "Something\nwith\nnewlines"
  order: ["z", "a", "m"]
"#;
    let first = format_yaml_string(yaml.trim()).unwrap();
    let second = format_yaml_string(&first).unwrap();
    assert_eq!(first, second);
}

#[test]
fn escape_sequences_round_trip() {
    let data = Tree::Mapping(vec![
        (
            Tree::Str(chars("escape")),
            Tree::Str(chars("line1\nline2\x1f\u{f0}\u{20ac}\u{20ac}")),
        ),
        (Tree::Str(chars("plain")), Tree::Str(chars("simple"))),
    ]);

    let formatted = format_yaml_dict(data).unwrap();
    let reparsed = parse_yaml(&formatted);
    assert_eq!(
        reparsed["escape"],
        Value::String("line1\nline2\x1f\u{f0}\u{20ac}\u{20ac}".into())
    );
    assert_eq!(reparsed["plain"], Value::String("simple".into()));
}

#[test]
fn top_level_list_rejected() {
    let yaml = "- a\n- b\n";
    let err = format_yaml_string(yaml).unwrap_err();
    matches!(err, YamlFormatError::TopLevelList);
}

#[test]
fn invalid_yaml_raises_error() {
    let err = format_yaml_string("foo: [bar").unwrap_err();
    assert!(matches!(err, YamlFormatError::Format(_)));
}

#[test]
fn null_document_returns_original() {
    let original = "null\n";
    let formatted = format_yaml_string(original).unwrap();
    assert_eq!(formatted, original);
}

#[test]
fn format_yaml_dict_requires_mapping() {
    let data = Tree::Sequence(vec![Tree::Str(chars("a")), Tree::Str(chars("b"))]);
    let err = format_yaml_dict(data).unwrap_err();
    match err {
        YamlFormatError::Format(message) => assert!(message.contains("Expected dict")),
        YamlFormatError::TopLevelList => {}
        other => panic!("unexpected error: {other:?}"),
    };
}
