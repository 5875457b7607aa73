use yars_yaml_formatter::canonicalize_and_emit;
use yars_yaml_formatter::count_changed_lines;
use yars_yaml_formatter::format_yaml_dict;
use yars_yaml_formatter::format_yaml_files;
use yars_yaml_formatter::format_yaml_string;
use yars_yaml_formatter::is_disallowed_control;
use yars_yaml_formatter::is_plain_key;
use yars_yaml_formatter::is_plain_string;
use yars_yaml_formatter::is_reserved_keyword;
use yars_yaml_formatter::looks_like_number;
use yars_yaml_formatter::should_use_literal_block;
use yars_yaml_formatter::spaces;
use yars_yaml_formatter::strip_leading_marker;
use yars_yaml_formatter::Formatter;
use yars_yaml_formatter::Tree;
use yars_yaml_formatter::YamlFormatError;

fn chars(text: &str) -> Vec<char> {
    text.chars().collect()
}

#[test]
fn plain_string_detection() {
    assert!(is_plain_string("client_member_id"));
    assert!(!is_plain_string("Short description"));
    assert!(!is_plain_string(" trailing"));
    assert!(!is_plain_string("true"));
    assert!(!is_plain_string("42"));
    assert!(!is_plain_string("3.14"));
    assert!(is_plain_string("Bronze.Raw"));
}

#[test]
fn simple_mapping_sorted_exactly() {
    let formatted = format_yaml_string("b: 1\na: 2\n").unwrap();
    assert_eq!(formatted, "a: 2\nb: 1\n");
}

#[test]
fn reserved_keyword_detection() {
    for word in ["true", "False", "NULL", "~", "yes", "No", "ON", "off"] {
        assert!(is_reserved_keyword(word), "{word} should be reserved");
    }
    for word in ["truth", "yesterday", "noon", "offer", "nulls", ""] {
        assert!(!is_reserved_keyword(word), "{word} should not be reserved");
    }
}

#[test]
fn number_shape_detection() {
    for text in [
        "42", "-7", "3.14", ".5", "5.", "1e9", "1e+9", "1E+9", "1E-9", "-2.5e-3", "1.5E-3",
    ] {
        assert!(looks_like_number(text), "{text} should look numeric");
    }
    for text in ["", "-", "--7", "e9", "1.2.3", "1e", "1e++5", "12a", "0x10"] {
        assert!(!looks_like_number(text), "{text} should not look numeric");
    }
}

#[test]
fn uppercase_exponent_strings_stay_quoted() {
    let formatted = format_yaml_string("a: \"1E-9\"\nb: \"1.5E-3\"\nc: \"1E+9\"\n").unwrap();
    assert_eq!(formatted, "a: \"1E-9\"\nb: \"1.5E-3\"\nc: \"1E+9\"\n");
    let second = format_yaml_string(&formatted).unwrap();
    assert_eq!(formatted, second);
    let parsed: serde_yaml::Value = serde_yaml::from_str(&formatted).unwrap();
    assert_eq!(parsed["a"], serde_yaml::Value::String("1E-9".into()));
    assert_eq!(parsed["b"], serde_yaml::Value::String("1.5E-3".into()));
}

#[test]
fn disallowed_control_detection() {
    assert!(is_disallowed_control('\u{0}'));
    assert!(is_disallowed_control('\u{7f}'));
    assert!(is_disallowed_control('\u{85}'));
    assert!(!is_disallowed_control('\t'));
    assert!(!is_disallowed_control('\n'));
    assert!(!is_disallowed_control('\r'));
    assert!(!is_disallowed_control('a'));
}

#[test]
fn plain_key_matches_plain_string() {
    assert!(is_plain_key("name"));
    assert!(!is_plain_key("two words"));
    assert!(!is_plain_key("-lead"));
}

#[test]
fn literal_block_eligibility() {
    assert!(should_use_literal_block("one\ntwo"));
    assert!(!should_use_literal_block("single line"));
    assert!(!should_use_literal_block(" padded\ntext"));
    assert!(!should_use_literal_block("padded\ntext "));
    assert!(!should_use_literal_block("bad\u{1f}control\nhere"));
}

#[test]
fn reserved_words_always_quoted() {
    let formatted =
        format_yaml_string("a: yes\nb: \"No\"\nc: \"on\"\nd: \"off\"\ne: \"~\"\nf: \"3.14\"\n")
            .unwrap();
    assert!(formatted.contains("b: \"No\""));
    assert!(formatted.contains("c: \"on\""));
    assert!(formatted.contains("d: \"off\""));
    assert!(formatted.contains("e: \"~\""));
    assert!(formatted.contains("f: \"3.14\""));
    let second = format_yaml_string(&formatted).unwrap();
    assert_eq!(formatted, second);
}

#[test]
fn empty_collections_use_shorthand() {
    let formatted = format_yaml_string("a: {}\nb: []\n").unwrap();
    assert_eq!(formatted, "a: {}\nb: []\n");
}

#[test]
fn mapping_under_dash_rendered_inline() {
    let formatted = format_yaml_string("items:\n  - b: 1\n    a: 2\n").unwrap();
    assert_eq!(formatted, "items:\n  - a: 2\n    b: 1\n");
}

#[test]
fn strip_leading_marker_removes_document_start() {
    assert_eq!(strip_leading_marker("---\nfoo: 1\n"), "foo: 1\n");
    assert_eq!(strip_leading_marker("  \n---\nfoo: 1\n"), "foo: 1\n");
    assert_eq!(strip_leading_marker("---"), "");
    assert_eq!(strip_leading_marker("--- foo"), " foo");
    assert_eq!(strip_leading_marker("foo: 1\n"), "foo: 1\n");
}

#[test]
fn count_changed_lines_counts_differing_positions() {
    assert_eq!(count_changed_lines("a\nb\n", "a\nc\n"), 1);
    assert_eq!(count_changed_lines("a\n", "a\nb\n"), 1);
    assert_eq!(count_changed_lines("a\nb\n", "a\nb\n"), 0);
    assert_eq!(count_changed_lines("", "x"), 1);
    assert_eq!(count_changed_lines("a\r\nb\n", "a\nb\n"), 0);
}

#[test]
fn format_yaml_dict_accepts_mapping() {
    let data = Tree::Mapping(vec![
        (Tree::Str(chars("b")), Tree::Number(chars("1"))),
        (Tree::Str(chars("a")), Tree::Number(chars("2"))),
    ]);
    assert_eq!(format_yaml_dict(data).unwrap(), "a: 2\nb: 1\n");
}

#[test]
fn format_yaml_dict_null_yields_empty() {
    assert_eq!(format_yaml_dict(Tree::Null).unwrap(), "");
}

#[test]
fn format_yaml_dict_scalar_reports_kind() {
    let err = format_yaml_dict(Tree::Str(chars("x"))).unwrap_err();
    match err {
        YamlFormatError::Format(message) => {
            assert_eq!(message, "Expected dict, got string");
        }
        other => panic!("unexpected error: {other:?}"),
    }
}

#[test]
fn canonicalize_and_emit_sorts_and_terminates_line() {
    let tree = Tree::Mapping(vec![
        (Tree::Str(chars("z")), Tree::Bool(true)),
        (Tree::Str(chars("a")), Tree::Null),
    ]);
    assert_eq!(canonicalize_and_emit(tree).unwrap(), "a: null\nz: true\n");
}

#[test]
fn sequence_root_canonicalize_and_emit() {
    let tree = Tree::Sequence(vec![
        Tree::Str(chars("zebra")),
        Tree::Str(chars("apple")),
    ]);
    let text = canonicalize_and_emit(tree).unwrap();
    assert_eq!(text, "  - zebra\n  - apple\n");
}

#[test]
fn tagged_value_keeps_tag_text() {
    let formatted = format_yaml_string("a: !custom 5\n").unwrap();
    assert_eq!(formatted, "a: !custom 5\n");
}

#[test]
fn error_messages_render() {
    let missing = YamlFormatError::MissingFile("x.yaml".to_string());
    assert_eq!(missing.message(), "File not found: x.yaml");
    let read = YamlFormatError::ReadFailure("x.yaml".to_string(), "denied".to_string());
    assert_eq!(read.message(), "Failed to read x.yaml: denied");
    let write = YamlFormatError::WriteFailure("x.yaml".to_string(), "full".to_string());
    assert_eq!(write.message(), "Failed to write x.yaml: full");
    let format = YamlFormatError::Format("bad".to_string());
    assert_eq!(format.message(), "Error formatting YAML: bad");
    let top = YamlFormatError::TopLevelList;
    assert!(top.message().starts_with("Top-level lists are not supported"));
}

#[test]
fn format_yaml_files_aggregates_outcomes() {
    let outcomes: Vec<Result<bool, YamlFormatError>> = vec![
        Ok(true),
        Ok(false),
        Err(YamlFormatError::MissingFile(
            "surely-does-not-exist.yaml".to_string(),
        )),
        Ok(true),
    ];
    let (changed, errors, messages) = format_yaml_files(outcomes);
    assert_eq!(changed, 2);
    assert_eq!(errors, 1);
    assert_eq!(messages.len(), 1);
    assert!(messages[0].contains("File not found"));
}

#[test]
fn formatter_writes_literal_blocks() {
    let mut f = Formatter::new();
    f.write_indentation(2);
    let text = f.finish();
    assert_eq!(text, "  \n");

    let mut g = Formatter::new();
    g.write_literal_block(&chars("one\ntwo"), 2);
    assert_eq!(g.finish(), "  one\n  two\n");
}

#[test]
fn spaces_builds_indentation() {
    assert_eq!(spaces(0), Vec::<char>::new());
    assert_eq!(spaces(3), vec![' ', ' ', ' ']);
    assert_eq!(spaces(12).len(), 12);
}

#[test]
fn quoted_scalar_reparses_to_same_string() {
    let formatted = format_yaml_string("a: \"col: value\"\n").unwrap();
    assert_eq!(formatted, "a: \"col: value\"\n");
    let parsed: serde_yaml::Value = serde_yaml::from_str(&formatted).unwrap();
    assert_eq!(parsed["a"], serde_yaml::Value::String("col: value".into()));
}
