use mango::error::MangoError;
use mango::frontmatter::{check_keys, parse};
use serde_json::Value;

const VALID_JSON: &str = r#"{
        "title": "Post One",
        "author": "tester",
        "description": "my first post",
        "date": "2026-01-24",
        "tags": ["blog"],
        "draft": false
    }"#;

/// The frontmatter's JSON, read as serde_json reads it.
fn fields(json: Option<String>) -> Value {
    let json = json.expect("frontmatter should be present");
    serde_json::from_str(&json).expect("frontmatter JSON")
}

fn frontmatter_error(json: &str) -> String {
    match parse(format!("---\n{json}\n---\nbody")) {
        Err(MangoError::Frontmatter(msg)) => msg,
        other => panic!("expected a Frontmatter error for {json}, got {other:?}"),
    }
}

const ACCEPTED_SUFFIX: &str =
    "; accepted keys are 'title', 'author', 'description', 'date', 'tags', 'draft'";

fn crlf(text: &str) -> String {
    lf(text).replace('\n', "\r\n")
}

fn lf(text: &str) -> String {
    text.replace("\r\n", "\n")
}

#[test]
fn parses_valid_frontmatter_and_returns_body() {
    let content = format!("---\n{VALID_JSON}\n---\n# Hello\n\nworld");
    let (fm, body) = parse(content).unwrap();

    let fm = fields(fm);
    assert_eq!(fm["title"], "Post One");
    assert_eq!(fm["author"], "tester");
    assert_eq!(fm["date"], "2026-01-24");
    assert_eq!(fm["tags"], Value::Array(vec![Value::String("blog".into())]));
    assert_eq!(fm["draft"], false);
    assert_eq!(body, "# Hello\n\nworld");
}

#[test]
fn byte_order_mark_is_ignored() {
    let content = format!("\u{feff}---\n{VALID_JSON}\n---\nbody");
    let (fm, body) = parse(content).unwrap();

    assert_eq!(fields(fm)["title"], "Post One");
    assert_eq!(body, "body");
}

#[test]
fn optional_fields_may_be_omitted() {
    let json = r#"{"title": "t", "author": "a", "description": "d", "draft": true}"#;
    let content = format!("---\n{json}\n---\nbody");
    let (fm, _) = parse(content).unwrap();

    let fm = fields(fm);
    assert!(fm.get("date").is_none());
    assert!(fm.get("tags").is_none());
}

#[test]
fn returns_none_when_no_frontmatter() {
    let content = "# Just markdown\n\nno frontmatter here".to_string();
    let (fm, body) = parse(content.clone()).unwrap();

    assert!(fm.is_none());
    assert_eq!(body, content);
}

#[test]
fn unknown_key_is_an_error_listing_the_accepted_keys() {
    let json =
        r#"{"title": "t", "author": "a", "description": "d", "draft": false, "tag": ["rust"]}"#;
    assert_eq!(
        frontmatter_error(json),
        format!("invalid frontmatter keys: unknown 'tag'{ACCEPTED_SUFFIX}")
    );
}

#[test]
fn keys_are_compared_exactly() {
    for key in ["Title", "TAGS", "title "] {
        let json = format!(
            r#"{{"title": "t", "author": "a", "description": "d", "draft": false, "{key}": 1}}"#
        );
        assert_eq!(
            frontmatter_error(&json),
            format!("invalid frontmatter keys: unknown '{key}'{ACCEPTED_SUFFIX}"),
            "{key:?}"
        );
    }
}

#[test]
fn only_accepted_keys_parse_as_before() {
    let (fm, _) = parse(format!("---\n{VALID_JSON}\n---\nbody")).unwrap();
    assert_eq!(fields(fm)["title"], "Post One");
    for json in [
        r#"{"title": "t", "author": "a", "description": "d", "draft": false}"#,
        r#"{"title": "t", "author": "a", "description": "d", "date": "2026-01-24", "draft": false}"#,
        r#"{"title": "t", "author": "a", "description": "d", "tags": [], "draft": false}"#,
    ] {
        let (fm, _) = parse(format!("---\n{json}\n---\nbody")).unwrap();
        assert_eq!(fields(fm)["title"], "t", "{json}");
    }
}

#[test]
fn every_unknown_and_missing_key_is_listed_in_a_fixed_order() {
    let expected = format!(
        "invalid frontmatter keys: unknown 'tag', unknown 'titel', missing 'title'{ACCEPTED_SUFFIX}"
    );
    for json in [
        r#"{"titel": "t", "tag": [], "author": "a", "description": "d", "draft": false}"#,
        r#"{"draft": false, "description": "d", "tag": [], "author": "a", "titel": "t"}"#,
    ] {
        assert_eq!(frontmatter_error(json), expected, "{json}");
    }
}

#[test]
fn unknown_keys_are_sorted_byte_wise_and_missing_keys_in_field_order() {
    let json = r#"{"b": 1, "a": 1, "Z": 1}"#;
    assert_eq!(
        frontmatter_error(json),
        format!(
            "invalid frontmatter keys: unknown 'Z', unknown 'a', unknown 'b', missing 'title', missing 'author', missing 'description', missing 'draft'{ACCEPTED_SUFFIX}"
        )
    );
}

#[test]
fn empty_object_reports_every_missing_key_without_the_accepted_list() {
    assert_eq!(
        frontmatter_error("{}"),
        "invalid frontmatter keys: missing 'title', missing 'author', missing 'description', missing 'draft'"
    );
}

#[test]
fn a_repeated_key_is_named_once() {
    for json in [
        r#"{"title": "t", "author": "a", "description": "d", "draft": false, "tag": 1, "tag": 2}"#,
        r#"{"title": "t", "title": "u", "author": "a", "description": "d", "draft": false, "tag": 1}"#,
    ] {
        let msg = frontmatter_error(json);
        assert_eq!(
            msg,
            format!("invalid frontmatter keys: unknown 'tag'{ACCEPTED_SUFFIX}"),
            "{json}"
        );
        assert!(!msg.contains("duplicate field"), "{msg}");
    }
}

#[test]
fn null_valued_key_counts_as_present() {
    let json = r#"{"title": null, "author": "a", "description": "d", "draft": false, "tag": 1}"#;
    let msg = frontmatter_error(json);
    assert_eq!(
        msg,
        format!("invalid frontmatter keys: unknown 'tag'{ACCEPTED_SUFFIX}")
    );
    assert!(!msg.contains("missing"), "{msg}");
}

#[test]
fn key_errors_win_over_wrong_typed_values_in_any_order() {
    let expected = format!("invalid frontmatter keys: unknown 'tag'{ACCEPTED_SUFFIX}");
    for json in [
        r#"{"title": 5, "author": "a", "description": "d", "draft": false, "tag": 1}"#,
        r#"{"tag": 1, "title": 5, "author": "a", "description": "d", "draft": false}"#,
        r#"{"title": "t", "author": "a", "description": "d", "draft": "no", "tag": 1}"#,
        r#"{"tag": 1, "title": "t", "author": "a", "description": "d", "draft": "no"}"#,
    ] {
        let msg = frontmatter_error(json);
        assert_eq!(msg, expected, "{json}");
        assert!(!msg.contains("invalid type"), "{msg}");
    }
}

#[test]
fn unterminated_block_is_an_error() {
    let content = "---\n{\"title\": \"t\"}\nno closing delimiter".to_string();
    assert!(matches!(parse(content), Err(MangoError::Frontmatter(_))));
}

#[test]
fn parses_crlf_frontmatter_and_normalizes_body() {
    let content = crlf(&format!("---\n{VALID_JSON}\n---\n# Hello\n\nworld\n"));
    let (fm, body) = parse(content).unwrap();

    let json = fm.expect("frontmatter should be present");
    assert!(!json.contains('\r'), "carriage return in {json:?}");
    let fm: Value = serde_json::from_str(&json).unwrap();
    assert_eq!(fm["title"], "Post One");
    assert_eq!(fm["author"], "tester");
    assert_eq!(fm["description"], "my first post");
    assert_eq!(fm["date"], "2026-01-24");
    assert_eq!(fm["tags"], Value::Array(vec![Value::String("blog".into())]));
    assert_eq!(fm["draft"], false);
    assert_eq!(body, "# Hello\n\nworld");
    assert!(!body.contains('\r'), "carriage return in body: {body:?}");
}

#[test]
fn crlf_and_lf_documents_parse_identically() {
    let source = format!("---\n{VALID_JSON}\n---\n# Hello\n\nworld\n");
    let (lf_fm, lf_body) = parse(lf(&source)).unwrap();
    let (crlf_fm, crlf_body) = parse(crlf(&source)).unwrap();

    let lf_fm = lf_fm.expect("LF frontmatter");
    let crlf_fm = crlf_fm.expect("CRLF frontmatter");
    assert_eq!(crlf_body, lf_body);
    assert_eq!(crlf_body, "# Hello\n\nworld");
    assert!(!crlf_body.contains('\r'), "carriage return in body");
    assert_eq!(crlf_fm, lf_fm);
    let fm: Value = serde_json::from_str(&crlf_fm).unwrap();
    assert_eq!(fm["title"], "Post One");
}

#[test]
fn byte_order_mark_with_crlf_is_ignored() {
    let content = format!(
        "\u{feff}{}",
        crlf(&format!("---\n{VALID_JSON}\n---\n# Hello\n\nworld\n"))
    );
    let (fm, body) = parse(content).unwrap();

    assert_eq!(fields(fm)["title"], "Post One");
    assert_eq!(body, "# Hello\n\nworld");
}

#[test]
fn parses_mixed_lf_and_crlf_line_endings() {
    let content = [
        "---\r\n",
        "{\"title\": \"t\", \"author\": \"a\",\r\n",
        " \"description\": \"d\", \"draft\": false}\n",
        "---\n",
        "# Hello\r\n",
        "\n",
        "world\r\n",
    ]
    .concat();
    let (fm, body) = parse(content).unwrap();

    assert_eq!(fields(fm)["title"], "t");
    assert_eq!(body, "# Hello\n\nworld");
    assert!(!body.contains('\r'), "carriage return in body: {body:?}");
}

#[test]
fn unterminated_crlf_block_is_an_error() {
    let content = crlf("---\n{\"title\": \"t\"}\nno closing delimiter\n");
    assert!(matches!(parse(content), Err(MangoError::Frontmatter(_))));
}

#[test]
fn crlf_body_is_returned_verbatim_when_no_frontmatter() {
    let content = crlf("# Just markdown\n\nno frontmatter here\n");
    let (fm, body) = parse(content.clone()).unwrap();

    assert!(fm.is_none());
    assert_eq!(body, content);
    assert!(body.contains("\r\n"), "CRLF should survive: {body:?}");
}

#[test]
fn delimiters_may_carry_surrounding_white_space() {
    let content = "  ---\t\n{\"title\": \"t\", \"author\": \"a\", \"description\": \"d\", \"draft\": false}\n --- \nbody".to_string();
    let (fm, body) = parse(content).unwrap();
    assert_eq!(fields(fm)["title"], "t");
    assert_eq!(body, "body");
}

#[test]
fn check_keys_passes_what_is_not_an_object() {
    assert!(check_keys("42").is_ok());
    assert!(check_keys("{not valid json").is_ok());
    assert!(check_keys(r#"{"title": "t", "author": "a", "description": "d", "draft": false}"#).is_ok());
    assert!(matches!(check_keys("{}"), Err(MangoError::Frontmatter(_))));
}
