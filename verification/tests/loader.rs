use mango::error::MangoError;
use mango::frontmatter::parse;
use mango::loader::{keep_published, missing_frontmatter, not_a_directory, page_from_frontmatter, symlinked_folder};
use mango::page::{MangoFrontmatter, Page};
use serde_json::Value;

/// A typed reading of the frontmatter JSON, as the command does it.
fn typed(json: &str) -> Result<MangoFrontmatter, String> {
    let v: Value = serde_json::from_str(json).map_err(|e| e.to_string())?;
    let text = |key: &str| -> Result<String, String> {
        v.get(key)
            .and_then(Value::as_str)
            .map(String::from)
            .ok_or_else(|| format!("missing or invalid field `{key}`"))
    };
    let date = match v.get("date") {
        None | Some(Value::Null) => None,
        Some(d) => Some(d.as_str().ok_or("invalid type for `date`")?.to_string()),
    };
    let tags = match v.get("tags") {
        None | Some(Value::Null) => None,
        Some(t) => Some(
            t.as_array()
                .ok_or("invalid type for `tags`")?
                .iter()
                .map(|x| x.as_str().map(String::from).ok_or("invalid tag type".to_string()))
                .collect::<Result<Vec<_>, _>>()?,
        ),
    };
    Ok(MangoFrontmatter {
        title: text("title")?,
        author: text("author")?,
        description: text("description")?,
        date,
        tags,
        draft: v.get("draft").and_then(Value::as_bool).ok_or("missing field `draft`")?,
    })
}

/// One file of a site, loaded the way the command loads it.
fn load_file(path: &str, site: &str, content: &str) -> Result<Page, MangoError> {
    let (json, body) = parse(content.to_string()).map_err(|e| e.in_file(path))?;
    let json = json.ok_or_else(|| missing_frontmatter(path))?;
    page_from_frontmatter(path, site, typed(&json), body)
}

fn page(title: &str, draft: bool) -> String {
    format!(
        "---\n{{\"title\": \"{title}\", \"author\": \"a\", \"description\": \"d\", \"draft\": {draft}}}\n---\nbody\n"
    )
}

fn dated_page(title: &str, date: &str, draft: bool) -> String {
    format!(
        "---\n{{\"title\": \"{title}\", \"author\": \"a\", \"description\": \"d\", \"date\": {date}, \"draft\": {draft}}}\n---\nbody\n"
    )
}

#[test]
fn subdirectory_page_without_frontmatter_is_an_error_naming_the_file() {
    let err = load_file("site/posts/bad.md", "site", "# no frontmatter\n").expect_err("missing");
    let msg = err.to_string();
    assert!(msg.contains("bad.md"), "{msg}");
    assert!(msg.contains("missing frontmatter"), "{msg}");
}

#[test]
fn subdirectory_malformed_frontmatter_is_an_error_naming_the_file() {
    let serde_msg = serde_json::from_str::<Value>("{not valid json").unwrap_err().to_string();
    let err = load_file("site/posts/bad.md", "site", "---\n{not valid json\n---\nbody\n").expect_err("malformed");
    assert!(matches!(err, MangoError::Frontmatter(_)), "{err:?}");
    let msg = err.to_string();
    assert!(msg.contains("bad.md"), "{msg}");
    assert!(msg.contains(&serde_msg), "expected '{serde_msg}' in: {msg}");
}

#[test]
fn loads_pages_nested_two_levels_deep() {
    let page = load_file("site/a/b/page.md", "site", &page("Deep", false)).unwrap();
    assert_eq!(page.slug.to_string(), "a/b/page");
}

#[test]
fn non_directory_site_is_a_general_error() {
    let err = not_a_directory("fixtures/not_a_dir.md");
    assert!(matches!(err, MangoError::General(_)), "{err:?}");
    assert!(err.to_string().contains("not_a_dir.md"), "{}", err.to_string());
}

#[test]
fn malformed_draft_is_still_an_error() {
    let err = load_file("site/posts/draft.md", "site", "---\n{\"title\": \"t\", \"draft\": true,\n---\nbody\n")
        .expect_err("malformed draft must still fail the load");
    assert!(matches!(err, MangoError::Frontmatter(_)), "{err:?}");
    assert!(err.to_string().contains("draft.md"), "{}", err.to_string());
}

#[test]
fn valid_date_is_parsed() {
    let one = load_file("site/posts/one.md", "site", &dated_page("One", "\"2026-01-24\"", false)).unwrap();
    let leap = load_file("site/posts/leap.md", "site", &dated_page("Leap", "\"2024-02-29\"", false)).unwrap();
    assert_eq!(mango::date::serialize_date(&leap.date), "2024-02-29");
    assert_eq!(mango::date::serialize_date(&one.date), "2026-01-24");
}

fn assert_date_error(value: &str, draft: bool) {
    let json_value = serde_json::to_string(value).unwrap();
    let err = load_file("site/posts/bad_date.md", "site", &dated_page("Bad", &json_value, draft))
        .expect_err("invalid date must fail the load");
    assert!(matches!(err, MangoError::Frontmatter(_)), "{value}: {err:?}");
    let msg = err.to_string();
    assert!(msg.contains("bad_date.md"), "{value}: {msg}");
    assert!(msg.contains(&format!("'{value}'")), "{value}: {msg}");
}

#[test]
fn invalid_date_format_is_frontmatter_error_naming_file_and_value() {
    for value in ["2026/01/24", "2026-1-24", "26-01-24", "2026-01-24T10:00:00", "+2026-01-24", " 2026-01-24", ""] {
        assert_date_error(value, false);
    }
}

#[test]
fn impossible_date_is_frontmatter_error_naming_file_and_value() {
    for value in ["2026-02-30", "2026-13-01"] {
        assert_date_error(value, false);
    }
}

#[test]
fn missing_or_null_date_is_undated() {
    let missing = load_file("site/posts/missing.md", "site", &page("Missing", false)).unwrap();
    let null = load_file("site/posts/null.md", "site", &dated_page("Null", "null", false)).unwrap();
    assert!(missing.date.is_none() && null.date.is_none());
}

#[test]
fn invalid_date_in_draft_is_still_an_error() {
    assert_date_error("2026-02-30", true);
}

#[test]
fn directory_named_md_is_traversed() {
    let page = load_file("site/notes.md/inner.md", "site", &page("Inner", false)).unwrap();
    assert_eq!(page.slug.to_string(), "notes.md/inner");
}

#[test]
fn draft_pages_are_excluded_after_loading() {
    let published = load_file("site/posts/published.md", "site", &page("Published", false)).unwrap();
    let secret = load_file("site/posts/secret.md", "site", &page("Secret", true)).unwrap();
    let slugs: Vec<_> = keep_published(vec![published, secret]).iter().map(|p| p.slug.to_string()).collect();
    assert_eq!(slugs, vec!["posts/published"]);
}

#[test]
fn invalid_file_name_is_an_error_naming_the_file_even_for_drafts() {
    let err = load_file("site/my posts/draft.md", "site", &page("Draft", true)).expect_err("space");
    let msg = err.to_string();
    assert!(msg.contains("draft.md"), "{msg}");
    assert!(msg.contains("invalid file name 'my posts'"), "{msg}");
}

#[test]
fn frontmatter_error_wins_over_invalid_file_name() {
    for (i, extra) in ["\"tags\": [\"Rust\"]", "\"date\": \"2026-02-30\""].iter().enumerate() {
        let content = format!(
            "---\n{{\"title\": \"t\", \"author\": \"a\", \"description\": \"d\", \"draft\": false, {extra}}}\n---\nbody\n"
        );
        let err = load_file("site/my posts/x.md", "site", &content).expect_err("both errors present");
        assert!(matches!(err, MangoError::Frontmatter(_)), "{extra}: {err:?}");
        let msg = err.to_string();
        let value = if i == 0 { "'Rust'" } else { "'2026-02-30'" };
        assert!(msg.contains(value), "{msg}");
        assert!(!msg.contains("invalid file name"), "{msg}");
    }
}

#[test]
fn missing_required_key_is_a_frontmatter_error_naming_the_file() {
    let file = "site/posts/no_title.md";
    let err = load_file(file, "site", "---\n{\"author\": \"a\", \"description\": \"d\", \"draft\": false}\n---\nbody\n")
        .expect_err("a missing required key must fail the load");
    assert!(matches!(err, MangoError::Frontmatter(_)), "{err:?}");
    let msg = err.to_string();
    let prefix = format!("Mango Frontmatter Error: {file}: ");
    assert!(msg.starts_with(&prefix), "{msg}");
}

#[test]
fn key_errors_win_over_date_tag_and_file_name_errors() {
    let file = "site/my posts/x.md";
    let err = load_file(
        file,
        "site",
        "---\n{\"title\": \"t\", \"author\": \"a\", \"description\": \"d\", \"draft\": false, \"date\": \"2026-02-30\", \"tags\": [\"Rust\"], \"tag\": []}\n---\nbody\n",
    )
    .expect_err("key errors must fail the load");
    assert!(matches!(err, MangoError::Frontmatter(_)), "{err:?}");
    let msg = err.to_string();
    assert!(msg.contains(file), "{msg}");
    assert!(msg.contains("unknown 'tag'"), "{msg}");
    assert!(!msg.contains("invalid date"), "{msg}");
    assert!(!msg.contains("'Rust'"), "{msg}");
    assert!(!msg.contains("invalid file name"), "{msg}");
}

#[test]
fn unknown_key_in_draft_is_still_an_error() {
    let err = load_file(
        "site/posts/draft.md",
        "site",
        "---\n{\"title\": \"t\", \"author\": \"a\", \"description\": \"d\", \"draft\": true, \"dates\": \"2026-01-24\"}\n---\nbody\n",
    )
    .expect_err("an unknown key in a draft must fail the load");
    assert!(matches!(err, MangoError::Frontmatter(_)), "{err:?}");
    let msg = err.to_string();
    assert!(msg.contains("draft.md"), "{msg}");
    assert!(msg.contains("unknown 'dates'"), "{msg}");
}

#[test]
fn dot_only_file_name_is_rejected_even_for_drafts() {
    let err = load_file("site/posts/...md", "site", &page("Draft", true)).expect_err("dot-only");
    assert!(matches!(err, MangoError::General(_)), "{err:?}");
    let msg = err.to_string();
    assert!(msg.contains("...md"), "{msg}");
    assert!(msg.contains("invalid file name '..': a segment cannot consist only of dots"), "{msg}");
}

#[test]
fn backslash_in_folder_name_is_rejected_even_for_drafts() {
    let file = "site/x\\y/p.md";
    let err = load_file(file, "site", &page("Draft", true)).expect_err("backslash");
    assert!(matches!(err, MangoError::General(_)), "{err:?}");
    let msg = err.to_string();
    assert!(msg.contains(file), "{msg}");
    assert!(msg.contains("invalid file name 'x\\y'"), "{msg}");
}

#[test]
fn frontmatter_error_wins_over_backslash_in_name() {
    for (extra, expected) in [("\"tags\": [\"Rust\"]", "'Rust'"), ("\"date\": \"2026-02-30\"", "'2026-02-30'")] {
        let content = format!(
            "---\n{{\"title\": \"t\", \"author\": \"a\", \"description\": \"d\", \"draft\": false, {extra}}}\n---\nbody\n"
        );
        let err = load_file("site/a\\b.md", "site", &content).expect_err("both errors present");
        assert!(matches!(err, MangoError::Frontmatter(_)), "{extra}: {err:?}");
        let msg = err.to_string();
        assert!(msg.contains(expected), "{msg}");
        assert!(!msg.contains("invalid file name"), "{msg}");
    }
}

#[test]
fn load_accepts_backslash_in_site_folder_path() {
    let page = load_file("fixtures/my\\site/posts/one.md", "fixtures/my\\site", &page("One", false)).unwrap();
    assert_eq!(page.slug.to_string(), "posts/one");
}

#[test]
fn load_rejects_symlinked_directory() {
    let err = symlinked_folder("site", "site/posts/vendor");
    assert!(matches!(err, MangoError::General(_)), "{err:?}");
    let msg = err.to_string();
    assert!(msg.contains("content folder 'posts/vendor'"), "{msg}");
    assert!(msg.contains("symlink to a directory"), "{msg}");
    assert!(msg.contains("site/posts/vendor"), "{msg}");
    assert!(msg.ends_with("replace it with a real folder"), "{msg}");
}
