use mango::date::{parse_date, serialize_date, Date};
use mango::error::MangoError;
use mango::page::{MangoFrontmatter, Page, PageType};

fn frontmatter() -> MangoFrontmatter {
    MangoFrontmatter {
        title: "Title".into(),
        author: "Author".into(),
        description: "Description".into(),
        date: None,
        tags: None,
        draft: false,
    }
}

fn new_page(fm: MangoFrontmatter) -> Result<Page, MangoError> {
    Page::new(fm, "content".into(), PageType::General, "site/posts/post_one.md", "site")
}

#[test]
fn new_defaults_missing_date_and_tags() {
    let page = new_page(frontmatter()).unwrap();

    assert!(page.date.is_none());
    assert!(page.tags.is_empty());
    assert_eq!(page.slug.to_string(), "posts/post_one");
    assert_eq!(page.title, "Title");
    assert_eq!(page.content, "content");
    assert_eq!(page.kind, PageType::General);
}

#[test]
fn page_generate_slug_strips_site_prefix_and_extension() {
    let mut page = Page::new(frontmatter(), String::new(), PageType::General, "site/index.md", "site").unwrap();
    page.generate_slug("site/posts/post_one.md", "site").unwrap();

    assert_eq!(page.slug.to_string(), "posts/post_one");
}

#[test]
fn page_generate_slug_fails_when_path_is_outside_site() {
    let mut page = Page::new(frontmatter(), String::new(), PageType::General, "site/index.md", "site").unwrap();
    let result = page.generate_slug("elsewhere/post.md", "site");

    assert!(matches!(result, Err(MangoError::General(_))));
    assert_eq!(page.slug.to_string(), "index");
}

#[test]
fn new_fails_when_path_is_outside_site() {
    let result = Page::new(frontmatter(), String::new(), PageType::General, "elsewhere/post.md", "site");
    assert!(matches!(result, Err(MangoError::General(_))));
}

#[test]
fn parse_date_accepts_valid_and_leap_day_dates() {
    let d = parse_date("2026-01-24").unwrap();
    assert_eq!((d.year(), d.month(), d.day()), (2026, 1, 24));
    assert_eq!(d, Date::from_ymd(2026, 1, 24).unwrap());
    let d = parse_date("2024-02-29").unwrap();
    assert_eq!(d, Date::from_ymd(2024, 2, 29).unwrap());
}

#[test]
fn parse_date_rejects_wrong_formats() {
    let bad = [
        "2026/01/24",
        "2026-1-24",
        "26-01-24",
        "2026-01-24T10:00:00",
        "+2026-01-24",
        " 2026-01-24",
        "",
    ];
    for value in bad {
        let err = parse_date(value).expect_err(value);
        assert!(
            matches!(err, MangoError::Frontmatter(_)),
            "{value}: {err:?}"
        );
        assert!(
            err.to_string().contains(&format!("'{value}'")),
            "{value}: {}",
            err.to_string()
        );
    }
}

#[test]
fn parse_date_rejects_impossible_dates() {
    for value in ["2026-02-30", "2026-13-01", "2025-02-29", "2026-00-10"] {
        let err = parse_date(value).expect_err(value);
        assert!(
            matches!(err, MangoError::Frontmatter(_)),
            "{value}: {err:?}"
        );
        assert!(err.to_string().contains(value), "{value}: {}", err.to_string());
    }
}

#[test]
fn new_rejects_invalid_date() {
    let mut fm = frontmatter();
    fm.date = Some("2026-02-30".into());
    let result = new_page(fm);
    assert!(matches!(result, Err(MangoError::Frontmatter(_))));
}

#[test]
fn page_date_serializes_formatted_or_empty() {
    let mut fm = frontmatter();
    fm.date = Some("2026-01-24".into());
    let dated = new_page(fm).unwrap();
    let undated = new_page(frontmatter()).unwrap();

    assert_eq!(serialize_date(&dated.date), "2026-01-24");
    assert_eq!(serialize_date(&undated.date), "");
}

#[test]
fn date_error_message_is_exact() {
    let err = parse_date("2026-02-30").unwrap_err();
    assert_eq!(
        err.to_string(),
        "Mango Frontmatter Error: invalid date '2026-02-30': expected a valid YYYY-MM-DD date"
    );
}

#[test]
fn date_comes_before_tags_and_tags_before_the_file_name() {
    let mut fm = frontmatter();
    fm.date = Some("2026-02-30".into());
    fm.tags = Some(vec!["Rust".into()]);
    let err = Page::new(fm, String::new(), PageType::General, "site/my posts/x.md", "site").unwrap_err();
    assert!(err.to_string().contains("'2026-02-30'"), "{}", err.to_string());

    let mut fm = frontmatter();
    fm.tags = Some(vec!["Rust".into()]);
    let err = Page::new(fm, String::new(), PageType::General, "site/my posts/x.md", "site").unwrap_err();
    assert!(err.to_string().contains("'Rust'"), "{}", err.to_string());

    let err = Page::new(frontmatter(), String::new(), PageType::General, "site/my posts/x.md", "site")
        .unwrap_err();
    assert!(matches!(err, MangoError::General(_)));
    assert!(err.to_string().contains("invalid file name 'my posts'"));
}

#[test]
fn tags_are_deduplicated_in_order() {
    let mut fm = frontmatter();
    fm.tags = Some(vec!["static-site".into(), "blog".into(), "static-site".into()]);
    let page = new_page(fm).unwrap();
    let tags: Vec<String> = page.tags.iter().map(|t| t.to_string()).collect();
    assert_eq!(tags, ["static-site", "blog"]);
}

#[test]
fn rfc822_names_the_weekday() {
    let d = Date::from_ymd(2026, 2, 7).unwrap();
    assert_eq!(d.to_rfc822(), "Sat, 07 Feb 2026 00:00:00 +0000");
    assert_eq!(d.to_text(), "2026-02-07");
    assert!(Date::from_ymd(2026, 2, 29).is_none());
    assert!(Date::from_ymd(-1, 1, 1).is_none());
}
