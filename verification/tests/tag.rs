use mango::error::MangoError;
use mango::slug::Slug;
use mango::tag::Tag;

fn names(tags: &[Tag]) -> Vec<String> {
    tags.iter().map(Tag::to_string).collect()
}

fn tag(value: &str) -> Tag {
    Tag::parse(value.to_string()).unwrap()
}

#[test]
fn validate_tags_accepts_valid_values() {
    let good = ["blog", "static-site", "a1", "2026", "a-b-c"];
    let tags: Vec<String> = good.iter().map(|t| t.to_string()).collect();
    assert_eq!(names(&Tag::parse_list(tags).unwrap()), good);
}

#[test]
fn validate_tags_rejects_invalid_values_naming_value() {
    let bad = [
        "",
        "Rust",
        "static site",
        "c++",
        "-rust",
        "rust-",
        "a--b",
        "café",
        "ünï",
    ];
    for value in bad {
        let err = Tag::parse_list(vec!["ok".into(), value.into()]).expect_err(value);
        assert!(
            matches!(err, MangoError::Frontmatter(_)),
            "{value}: {err:?}"
        );
        let msg = err.to_string();
        assert!(msg.contains(&format!("'{value}'")), "{value}: {msg}");
        assert!(
            msg.contains(&format!(
                "invalid tag '{value}': expected lowercase ASCII letters and digits separated by single hyphens"
            )),
            "{value}: {msg}"
        );

        let err = Tag::parse(value.to_string()).expect_err(value);
        assert_eq!(
            err.to_string(),
            format!(
                "Mango Frontmatter Error: invalid tag '{value}': expected lowercase ASCII letters and digits separated by single hyphens"
            )
        );
    }
}

#[test]
fn validate_tags_removes_duplicates_keeping_order() {
    let tags = ["b", "a", "b", "c", "a"].map(String::from).to_vec();
    assert_eq!(names(&Tag::parse_list(tags).unwrap()), ["b", "a", "c"]);
}

#[test]
fn tag_slug_is_under_tags() {
    assert_eq!(tag("blog").slug().to_string(), "tags/blog");
    assert_eq!(tag("blog").url(), "/tags/blog/");
    assert_eq!(tag("blog").slug().parent(), Some(Slug::tag_index()));
}

#[test]
fn first_invalid_tag_is_reported() {
    let err = Tag::parse_list(vec!["ok".into(), "Bad".into(), "c++".into()]).expect_err("invalid");
    assert_eq!(
        err.to_string(),
        "Mango Frontmatter Error: invalid tag 'Bad': expected lowercase ASCII letters and digits separated by single hyphens"
    );
}
