use mango::index::{build_section_index, build_tag_index, extract_parent_slug, Section, SectionIndex, TagGroup};
use mango::page::{MangoFrontmatter, Page, PageType};
use mango::summary::PageSummary;

fn page_tagged(slug: &str, title: &str, date: Option<&str>, tags: &[&str]) -> Page {
    let fm = MangoFrontmatter {
        title: title.to_string(),
        author: "author".into(),
        description: "description".into(),
        date: date.map(String::from),
        tags: Some(tags.iter().map(|t| t.to_string()).collect()),
        draft: false,
    };
    Page::new(fm, String::new(), PageType::General, &format!("site/{slug}.md"), "site").unwrap()
}

fn page_with(slug: &str, title: &str, date: Option<&str>) -> Page {
    page_tagged(slug, title, date, &[])
}

fn page_with_slug(slug: &str) -> Page {
    page_with(slug, slug, None)
}

fn section<'a>(si: &'a SectionIndex, slug: &str) -> &'a Section {
    si.sections
        .iter()
        .find(|s| s.slug.as_str() == slug)
        .unwrap_or_else(|| panic!("no section '{slug}'"))
}

fn keys(si: &SectionIndex) -> Vec<String> {
    si.sections.iter().map(|s| s.slug.to_string()).collect()
}

fn slugs(si: &SectionIndex, name: &str) -> Vec<String> {
    section(si, name).pages.iter().map(|s| s.slug.to_string()).collect()
}

fn subsections(si: &SectionIndex, name: &str) -> Vec<String> {
    section(si, name).subsections.iter().map(|s| s.to_string()).collect()
}

#[test]
fn groups_pages_under_their_parent_slug() {
    let pages = vec![
        page_with_slug("posts/one"),
        page_with_slug("posts/two"),
        page_with_slug("projects/mango"),
    ];

    let si = build_section_index(&pages);

    assert_eq!(si.sections.len(), 2);
    assert_eq!(section(&si, "posts").pages.len(), 2);
    assert_eq!(section(&si, "projects").pages.len(), 1);
    assert_eq!(section(&si, "projects").pages[0].slug.to_string(), "projects/mango");
}

#[test]
fn top_level_pages_are_not_indexed() {
    let si = build_section_index(&vec![page_with_slug("about")]);
    assert!(si.sections.is_empty());
}

#[test]
fn extract_parent_slug_uses_last_separator() {
    assert_eq!(extract_parent_slug("a/b/c"), Some("a/b".to_string()));
    assert_eq!(extract_parent_slug("posts/one"), Some("posts".to_string()));
    assert_eq!(extract_parent_slug("about"), None);
}

#[test]
fn pages_sorted_newest_first() {
    let pages = vec![
        page_with("posts/old", "A", Some("2020-05-01")),
        page_with("posts/mid", "B", Some("2025-12-31")),
        page_with("posts/new", "C", Some("2026-01-01")),
    ];

    let si = build_section_index(&pages);
    assert_eq!(slugs(&si, "posts"), ["posts/new", "posts/mid", "posts/old"]);
}

#[test]
fn undated_pages_come_last() {
    let pages = vec![
        page_with("posts/undated", "A", None),
        page_with("posts/old", "Z", Some("2001-01-01")),
        page_with("posts/new", "Y", Some("2026-01-01")),
    ];

    let si = build_section_index(&pages);
    assert_eq!(
        slugs(&si, "posts"),
        ["posts/new", "posts/old", "posts/undated"]
    );
}

#[test]
fn ties_broken_by_title_then_slug() {
    let pages = vec![
        page_with("posts/z", "Same", Some("2026-01-24")),
        page_with("posts/b", "Beta", Some("2026-01-24")),
        page_with("posts/a", "Same", Some("2026-01-24")),
        page_with("posts/u2", "Undated", None),
        page_with("posts/u1", "Undated", None),
        page_with("posts/u3", "Alpha", None),
    ];

    let si = build_section_index(&pages);
    assert_eq!(
        slugs(&si, "posts"),
        ["posts/b", "posts/a", "posts/z", "posts/u3", "posts/u1", "posts/u2"]
    );
}

#[test]
fn sections_iterate_in_slug_order() {
    let pages = vec![
        page_with_slug("projects/x"),
        page_with_slug("a/b/c"),
        page_with_slug("posts/x"),
        page_with_slug("a/x"),
    ];

    let si = build_section_index(&pages);
    assert_eq!(keys(&si), ["a", "a/b", "posts", "projects"]);
}

#[test]
fn summary_date_serializes_formatted_or_empty() {
    let pages = vec![
        page_with("posts/dated", "A", Some("2026-01-24")),
        page_with("posts/undated", "B", None),
    ];

    let si = build_section_index(&pages);
    let dates: Vec<String> = section(&si, "posts")
        .pages
        .iter()
        .map(|s| mango::date::serialize_date(&s.date))
        .collect();
    assert_eq!(dates, ["2026-01-24", ""]);
}

#[test]
fn ancestors_get_section_entries() {
    let si = build_section_index(&vec![page_with_slug("a/b/c")]);
    assert_eq!(keys(&si), ["a", "a/b"]);
    assert_eq!(slugs(&si, "a/b"), ["a/b/c"]);
    assert!(!keys(&si).contains(&String::new()), "root is never a section");
}

#[test]
fn section_with_only_subsections_has_empty_pages() {
    let si = build_section_index(&vec![page_with_slug("a/b/c")]);
    assert!(section(&si, "a").pages.is_empty());
    assert_eq!(subsections(&si, "a"), ["a/b"]);
}

#[test]
fn subsections_are_direct_children_sorted() {
    let pages = vec![
        page_with_slug("a/d/e"),
        page_with_slug("a/b/c"),
        page_with_slug("a/b/x/y"),
        page_with_slug("a/top"),
    ];

    let si = build_section_index(&pages);
    assert_eq!(subsections(&si, "a"), ["a/b", "a/d"]);
    assert_eq!(subsections(&si, "a/b"), ["a/b/x"]);
    assert!(section(&si, "a/d").subsections.is_empty());
    assert!(section(&si, "a/b/x").subsections.is_empty());
    assert_eq!(slugs(&si, "a"), ["a/top"]);
    assert_eq!(slugs(&si, "a/b"), ["a/b/c"]);
}

#[test]
fn summary_serializes_url() {
    let si = build_section_index(&vec![page_with_slug("posts/post_one")]);
    assert_eq!(section(&si, "posts").pages[0].url, "/posts/post_one/");
}

fn tag_slugs(summaries: &[PageSummary]) -> Vec<String> {
    summaries.iter().map(|s| s.slug.to_string()).collect()
}

fn group<'a>(index: &'a [TagGroup], tag: &str) -> &'a TagGroup {
    index
        .iter()
        .find(|g| g.tag.as_str() == tag)
        .unwrap_or_else(|| panic!("no tag '{tag}'"))
}

#[test]
fn groups_pages_by_tag_sorted() {
    let pages = vec![
        page_tagged("posts/old", "Old", Some("2020-01-01"), &["rust", "blog"]),
        page_tagged("posts/new", "New", Some("2026-01-01"), &["blog"]),
        page_tagged("about", "About", None, &[]),
        page_tagged("projects/b", "Same", Some("2025-01-01"), &["rust"]),
        page_tagged("projects/a", "Same", Some("2025-01-01"), &["rust"]),
    ];

    let index = build_tag_index(&pages);
    let keys: Vec<_> = index.iter().map(|g| g.tag.to_string()).collect();
    assert_eq!(keys, ["blog", "rust"]);
    assert_eq!(tag_slugs(&group(&index, "blog").pages), ["posts/new", "posts/old"]);
    assert_eq!(
        tag_slugs(&group(&index, "rust").pages),
        ["projects/a", "projects/b", "posts/old"]
    );
}

#[test]
fn undated_pages_sort_last() {
    let pages = vec![
        page_tagged("posts/undated", "A", None, &["blog"]),
        page_tagged("posts/old", "Z", Some("2001-01-01"), &["blog"]),
        page_tagged("posts/new", "Y", Some("2026-01-01"), &["blog"]),
    ];

    let index = build_tag_index(&pages);
    assert_eq!(
        tag_slugs(&group(&index, "blog").pages),
        ["posts/new", "posts/old", "posts/undated"]
    );
}

#[test]
fn no_tags_gives_empty_index() {
    let index = build_tag_index(&vec![page_tagged("a", "A", None, &[])]);
    assert!(index.is_empty());
}

#[test]
fn summaries_have_no_tags_key() {
    let index = build_tag_index(&vec![page_tagged("a/b", "A", None, &["blog"])]);
    let summary = &group(&index, "blog").pages[0];
    assert_eq!(summary.url, "/a/b/");
    assert_eq!(summary.title, "A");
}

#[test]
fn a_page_is_listed_once_per_tag_even_when_repeated() {
    let pages = vec![page_tagged("posts/a", "A", None, &["blog", "blog"])];
    let index = build_tag_index(&pages);
    assert_eq!(index.len(), 1);
    assert_eq!(tag_slugs(&group(&index, "blog").pages), ["posts/a"]);
}
