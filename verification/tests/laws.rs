use mango::config::{base_url_root, SiteConfig};
use mango::date::parse_date;
use mango::frontmatter::parse;
use mango::index::build_section_index;
use mango::page::{MangoFrontmatter, Page, PageType};
use mango::pipeline::plan;
use mango::slug::Slug;
use mango::tag::Tag;

fn page(slug: &str, date: Option<&str>) -> Page {
    let fm = MangoFrontmatter {
        title: slug.to_string(),
        author: "a".into(),
        description: "d".into(),
        date: date.map(String::from),
        tags: None,
        draft: false,
    };
    Page::new(fm, String::new(), PageType::General, &format!("site/{slug}.md"), "site").unwrap()
}

#[test]
fn a_parsed_date_prints_back_as_written() {
    for text in ["2026-01-24", "2024-02-29", "0001-12-31", "9999-12-31"] {
        assert_eq!(parse_date(text).unwrap().to_text(), text);
    }
}

#[test]
fn a_tags_page_or_folder_is_refused() {
    for slug in ["tags", "tags/x"] {
        let pages = vec![page(slug, None)];
        assert!(plan(&pages, &SiteConfig::default(), Vec::new(), "dist").is_err(), "{slug}");
    }
    assert!(plan(&vec![page("tagz/x", None)], &SiteConfig::default(), Vec::new(), "dist").is_ok());
}

#[test]
fn urls_of_valid_slugs_need_no_encoding() {
    for text in ["posts/post_one", "A-b_c/v1.2", "a/.b/c"] {
        let url = Slug::from_test_text(text).url();
        assert!(
            url.chars().all(|c| c.is_ascii_alphanumeric() || "-_./".contains(c)),
            "{url}"
        );
    }
}

#[test]
fn trimming_the_base_url_is_idempotent() {
    let with = |url: &str| SiteConfig { base_url: Some(url.into()), ..SiteConfig::default() };
    let once = base_url_root(&with("https://example.com///")).unwrap().to_string();
    assert_eq!(base_url_root(&with(&once)).unwrap(), once);
    assert!(!once.ends_with('/'));
}

#[test]
fn a_byte_order_mark_changes_nothing() {
    let doc = "---\n{\"title\": \"t\", \"author\": \"a\", \"description\": \"d\", \"draft\": false}\n---\nbody\n";
    let plain = parse(doc.to_string()).unwrap();
    let marked = parse(format!("\u{feff}{doc}")).unwrap();
    assert_eq!(plain, marked);
}

#[test]
fn every_page_is_listed_by_its_folder_once() {
    let pages = vec![page("a/b/one", Some("2026-01-01")), page("a/two", None), page("a/b/three", None)];
    let si = build_section_index(&pages);
    let total: usize = si.sections.iter().map(|s| s.pages.len()).sum();
    assert_eq!(total, pages.len());
    let keys: Vec<String> = si.sections.iter().map(|s| s.slug.to_string()).collect();
    assert_eq!(keys, ["a", "a/b"]);
}

#[test]
fn a_tag_page_lies_in_the_tag_index() {
    let tag = Tag::parse("rust".into()).unwrap();
    assert_eq!(tag.slug().parent(), Some(Slug::tag_index()));
}
