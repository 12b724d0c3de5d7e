use mango::output::{Body, Output, OutputKind};
use mango::page::{MangoFrontmatter, Page, PageType};
use mango::slug::Slug;
use mango::summary::PageSummary;
use mango::tag::Tag;
use mango::template::{
    render_home_page, render_page, render_section_page, render_tag_index, render_tag_page,
    to_html, HomeSection, PageTemplate, SectionLink, TagIndexEntry, TemplateContext,
};

fn page_with(slug: &str, date: Option<&str>) -> Page {
    let fm = MangoFrontmatter {
        title: "Title".into(),
        author: "Author".into(),
        description: "d".into(),
        date: date.map(String::from),
        tags: None,
        draft: false,
    };
    Page::new(fm, String::new(), PageType::General, &format!("site/{slug}.md"), "site").unwrap()
}

fn page_context(o: &Output) -> &PageTemplate {
    match &o.body {
        Body::Template { context: TemplateContext::Page(t), .. } => t,
        other => panic!("not a page: {other:?}"),
    }
}

fn template_name(o: &Output) -> &str {
    match &o.body {
        Body::Template { name, .. } => name,
        other => panic!("not a template output: {other:?}"),
    }
}

#[test]
fn page_context_includes_description() {
    let fm = MangoFrontmatter {
        title: "Title".into(),
        author: "Author".into(),
        description: "my first post".into(),
        date: None,
        tags: None,
        draft: false,
    };
    let page = Page::new(fm, "# Hi".into(), PageType::General, "site/a.md", "site").unwrap();

    let item = render_page(&page);
    assert_eq!(page_context(&item).description, "my first post");
    assert_eq!(page_context(&item).content, "<h1>Hi</h1>\n");
}

#[test]
fn page_context_date_is_formatted_or_empty() {
    let dated = page_with("posts/dated", Some("2026-01-24"));
    let undated = page_with("posts/undated", None);

    let item = render_page(&dated);
    assert_eq!(mango::date::serialize_date(&page_context(&item).date), "2026-01-24");
    assert_eq!(item.kind.label(), "page 'posts/dated'");

    let item = render_page(&undated);
    assert_eq!(mango::date::serialize_date(&page_context(&item).date), "");
}

#[test]
fn page_context_includes_url() {
    let item = render_page(&page_with("posts/post_one", None));
    assert_eq!(page_context(&item).url, "/posts/post_one/");
    assert_eq!(template_name(&item), "page.html");
}

#[test]
fn section_context_includes_config_url_and_subsections() {
    let item = render_section_page(
        Slug::from_test_text("a"),
        Vec::new(),
        vec![SectionLink::new("a/b".into())],
    );
    assert_eq!(item.kind, OutputKind::Section(Slug::from_test_text("a")));
    assert_eq!(item.kind.label(), "section index 'a'");
    match &item.body {
        Body::Template { name, context: TemplateContext::Section(section) } => {
            assert_eq!(name, "section.html");
            assert_eq!(section.url, "/a/");
            assert_eq!(section.pages.len(), 0);
            assert_eq!(section.subsections[0].slug, "a/b");
            assert_eq!(section.subsections[0].url, "/a/b/");
        }
        other => panic!("{other:?}"),
    }
}

#[test]
fn home_item_fields_and_context() {
    let item = render_home_page(Vec::new(), vec![HomeSection::new("posts".into(), 3)]);
    assert_eq!(item.kind, OutputKind::Home);
    assert_eq!(item.kind.label(), "home page");
    assert_eq!(template_name(&item), "home.html");
    match &item.body {
        Body::Template { context: TemplateContext::Home(home), .. } => {
            assert_eq!(home.recent.len(), 0);
            assert_eq!(home.sections[0].slug, "posts");
            assert_eq!(home.sections[0].url, "/posts/");
            assert_eq!(home.sections[0].page_count, 3);
        }
        other => panic!("{other:?}"),
    }
}

#[test]
fn page_context_tags_are_links() {
    let fm = MangoFrontmatter {
        title: "Title".into(),
        author: "Author".into(),
        description: "d".into(),
        date: Some("2026-01-24".into()),
        tags: Some(vec!["static-site".into(), "blog".into(), "static-site".into()]),
        draft: false,
    };
    let page = Page::new(fm, String::new(), PageType::General, "site/posts/one.md", "site").unwrap();

    let item = render_page(&page);
    let tags: Vec<(String, String)> = page_context(&item)
        .tags
        .iter()
        .map(|t| (t.name.clone(), t.url.clone()))
        .collect();
    assert_eq!(
        tags,
        [
            ("static-site".to_string(), "/tags/static-site/".to_string()),
            ("blog".to_string(), "/tags/blog/".to_string()),
        ]
    );
    assert_eq!(item.kind, OutputKind::Page { slug: page.slug.cloned(), date: page.date });
}

#[test]
fn tag_index_context_and_source() {
    let item = render_tag_index(vec![
        TagIndexEntry::new("blog".into(), 2),
        TagIndexEntry::new("rust".into(), 1),
    ]);
    assert_eq!(item.relative(), "tags/index.html");
    assert_eq!(item.kind.label(), "tag index");
    assert_eq!(template_name(&item), "tags.html");
    match &item.body {
        Body::Template { context: TemplateContext::TagIndex(entries), .. } => {
            let got: Vec<(String, String, usize)> = entries
                .iter()
                .map(|e| (e.name.clone(), e.url.clone(), e.page_count))
                .collect();
            assert_eq!(
                got,
                [
                    ("blog".to_string(), "/tags/blog/".to_string(), 2),
                    ("rust".to_string(), "/tags/rust/".to_string(), 1),
                ]
            );
        }
        other => panic!("{other:?}"),
    }
}

#[test]
fn tag_page_context_and_source() {
    let page = page_with("posts/one", Some("2026-01-24"));
    let item = render_tag_page(Tag::parse("blog".into()).unwrap(), vec![PageSummary::from(&page)]);
    assert_eq!(item.relative(), "tags/blog/index.html");
    assert_eq!(item.kind.label(), "tag page 'blog'");
    assert_eq!(template_name(&item), "tag.html");
    match &item.body {
        Body::Template { context: TemplateContext::Tag(tag), .. } => {
            assert_eq!(tag.name, "blog");
            assert_eq!(tag.url, "/tags/blog/");
            assert_eq!(tag.pages.len(), 1);
            assert_eq!(tag.pages[0].title, "Title");
            assert_eq!(mango::date::serialize_date(&tag.pages[0].date), "2026-01-24");
            assert_eq!(tag.pages[0].slug.to_string(), "posts/one");
            assert_eq!(tag.pages[0].url, "/posts/one/");
        }
        other => panic!("{other:?}"),
    }
}

#[test]
fn renders_tables() {
    let html = to_html("| a | b |\n|---|---|\n| 1 | 2 |\n");
    assert!(html.contains("<table>"), "{html}");
}

#[test]
fn renders_footnotes() {
    let html = to_html("text[^1]\n\n[^1]: note\n");
    assert!(html.contains(r#"<sup class="footnote-reference">"#), "{html}");
    assert!(html.contains(r#"<div class="footnote-definition""#), "{html}");
}

#[test]
fn renders_strikethrough() {
    let html = to_html("~~gone~~");
    assert!(html.contains("<del>gone</del>"), "{html}");
}

#[test]
fn renders_tasklists() {
    let html = to_html("- [ ] todo\n");
    let input = html
        .split("<input")
        .nth(1)
        .unwrap_or_else(|| panic!("no <input in: {html}"));
    let tag = input.split('>').next().unwrap();
    assert!(tag.contains(r#"type="checkbox""#), "{html}");
}

#[test]
fn renders_heading_attributes() {
    let html = to_html("# Title {#my-id}\n");
    assert!(html.contains(r#"<h1 id="my-id">"#), "{html}");
}
