//! What each template is given, and the outputs that render through them.

use vstd::prelude::*;
use vstd::string::StringExecFns;
use crate::date::Date;
use crate::output::{Body, Output, OutputKind};
use crate::page::Page;
use crate::slug::{slug_url, Slug};
use crate::summary::PageSummary;
use crate::tag::Tag;
use crate::text::chars_of;

verus! {

/// The HTML that pulldown-cmark's `push_html` writes for the markdown
/// `content` parsed with the extension bits `options`.
pub uninterp spec fn markdown_html(content: Seq<char>, options: u32) -> Seq<char>;

/// The markdown extensions pages may use: tables (`1 << 1`), footnotes
/// (`1 << 2`), strikethrough (`1 << 3`), task lists (`1 << 4`) and heading
/// attributes (`1 << 6`), as pulldown-cmark numbers them.
pub const MARKDOWN_OPTIONS: u32 = 94;

/// pulldown-cmark: `Parser::new_ext` over `content` with the extensions whose
/// bits are set in `options`, written out by `html::push_html`. The HTML is
/// named, not stated: it is a function of the two arguments.
#[verifier::external_body]
fn render_markdown(content: &str, options: u32) -> (r: String)
    ensures
        r@ == markdown_html(content@, options),
{
    let parser = pulldown_cmark::Parser::new_ext(
        content,
        pulldown_cmark::Options::from_bits_truncate(options),
    );
    let mut html = String::new();
    pulldown_cmark::html::push_html(&mut html, parser);
    html
}

/// A page's markdown as HTML, with tables, footnotes, strikethrough, task
/// lists and heading attributes (`{#id}`) turned on.
pub fn to_html(content: &str) -> (r: String)
    ensures
        r@ == markdown_html(content@, MARKDOWN_OPTIONS),
{
    render_markdown(content, MARKDOWN_OPTIONS)
}

/// A link to a tag page: `page.tags[]` entries.
#[derive(Debug)]
pub struct TagLink {
    pub name: String,
    pub url: String,
}

impl TagLink {
    pub fn new(name: String) -> (r: TagLink)
        ensures
            r.name@ == name@,
            r.url@ == slug_url("tags/"@ + name@),
    {
        let url = tag_url(&name);
        TagLink { name, url }
    }
}

/// `/tags/<name>/`.
fn tag_url(name: &String) -> (r: String)
    ensures
        r@ == slug_url("tags/"@ + name@),
{
    let r = String::from_str("/tags/").concat(name.as_str()).concat("/");
    proof {
        reveal_strlit("/tags/");
        reveal_strlit("tags/");
        reveal_strlit("/");
        assert(("tags/"@ + name@).len() > 0);
        assert(r@ =~= seq!['/'] + ("tags/"@ + name@) + seq!['/']);
    }
    r
}

/// `/<slug>/`, or `/` for the empty slug.
fn text_url(slug: &String) -> (r: String)
    ensures
        r@ == slug_url(slug@),
{
    proof {
        reveal_strlit("/");
    }
    if chars_of(slug.as_str()).len() == 0 {
        proof {
            assert(slug@ =~= Seq::<char>::empty());
        }
        String::from_str("/")
    } else {
        let r = String::from_str("/").concat(slug.as_str()).concat("/");
        assert(r@ =~= seq!['/'] + slug@ + seq!['/']);
        r
    }
}

/// A tag listed on the tag index: `tags[]` entries.
#[derive(Debug)]
pub struct TagIndexEntry {
    pub name: String,
    pub url: String,
    pub page_count: usize,
}

impl TagIndexEntry {
    pub fn new(name: String, page_count: usize) -> (r: TagIndexEntry)
        ensures
            r.name@ == name@,
            r.url@ == slug_url("tags/"@ + name@),
            r.page_count == page_count,
    {
        let url = tag_url(&name);
        TagIndexEntry { name, url, page_count }
    }
}

/// A link to a section: `section.subsections[]` entries.
#[derive(Debug)]
pub struct SectionLink {
    pub slug: String,
    pub url: String,
}

impl SectionLink {
    pub fn new(slug: String) -> (r: SectionLink)
        ensures
            r.slug@ == slug@,
            r.url@ == slug_url(slug@),
    {
        let url = text_url(&slug);
        SectionLink { slug, url }
    }
}

/// A top-level section listed on the home page: `home.sections[]` entries.
#[derive(Debug)]
pub struct HomeSection {
    pub slug: String,
    pub url: String,
    pub page_count: usize,
}

impl HomeSection {
    pub fn new(slug: String, page_count: usize) -> (r: HomeSection)
        ensures
            r.slug@ == slug@,
            r.url@ == slug_url(slug@),
            r.page_count == page_count,
    {
        let url = text_url(&slug);
        HomeSection { slug, url, page_count }
    }
}

/// `page.html` gets `page`.
#[derive(Debug)]
pub struct PageTemplate {
    pub title: String,
    pub author: String,
    pub description: String,
    pub date: Option<Date>,
    pub tags: Vec<TagLink>,
    pub url: String,
    pub content: String,
}

/// `section.html` gets `section`.
#[derive(Debug)]
pub struct SectionTemplate {
    pub slug: String,
    pub url: String,
    pub pages: Vec<PageSummary>,
    pub subsections: Vec<SectionLink>,
}

/// `home.html` gets `home`.
#[derive(Debug)]
pub struct HomeTemplate {
    pub recent: Vec<PageSummary>,
    pub sections: Vec<HomeSection>,
}

/// `tag.html` gets `tag`.
#[derive(Debug)]
pub struct TagTemplate {
    pub name: String,
    pub url: String,
    pub pages: Vec<PageSummary>,
}

/// What a template is given besides `config`.
#[derive(Debug)]
pub enum TemplateContext {
    Page(PageTemplate),
    Section(SectionTemplate),
    Home(HomeTemplate),
    /// `tags.html` gets `tags`.
    TagIndex(Vec<TagIndexEntry>),
    Tag(TagTemplate),
}

/// `links` link to the tag pages of `tags`, in order.
pub open spec fn tag_links_of(links: Seq<TagLink>, tags: Seq<Tag>) -> bool {
    &&& links.len() == tags.len()
    &&& forall|i: int|
        0 <= i < links.len() ==> (#[trigger] links[i]).name@ == tags[i]@ && links[i].url@
            == slug_url("tags/"@ + tags[i]@)
}

/// `t` is what `page.html` gets for `p`.
pub open spec fn page_template_of(t: PageTemplate, p: Page) -> bool {
    &&& t.title@ == p.title@
    &&& t.author@ == p.author@
    &&& t.description@ == p.description@
    &&& t.date == p.date
    &&& tag_links_of(t.tags@, p.tags@)
    &&& t.url@ == slug_url(p.slug@)
    &&& t.content@ == markdown_html(p.content@, MARKDOWN_OPTIONS)
}

/// A content page's output: `page.html` at the page's slug.
pub fn render_page(page: &Page) -> (r: Output)
    ensures
        r.kind matches OutputKind::Page { slug, date } && slug@ == page.slug@ && date
            == page.date,
        r.body matches Body::Template { name, context: TemplateContext::Page(t) } && name@
            == "page.html"@ && page_template_of(t, *page),
{
    let mut tags: Vec<TagLink> = Vec::new();
    let mut i: usize = 0;
    while i < page.tags.len()
        invariant
            i <= page.tags@.len(),
            tag_links_of(tags@, page.tags@.subrange(0, i as int)),
        decreases page.tags@.len() - i,
    {
        let ghost before = tags@;
        tags.push(TagLink::new(page.tags[i].to_string()));
        proof {
            assert forall|k: int| 0 <= k < tags@.len() implies (#[trigger] tags@[k]).name@
                == page.tags@.subrange(0, i + 1)[k]@ && tags@[k].url@ == slug_url(
                "tags/"@ + page.tags@.subrange(0, i + 1)[k]@,
            ) by {
                if k < i {
                    assert(tags@[k] == before[k]);
                    assert(page.tags@.subrange(0, i + 1)[k] == page.tags@.subrange(0, i as int)[k]);
                }
            }
        }
        i += 1;
    }
    proof {
        assert(page.tags@.subrange(0, page.tags@.len() as int) =~= page.tags@);
    }
    let template = PageTemplate {
        title: page.title.clone(),
        author: page.author.clone(),
        description: page.description.clone(),
        date: page.date,
        tags,
        url: page.slug.url(),
        content: to_html(page.content.as_str()),
    };
    Output {
        kind: OutputKind::Page { slug: page.slug.cloned(), date: page.date },
        body: Body::Template {
            name: String::from_str("page.html"),
            context: TemplateContext::Page(template),
        },
    }
}

/// A section's index: `section.html` at the section's slug.
pub fn render_section_page(slug: Slug, pages: Vec<PageSummary>, subsections: Vec<SectionLink>) -> (r:
    Output)
    ensures
        r.kind matches OutputKind::Section(s) && s@ == slug@,
        r.body matches Body::Template { name, context: TemplateContext::Section(t) } && name@
            == "section.html"@ && t.slug@ == slug@ && t.url@ == slug_url(slug@) && t.pages@
            == pages@ && t.subsections@ == subsections@,
{
    let template = SectionTemplate {
        slug: slug.to_string(),
        url: slug.url(),
        pages,
        subsections,
    };
    Output {
        kind: OutputKind::Section(slug),
        body: Body::Template {
            name: String::from_str("section.html"),
            context: TemplateContext::Section(template),
        },
    }
}

/// The home page: `home.html` at `dist/index.html`.
pub fn render_home_page(recent: Vec<PageSummary>, sections: Vec<HomeSection>) -> (r: Output)
    ensures
        r.kind is Home,
        r.body matches Body::Template { name, context: TemplateContext::Home(t) } && name@
            == "home.html"@ && t.recent@ == recent@ && t.sections@ == sections@,
{
    Output {
        kind: OutputKind::Home,
        body: Body::Template {
            name: String::from_str("home.html"),
            context: TemplateContext::Home(HomeTemplate { recent, sections }),
        },
    }
}

/// The tag index: `tags.html` at `dist/tags/index.html`. `entries` should
/// already be sorted by name.
pub fn render_tag_index(entries: Vec<TagIndexEntry>) -> (r: Output)
    ensures
        r.kind is TagIndex,
        r.body matches Body::Template { name, context: TemplateContext::TagIndex(t) } && name@
            == "tags.html"@ && t@ == entries@,
{
    Output {
        kind: OutputKind::TagIndex,
        body: Body::Template {
            name: String::from_str("tags.html"),
            context: TemplateContext::TagIndex(entries),
        },
    }
}

/// One tag's page: `tag.html` at `dist/tags/<tag>/index.html`.
pub fn render_tag_page(tag: Tag, pages: Vec<PageSummary>) -> (r: Output)
    ensures
        r.kind matches OutputKind::Tag(t) && t@ == tag@,
        r.body matches Body::Template { name, context: TemplateContext::Tag(t) } && name@
            == "tag.html"@ && t.name@ == tag@ && t.url@ == slug_url("tags/"@ + tag@) && t.pages@
            == pages@,
{
    let template = TagTemplate { name: tag.to_string(), url: tag.url(), pages };
    Output {
        kind: OutputKind::Tag(tag),
        body: Body::Template {
            name: String::from_str("tag.html"),
            context: TemplateContext::Tag(template),
        },
    }
}

} // verus!
