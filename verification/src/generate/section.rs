//! One section index output per section.

use vstd::prelude::*;
use crate::index::{Section, SectionIndex};
use crate::output::{Body, Output, OutputKind};
use crate::slug::{slug_url, Slug};
use crate::summary::PageSummary;
use crate::template::{render_section_page, SectionLink, TemplateContext};

verus! {

/// `links` link to the sections `slugs`, in order.
pub open spec fn section_links_of(links: Seq<SectionLink>, slugs: Seq<Slug>) -> bool {
    &&& links.len() == slugs.len()
    &&& forall|i: int|
        0 <= i < links.len() ==> (#[trigger] links[i]).slug@ == slugs[i]@ && links[i].url@
            == slug_url(slugs[i]@)
}

/// `o` is the index output of section `s`: `section.html` at its slug, with
/// its pages and links to its subsections.
pub open spec fn is_section_output(o: Output, s: Section) -> bool {
    &&& o.kind matches OutputKind::Section(slug) && slug@ == s.slug@
    &&& o.body matches Body::Template { name, context: TemplateContext::Section(t) } && name@
        == "section.html"@ && t.slug@ == s.slug@ && t.url@ == slug_url(s.slug@) && t.pages@
        == s.pages@ && section_links_of(t.subsections@, s.subsections@)
}

fn links_to(slugs: Vec<Slug>) -> (r: Vec<SectionLink>)
    ensures
        section_links_of(r@, slugs@),
{
    let mut r: Vec<SectionLink> = Vec::new();
    let mut i: usize = 0;
    while i < slugs.len()
        invariant
            i <= slugs@.len(),
            section_links_of(r@, slugs@.subrange(0, i as int)),
        decreases slugs@.len() - i,
    {
        let ghost before = r@;
        r.push(SectionLink::new(slugs[i].to_string()));
        proof {
            assert forall|k: int| 0 <= k < r@.len() implies (#[trigger] r@[k]).slug@
                == slugs@.subrange(0, i + 1)[k]@ && r@[k].url@ == slug_url(
                slugs@.subrange(0, i + 1)[k]@,
            ) by {
                if k < i {
                    assert(r@[k] == before[k]);
                    assert(slugs@.subrange(0, i + 1)[k] == slugs@.subrange(0, i as int)[k]);
                }
            }
        }
        i += 1;
    }
    proof {
        assert(slugs@.subrange(0, slugs@.len() as int) =~= slugs@);
    }
    r
}

/// One `section.html` output per section, in section (slug) order.
pub fn build(si: SectionIndex) -> (r: Vec<Output>)
    ensures
        r@.len() == si.sections@.len(),
        forall|i: int|
            0 <= i < r@.len() ==> is_section_output(#[trigger] r@[i], si.sections@[i]),
{
    let ghost secs = si.sections@;
    let mut sections = si.sections;
    let mut rev: Vec<Output> = Vec::new();
    let n = sections.len();
    while sections.len() > 0
        invariant
            sections@.len() + rev@.len() == n,
            n == secs.len(),
            sections@ == secs.subrange(0, sections@.len() as int),
            forall|k: int|
                0 <= k < rev@.len() ==> is_section_output(#[trigger] rev@[k], secs[n - 1 - k]),
        decreases sections@.len(),
    {
        let s = sections.pop().unwrap();
        let ghost idx = sections@.len() as int;
        assert(s == secs[idx]);
        let Section { slug, pages, subsections } = s;
        let out = render_section_page(slug, pages, links_to(subsections));
        rev.push(out);
        proof {
            assert(sections@ =~= secs.subrange(0, sections@.len() as int));
        }
    }
    let mut r: Vec<Output> = Vec::new();
    while rev.len() > 0
        invariant
            rev@.len() + r@.len() == n,
            forall|k: int|
                0 <= k < rev@.len() ==> is_section_output(#[trigger] rev@[k], secs[n - 1 - k]),
            forall|k: int| 0 <= k < r@.len() ==> is_section_output(#[trigger] r@[k], secs[k]),
        decreases rev@.len(),
    {
        let o = rev.pop().unwrap();
        r.push(o);
    }
    r
}

} // verus!
