//! The home page: recent pages and the top-level sections.

use vstd::prelude::*;
use crate::config::SiteConfig;
use crate::index::{Section, SectionIndex};
use crate::output::{Body, Output, OutputKind};
use crate::page::Page;
use crate::slug::slug_url;
use crate::sort::{rank_sort, sort_ranked, Ranked};
use crate::summary::{lemma_summary_sort, summarize_all, summarizes, PageSummary};
use crate::template::{render_home_page, HomeSection, TemplateContext};
use crate::text::has_char;

verus! {

/// The pages that have a date, in the given order.
pub open spec fn dated_pages(pages: Seq<Page>) -> Seq<Page>
    decreases pages.len(),
{
    if pages.len() == 0 {
        pages
    } else if pages.last().date is Some {
        dated_pages(pages.drop_last()).push(pages.last())
    } else {
        dated_pages(pages.drop_last())
    }
}

/// The `n` most recent dated pages: newest first, then by title and slug.
pub open spec fn recent_pages(pages: Seq<Page>, n: nat) -> Seq<Page> {
    let s = rank_sort(dated_pages(pages));
    if n < s.len() {
        s.take(n as int)
    } else {
        s
    }
}

/// The sections directly under the site root, in the given order.
pub open spec fn top_sections(secs: Seq<Section>) -> Seq<Section>
    decreases secs.len(),
{
    if secs.len() == 0 {
        secs
    } else if !has_char(secs.last().slug@, '/') {
        top_sections(secs.drop_last()).push(secs.last())
    } else {
        top_sections(secs.drop_last())
    }
}

/// `hs` lists the sections `secs` with their URLs and page counts.
pub open spec fn home_sections_of(hs: Seq<HomeSection>, secs: Seq<Section>) -> bool {
    &&& hs.len() == secs.len()
    &&& forall|i: int|
        0 <= i < hs.len() ==> (#[trigger] hs[i]).slug@ == secs[i].slug@ && hs[i].url@ == slug_url(
            secs[i].slug@,
        ) && hs[i].page_count == secs[i].pages@.len()
}

/// The summaries of the most recent dated pages.
pub fn recent(pages: &Vec<Page>, n: usize) -> (r: Vec<PageSummary>)
    ensures
        summarize_all(r@, recent_pages(pages@, n as nat)),
{
    let mut sums: Vec<PageSummary> = Vec::new();
    let mut p: usize = 0;
    while p < pages.len()
        invariant
            p <= pages@.len(),
            summarize_all(sums@, dated_pages(pages@.subrange(0, p as int))),
        decreases pages@.len() - p,
    {
        proof {
            assert(pages@.subrange(0, p + 1).drop_last() =~= pages@.subrange(0, p as int));
            assert(pages@.subrange(0, p + 1).last() == pages@[p as int]);
        }
        if pages[p].date.is_some() {
            let ghost before = sums@;
            sums.push(PageSummary::from(&pages[p]));
            proof {
                let want = dated_pages(pages@.subrange(0, p + 1));
                assert forall|j: int| 0 <= j < sums@.len() implies summarizes(
                    #[trigger] sums@[j],
                    want[j],
                ) by {
                    if j < before.len() {
                        assert(sums@[j] == before[j]);
                    }
                }
            }
        }
        p += 1;
    }
    proof {
        assert(pages@.subrange(0, pages@.len() as int) =~= pages@);
        lemma_summary_sort(sums@, dated_pages(pages@));
    }
    let mut sorted = sort_ranked(sums);
    let ghost full = sorted@;
    sorted.truncate(n);
    proof {
        let s = rank_sort(dated_pages(pages@));
        assert forall|j: int| 0 <= j < sorted@.len() implies summarizes(
            #[trigger] sorted@[j],
            recent_pages(pages@, n as nat)[j],
        ) by {
            assert(sorted@[j] == full[j]);
            assert(summarizes(full[j], s[j]));
        }
    }
    sorted
}

/// The top-level sections with their page counts, in section (slug) order.
fn home_sections(si: &SectionIndex) -> (r: Vec<HomeSection>)
    ensures
        home_sections_of(r@, top_sections(si.sections@)),
{
    let secs = &si.sections;
    let mut r: Vec<HomeSection> = Vec::new();
    let mut i: usize = 0;
    while i < secs.len()
        invariant
            i <= secs@.len(),
            home_sections_of(r@, top_sections(secs@.subrange(0, i as int))),
        decreases secs@.len() - i,
    {
        proof {
            assert(secs@.subrange(0, i + 1).drop_last() =~= secs@.subrange(0, i as int));
            assert(secs@.subrange(0, i + 1).last() == secs@[i as int]);
        }
        let slug = secs[i].slug.to_string();
        let cs = crate::text::chars_of(slug.as_str());
        if !crate::text::chars_contain(&cs, '/') {
            let ghost before = r@;
            r.push(HomeSection::new(slug, secs[i].pages.len()));
            proof {
                let want = top_sections(secs@.subrange(0, i + 1));
                assert forall|k: int| 0 <= k < r@.len() implies (#[trigger] r@[k]).slug@
                    == want[k].slug@ && r@[k].url@ == slug_url(want[k].slug@) && r@[k].page_count
                    == want[k].pages@.len() by {
                    if k < before.len() {
                        assert(r@[k] == before[k]);
                    }
                }
            }
        }
        i += 1;
    }
    proof {
        assert(secs@.subrange(0, secs@.len() as int) =~= secs@);
    }
    r
}

/// `o` is the home page of `pages` with sections `secs`.
pub open spec fn is_home_output(o: Output, pages: Seq<Page>, c: SiteConfig, secs: Seq<Section>) -> bool {
    &&& o.kind is Home
    &&& o.body matches Body::Template { name, context: TemplateContext::Home(t) } && name@
        == "home.html"@ && summarize_all(t.recent@, recent_pages(pages, c.recent_count as nat))
        && home_sections_of(t.sections@, top_sections(secs))
}

/// The home page (`dist/index.html`): up to `recent_count` dated pages from
/// the whole site, newest first, and the top-level sections by slug.
pub fn build(pages: &Vec<Page>, si: &SectionIndex, config: &SiteConfig) -> (r: Output)
    ensures
        is_home_output(r, pages@, *config, si.sections@),
{
    let recent = recent(pages, config.recent_count);
    let sections = home_sections(si);
    render_home_page(recent, sections)
}

} // verus!

verus! {

proof fn lemma_dated_pages_are_dated(pages: Seq<Page>)
    ensures
        forall|i: int| 0 <= i < dated_pages(pages).len() ==> (#[trigger] dated_pages(pages)[i]).date is Some,
    decreases pages.len(),
{
    if pages.len() > 0 {
        lemma_dated_pages_are_dated(pages.drop_last());
        let r = dated_pages(pages.drop_last());
        if pages.last().date is Some {
            assert forall|i: int| 0 <= i < r.push(pages.last()).len() implies (#[trigger] r.push(
                pages.last(),
            )[i]).date is Some by {
                if i < r.len() {
                    assert(r.push(pages.last())[i] == r[i]);
                }
            }
        }
    }
}

/// The home page's recent list holds at most `n` pages, all dated, in
/// listing order (newest first).
pub proof fn lemma_recent_pages_are_dated_and_few(pages: Seq<Page>, n: nat)
    ensures
        recent_pages(pages, n).len() <= n,
        forall|i: int| 0 <= i < recent_pages(pages, n).len() ==> (#[trigger] recent_pages(pages, n)[i]).date is Some,
        crate::sort::is_ranked(recent_pages(pages, n)),
{
    broadcast use vstd::seq_lib::group_to_multiset_ensures;
    let d = dated_pages(pages);
    let s = rank_sort(d);
    lemma_dated_pages_are_dated(pages);
    crate::sort::lemma_rank_sort_permutes(d);
    crate::sort::lemma_rank_sort_ranked(d);
    assert forall|i: int| 0 <= i < s.len() implies (#[trigger] s[i]).date is Some by {
        assert(s.to_multiset().count(s[i]) > 0);
        assert(d.to_multiset().count(s[i]) > 0);
        assert(d.contains(s[i]));
        let k = choose|k: int| 0 <= k < d.len() && d[k] == s[i];
        assert(d[k].date is Some);
    }
    let r = recent_pages(pages, n);
    assert forall|i: int| 0 <= i < r.len() implies (#[trigger] r[i]).date is Some by {
        assert(r[i] == s[i]);
    }
    assert forall|i: int, j: int| 0 <= i < j < r.len() implies !(#[trigger] r[j]).before(#[trigger] r[i]) by {
        assert(r[i] == s[i] && r[j] == s[j]);
    }
}

} // verus!
