//! `sitemap.xml` (sitemaps.org 0.9): one `<url>` per HTML output.

use vstd::prelude::*;
use vstd::string::StringExecFns;
use crate::config::{base_root, base_url_root, SiteConfig};
use crate::date::{ymd_text, Date};
use crate::output::{html_slug, Body, Output, OutputKind};
use crate::slug::{slug_url, Slug};
use crate::sort::{lemma_sort_matched, rank_sort, sort_ranked, Ranked};
use crate::summary::date_view;
use crate::text::{lemma_lex_lt_irreflexive, lemma_lex_lt_total, lemma_lex_lt_transitive, lex_lt, str_lt};
use crate::xml::{escape, escaped};

verus! {

/// The root-relative URL of an HTML output; empty for the other kinds.
pub open spec fn kind_url(k: OutputKind) -> Seq<char> {
    match html_slug(k) {
        Some(s) => slug_url(s),
        None => Seq::empty(),
    }
}

/// The `<lastmod>` day of an output: a content page's date, else none.
pub open spec fn entry_date(k: OutputKind) -> Option<(int, int, int)> {
    match k {
        OutputKind::Page { date, .. } => date_view(date),
        _ => None,
    }
}

/// The HTML outputs, in the given order.
pub open spec fn html_outputs(outs: Seq<Output>) -> Seq<Output>
    decreases outs.len(),
{
    if outs.len() == 0 {
        outs
    } else if html_slug(outs.last().kind) is Some {
        html_outputs(outs.drop_last()).push(outs.last())
    } else {
        html_outputs(outs.drop_last())
    }
}

/// One `<url>` entry.
pub open spec fn sitemap_entry(base: Seq<char>, url: Seq<char>, date: Option<(int, int, int)>) -> Seq<
    char,
> {
    "  <url>\n    <loc>"@ + escaped(base + url) + "</loc>\n"@ + match date {
        Some(d) => "    <lastmod>"@ + ymd_text(d.0, d.1, d.2) + "</lastmod>\n"@,
        None => Seq::empty(),
    } + "  </url>\n"@
}

/// The entries of some outputs, in order.
pub open spec fn sitemap_entries(base: Seq<char>, os: Seq<Output>) -> Seq<char>
    decreases os.len(),
{
    if os.len() == 0 {
        Seq::empty()
    } else {
        sitemap_entries(base, os.drop_last()) + sitemap_entry(
            base,
            kind_url(os.last().kind),
            entry_date(os.last().kind),
        )
    }
}

/// The whole sitemap of `outputs` under the site root URL `base`: one entry
/// per HTML output, sorted by URL.
pub open spec fn sitemap_text(base: Seq<char>, outputs: Seq<Output>) -> Seq<char> {
    "<?xml version=\"1.0\" encoding=\"UTF-8\"?>\n<urlset xmlns=\"http://www.sitemaps.org/schemas/sitemap/0.9\">\n"@
        + sitemap_entries(base, rank_sort(html_outputs(outputs))) + "</urlset>\n"@
}

/// The root-relative URL of an HTML output; empty for the other kinds.
fn kind_url_exec(k: &OutputKind) -> (r: String)
    ensures
        r@ == kind_url(*k),
{
    match k {
        OutputKind::Page { slug, .. } => slug.url(),
        OutputKind::Section(slug) => slug.url(),
        OutputKind::Home => Slug::home().url(),
        OutputKind::TagIndex => Slug::tag_index().url(),
        OutputKind::Tag(t) => t.url(),
        _ => String::new(),
    }
}

proof fn lemma_url_order(a: Seq<char>, b: Seq<char>, c: Seq<char>)
    ensures
        !lex_lt(a, a),
        lex_lt(a, b) && lex_lt(b, c) ==> lex_lt(a, c),
        lex_lt(a, b) && !lex_lt(c, b) ==> lex_lt(a, c),
{
    lemma_lex_lt_irreflexive(a);
    if lex_lt(a, b) && lex_lt(b, c) {
        lemma_lex_lt_transitive(a, b, c);
    }
    if lex_lt(a, b) && !lex_lt(c, b) {
        lemma_lex_lt_total(b, c);
        if lex_lt(b, c) {
            lemma_lex_lt_transitive(a, b, c);
        }
    }
}

impl Ranked for Output {
    open spec fn before(self, other: Self) -> bool {
        lex_lt(kind_url(self.kind), kind_url(other.kind))
    }

    fn precedes(&self, other: &Self) -> (r: bool) {
        str_lt(kind_url_exec(&self.kind).as_str(), kind_url_exec(&other.kind).as_str())
    }

    proof fn lemma_order(a: Self, b: Self, c: Self) {
        lemma_url_order(kind_url(a.kind), kind_url(b.kind), kind_url(c.kind));
    }
}

/// A sitemap entry before the site root is put in front of its URL.
pub struct SitemapEntry {
    pub url: String,
    pub date: Option<Date>,
}

impl Ranked for SitemapEntry {
    open spec fn before(self, other: Self) -> bool {
        lex_lt(self.url@, other.url@)
    }

    fn precedes(&self, other: &Self) -> (r: bool) {
        str_lt(self.url.as_str(), other.url.as_str())
    }

    proof fn lemma_order(a: Self, b: Self, c: Self) {
        lemma_url_order(a.url@, b.url@, c.url@);
    }
}

/// `e` is the entry of output `o`.
pub open spec fn entry_of(e: SitemapEntry, o: Output) -> bool {
    e.url@ == kind_url(o.kind) && date_view(e.date) == entry_date(o.kind)
}

/// The URL and `<lastmod>` date of an output the sitemap lists, or `None`
/// for outputs it does not list (the feed, the sitemap and assets).
fn entry(kind: &OutputKind) -> (r: Option<SitemapEntry>)
    ensures
        html_slug(*kind) is None ==> r is None,
        html_slug(*kind) is Some ==> (r matches Some(e) && e.url@ == kind_url(*kind) && date_view(
            e.date,
        ) == entry_date(*kind)),
{
    match kind {
        OutputKind::Page { date, .. } => Some(SitemapEntry { url: kind_url_exec(kind), date: *date }),
        OutputKind::Feed => None,
        OutputKind::Sitemap => None,
        OutputKind::Asset { .. } => None,
        _ => Some(SitemapEntry { url: kind_url_exec(kind), date: None }),
    }
}

fn entry_text(base: &str, e: &SitemapEntry) -> (r: String)
    ensures
        r@ == sitemap_entry(base@, e.url@, date_view(e.date)),
{
    let loc = escape(String::from_str(base).concat(e.url.as_str()).as_str());
    let mut r = String::from_str("  <url>\n    <loc>").concat(loc.as_str()).concat("</loc>\n");
    match &e.date {
        Some(d) => {
            r = r.concat("    <lastmod>").concat(d.to_text().as_str()).concat("</lastmod>\n");
        },
        None => {
            proof {
                assert(r@ + Seq::<char>::empty() =~= r@);
            }
        },
    }
    r.concat("  </url>\n")
}

/// `dist/sitemap.xml`: one `<url>` per HTML output (pages, sections, home,
/// tag index and tag pages), sorted by URL; only content pages with a date
/// get `<lastmod>`. `None` when `base_url` is unset, since sitemaps need
/// absolute URLs.
pub fn build(outputs: &Vec<Output>, config: &SiteConfig) -> (r: Option<Output>)
    ensures
        match base_root(*config) {
            None => r is None,
            Some(base) => r matches Some(o) && o.kind is Sitemap && (o.body matches Body::Text(t)
                && t@ == sitemap_text(base, outputs@)),
        },
{
    let base = match base_url_root(config) {
        None => return None,
        Some(b) => b,
    };
    let ghost b = base@;
    let mut entries: Vec<SitemapEntry> = Vec::new();
    let mut i: usize = 0;
    while i < outputs.len()
        invariant
            i <= outputs@.len(),
            entries@.len() == html_outputs(outputs@.subrange(0, i as int)).len(),
            forall|k: int|
                0 <= k < entries@.len() ==> entry_of(
                    #[trigger] entries@[k],
                    html_outputs(outputs@.subrange(0, i as int))[k],
                ),
        decreases outputs@.len() - i,
    {
        proof {
            assert(outputs@.subrange(0, i + 1).drop_last() =~= outputs@.subrange(0, i as int));
            assert(outputs@.subrange(0, i + 1).last() == outputs@[i as int]);
        }
        match entry(&outputs[i].kind) {
            Some(e) => {
                let ghost before = entries@;
                entries.push(e);
                proof {
                    let want = html_outputs(outputs@.subrange(0, i + 1));
                    assert forall|k: int| 0 <= k < entries@.len() implies entry_of(
                        #[trigger] entries@[k],
                        want[k],
                    ) by {
                        if k < before.len() {
                            assert(entries@[k] == before[k]);
                        }
                    }
                }
            },
            None => {},
        }
        i += 1;
    }
    let ghost html = html_outputs(outputs@);
    proof {
        assert(outputs@.subrange(0, outputs@.len() as int) =~= outputs@);
        let rel = |e: SitemapEntry, o: Output| entry_of(e, o);
        assert forall|k: int| 0 <= k < entries@.len() implies #[trigger] rel(entries@[k], html[k]) by {
            assert(entry_of(entries@[k], html[k]));
        }
        lemma_sort_matched(entries@, html, rel);
    }
    let ghost ev = entries@;
    let sorted = sort_ranked(entries);
    let ghost ord = rank_sort(html);
    proof {
        let rel = |e: SitemapEntry, o: Output| entry_of(e, o);
        assert forall|k: int| 0 <= k < sorted@.len() implies entry_of(#[trigger] sorted@[k], ord[k]) by {
            assert(rel(rank_sort(ev)[k], ord[k]));
        }
    }
    let mut xml = String::from_str(
        "<?xml version=\"1.0\" encoding=\"UTF-8\"?>\n<urlset xmlns=\"http://www.sitemaps.org/schemas/sitemap/0.9\">\n",
    );
    let ghost head = xml@;
    proof {
        assert(ord.subrange(0, 0) =~= Seq::<Output>::empty());
        assert(head + sitemap_entries(b, ord.subrange(0, 0)) =~= head);
    }
    let mut j: usize = 0;
    while j < sorted.len()
        invariant
            j <= sorted@.len(),
            sorted@.len() == ord.len(),
            forall|k: int| 0 <= k < sorted@.len() ==> entry_of(#[trigger] sorted@[k], ord[k]),
            base@ == b,
            xml@ == head + sitemap_entries(b, ord.subrange(0, j as int)),
        decreases sorted@.len() - j,
    {
        let t = entry_text(base, &sorted[j]);
        proof {
            assert(entry_of(sorted@[j as int], ord[j as int]));
            assert(ord.subrange(0, j + 1).drop_last() =~= ord.subrange(0, j as int));
            assert(ord.subrange(0, j + 1).last() == ord[j as int]);
        }
        xml = xml.concat(t.as_str());
        proof {
            assert(xml@ =~= head + sitemap_entries(b, ord.subrange(0, j + 1)));
        }
        j += 1;
    }
    let xml = xml.concat("</urlset>\n");
    proof {
        assert(ord.subrange(0, ord.len() as int) =~= ord);
        assert(xml@ =~= sitemap_text(b, outputs@));
    }
    Some(Output { kind: OutputKind::Sitemap, body: Body::Text(xml) })
}

/// The sitemap does not depend on trailing slashes of `base_url`.
pub proof fn lemma_sitemap_ignores_trailing_slash(outputs: Seq<Output>, c: SiteConfig, d: SiteConfig, u: Seq<char>)
    requires
        c.base_url matches Some(x) && x@ == u,
        d.base_url matches Some(y) && y@ == u.push('/'),
    ensures
        base_root(c) == base_root(d),
        sitemap_text(base_root(c)->0, outputs) == sitemap_text(base_root(d)->0, outputs),
{
    crate::config::lemma_trailing_slash_ignored(u);
}

} // verus!

verus! {

/// What the sitemap takes from an output: whether it is listed, its URL and
/// its date.
pub open spec fn entry_key(o: Output) -> (bool, Seq<char>, Option<(int, int, int)>) {
    (html_slug(o.kind) is Some, kind_url(o.kind), entry_date(o.kind))
}

/// The outputs have the same entry keys, place by place.
pub open spec fn same_entry_keys(a: Seq<Output>, b: Seq<Output>) -> bool {
    a.len() == b.len() && forall|i: int| 0 <= i < a.len() ==> entry_key(#[trigger] a[i]) == entry_key(b[i])
}

proof fn lemma_keys_drop_last(a: Seq<Output>, b: Seq<Output>)
    requires
        same_entry_keys(a, b),
        a.len() > 0,
    ensures
        same_entry_keys(a.drop_last(), b.drop_last()),
        entry_key(a.last()) == entry_key(b.last()),
{
    assert forall|i: int| 0 <= i < a.drop_last().len() implies entry_key(#[trigger] a.drop_last()[i])
        == entry_key(b.drop_last()[i]) by {
        assert(a.drop_last()[i] == a[i] && b.drop_last()[i] == b[i]);
    }
    assert(entry_key(a[a.len() - 1]) == entry_key(b[b.len() - 1]));
}

proof fn lemma_html_outputs_keys(a: Seq<Output>, b: Seq<Output>)
    requires
        same_entry_keys(a, b),
    ensures
        same_entry_keys(html_outputs(a), html_outputs(b)),
    decreases a.len(),
{
    if a.len() > 0 {
        lemma_keys_drop_last(a, b);
        lemma_html_outputs_keys(a.drop_last(), b.drop_last());
        let x = html_outputs(a.drop_last());
        let y = html_outputs(b.drop_last());
        if html_slug(a.last().kind) is Some {
            assert forall|i: int| 0 <= i < x.push(a.last()).len() implies entry_key(#[trigger] x.push(
                a.last(),
            )[i]) == entry_key(y.push(b.last())[i]) by {
                if i < x.len() {
                    assert(x.push(a.last())[i] == x[i] && y.push(b.last())[i] == y[i]);
                }
            }
        }
    }
}

proof fn lemma_insert_index_keys(r1: Seq<Output>, r2: Seq<Output>, x1: Output, x2: Output)
    requires
        same_entry_keys(r1, r2),
        entry_key(x1) == entry_key(x2),
    ensures
        crate::sort::insert_index(r1, x1) == crate::sort::insert_index(r2, x2),
    decreases r1.len(),
{
    if r1.len() > 0 {
        lemma_keys_drop_last(r1, r2);
        lemma_insert_index_keys(r1.drop_last(), r2.drop_last(), x1, x2);
    }
}

proof fn lemma_rank_sort_keys(a: Seq<Output>, b: Seq<Output>)
    requires
        same_entry_keys(a, b),
    ensures
        same_entry_keys(rank_sort(a), rank_sort(b)),
    decreases a.len(),
{
    if a.len() > 0 {
        lemma_keys_drop_last(a, b);
        lemma_rank_sort_keys(a.drop_last(), b.drop_last());
        let r1 = rank_sort(a.drop_last());
        let r2 = rank_sort(b.drop_last());
        crate::sort::lemma_insert_index(r1, a.last());
        lemma_insert_index_keys(r1, r2, a.last(), b.last());
        let k = crate::sort::insert_index(r1, a.last());
        let s1 = r1.insert(k, a.last());
        let s2 = r2.insert(k, b.last());
        assert forall|i: int| 0 <= i < s1.len() implies entry_key(#[trigger] s1[i]) == entry_key(s2[i]) by {
            if i < k {
                assert(s1[i] == r1[i] && s2[i] == r2[i]);
            } else if i > k {
                assert(s1[i] == r1[i - 1] && s2[i] == r2[i - 1]);
            }
        }
    }
}

proof fn lemma_entries_keys(base: Seq<char>, a: Seq<Output>, b: Seq<Output>)
    requires
        same_entry_keys(a, b),
    ensures
        sitemap_entries(base, a) == sitemap_entries(base, b),
    decreases a.len(),
{
    if a.len() > 0 {
        lemma_keys_drop_last(a, b);
        lemma_entries_keys(base, a.drop_last(), b.drop_last());
    }
}

/// The sitemap of some outputs depends only on which of them it lists and
/// on their URLs and dates.
pub proof fn lemma_sitemap_by_keys(base: Seq<char>, a: Seq<Output>, b: Seq<Output>)
    requires
        same_entry_keys(a, b),
    ensures
        sitemap_text(base, a) == sitemap_text(base, b),
{
    lemma_html_outputs_keys(a, b);
    lemma_rank_sort_keys(html_outputs(a), html_outputs(b));
    lemma_entries_keys(base, rank_sort(html_outputs(a)), rank_sort(html_outputs(b)));
}

} // verus!
