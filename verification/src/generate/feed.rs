//! `feed.xml`: an RSS 2.0 feed of the most recent dated pages.

use vstd::prelude::*;
use vstd::string::StringExecFns;
use crate::config::{base_root, base_url_root, SiteConfig};
use crate::date::{rfc822_midnight, Date};
use crate::generate::home::{dated_pages, recent_pages};
use crate::output::{Body, Output, OutputKind};
use crate::page::Page;
use crate::slug::{slug_url, Slug};
use crate::sort::{lemma_sort_matched, rank_sort, sort_ranked, Ranked};
use crate::summary::{date_view, key_before, lemma_key_order, listed_before};
use crate::xml::{escape, escaped};

verus! {

/// The text of an optional config field, `""` when unset.
pub open spec fn opt_text(o: Option<String>) -> Seq<char> {
    match o {
        Some(s) => s@,
        None => Seq::empty(),
    }
}

/// The feed up to its first item: XML declaration, channel title, link and
/// description.
pub open spec fn feed_head(c: SiteConfig, base: Seq<char>) -> Seq<char> {
    "<?xml version=\"1.0\" encoding=\"UTF-8\"?>\n<rss version=\"2.0\">\n  <channel>\n    <title>"@
        + escaped(opt_text(c.title)) + "</title>\n    <link>"@ + escaped(base + "/"@)
        + "</link>\n    <description>"@ + escaped(opt_text(c.description))
        + "</description>\n"@
}

/// One `<item>` for a page with the given title, description, date and slug;
/// nothing for an undated page.
pub open spec fn feed_entry(
    base: Seq<char>,
    title: Seq<char>,
    description: Seq<char>,
    date: Option<(int, int, int)>,
    slug: Seq<char>,
) -> Seq<char> {
    match date {
        None => Seq::empty(),
        Some(d) => {
            let link = escaped(base + slug_url(slug));
            "    <item>\n      <title>"@ + escaped(title) + "</title>\n      <link>"@ + link
                + "</link>\n      <guid isPermaLink=\"true\">"@ + link
                + "</guid>\n      <description>"@ + escaped(description)
                + "</description>\n      <pubDate>"@ + rfc822_midnight(d.0, d.1, d.2)
                + "</pubDate>\n    </item>\n"@
        },
    }
}

/// The `<item>` of a page.
pub open spec fn feed_item(base: Seq<char>, p: Page) -> Seq<char> {
    feed_entry(base, p.title@, p.description@, date_view(p.date), p.slug@)
}

/// The items of some pages, in order.
pub open spec fn feed_items(base: Seq<char>, ps: Seq<Page>) -> Seq<char>
    decreases ps.len(),
{
    if ps.len() == 0 {
        Seq::empty()
    } else {
        feed_items(base, ps.drop_last()) + feed_item(base, ps.last())
    }
}

/// The whole feed for `pages` under the site root URL `base`.
pub open spec fn feed_text(c: SiteConfig, base: Seq<char>, pages: Seq<Page>) -> Seq<char> {
    feed_head(c, base) + feed_items(base, recent_pages(pages, c.recent_count as nat))
        + "  </channel>\n</rss>\n"@
}

/// A dated page as the feed lists it.
pub struct FeedItem {
    pub title: String,
    pub description: String,
    pub date: Option<Date>,
    pub slug: Slug,
}

/// `it` lists page `p`.
pub open spec fn item_of(it: FeedItem, p: Page) -> bool {
    &&& it.title@ == p.title@
    &&& it.description@ == p.description@
    &&& date_view(it.date) == date_view(p.date)
    &&& it.slug@ == p.slug@
}

impl Ranked for FeedItem {
    open spec fn before(self, other: Self) -> bool {
        key_before(
            (date_view(self.date), self.title@, self.slug@),
            (date_view(other.date), other.title@, other.slug@),
        )
    }

    fn precedes(&self, other: &Self) -> (r: bool) {
        listed_before(&self.date, &self.title, &self.slug, &other.date, &other.title, &other.slug)
    }

    proof fn lemma_order(a: Self, b: Self, c: Self) {
        lemma_key_order(
            (date_view(a.date), a.title@, a.slug@),
            (date_view(b.date), b.title@, b.slug@),
            (date_view(c.date), c.title@, c.slug@),
        );
    }
}

fn opt_str(o: &Option<String>) -> (r: &str)
    ensures
        r@ == opt_text(*o),
{
    proof {
        reveal_strlit("");
    }
    match o {
        Some(s) => s.as_str(),
        None => "",
    }
}

fn item_text(base: &str, it: &FeedItem) -> (r: String)
    ensures
        r@ == feed_entry(base@, it.title@, it.description@, date_view(it.date), it.slug@),
{
    match &it.date {
        None => String::new(),
        Some(d) => {
            let link = escape(String::from_str(base).concat(it.slug.url().as_str()).as_str());
            let r = String::from_str("    <item>\n      <title>").concat(
                escape(it.title.as_str()).as_str(),
            ).concat("</title>\n      <link>").concat(link.as_str()).concat(
                "</link>\n      <guid isPermaLink=\"true\">",
            ).concat(link.as_str()).concat("</guid>\n      <description>").concat(
                escape(it.description.as_str()).as_str(),
            ).concat("</description>\n      <pubDate>").concat(d.to_rfc822().as_str()).concat(
                "</pubDate>\n    </item>\n",
            );
            r
        },
    }
}

/// The feed items of the most recent dated pages, in feed order.
fn recent_items(pages: &Vec<Page>, n: usize) -> (r: Vec<FeedItem>)
    ensures
        r@.len() == recent_pages(pages@, n as nat).len(),
        forall|i: int| 0 <= i < r@.len() ==> item_of(#[trigger] r@[i], recent_pages(pages@, n as nat)[i]),
{
    let mut items: Vec<FeedItem> = Vec::new();
    let mut p: usize = 0;
    while p < pages.len()
        invariant
            p <= pages@.len(),
            items@.len() == dated_pages(pages@.subrange(0, p as int)).len(),
            forall|i: int|
                0 <= i < items@.len() ==> item_of(
                    #[trigger] items@[i],
                    dated_pages(pages@.subrange(0, p as int))[i],
                ),
        decreases pages@.len() - p,
    {
        proof {
            assert(pages@.subrange(0, p + 1).drop_last() =~= pages@.subrange(0, p as int));
            assert(pages@.subrange(0, p + 1).last() == pages@[p as int]);
        }
        let page = &pages[p];
        if page.date.is_some() {
            let ghost before = items@;
            items.push(
                FeedItem {
                    title: page.title.clone(),
                    description: page.description.clone(),
                    date: page.date,
                    slug: page.slug.cloned(),
                },
            );
            proof {
                let want = dated_pages(pages@.subrange(0, p + 1));
                assert forall|j: int| 0 <= j < items@.len() implies item_of(
                    #[trigger] items@[j],
                    want[j],
                ) by {
                    if j < before.len() {
                        assert(items@[j] == before[j]);
                    }
                }
            }
        }
        p += 1;
    }
    proof {
        assert(pages@.subrange(0, pages@.len() as int) =~= pages@);
        let rel = |a: FeedItem, b: Page| item_of(a, b);
        assert forall|i: int| 0 <= i < items@.len() implies #[trigger] rel(
            items@[i],
            dated_pages(pages@)[i],
        ) by {
            assert(item_of(items@[i], dated_pages(pages@)[i]));
        }
        lemma_sort_matched(items@, dated_pages(pages@), rel);
    }
    let mut sorted = sort_ranked(items);
    let ghost full = sorted@;
    sorted.truncate(n);
    proof {
        let rel = |a: FeedItem, b: Page| item_of(a, b);
        let s = rank_sort(dated_pages(pages@));
        assert forall|j: int| 0 <= j < sorted@.len() implies item_of(
            #[trigger] sorted@[j],
            recent_pages(pages@, n as nat)[j],
        ) by {
            assert(sorted@[j] == full[j]);
            assert(rel(full[j], s[j]));
        }
    }
    sorted
}

/// `dist/feed.xml`: an RSS 2.0 feed of the home page's recent list, newest
/// first. `None` when `base_url` is unset, since RSS needs absolute links.
pub fn build(pages: &Vec<Page>, config: &SiteConfig) -> (r: Option<Output>)
    ensures
        match base_root(*config) {
            None => r is None,
            Some(base) => r matches Some(o) && o.kind is Feed && (o.body matches Body::Text(t)
                && t@ == feed_text(*config, base, pages@)),
        },
{
    let base = match base_url_root(config) {
        None => return None,
        Some(b) => b,
    };
    let ghost b = base@;
    let items = recent_items(pages, config.recent_count);
    let ghost recent = recent_pages(pages@, config.recent_count as nat);
    let mut xml = String::from_str(
        "<?xml version=\"1.0\" encoding=\"UTF-8\"?>\n<rss version=\"2.0\">\n  <channel>\n    <title>",
    ).concat(escape(opt_str(&config.title)).as_str()).concat("</title>\n    <link>").concat(
        escape(String::from_str(base).concat("/").as_str()).as_str(),
    ).concat("</link>\n    <description>").concat(
        escape(opt_str(&config.description)).as_str(),
    ).concat("</description>\n");
    let ghost head = xml@;
    proof {
        assert(head =~= feed_head(*config, b));
        assert(recent.subrange(0, 0) =~= Seq::<Page>::empty());
        assert(head + feed_items(b, recent.subrange(0, 0)) =~= head);
    }
    let mut i: usize = 0;
    while i < items.len()
        invariant
            i <= items@.len(),
            items@.len() == recent.len(),
            forall|k: int| 0 <= k < items@.len() ==> item_of(#[trigger] items@[k], recent[k]),
            base@ == b,
            xml@ == head + feed_items(b, recent.subrange(0, i as int)),
        decreases items@.len() - i,
    {
        let t = item_text(base, &items[i]);
        proof {
            assert(item_of(items@[i as int], recent[i as int]));
            assert(recent.subrange(0, i + 1).drop_last() =~= recent.subrange(0, i as int));
            assert(recent.subrange(0, i + 1).last() == recent[i as int]);
            assert(t@ == feed_item(b, recent[i as int]));
        }
        let ghost before = xml@;
        xml = xml.concat(t.as_str());
        proof {
            assert(xml@ =~= head + feed_items(b, recent.subrange(0, i + 1)));
        }
        i += 1;
    }
    let xml = xml.concat("  </channel>\n</rss>\n");
    proof {
        assert(recent.subrange(0, recent.len() as int) =~= recent);
        assert(xml@ =~= feed_text(*config, b, pages@));
    }
    Some(Output { kind: OutputKind::Feed, body: Body::Text(xml) })
}

/// The feed does not depend on trailing slashes of `base_url`.
pub proof fn lemma_feed_ignores_trailing_slash(pages: Seq<Page>, c: SiteConfig, d: SiteConfig, u: Seq<char>)
    requires
        c.base_url matches Some(x) && x@ == u,
        d.base_url matches Some(y) && y@ == u.push('/'),
        c.title == d.title,
        c.description == d.description,
        c.recent_count == d.recent_count,
    ensures
        base_root(c) == base_root(d),
        feed_text(c, base_root(c)->0, pages) == feed_text(d, base_root(d)->0, pages),
{
    crate::config::lemma_trailing_slash_ignored(u);
}

} // verus!
