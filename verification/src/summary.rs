//! The short form of a page that listings show, and the order they show it in.

use vstd::prelude::*;
use crate::date::{date_before, day_number, lemma_date_order_is_calendar_order, valid_ymd, Date};
use crate::page::Page;
use crate::slug::{slug_url, Slug};
use crate::sort::{insert_index, rank_sort, Ranked};
use crate::text::{first_difference_favours, lemma_lex_lt_first_difference, lemma_lex_lt_irreflexive, lemma_lex_lt_total, lemma_lex_lt_transitive, lex_lt, str_lt};

verus! {

/// A page as listings show it: title, date, slug and URL.
#[derive(Debug)]
pub struct PageSummary {
    pub title: String,
    pub date: Option<Date>,
    pub slug: Slug,
    pub url: String,
}

/// What listings order by: the date, the title and the slug.
pub type ListingKey = (Option<(int, int, int)>, Seq<char>, Seq<char>);

/// The day a date is, if any.
pub open spec fn date_view(d: Option<Date>) -> Option<(int, int, int)> {
    match d {
        Some(x) => Some(x@),
        None => None,
    }
}

/// Title first, then slug, both byte-wise.
pub open spec fn tie_before(a: ListingKey, b: ListingKey) -> bool {
    lex_lt(a.1, b.1) || (a.1 == b.1 && lex_lt(a.2, b.2))
}

/// Listing order: newest date first, undated last, then title, then slug.
pub open spec fn key_before(a: ListingKey, b: ListingKey) -> bool {
    match (a.0, b.0) {
        (Some(x), Some(y)) => date_before(y, x) || (x == y && tie_before(a, b)),
        (Some(_), None) => true,
        (None, Some(_)) => false,
        (None, None) => tie_before(a, b),
    }
}

/// The listing key of a page.
pub open spec fn page_key(p: Page) -> ListingKey {
    (date_view(p.date), p.title@, p.slug@)
}

/// The listing key of a summary.
pub open spec fn summary_key(s: PageSummary) -> ListingKey {
    (date_view(s.date), s.title@, s.slug@)
}

/// `s` is the summary of `p`.
pub open spec fn summarizes(s: PageSummary, p: Page) -> bool {
    &&& s.title@ == p.title@
    &&& date_view(s.date) == date_view(p.date)
    &&& s.slug@ == p.slug@
    &&& s.url@ == slug_url(p.slug@)
}

/// Each summary summarizes the page at the same position.
pub open spec fn summarize_all(s: Seq<PageSummary>, p: Seq<Page>) -> bool {
    s.len() == p.len() && forall|i: int| 0 <= i < s.len() ==> summarizes(#[trigger] s[i], p[i])
}

/// Listing order is total: two different keys are listed one way round or
/// the other.
pub proof fn lemma_key_total(a: ListingKey, b: ListingKey)
    ensures
        a == b || key_before(a, b) || key_before(b, a),
{
    lemma_lex_lt_total(a.1, b.1);
    lemma_lex_lt_total(a.2, b.2);
}

proof fn lemma_key_irreflexive(a: ListingKey)
    ensures
        !key_before(a, a),
{
    lemma_lex_lt_irreflexive(a.1);
    lemma_lex_lt_irreflexive(a.2);
}

proof fn lemma_tie_transitive(a: ListingKey, b: ListingKey, c: ListingKey)
    requires
        tie_before(a, b),
        tie_before(b, c),
    ensures
        tie_before(a, c),
{
    if lex_lt(a.1, b.1) && lex_lt(b.1, c.1) {
        lemma_lex_lt_transitive(a.1, b.1, c.1);
    }
    if a.1 == b.1 && b.1 == c.1 {
        lemma_lex_lt_irreflexive(a.1);
        lemma_lex_lt_transitive(a.2, b.2, c.2);
    }
}

proof fn lemma_key_transitive(a: ListingKey, b: ListingKey, c: ListingKey)
    requires
        key_before(a, b),
        key_before(b, c),
    ensures
        key_before(a, c),
{
    if a.0 is Some && b.0 is Some && c.0 is Some {
        if a.0 == b.0 && b.0 == c.0 {
            lemma_tie_transitive(a, b, c);
        }
    } else if a.0 is None && b.0 is None && c.0 is None {
        lemma_tie_transitive(a, b, c);
    }
}

/// Listing order is a strict weak order.
pub proof fn lemma_key_order(a: ListingKey, b: ListingKey, c: ListingKey)
    ensures
        !key_before(a, a),
        key_before(a, b) && key_before(b, c) ==> key_before(a, c),
        key_before(a, b) && !key_before(c, b) ==> key_before(a, c),
{
    lemma_key_irreflexive(a);
    if key_before(a, b) && key_before(b, c) {
        lemma_key_transitive(a, b, c);
    }
    if key_before(a, b) && !key_before(c, b) {
        lemma_key_total(b, c);
        if key_before(b, c) {
            lemma_key_transitive(a, b, c);
        }
    }
}

/// Swapping two keys swaps their order: a key listed before another is not
/// listed after it, keys that differ are listed one way round or the other,
/// and equal keys neither way.
pub proof fn lemma_key_reverse(a: ListingKey, b: ListingKey)
    ensures
        key_before(a, b) ==> !key_before(b, a),
        a != b ==> key_before(a, b) || key_before(b, a),
        a == b ==> !key_before(a, b) && !key_before(b, a),
{
    lemma_key_total(a, b);
    lemma_key_irreflexive(a);
    if key_before(a, b) && key_before(b, a) {
        lemma_key_transitive(a, b, a);
    }
}

/// Whether the listing key `(ad, at, aslug)` comes before `(bd, bt, bslug)`.
pub(crate) fn listed_before(
    ad: &Option<Date>,
    at: &String,
    aslug: &Slug,
    bd: &Option<Date>,
    bt: &String,
    bslug: &Slug,
) -> (r: bool)
    ensures
        r == key_before((date_view(*ad), at@, aslug@), (date_view(*bd), bt@, bslug@)),
{
    let tie = str_lt(at.as_str(), bt.as_str()) || (*at == *bt && str_lt(
        aslug.as_str(),
        bslug.as_str(),
    ));
    match (ad, bd) {
        (Some(x), Some(y)) => y.is_before(x) || (x.same_as(y) && tie),
        (Some(_), None) => true,
        (None, Some(_)) => false,
        (None, None) => tie,
    }
}

impl Ranked for PageSummary {
    open spec fn before(self, other: Self) -> bool {
        key_before(summary_key(self), summary_key(other))
    }

    fn precedes(&self, other: &Self) -> (r: bool) {
        listed_before(&self.date, &self.title, &self.slug, &other.date, &other.title, &other.slug)
    }

    proof fn lemma_order(a: Self, b: Self, c: Self) {
        lemma_key_order(summary_key(a), summary_key(b), summary_key(c));
    }
}

impl Ranked for Page {
    open spec fn before(self, other: Self) -> bool {
        key_before(page_key(self), page_key(other))
    }

    fn precedes(&self, other: &Self) -> (r: bool) {
        listed_before(&self.date, &self.title, &self.slug, &other.date, &other.title, &other.slug)
    }

    proof fn lemma_order(a: Self, b: Self, c: Self) {
        lemma_key_order(page_key(a), page_key(b), page_key(c));
    }
}

impl PageSummary {
    /// The summary of a page.
    pub fn from(page: &Page) -> (r: PageSummary)
        ensures
            summarizes(r, *page),
    {
        PageSummary {
            title: page.title.clone(),
            date: page.date,
            slug: page.slug.cloned(),
            url: page.slug.url(),
        }
    }
}

proof fn lemma_summary_insert_index(s: Seq<PageSummary>, p: Seq<Page>, x: PageSummary, y: Page)
    requires
        summarize_all(s, p),
        summarizes(x, y),
    ensures
        insert_index(s, x) == insert_index(p, y),
    decreases s.len(),
{
    if s.len() > 0 {
        assert(summarizes(s[s.len() - 1], p[p.len() - 1]));
        assert(summarize_all(s.drop_last(), p.drop_last())) by {
            assert forall|i: int| 0 <= i < s.len() - 1 implies summarizes(
                #[trigger] s.drop_last()[i],
                p.drop_last()[i],
            ) by {
                assert(summarizes(s[i], p[i]));
            }
        }
        lemma_summary_insert_index(s.drop_last(), p.drop_last(), x, y);
    }
}

/// Sorting summaries puts them in the order their pages sort in.
pub proof fn lemma_summary_sort(s: Seq<PageSummary>, p: Seq<Page>)
    requires
        summarize_all(s, p),
    ensures
        summarize_all(rank_sort(s), rank_sort(p)),
    decreases s.len(),
{
    if s.len() > 0 {
        assert(summarize_all(s.drop_last(), p.drop_last())) by {
            assert forall|i: int| 0 <= i < s.len() - 1 implies summarizes(
                #[trigger] s.drop_last()[i],
                p.drop_last()[i],
            ) by {
                assert(summarizes(s[i], p[i]));
            }
        }
        lemma_summary_sort(s.drop_last(), p.drop_last());
        let rs = rank_sort(s.drop_last());
        let rp = rank_sort(p.drop_last());
        assert(summarizes(s.last(), p.last())) by {
            assert(summarizes(s[s.len() - 1], p[p.len() - 1]));
        }
        lemma_summary_insert_index(rs, rp, s.last(), p.last());
        crate::sort::lemma_insert_index(rs, s.last());
        crate::sort::lemma_insert_index(rp, p.last());
        let k = insert_index(rs, s.last());
        let a = rs.insert(k, s.last());
        let b = rp.insert(k, p.last());
        assert forall|i: int| 0 <= i < a.len() implies summarizes(#[trigger] a[i], b[i]) by {
            if i < k {
                assert(a[i] == rs[i] && b[i] == rp[i]);
                assert(summarizes(rs[i], rp[i]));
            } else if i > k {
                assert(a[i] == rs[i - 1] && b[i] == rp[i - 1]);
                assert(summarizes(rs[i - 1], rp[i - 1]));
            }
        }
    }
}

} // verus!

verus! {

/// Listing order puts the newer of two dated pages first, whatever their
/// titles and slugs, and a dated page before an undated one.
pub proof fn lemma_newer_listed_first(a: ListingKey, b: ListingKey)
    requires
        a.0 matches Some(x) && valid_ymd(x.0, x.1, x.2),
        b.0 matches Some(y) ==> valid_ymd(y.0, y.1, y.2),
    ensures
        (b.0 matches Some(y) && day_number(y) < day_number(a.0->0)) ==> key_before(a, b) && !key_before(b, a),
        b.0 is None ==> key_before(a, b) && !key_before(b, a),
{
    let x = a.0->0;
    if let Some(y) = b.0 {
        lemma_date_order_is_calendar_order(x, y);
        lemma_date_order_is_calendar_order(y, x);
    }
}

/// Pages in listing order come newest first and undated last: of two dated
/// pages, the one listed first has the later (or the same) day, and no dated
/// page comes after an undated one.
pub proof fn lemma_listing_is_newest_first(ps: Seq<Page>)
    requires
        forall|i: int| 0 <= i < ps.len() ==> ((#[trigger] ps[i]).date matches Some(d) ==> valid_ymd(
            d@.0,
            d@.1,
            d@.2,
        )),
    ensures
        forall|i: int, j: int|
            0 <= i < j < rank_sort(ps).len() ==> {
                let p = #[trigger] rank_sort(ps)[i];
                let q = #[trigger] rank_sort(ps)[j];
                &&& (p.date is Some && q.date is Some) ==> day_number(p.date->0@) >= day_number(
                    q.date->0@,
                )
                &&& p.date is None ==> q.date is None
            },
{
    let r = rank_sort(ps);
    crate::sort::lemma_rank_sort_permutes(ps);
    crate::sort::lemma_rank_sort_ranked(ps);
    broadcast use vstd::seq_lib::group_to_multiset_ensures;
    assert forall|k: int| 0 <= k < r.len() implies ((#[trigger] r[k]).date matches Some(d) ==> valid_ymd(
        d@.0,
        d@.1,
        d@.2,
    )) by {
        assert(r.to_multiset().count(r[k]) > 0);
        assert(ps.contains(r[k]));
        let m = choose|m: int| 0 <= m < ps.len() && ps[m] == r[k];
        assert(ps[m] == r[k]);
    }
    assert forall|i: int, j: int| 0 <= i < j < r.len() implies {
        let p = #[trigger] r[i];
        let q = #[trigger] r[j];
        &&& (p.date is Some && q.date is Some) ==> day_number(p.date->0@) >= day_number(q.date->0@)
        &&& p.date is None ==> q.date is None
    } by {
        let p = r[i];
        let q = r[j];
        assert(!q.before(p));
        if q.date is Some {
            lemma_newer_listed_first(page_key(q), page_key(p));
        }
    }
}

} // verus!

verus! {

/// Pages with the same date, or both undated, are listed by title and then
/// by slug, each in dictionary order: the one whose title (or, for equal
/// titles, slug) is smaller at the first place they differ, or is a proper
/// prefix of the other's, comes first.
pub proof fn lemma_ties_by_title_then_slug(a: ListingKey, b: ListingKey)
    requires
        a.0 == b.0,
    ensures
        (exists|k: int| #[trigger] first_difference_favours(a.1, b.1, k)) ==> key_before(a, b)
            && !key_before(b, a),
        (a.1 == b.1 && exists|k: int| #[trigger] first_difference_favours(a.2, b.2, k)) ==> key_before(
            a,
            b,
        ) && !key_before(b, a),
{
    lemma_lex_lt_first_difference(a.1, b.1);
    lemma_lex_lt_first_difference(a.2, b.2);
    lemma_key_reverse(a, b);
}

} // verus!
