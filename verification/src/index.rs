//! The section index (folders and what they hold) and the tag index.

use vstd::prelude::*;
use crate::page::Page;
use crate::slug::{lemma_slug_prefix_is_valid, slug_parent, slug_text_ok, valid_slug_text, Slug};
use crate::sort::{insert_sorted_unique, rank_sort, sort_ranked, strictly_sorted};
use crate::summary::{lemma_summary_sort, summarize_all, PageSummary};
use crate::tag::{valid_tag, Tag};
use crate::text::{chars_last_index, chars_of, lemma_last_index_of, push_range};

verus! {

/// `x` is the text before some `/` of `t`: a folder that `t` lies in.
pub open spec fn is_ancestor_text(x: Seq<char>, t: Seq<char>) -> bool {
    exists|k: int| 0 <= k < t.len() && #[trigger] t[k] == '/' && x == t.subrange(0, k)
}

/// Some page lies in folder `x`: `x` is a section.
pub open spec fn is_section_of(pages: Seq<Page>, x: Seq<char>) -> bool {
    exists|i: int| 0 <= i < pages.len() && is_ancestor_text(x, #[trigger] pages[i].slug@)
}

/// The pages directly in folder `s`, in the given order.
pub open spec fn pages_in(pages: Seq<Page>, s: Seq<char>) -> Seq<Page>
    decreases pages.len(),
{
    if pages.len() == 0 {
        pages
    } else if slug_parent(pages.last().slug@) == Some(s) {
        pages_in(pages.drop_last(), s).push(pages.last())
    } else {
        pages_in(pages.drop_last(), s)
    }
}

/// The folders among `keys` directly inside folder `s`, in the given order.
pub open spec fn children_of(keys: Seq<Seq<char>>, s: Seq<char>) -> Seq<Seq<char>>
    decreases keys.len(),
{
    if keys.len() == 0 {
        keys
    } else if slug_parent(keys.last()) == Some(s) {
        children_of(keys.drop_last(), s).push(keys.last())
    } else {
        children_of(keys.drop_last(), s)
    }
}

/// The texts of some slugs.
pub open spec fn slug_texts(v: Seq<Slug>) -> Seq<Seq<char>> {
    Seq::new(v.len(), |i: int| v[i]@)
}

/// One section: its slug, its pages (listing order) and its direct
/// subsections (by slug).
#[derive(Debug)]
pub struct Section {
    pub slug: Slug,
    pub pages: Vec<PageSummary>,
    pub subsections: Vec<Slug>,
}

/// Every section of a site, by slug.
#[derive(Debug)]
pub struct SectionIndex {
    pub sections: Vec<Section>,
}

/// The slugs of some sections.
pub open spec fn section_keys(secs: Seq<Section>) -> Seq<Seq<char>> {
    Seq::new(secs.len(), |i: int| secs[i].slug@)
}

/// `secs` is the section index of `pages`: one section per folder that some
/// page lies in, by slug; each with the pages directly in it, in listing
/// order, and the sections directly in it, by slug.
pub open spec fn section_index_of(pages: Seq<Page>, secs: Seq<Section>) -> bool {
    let ks = section_keys(secs);
    &&& strictly_sorted(ks)
    &&& forall|x: Seq<char>| #[trigger] ks.contains(x) <==> is_section_of(pages, x)
    &&& forall|i: int|
        0 <= i < secs.len() ==> summarize_all(
            (#[trigger] secs[i]).pages@,
            rank_sort(pages_in(pages, ks[i])),
        )
    &&& forall|i: int|
        0 <= i < secs.len() ==> slug_texts((#[trigger] secs[i]).subsections@) == children_of(
            ks,
            ks[i],
        )
}

/// The section a slug is in: everything before the last `/`.
pub fn extract_parent_slug(slug: &str) -> (r: Option<String>)
    ensures
        r is Some == slug_parent(slug@) is Some,
        r matches Some(p) ==> p@ == slug_parent(slug@)->0,
{
    let cs = chars_of(slug);
    proof {
        lemma_last_index_of(cs@, '/');
    }
    match chars_last_index(&cs, '/') {
        None => None,
        Some(k) => {
            let mut out = String::new();
            push_range(&mut out, &cs, 0, k);
            Some(out)
        },
    }
}

/// Whether folder `key` is the one `slug` lies directly in.
fn parent_is(slug: &str, key: &String) -> (r: bool)
    ensures
        r == (slug_parent(slug@) == Some(key@)),
{
    match extract_parent_slug(slug) {
        None => false,
        Some(p) => p == *key,
    }
}

spec fn in_first_pages(pages: Seq<Page>, n: int, x: Seq<char>) -> bool {
    exists|q: int| 0 <= q < n && is_ancestor_text(x, #[trigger] pages[q].slug@)
}

spec fn before_slash(t: Seq<char>, n: int, x: Seq<char>) -> bool {
    exists|k: int| 0 <= k < n && #[trigger] t[k] == '/' && x == t.subrange(0, k)
}

/// Every folder some page lies in, sorted, each once.
fn section_slugs(pages: &Vec<Page>) -> (r: Vec<String>)
    ensures
        strictly_sorted(r.deep_view()),
        forall|x: Seq<char>| #[trigger] r.deep_view().contains(x) <==> is_section_of(pages@, x),
        forall|x: Seq<char>| #[trigger] r.deep_view().contains(x) ==> valid_slug_text(x),
{
    let mut keys: Vec<String> = Vec::new();
    let mut i: usize = 0;
    while i < pages.len()
        invariant
            i <= pages@.len(),
            forall|q: int| 0 <= q < i ==> slug_text_ok(#[trigger] pages@[q].slug@),
            strictly_sorted(keys.deep_view()),
            forall|x: Seq<char>| #[trigger]
                keys.deep_view().contains(x) <==> in_first_pages(pages@, i as int, x),
        decreases pages@.len() - i,
    {
        let cs = chars_of(pages[i].slug.as_str());
        let ghost t = pages@[i as int].slug@;
        let page_slug = &pages[i].slug;
        proof {
            use_type_invariant(page_slug);
        }
        let mut k: usize = 0;
        while k < cs.len()
            invariant
                k <= cs@.len(),
                forall|q: int| 0 <= q <= i ==> slug_text_ok(#[trigger] pages@[q].slug@),
                cs@ == t,
                i < pages@.len(),
                t == pages@[i as int].slug@,
                strictly_sorted(keys.deep_view()),
                forall|x: Seq<char>| #[trigger]
                    keys.deep_view().contains(x) <==> (in_first_pages(pages@, i as int, x)
                        || before_slash(t, k as int, x)),
            decreases cs@.len() - k,
        {
            let ghost before = keys.deep_view();
            if cs[k] == '/' {
                let mut s = String::new();
                push_range(&mut s, &cs, 0, k);
                insert_sorted_unique(&mut keys, s);
            }
            proof {
                assert forall|x: Seq<char>| #[trigger]
                    keys.deep_view().contains(x) <==> (in_first_pages(pages@, i as int, x)
                        || before_slash(t, k + 1, x)) by {
                    if before_slash(t, k + 1, x) {
                        let kk = choose|kk: int|
                            0 <= kk < k + 1 && #[trigger] t[kk] == '/' && x == t.subrange(0, kk);
                        if kk < k {
                            assert(before_slash(t, k as int, x));
                        }
                    }
                    if before_slash(t, k as int, x) {
                        let kk = choose|kk: int|
                            0 <= kk < k && #[trigger] t[kk] == '/' && x == t.subrange(0, kk);
                        assert(before_slash(t, k + 1, x));
                    }
                    if cs@[k as int] == '/' && x == t.subrange(0, k as int) {
                        assert(t[k as int] == '/');
                        assert(before_slash(t, k + 1, x));
                    }
                }
            }
            k += 1;
        }
        proof {
            assert forall|x: Seq<char>| #[trigger]
                keys.deep_view().contains(x) <==> in_first_pages(pages@, i + 1, x) by {
                if in_first_pages(pages@, i + 1, x) {
                    let q = choose|q: int|
                        0 <= q < i + 1 && is_ancestor_text(x, #[trigger] pages@[q].slug@);
                    if q < i {
                        assert(in_first_pages(pages@, i as int, x));
                    } else {
                        let kk = choose|kk: int|
                            0 <= kk < t.len() && #[trigger] t[kk] == '/' && x == t.subrange(0, kk);
                        assert(before_slash(t, cs@.len() as int, x));
                    }
                }
                if before_slash(t, cs@.len() as int, x) {
                    let kk = choose|kk: int|
                        0 <= kk < cs@.len() && #[trigger] t[kk] == '/' && x == t.subrange(0, kk);
                    assert(is_ancestor_text(x, pages@[i as int].slug@));
                    assert(in_first_pages(pages@, i + 1, x));
                }
                if in_first_pages(pages@, i as int, x) {
                    let q = choose|q: int| 0 <= q < i && is_ancestor_text(x, #[trigger] pages@[q].slug@);
                    assert(in_first_pages(pages@, i + 1, x));
                }
            }
        }
        i += 1;
    }
    proof {
        assert forall|x: Seq<char>| #[trigger]
            keys.deep_view().contains(x) <==> is_section_of(pages@, x) by {
            if is_section_of(pages@, x) {
                let q = choose|q: int| 0 <= q < pages@.len() && is_ancestor_text(x, #[trigger] pages@[q].slug@);
                assert(in_first_pages(pages@, pages@.len() as int, x));
            }
        }
        assert forall|x: Seq<char>| #[trigger] keys.deep_view().contains(x) implies valid_slug_text(x) by {
            let q = choose|q: int| 0 <= q < pages@.len() && is_ancestor_text(x, #[trigger] pages@[q].slug@);
            let t = pages@[q].slug@;
            let k = choose|k: int| 0 <= k < t.len() && #[trigger] t[k] == '/' && x == t.subrange(0, k);
            lemma_slug_prefix_is_valid(t, k);
        }
    }
    keys
}

/// The summaries of the pages directly in folder `key`, in listing order.
fn section_pages(pages: &Vec<Page>, key: &String) -> (r: Vec<PageSummary>)
    ensures
        summarize_all(r@, rank_sort(pages_in(pages@, key@))),
{
    let mut sums: Vec<PageSummary> = Vec::new();
    let mut p: usize = 0;
    while p < pages.len()
        invariant
            p <= pages@.len(),
            summarize_all(sums@, pages_in(pages@.subrange(0, p as int), key@)),
        decreases pages@.len() - p,
    {
        proof {
            assert(pages@.subrange(0, p + 1).drop_last() =~= pages@.subrange(0, p as int));
            assert(pages@.subrange(0, p + 1).last() == pages@[p as int]);
        }
        if parent_is(pages[p].slug.as_str(), key) {
            let ghost before = sums@;
            let s = PageSummary::from(&pages[p]);
            sums.push(s);
            proof {
                let want = pages_in(pages@.subrange(0, p + 1), key@);
                assert(want == pages_in(pages@.subrange(0, p as int), key@).push(pages@[p as int]));
                assert forall|j: int| 0 <= j < sums@.len() implies crate::summary::summarizes(
                    #[trigger] sums@[j],
                    want[j],
                ) by {
                    if j < before.len() {
                        assert(sums@[j] == before[j]);
                    }
                }
            }
        }
        p += 1;
    }
    proof {
        assert(pages@.subrange(0, pages@.len() as int) =~= pages@);
        lemma_summary_sort(sums@, pages_in(pages@, key@));
    }
    sort_ranked(sums)
}

/// The folders among `keys` directly inside folder `key`.
fn child_sections(keys: &Vec<String>, key: &String) -> (r: Vec<Slug>)
    requires
        forall|x: Seq<char>| #[trigger] keys.deep_view().contains(x) ==> valid_slug_text(x),
    ensures
        slug_texts(r@) == children_of(keys.deep_view(), key@),
{
    let mut subs: Vec<Slug> = Vec::new();
    let mut c: usize = 0;
    while c < keys.len()
        invariant
            c <= keys@.len(),
            forall|x: Seq<char>| #[trigger] keys.deep_view().contains(x) ==> valid_slug_text(x),
            slug_texts(subs@) == children_of(keys.deep_view().subrange(0, c as int), key@),
        decreases keys@.len() - c,
    {
        proof {
            assert(keys.deep_view().subrange(0, c + 1).drop_last() =~= keys.deep_view().subrange(
                0,
                c as int,
            ));
            assert(keys.deep_view().subrange(0, c + 1).last() == keys@[c as int]@);
        }
        if parent_is(keys[c].as_str(), key) {
            assert(keys.deep_view()[c as int] == keys@[c as int]@);
            assert(keys.deep_view().contains(keys@[c as int]@));
            let ghost before = slug_texts(subs@);
            subs.push(Slug::from_text(keys[c].clone()));
            proof {
                assert(slug_texts(subs@) =~= before.push(keys@[c as int]@));
            }
        }
        c += 1;
    }
    proof {
        assert(keys.deep_view().subrange(0, keys@.len() as int) =~= keys.deep_view());
    }
    subs
}

/// Every folder that some page lies in is a section (`a/b/c` gives `a/b`
/// and `a`); top-level pages belong to none, and the site root is the home
/// page, not a section. Each section lists the pages directly in it, newest
/// first, undated last, then by title and slug, and the sections directly in
/// it, by slug. Sections come in slug order.
pub fn build_section_index(pages: &Vec<Page>) -> (r: SectionIndex)
    ensures
        section_index_of(pages@, r.sections@),
{
    let keys = section_slugs(pages);
    let ghost kv = keys.deep_view();
    let mut sections: Vec<Section> = Vec::new();
    let mut i: usize = 0;
    while i < keys.len()
        invariant
            i <= keys@.len(),
            kv == keys.deep_view(),
            forall|x: Seq<char>| #[trigger] kv.contains(x) ==> valid_slug_text(x),
            sections@.len() == i,
            forall|j: int| 0 <= j < i ==> (#[trigger] sections@[j]).slug@ == kv[j],
            forall|j: int|
                0 <= j < i ==> summarize_all(
                    (#[trigger] sections@[j]).pages@,
                    rank_sort(pages_in(pages@, kv[j])),
                ),
            forall|j: int|
                0 <= j < i ==> slug_texts((#[trigger] sections@[j]).subsections@) == children_of(
                    kv,
                    kv[j],
                ),
        decreases keys@.len() - i,
    {
        let key = &keys[i];
        assert(kv[i as int] == key@);
        assert(kv.contains(key@));
        let pages_here = section_pages(pages, key);
        let subs = child_sections(&keys, key);
        sections.push(
            Section { slug: Slug::from_text(key.clone()), pages: pages_here, subsections: subs },
        );
        i += 1;
    }
    proof {
        assert(section_keys(sections@) =~= kv);
    }
    SectionIndex { sections }
}

/// The pages with tag `t`, in the given order.
pub open spec fn pages_tagged(pages: Seq<Page>, t: Seq<char>) -> Seq<Page>
    decreases pages.len(),
{
    if pages.len() == 0 {
        pages
    } else if pages.last().tags.deep_view().contains(t) {
        pages_tagged(pages.drop_last(), t).push(pages.last())
    } else {
        pages_tagged(pages.drop_last(), t)
    }
}

/// Some page has tag `t`.
pub open spec fn is_tag_of(pages: Seq<Page>, t: Seq<char>) -> bool {
    exists|i: int| 0 <= i < pages.len() && (#[trigger] pages[i]).tags.deep_view().contains(t)
}

/// One tag and the pages that have it, in listing order.
#[derive(Debug)]
pub struct TagGroup {
    pub tag: Tag,
    pub pages: Vec<PageSummary>,
}

/// The tags of some groups.
pub open spec fn group_tags(groups: Seq<TagGroup>) -> Seq<Seq<char>> {
    Seq::new(groups.len(), |i: int| groups[i].tag@)
}

/// `groups` is the tag index of `pages`: one group per tag some page has, by
/// tag, each with the pages that have it in listing order.
pub open spec fn tag_index_of(pages: Seq<Page>, groups: Seq<TagGroup>) -> bool {
    let ks = group_tags(groups);
    &&& strictly_sorted(ks)
    &&& forall|x: Seq<char>| #[trigger] ks.contains(x) <==> is_tag_of(pages, x)
    &&& forall|i: int|
        0 <= i < groups.len() ==> summarize_all(
            (#[trigger] groups[i]).pages@,
            rank_sort(pages_tagged(pages, ks[i])),
        )
}

/// Whether `tags` holds a tag with the text `t`.
fn has_tag(tags: &Vec<Tag>, t: &String) -> (r: bool)
    ensures
        r == tags.deep_view().contains(t@),
{
    let mut j: usize = 0;
    while j < tags.len()
        invariant
            j <= tags@.len(),
            forall|k: int| 0 <= k < j ==> tags.deep_view()[k] != t@,
        decreases tags@.len() - j,
    {
        assert(tags.deep_view()[j as int] == tags@[j as int]@);
        if tags[j].to_string() == *t {
            return true;
        }
        j += 1;
    }
    false
}

/// Every tag some page has, sorted, each once.
fn tag_names(pages: &Vec<Page>) -> (r: Vec<String>)
    ensures
        strictly_sorted(r.deep_view()),
        forall|x: Seq<char>| #[trigger] r.deep_view().contains(x) <==> is_tag_of(pages@, x),
        forall|x: Seq<char>| #[trigger] r.deep_view().contains(x) ==> valid_tag(x),
{
    let mut keys: Vec<String> = Vec::new();
    let mut i: usize = 0;
    while i < pages.len()
        invariant
            i <= pages@.len(),
            forall|q: int, j: int| 0 <= q < i && 0 <= j < pages@[q].tags@.len() ==> valid_tag(
                #[trigger] pages@[q].tags@[j]@,
            ),
            strictly_sorted(keys.deep_view()),
            forall|x: Seq<char>| #[trigger]
                keys.deep_view().contains(x) <==> is_tag_of(pages@.subrange(0, i as int), x),
        decreases pages@.len() - i,
    {
        let tags = &pages[i].tags;
        let mut k: usize = 0;
        while k < tags.len()
            invariant
                k <= tags@.len(),
                i < pages@.len(),
                forall|q: int, j: int| 0 <= q < i && 0 <= j < pages@[q].tags@.len() ==> valid_tag(
                    #[trigger] pages@[q].tags@[j]@,
                ),
                forall|j: int| 0 <= j < k ==> valid_tag(#[trigger] tags@[j]@),
                tags == pages@[i as int].tags,
                strictly_sorted(keys.deep_view()),
                forall|x: Seq<char>| #[trigger]
                    keys.deep_view().contains(x) <==> (is_tag_of(pages@.subrange(0, i as int), x)
                        || tags.deep_view().subrange(0, k as int).contains(x)),
            decreases tags@.len() - k,
        {
            let tag = &tags[k];
            proof {
                use_type_invariant(tag);
            }
            insert_sorted_unique(&mut keys, tags[k].to_string());
            proof {
                let pre = tags.deep_view().subrange(0, k as int);
                let post = tags.deep_view().subrange(0, k + 1);
                assert(post =~= pre.push(tags@[k as int]@));
                assert forall|x: Seq<char>| #[trigger] post.contains(x) <==> (pre.contains(x) || x
                    == tags@[k as int]@) by {
                    if post.contains(x) {
                        let j = choose|j: int| 0 <= j < post.len() && post[j] == x;
                        if j < k {
                            assert(pre[j] == x);
                        }
                    }
                    if pre.contains(x) {
                        let j = choose|j: int| 0 <= j < pre.len() && pre[j] == x;
                        assert(post[j] == x);
                    }
                    if x == tags@[k as int]@ {
                        assert(post[k as int] == x);
                    }
                }
            }
            k += 1;
        }
        proof {
            assert forall|q: int, j: int| 0 <= q < i + 1 && 0 <= j < pages@[q].tags@.len() implies valid_tag(
                #[trigger] pages@[q].tags@[j]@,
            ) by {
                if q == i {
                    assert(tags@[j] == pages@[q].tags@[j]);
                }
            }
            let before = pages@.subrange(0, i as int);
            let after = pages@.subrange(0, i + 1);
            assert(tags.deep_view().subrange(0, tags@.len() as int) =~= tags.deep_view());
            assert forall|x: Seq<char>| #[trigger]
                keys.deep_view().contains(x) <==> is_tag_of(after, x) by {
                if is_tag_of(after, x) {
                    let q = choose|q: int|
                        0 <= q < after.len() && (#[trigger] after[q]).tags.deep_view().contains(x);
                    if q < i {
                        assert(before[q] == after[q]);
                        assert(is_tag_of(before, x));
                    }
                }
                if is_tag_of(before, x) {
                    let q = choose|q: int|
                        0 <= q < before.len() && (#[trigger] before[q]).tags.deep_view().contains(x);
                    assert(after[q] == before[q]);
                }
                if tags.deep_view().contains(x) {
                    assert(after[i as int] == pages@[i as int]);
                }
            }
        }
        i += 1;
    }
    proof {
        assert(pages@.subrange(0, pages@.len() as int) =~= pages@);
        assert forall|x: Seq<char>| #[trigger] keys.deep_view().contains(x) implies valid_tag(x) by {
            let q = choose|q: int| 0 <= q < pages@.len() && (#[trigger] pages@[q]).tags.deep_view().contains(x);
            let tv = pages@[q].tags.deep_view();
            let j = choose|j: int| 0 <= j < tv.len() && tv[j] == x;
            assert(tv[j] == pages@[q].tags@[j]@);
        }
    }
    keys
}

/// The summaries of the pages with tag `t`, in listing order.
fn tagged_pages(pages: &Vec<Page>, t: &String) -> (r: Vec<PageSummary>)
    ensures
        summarize_all(r@, rank_sort(pages_tagged(pages@, t@))),
{
    let mut sums: Vec<PageSummary> = Vec::new();
    let mut p: usize = 0;
    while p < pages.len()
        invariant
            p <= pages@.len(),
            summarize_all(sums@, pages_tagged(pages@.subrange(0, p as int), t@)),
        decreases pages@.len() - p,
    {
        proof {
            assert(pages@.subrange(0, p + 1).drop_last() =~= pages@.subrange(0, p as int));
            assert(pages@.subrange(0, p + 1).last() == pages@[p as int]);
        }
        if has_tag(&pages[p].tags, t) {
            let ghost before = sums@;
            let s = PageSummary::from(&pages[p]);
            sums.push(s);
            proof {
                let want = pages_tagged(pages@.subrange(0, p + 1), t@);
                assert(want == pages_tagged(pages@.subrange(0, p as int), t@).push(pages@[p as int]));
                assert forall|j: int| 0 <= j < sums@.len() implies crate::summary::summarizes(
                    #[trigger] sums@[j],
                    want[j],
                ) by {
                    if j < before.len() {
                        assert(sums@[j] == before[j]);
                    }
                }
            }
        }
        p += 1;
    }
    proof {
        assert(pages@.subrange(0, pages@.len() as int) =~= pages@);
        lemma_summary_sort(sums@, pages_tagged(pages@, t@));
    }
    sort_ranked(sums)
}

/// Pages grouped by tag, by tag name; each group's pages newest first,
/// undated last, then by title and slug.
pub fn build_tag_index(pages: &Vec<Page>) -> (r: Vec<TagGroup>)
    ensures
        tag_index_of(pages@, r@),
{
    let keys = tag_names(pages);
    let ghost kv = keys.deep_view();
    let mut groups: Vec<TagGroup> = Vec::new();
    let mut i: usize = 0;
    while i < keys.len()
        invariant
            i <= keys@.len(),
            kv == keys.deep_view(),
            forall|x: Seq<char>| #[trigger] kv.contains(x) ==> valid_tag(x),
            groups@.len() == i,
            forall|j: int| 0 <= j < i ==> (#[trigger] groups@[j]).tag@ == kv[j],
            forall|j: int|
                0 <= j < i ==> summarize_all(
                    (#[trigger] groups@[j]).pages@,
                    rank_sort(pages_tagged(pages@, kv[j])),
                ),
        decreases keys@.len() - i,
    {
        let key = &keys[i];
        assert(kv[i as int] == key@);
        assert(kv.contains(key@));
        let pages_here = tagged_pages(pages, key);
        groups.push(TagGroup { tag: Tag::from_text(key.clone()), pages: pages_here });
        i += 1;
    }
    proof {
        assert(group_tags(groups@) =~= kv);
    }
    groups
}

} // verus!

verus! {

proof fn lemma_pages_in_contains(pages: Seq<Page>, s: Seq<char>, i: int)
    requires
        0 <= i < pages.len(),
        slug_parent(pages[i].slug@) == Some(s),
    ensures
        pages_in(pages, s).contains(pages[i]),
    decreases pages.len(),
{
    if i < pages.len() - 1 {
        lemma_pages_in_contains(pages.drop_last(), s, i);
        let r = pages_in(pages.drop_last(), s);
        let k = choose|k: int| 0 <= k < r.len() && r[k] == pages[i];
        if slug_parent(pages.last().slug@) == Some(s) {
            assert(r.push(pages.last())[k] == pages[i]);
        }
    } else {
        let r = pages_in(pages.drop_last(), s);
        assert(r.push(pages.last())[r.len() as int] == pages[i]);
    }
}

proof fn lemma_sorted_contains<T: crate::sort::Ranked>(s: Seq<T>, x: T)
    requires
        s.contains(x),
    ensures
        rank_sort(s).contains(x),
{
    broadcast use vstd::seq_lib::group_to_multiset_ensures;
    crate::sort::lemma_rank_sort_permutes(s);
    assert(s.to_multiset().count(x) > 0);
    assert(rank_sort(s).to_multiset().count(x) > 0);
}

/// Every page that lies in a folder is listed by that folder's section, and
/// that folder is a section.
pub proof fn lemma_page_listed_in_its_section(pages: Seq<Page>, i: int, s: Seq<char>)
    requires
        0 <= i < pages.len(),
        slug_parent(pages[i].slug@) == Some(s),
    ensures
        is_section_of(pages, s),
        rank_sort(pages_in(pages, s)).contains(pages[i]),
{
    let t = pages[i].slug@;
    crate::text::lemma_last_index_of(t, '/');
    let k = crate::text::last_index_of(t, '/');
    assert(t[k] == '/' && s == t.subrange(0, k)) by {
        reveal_with_fuel(crate::text::last_index_of, 2);
    }
    assert(is_ancestor_text(s, t));
    lemma_pages_in_contains(pages, s, i);
    lemma_sorted_contains(pages_in(pages, s), pages[i]);
}

/// A page with a tag is listed by that tag's group, and the tag has one.
pub proof fn lemma_page_listed_under_its_tags(pages: Seq<Page>, i: int, t: Seq<char>)
    requires
        0 <= i < pages.len(),
        pages[i].tags.deep_view().contains(t),
    ensures
        is_tag_of(pages, t),
        rank_sort(pages_tagged(pages, t)).contains(pages[i]),
{
    lemma_pages_tagged_contains(pages, t, i);
    lemma_sorted_contains(pages_tagged(pages, t), pages[i]);
}

proof fn lemma_pages_tagged_contains(pages: Seq<Page>, t: Seq<char>, i: int)
    requires
        0 <= i < pages.len(),
        pages[i].tags.deep_view().contains(t),
    ensures
        pages_tagged(pages, t).contains(pages[i]),
    decreases pages.len(),
{
    if i < pages.len() - 1 {
        lemma_pages_tagged_contains(pages.drop_last(), t, i);
        let r = pages_tagged(pages.drop_last(), t);
        let k = choose|k: int| 0 <= k < r.len() && r[k] == pages[i];
        if pages.last().tags.deep_view().contains(t) {
            assert(r.push(pages.last())[k] == pages[i]);
        }
    } else {
        let r = pages_tagged(pages.drop_last(), t);
        assert(r.push(pages.last())[r.len() as int] == pages[i]);
    }
}

/// The site root is never a section when every page's slug is valid: no
/// valid slug starts with `/`.
pub proof fn lemma_root_is_not_a_section(pages: Seq<Page>)
    requires
        forall|i: int| 0 <= i < pages.len() ==> crate::slug::valid_slug_text(#[trigger] pages[i].slug@),
    ensures
        !is_section_of(pages, Seq::empty()),
{
    if is_section_of(pages, Seq::empty()) {
        let i = choose|i: int| 0 <= i < pages.len() && is_ancestor_text(Seq::empty(), #[trigger] pages[i].slug@);
        let t = pages[i].slug@;
        let k = choose|k: int| 0 <= k < t.len() && #[trigger] t[k] == '/' && Seq::<char>::empty() == t.subrange(0, k);
        assert(t.subrange(0, k).len() == k);
        assert(k == 0);
        lemma_first_piece_empty(t);
        assert(crate::slug::valid_slug_text(t));
        assert(crate::slug::segment_ok(crate::text::split_on(t, '/')[0]));
    }
}

/// Text that starts with `/` has an empty first piece.
proof fn lemma_first_piece_empty(t: Seq<char>)
    requires
        t.len() > 0,
        t[0] == '/',
    ensures
        crate::text::split_on(t, '/').len() >= 2,
        crate::text::split_on(t, '/')[0].len() == 0,
    decreases t.len(),
{
    if t.len() == 1 {
        assert(t.drop_last().len() == 0);
        assert(t.last() == '/');
    } else {
        let u = t.drop_last();
        assert(u[0] == '/');
        lemma_first_piece_empty(u);
        let p = crate::text::split_on(u, '/');
        if t.last() == '/' {
            assert(crate::text::split_on(t, '/') == p.push(Seq::empty()));
        } else {
            let q = p.update(p.len() - 1, p.last().push(t.last()));
            assert(crate::text::split_on(t, '/') == q);
            assert(q[0] == p[0]);
        }
    }
}

} // verus!
