//! The tag index and one page per tag.

use vstd::prelude::*;
use crate::index::TagGroup;
use crate::output::{Body, Output, OutputKind};
use crate::slug::slug_url;
use crate::template::{render_tag_index, render_tag_page, TagIndexEntry, TemplateContext};

verus! {

/// `entries` list the tags of `groups` with their URLs and page counts.
pub open spec fn tag_entries_of(entries: Seq<TagIndexEntry>, groups: Seq<TagGroup>) -> bool {
    &&& entries.len() == groups.len()
    &&& forall|i: int|
        0 <= i < entries.len() ==> (#[trigger] entries[i]).name@ == groups[i].tag@
            && entries[i].url@ == slug_url("tags/"@ + groups[i].tag@) && entries[i].page_count
            == groups[i].pages@.len()
}

/// `o` is the tag index listing `groups`: `tags.html` at `tags`.
pub open spec fn is_tag_index_output(o: Output, groups: Seq<TagGroup>) -> bool {
    &&& o.kind is TagIndex
    &&& o.body matches Body::Template { name, context: TemplateContext::TagIndex(e) } && name@
        == "tags.html"@ && tag_entries_of(e@, groups)
}

/// `o` is the page of tag group `g`: `tag.html` at `tags/<tag>`.
pub open spec fn is_tag_output(o: Output, g: TagGroup) -> bool {
    &&& o.kind matches OutputKind::Tag(t) && t@ == g.tag@
    &&& o.body matches Body::Template { name, context: TemplateContext::Tag(t) } && name@
        == "tag.html"@ && t.name@ == g.tag@ && t.url@ == slug_url("tags/"@ + g.tag@) && t.pages@
        == g.pages@
}

/// The tag index first (always, even with no tags, so `/tags/` is reserved
/// on every site), then one tag page per tag in name order.
pub fn build(index: Vec<TagGroup>) -> (r: Vec<Output>)
    ensures
        r@.len() == index@.len() + 1,
        is_tag_index_output(r@[0], index@),
        forall|i: int| 0 <= i < index@.len() ==> is_tag_output(#[trigger] r@[i + 1], index@[i]),
{
    let ghost groups = index@;
    let mut entries: Vec<TagIndexEntry> = Vec::new();
    let mut i: usize = 0;
    while i < index.len()
        invariant
            i <= index@.len(),
            tag_entries_of(entries@, index@.subrange(0, i as int)),
        decreases index@.len() - i,
    {
        let ghost before = entries@;
        entries.push(TagIndexEntry::new(index[i].tag.to_string(), index[i].pages.len()));
        proof {
            let want = index@.subrange(0, i + 1);
            assert forall|k: int| 0 <= k < entries@.len() implies (#[trigger] entries@[k]).name@
                == want[k].tag@ && entries@[k].url@ == slug_url("tags/"@ + want[k].tag@)
                && entries@[k].page_count == want[k].pages@.len() by {
                if k < i {
                    assert(entries@[k] == before[k]);
                    assert(want[k] == index@.subrange(0, i as int)[k]);
                }
            }
        }
        i += 1;
    }
    proof {
        assert(index@.subrange(0, index@.len() as int) =~= index@);
    }
    let mut rest = index;
    let n = rest.len();
    let mut rev: Vec<Output> = Vec::new();
    while rest.len() > 0
        invariant
            rest@.len() + rev@.len() == n,
            n == groups.len(),
            rest@ == groups.subrange(0, rest@.len() as int),
            forall|k: int| 0 <= k < rev@.len() ==> is_tag_output(#[trigger] rev@[k], groups[n - 1 - k]),
        decreases rest@.len(),
    {
        let g = rest.pop().unwrap();
        assert(g == groups[rest@.len() as int]);
        let TagGroup { tag, pages } = g;
        rev.push(render_tag_page(tag, pages));
        proof {
            assert(rest@ =~= groups.subrange(0, rest@.len() as int));
        }
    }
    let mut r: Vec<Output> = Vec::new();
    r.push(render_tag_index(entries));
    while rev.len() > 0
        invariant
            rev@.len() + r@.len() == n + 1,
            r@.len() >= 1,
            is_tag_index_output(r@[0], groups),
            forall|k: int| 0 <= k < rev@.len() ==> is_tag_output(#[trigger] rev@[k], groups[n - 1 - k]),
            forall|k: int| 1 <= k < r@.len() ==> is_tag_output(#[trigger] r@[k], groups[k - 1]),
        decreases rev@.len(),
    {
        let o = rev.pop().unwrap();
        r.push(o);
    }
    proof {
        assert forall|i: int| 0 <= i < groups.len() implies is_tag_output(
            #[trigger] r@[i + 1],
            groups[i],
        ) by {
            assert(1 <= i + 1 < r@.len());
        }
    }
    r
}

} // verus!
