//! Frontmatter tags.

use vstd::prelude::*;
use vstd::string::StringExecFns;
use crate::error::MangoError;
use crate::slug::{Slug, slug_parent, slug_url};
use crate::text::{chars_of, last_index_of, lemma_last_index_of_concat, lemma_split_covers, split_chars, split_on, views};

verus! {

/// A lowercase ASCII letter or a digit.
pub open spec fn is_tag_char(c: char) -> bool {
    ('a' <= c && c <= 'z') || ('0' <= c && c <= '9')
}

/// A non-empty run of tag characters.
pub open spec fn tag_part_ok(part: Seq<char>) -> bool {
    part.len() > 0 && forall|i: int| 0 <= i < part.len() ==> is_tag_char(#[trigger] part[i])
}

/// Text that matches `^[a-z0-9]+(-[a-z0-9]+)*$`.
pub open spec fn valid_tag(t: Seq<char>) -> bool {
    t.len() > 0 && forall|i: int|
        0 <= i < split_on(t, '-').len() ==> tag_part_ok(#[trigger] split_on(t, '-')[i])
}

/// The message for a value that is not a valid tag.
pub open spec fn tag_message(value: Seq<char>) -> Seq<char> {
    "invalid tag '"@ + value
        + "': expected lowercase ASCII letters and digits separated by single hyphens"@
}

/// A frontmatter tag that matches `^[a-z0-9]+(-[a-z0-9]+)*$`. A value only
/// exists after that check (`parse`), so a tag is its own URL segment: its
/// page is at `tags/<tag>`. Ordering is byte-wise on the text.
#[derive(Debug, PartialEq, Eq, PartialOrd, Ord, Hash)]
pub struct Tag(String);

impl View for Tag {
    type V = Seq<char>;

    closed spec fn view(&self) -> Seq<char> {
        self.0@
    }
}

impl Tag {
    /// Every tag is valid tag text.
    #[verifier::type_invariant]
    pub open spec fn well_formed(self) -> bool {
        valid_tag(self@)
    }
}

fn tag_part_ok_exec(part: &Vec<char>) -> (r: bool)
    ensures
        r == tag_part_ok(part@),
{
    if part.len() == 0 {
        return false;
    }
    let mut i: usize = 0;
    while i < part.len()
        invariant
            i <= part@.len(),
            forall|k: int| 0 <= k < i ==> is_tag_char(#[trigger] part@[k]),
        decreases part@.len() - i,
    {
        let c = part[i];
        if !(('a' <= c && c <= 'z') || ('0' <= c && c <= '9')) {
            return false;
        }
        i += 1;
    }
    true
}

/// Whether `value` is a valid tag.
pub fn is_valid_tag(value: &str) -> (r: bool)
    ensures
        r == valid_tag(value@),
{
    let cs = chars_of(value);
    if cs.len() == 0 {
        return false;
    }
    let parts = split_chars(&cs, '-');
    let mut i: usize = 0;
    while i < parts.len()
        invariant
            i <= parts@.len(),
            views(parts@) == split_on(cs@, '-'),
            cs@ == value@,
            forall|k: int| 0 <= k < i ==> tag_part_ok(#[trigger] split_on(value@, '-')[k]),
        decreases parts@.len() - i,
    {
        assert(parts@[i as int]@ == split_on(value@, '-')[i as int]);
        if !tag_part_ok_exec(&parts[i]) {
            return false;
        }
        i += 1;
    }
    true
}

impl Tag {
    /// Checks a value against the tag pattern.
    pub fn parse(value: String) -> (r: Result<Tag, MangoError>)
        ensures
            valid_tag(value@) ==> (r matches Ok(t) && t@ == value@),
            !valid_tag(value@) ==> (r matches Err(MangoError::Frontmatter(m)) && m@
                == tag_message(value@)),
    {
        if !is_valid_tag(value.as_str()) {
            return Err(
                MangoError::Frontmatter(
                    String::from_str("invalid tag '").concat(value.as_str()).concat(
                        "': expected lowercase ASCII letters and digits separated by single hyphens",
                    ),
                ),
            );
        }
        Ok(Tag(value))
    }

    /// A tag holding `text` as it is: text copied from an existing tag.
    pub(crate) fn from_text(text: String) -> (r: Tag)
        requires
            valid_tag(text@),
        ensures
            r@ == text@,
    {
        Tag(text)
    }

    /// The text.
    pub fn as_str(&self) -> (r: &str)
        ensures
            r@ == self@,
    {
        self.0.as_str()
    }

    /// The text, as a new string.
    pub fn to_string(&self) -> (r: String)
        ensures
            r@ == self@,
    {
        self.0.clone()
    }

    /// A copy of this tag.
    pub fn cloned(&self) -> (r: Tag)
        ensures
            r@ == self@,
    {
        proof {
            use_type_invariant(self);
        }
        Tag(self.0.clone())
    }

    /// Whether two tags are the same text.
    pub fn same_as(&self, other: &Tag) -> (r: bool)
        ensures
            r == (self@ == other@),
    {
        self.0 == other.0
    }

    /// The tag page's slug: `tags/<tag>`.
    pub fn slug(&self) -> (r: Slug)
        ensures
            r@ == "tags/"@ + self@,
    {
        Slug::tag_page(self)
    }

    /// The tag page's URL: `/tags/<tag>/`.
    pub fn url(&self) -> (r: String)
        ensures
            r@ == slug_url("tags/"@ + self@),
    {
        self.slug().url()
    }
}

} // verus!

verus! {

impl DeepView for Tag {
    type V = Seq<char>;

    open spec fn deep_view(&self) -> Seq<char> {
        self@
    }
}

/// The values with repeats dropped, each kept at its first occurrence.
pub open spec fn dedup(s: Seq<Seq<char>>) -> Seq<Seq<char>>
    decreases s.len(),
{
    if s.len() == 0 {
        s
    } else if dedup(s.drop_last()).contains(s.last()) {
        dedup(s.drop_last())
    } else {
        dedup(s.drop_last()).push(s.last())
    }
}

/// The index of the first value that is not a valid tag.
pub open spec fn first_invalid_tag(values: Seq<Seq<char>>) -> int {
    choose|i: int|
        0 <= i < values.len() && !valid_tag(values[i]) && forall|k: int|
            0 <= k < i ==> valid_tag(#[trigger] values[k])
}

/// Dropping repeats keeps exactly the values that were there.
pub proof fn lemma_dedup_contains(s: Seq<Seq<char>>, x: Seq<char>)
    ensures
        dedup(s).contains(x) == s.contains(x),
    decreases s.len(),
{
    if s.len() > 0 {
        lemma_dedup_contains(s.drop_last(), x);
        if s.drop_last().contains(x) {
            let k = choose|k: int| 0 <= k < s.drop_last().len() && s.drop_last()[k] == x;
            assert(s[k] == x);
        }
        if s.contains(x) {
            let k = choose|k: int| 0 <= k < s.len() && s[k] == x;
            if k < s.len() - 1 {
                assert(s.drop_last()[k] == x);
            }
        }
        if !dedup(s.drop_last()).contains(s.last()) {
            let d = dedup(s.drop_last());
            if d.contains(x) {
                let k = choose|k: int| 0 <= k < d.len() && d[k] == x;
                assert(d.push(s.last())[k] == x);
            }
            assert(d.push(s.last())[d.len() as int] == s.last());
            if d.push(s.last()).contains(x) && x != s.last() {
                let k = choose|k: int| 0 <= k < d.len() + 1 && d.push(s.last())[k] == x;
                assert(d[k] == x);
            }
        }
    }
}

/// Parsing a tag list never yields the same tag twice.
pub proof fn lemma_dedup_no_duplicates(s: Seq<Seq<char>>)
    ensures
        dedup(s).no_duplicates(),
    decreases s.len(),
{
    if s.len() > 0 {
        lemma_dedup_no_duplicates(s.drop_last());
        let d = dedup(s.drop_last());
        if !d.contains(s.last()) {
            assert forall|i: int, j: int|
                0 <= i < d.len() + 1 && 0 <= j < d.len() + 1 && i != j implies d.push(s.last())[i]
                != d.push(s.last())[j] by {
                if i == d.len() as int {
                    assert(d[j] != s.last());
                } else if j == d.len() as int {
                    assert(d[i] != s.last());
                }
            }
        }
    }
}

proof fn lemma_first_invalid_tag(values: Seq<Seq<char>>, i: int)
    requires
        0 <= i < values.len(),
        !valid_tag(values[i]),
        forall|k: int| 0 <= k < i ==> valid_tag(#[trigger] values[k]),
    ensures
        first_invalid_tag(values) == i,
{
    let j = first_invalid_tag(values);
    if j < i {
        assert(valid_tag(values[j]));
    } else if j > i {
        assert(valid_tag(values[i]));
    }
}

/// A tag has no `/`, so its page sits directly under the tag index.
pub proof fn lemma_tag_page_parent(t: Seq<char>)
    requires
        valid_tag(t),
    ensures
        slug_parent("tags/"@ + t) == Some("tags"@),
{
    reveal_strlit("tags/");
    reveal_strlit("tags");
    assert forall|i: int| 0 <= i < t.len() implies t[i] != '/' by {
        if t[i] != '-' {
            lemma_split_covers(t, '-', i);
            let (j, k) = choose|j: int, k: int|
                0 <= j < split_on(t, '-').len() && 0 <= k < split_on(t, '-')[j].len()
                    && #[trigger] split_on(t, '-')[j][k] == t[i];
            assert(tag_part_ok(split_on(t, '-')[j]));
            assert(is_tag_char(split_on(t, '-')[j][k]));
        }
    }
    lemma_last_index_of_concat("tags/"@, t, '/');
    assert(last_index_of("tags/"@, '/') == 4);
    assert(("tags/"@ + t).subrange(0, 4) =~= "tags"@);
}

impl Tag {
    /// Parses every value in order, failing on the first invalid one, and
    /// drops duplicates, keeping the first occurrence's position.
    pub fn parse_list(values: Vec<String>) -> (r: Result<Vec<Tag>, MangoError>)
        ensures
            (forall|i: int| 0 <= i < values@.len() ==> valid_tag(#[trigger] values@[i]@)) ==> (
            r matches Ok(tags) && tags.deep_view() == dedup(values.deep_view())),
            !(forall|i: int| 0 <= i < values@.len() ==> valid_tag(#[trigger] values@[i]@)) ==> (
            r matches Err(MangoError::Frontmatter(m)) && m@ == tag_message(
                values.deep_view()[first_invalid_tag(values.deep_view())],
            )),
    {
        let ghost vs = values.deep_view();
        let mut tags: Vec<Tag> = Vec::new();
        let mut i: usize = 0;
        while i < values.len()
            invariant
                vs == values.deep_view(),
                i <= values@.len(),
                forall|k: int| 0 <= k < i ==> valid_tag(#[trigger] vs[k]),
                tags.deep_view() == dedup(vs.subrange(0, i as int)),
            decreases values@.len() - i,
        {
            let v = values[i].clone();
            assert(vs[i as int] == v@);
            let tag = match Tag::parse(v) {
                Ok(t) => t,
                Err(e) => {
                    proof {
                        lemma_first_invalid_tag(vs, i as int);
                        assert(!valid_tag(values@[i as int]@));
                    }
                    return Err(e);
                },
            };
            let ghost prefix = vs.subrange(0, i as int);
            proof {
                assert(vs.subrange(0, i + 1).drop_last() == prefix);
                assert(vs.subrange(0, i + 1).last() == tag@);
                lemma_dedup_contains(prefix, tag@);
            }
            let mut found = false;
            let mut j: usize = 0;
            while j < tags.len()
                invariant
                    j <= tags@.len(),
                    found == exists|k: int| 0 <= k < j && tags.deep_view()[k] == tag@,
                decreases tags@.len() - j,
            {
                assert(tags.deep_view()[j as int] == tags@[j as int]@);
                if tags[j].same_as(&tag) {
                    found = true;
                }
                j += 1;
            }
            proof {
                assert(found == tags.deep_view().contains(tag@));
            }
            if !found {
                let ghost old_tags = tags.deep_view();
                tags.push(tag);
                proof {
                    assert(tags.deep_view() =~= old_tags.push(tag@));
                }
            }
            i += 1;
        }
        proof {
            assert(vs.subrange(0, values@.len() as int) == vs);
            assert forall|k: int| 0 <= k < values@.len() implies valid_tag(#[trigger] values@[k]@) by {
                assert(vs[k] == values@[k]@);
            }
        }
        Ok(tags)
    }
}

} // verus!
