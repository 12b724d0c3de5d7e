//! Where a page, section index, tag page, tag index or the home page lives.

use vstd::prelude::*;
use vstd::string::StringExecFns;
use crate::error::MangoError;
use crate::relative::{relative_text, site_relative_text};
use crate::tag::Tag;
use crate::text::{chars_contain, chars_last_index, chars_of, has_char, join, last_index_of, lemma_last_index_of, push_all, push_all_exec, push_char, push_component, push_component_exec, push_range, replace_char, split_chars, split_on, string_from_chars, views};

verus! {

/// A character that a slug segment may use.
pub open spec fn is_slug_char(c: char) -> bool {
    ('a' <= c && c <= 'z') || ('A' <= c && c <= 'Z') || ('0' <= c && c <= '9') || c == '-' || c
        == '_' || c == '.'
}

/// A non-empty segment made only of allowed characters.
pub open spec fn charset_ok(seg: Seq<char>) -> bool {
    seg.len() > 0 && forall|i: int| 0 <= i < seg.len() ==> is_slug_char(#[trigger] seg[i])
}

/// A segment made only of dots (or empty).
pub open spec fn only_dots(seg: Seq<char>) -> bool {
    forall|i: int| 0 <= i < seg.len() ==> #[trigger] seg[i] == '.'
}

/// A segment that a slug may contain.
pub open spec fn segment_ok(seg: Seq<char>) -> bool {
    charset_ok(seg) && !only_dots(seg)
}

/// Text whose every `/`-separated segment is allowed.
pub open spec fn valid_slug_text(t: Seq<char>) -> bool {
    forall|i: int| 0 <= i < split_on(t, '/').len() ==> segment_ok(#[trigger] split_on(t, '/')[i])
}

/// The index of the first segment that is not allowed.
pub open spec fn first_bad_segment(segs: Seq<Seq<char>>) -> int {
    choose|i: int|
        0 <= i < segs.len() && !segment_ok(segs[i]) && forall|k: int|
            0 <= k < i ==> segment_ok(#[trigger] segs[k])
}

/// The message for a segment that is not allowed, in the file `file`.
pub open spec fn segment_message(file: Seq<char>, seg: Seq<char>) -> Seq<char> {
    file + ": invalid file name '"@ + seg + "': "@ + if !charset_ok(seg) {
        "use only ASCII letters, digits, '-', '_' and '.'"@
    } else {
        "a segment cannot consist only of dots"@
    }
}

/// The message for slug text that is not valid, naming the first bad segment.
pub open spec fn slug_message(file: Seq<char>, t: Seq<char>) -> Seq<char> {
    segment_message(file, split_on(t, '/')[first_bad_segment(split_on(t, '/'))])
}

/// A file name without its extension, as `Path::with_extension("")` leaves it.
pub open spec fn name_without_extension(name: Seq<char>) -> Seq<char> {
    let dot = last_index_of(name, '.');
    if dot <= 0 {
        name
    } else if dot == 1 && name[0] == '.' {
        seq!['.', '.']
    } else {
        name.subrange(0, dot)
    }
}

/// A relative path without the extension of its last component.
pub open spec fn without_extension(rel: Seq<char>) -> Seq<char> {
    let slash = last_index_of(rel, '/');
    rel.subrange(0, slash + 1) + name_without_extension(rel.subrange(slash + 1, rel.len() as int))
}

/// The slug text of a content file at `rel` below the site folder: the path
/// without the extension, where a `\\` in the file name itself counts as a
/// separator (a `\\` in a folder name stays, and is refused).
pub open spec fn content_slug_text(rel: Seq<char>) -> Seq<char> {
    let w = without_extension(rel);
    let slash = last_index_of(w, '/');
    w.subrange(0, slash + 1) + replace_char(w.subrange(slash + 1, w.len() as int), '\\', '/')
}

/// The enclosing section's text: everything before the last `/`.
pub open spec fn slug_parent(t: Seq<char>) -> Option<Seq<char>> {
    if last_index_of(t, '/') >= 0 {
        Some(t.subrange(0, last_index_of(t, '/')))
    } else {
        None
    }
}

/// Root-relative URL: `/<slug>/`, or `/` for the home slug.
pub open spec fn slug_url(t: Seq<char>) -> Seq<char> {
    if t.len() == 0 {
        seq!['/']
    } else {
        seq!['/'] + t + seq!['/']
    }
}

/// The `/`-separated segments; none for the home slug.
pub open spec fn slug_segments(t: Seq<char>) -> Seq<Seq<char>> {
    if t.len() == 0 {
        Seq::empty()
    } else {
        split_on(t, '/')
    }
}

/// A slug directly under the site root (not the home slug itself).
pub open spec fn slug_is_top_level(t: Seq<char>) -> bool {
    t.len() > 0 && !has_char(t, '/')
}

/// The output file: `<dist>/<segments>/index.html`.
pub open spec fn slug_output_path(dist: Seq<char>, t: Seq<char>) -> Seq<char> {
    push_component(push_all(dist, slug_segments(t)), "index.html"@)
}

pub proof fn lemma_first_bad_segment(segs: Seq<Seq<char>>, i: int)
    requires
        0 <= i < segs.len(),
        !segment_ok(segs[i]),
        forall|k: int| 0 <= k < i ==> segment_ok(#[trigger] segs[k]),
    ensures
        first_bad_segment(segs) == i,
{
    let j = first_bad_segment(segs);
    if j < i {
        assert(segment_ok(segs[j]));
    } else if j > i {
        assert(segment_ok(segs[i]));
    }
}

/// Where a page, section index, tag page, tag index or the home page lives:
/// the `/`-joined path under the site root, `""` for the home page. Ordering
/// is the byte-wise order of the joined text.
#[derive(Debug, PartialEq, Eq, PartialOrd, Ord, Hash)]
pub struct Slug(String);

impl View for Slug {
    type V = Seq<char>;

    closed spec fn view(&self) -> Seq<char> {
        self.0@
    }
}

/// The text of a slug: the home slug's empty text, or valid slug text.
pub open spec fn slug_text_ok(t: Seq<char>) -> bool {
    t.len() == 0 || valid_slug_text(t)
}

impl Slug {
    /// Every slug is the home slug or valid slug text.
    #[verifier::type_invariant]
    pub open spec fn well_formed(self) -> bool {
        slug_text_ok(self@)
    }
}

fn charset_ok_exec(seg: &Vec<char>) -> (r: bool)
    ensures
        r == charset_ok(seg@),
{
    if seg.len() == 0 {
        return false;
    }
    let mut i: usize = 0;
    while i < seg.len()
        invariant
            i <= seg@.len(),
            forall|k: int| 0 <= k < i ==> is_slug_char(#[trigger] seg@[k]),
        decreases seg@.len() - i,
    {
        let c = seg[i];
        if !(('a' <= c && c <= 'z') || ('A' <= c && c <= 'Z') || ('0' <= c && c <= '9') || c == '-'
            || c == '_' || c == '.') {
            return false;
        }
        i += 1;
    }
    true
}

fn only_dots_exec(seg: &Vec<char>) -> (r: bool)
    ensures
        r == only_dots(seg@),
{
    let mut i: usize = 0;
    while i < seg.len()
        invariant
            i <= seg@.len(),
            forall|k: int| 0 <= k < i ==> #[trigger] seg@[k] == '.',
        decreases seg@.len() - i,
    {
        if seg[i] != '.' {
            return false;
        }
        i += 1;
    }
    true
}

impl Slug {
    /// The slug of a content file: its path relative to `site`, without the
    /// extension, with `/` separators. Every segment may only use ASCII
    /// letters, digits, `-`, `_` and `.`, and may not consist only of dots.
    /// Both paths are given as the text they display as.
    pub fn from_content_path(path: &str, site: &str) -> (r: Result<Slug, MangoError>)
        ensures
            match site_relative_text(path@, site@) {
                None => r matches Err(MangoError::General(m)) && m@
                    == "unable to generate slug from path"@,
                Some(rel) => {
                    let t = content_slug_text(rel);
                    &&& valid_slug_text(t) ==> (r matches Ok(s) && s@ == t)
                    &&& !valid_slug_text(t) ==> (r matches Err(MangoError::General(m)) && m@
                        == slug_message(path@, t))
                },
            },
    {
        match relative_text(path, site) {
            None => Err(MangoError::General(String::from_str("unable to generate slug from path"))),
            Some(rel_text) => {
                let rel = chars_of(rel_text.as_str());
                let stem = strip_extension(&rel);
                proof {
                    lemma_last_index_of(stem@, '/');
                }
                let from: usize = match chars_last_index(&stem, '/') {
                    Some(k) => {
                        let n = stem.len();
                        assert(k < n);
                        k + 1
                    },
                    None => 0,
                };
                let ghost w = stem@;
                let mut out: Vec<char> = Vec::new();
                let mut i: usize = 0;
                while i < from
                    invariant
                        i <= from <= stem@.len(),
                        w == stem@,
                        out@ == w.subrange(0, i as int),
                    decreases from - i,
                {
                    out.push(stem[i]);
                    proof {
                        assert(w.subrange(0, i + 1) =~= w.subrange(0, i as int).push(w[i as int]));
                    }
                    i += 1;
                }
                while i < stem.len()
                    invariant
                        from <= i <= stem@.len(),
                        w == stem@,
                        out@ == w.subrange(0, from as int) + replace_char(
                            w.subrange(from as int, i as int),
                            '\\',
                            '/',
                        ),
                    decreases stem@.len() - i,
                {
                    let c = stem[i];
                    out.push(if c == '\\' { '/' } else { c });
                    proof {
                        assert(replace_char(w.subrange(from as int, i + 1), '\\', '/') =~= replace_char(
                            w.subrange(from as int, i as int),
                            '\\',
                            '/',
                        ).push(if c == '\\' { '/' } else { c }));
                    }
                    i += 1;
                }
                proof {
                    assert(w.subrange(from as int, w.len() as int) =~= w.subrange(
                        last_index_of(w, '/') + 1,
                        w.len() as int,
                    ));
                    assert(out@ =~= content_slug_text(rel@));
                }
                Slug::parse(string_from_chars(&out), path)
            },
        }
    }

    /// Validates `/`-joined slug text; `file` names the source in errors.
    pub fn parse(text: String, file: &str) -> (r: Result<Slug, MangoError>)
        ensures
            valid_slug_text(text@) ==> (r matches Ok(s) && s@ == text@),
            !valid_slug_text(text@) ==> (r matches Err(MangoError::General(m)) && m@
                == slug_message(file@, text@)),
    {
        let cs = chars_of(text.as_str());
        let segs = split_chars(&cs, '/');
        let ghost sv = split_on(text@, '/');
        let mut i: usize = 0;
        while i < segs.len()
            invariant
                views(segs@) == sv,
                sv == split_on(text@, '/'),
                i <= segs@.len(),
                forall|k: int| 0 <= k < i ==> segment_ok(#[trigger] sv[k]),
            decreases segs@.len() - i,
        {
            let seg = &segs[i];
            assert(seg@ == sv[i as int]);
            let charset = charset_ok_exec(seg);
            if !charset || only_dots_exec(seg) {
                let mut m = String::from_str(file).concat(": invalid file name '").concat(
                    string_from_chars(seg).as_str(),
                ).concat("': ");
                if !charset {
                    m = m.concat("use only ASCII letters, digits, '-', '_' and '.'");
                } else {
                    m = m.concat("a segment cannot consist only of dots");
                }
                proof {
                    lemma_first_bad_segment(sv, i as int);
                }
                return Err(MangoError::General(m));
            }
            i += 1;
        }
        Ok(Slug(text))
    }

    /// The home page: `dist/index.html`, URL `/`.
    pub fn home() -> (r: Slug)
        ensures
            r@ == Seq::<char>::empty(),
    {
        Slug(String::new())
    }

    /// The tag index: `tags`.
    pub fn tag_index() -> (r: Slug)
        ensures
            r@ == "tags"@,
    {
        proof {
            lemma_tags_is_valid();
        }
        Slug(String::from_str("tags"))
    }

    /// A tag's page: `tags/<tag>`. Use `Tag::slug`.
    pub fn tag_page(tag: &Tag) -> (r: Slug)
        ensures
            r@ == "tags/"@ + tag@,
    {
        proof {
            use_type_invariant(tag);
            lemma_tag_page_is_valid(tag@);
        }
        Slug(String::from_str("tags/").concat(tag.as_str()))
    }

    /// A slug from `/`-joined text that is known to be valid.
    pub fn from_test_text(text: &str) -> (r: Slug)
        requires
            valid_slug_text(text@),
        ensures
            r@ == text@,
    {
        Slug(String::from_str(text))
    }

    /// A slug holding `text` as it is: text cut from an existing slug.
    pub(crate) fn from_text(text: String) -> (r: Slug)
        requires
            slug_text_ok(text@),
        ensures
            r@ == text@,
    {
        Slug(text)
    }

    /// The joined text.
    pub fn as_str(&self) -> (r: &str)
        ensures
            r@ == self@,
    {
        self.0.as_str()
    }

    /// The joined text, as a new string.
    pub fn to_string(&self) -> (r: String)
        ensures
            r@ == self@,
    {
        self.0.clone()
    }

    /// The enclosing section: everything before the last `/`. `None` for a
    /// top-level slug and for the home slug.
    pub fn parent(&self) -> (r: Option<Slug>)
        ensures
            r is Some == slug_parent(self@) is Some,
            r matches Some(p) ==> p@ == slug_parent(self@)->0,
    {
        let cs = chars_of(self.0.as_str());
        proof {
            use_type_invariant(self);
            lemma_last_index_of(cs@, '/');
        }
        match chars_last_index(&cs, '/') {
            None => None,
            Some(k) => {
                let mut out = String::new();
                push_range(&mut out, &cs, 0, k);
                proof {
                    assert(out@ =~= cs@.subrange(0, k as int));
                    lemma_slug_prefix_is_valid(cs@, k as int);
                }
                Some(Slug(out))
            },
        }
    }

    /// A slug directly under the site root (not the home slug itself).
    pub fn is_top_level(&self) -> (r: bool)
        ensures
            r == slug_is_top_level(self@),
            r == (slug_segments(self@).len() == 1),
    {
        proof {
            use_type_invariant(self);
            lemma_segments_join_back(self@);
        }
        let cs = chars_of(self.0.as_str());
        cs.len() > 0 && !chars_contain(&cs, '/')
    }

    /// The `/`-separated segments; none for the home slug. Joined with `/`
    /// they give the slug back, none of them is empty, and a slug is
    /// top-level exactly when it has one segment.
    pub fn segments(&self) -> (r: Vec<String>)
        ensures
            r.deep_view() == slug_segments(self@),
            self@.len() == 0 ==> r@.len() == 0,
            self@.len() > 0 ==> join(r.deep_view(), seq!['/']) == self@,
            forall|i: int| 0 <= i < r@.len() ==> (#[trigger] r.deep_view()[i]).len() > 0,
            slug_is_top_level(self@) <==> r@.len() == 1,
    {
        proof {
            use_type_invariant(self);
            lemma_segments_join_back(self@);
        }
        let cs = chars_of(self.0.as_str());
        let mut r: Vec<String> = Vec::new();
        if cs.len() == 0 {
            proof {
                assert(r.deep_view() =~= Seq::<Seq<char>>::empty());
            }
            return r;
        }
        let parts = split_chars(&cs, '/');
        let mut i: usize = 0;
        while i < parts.len()
            invariant
                i <= parts@.len(),
                r.deep_view() == views(parts@).subrange(0, i as int),
            decreases parts@.len() - i,
        {
            let ghost old_r = r.deep_view();
            r.push(string_from_chars(&parts[i]));
            proof {
                assert(r.deep_view() =~= old_r.push(parts@[i as int]@));
                assert(views(parts@).subrange(0, i + 1) =~= views(parts@).subrange(0, i as int).push(
                    parts@[i as int]@,
                ));
            }
            i += 1;
        }
        proof {
            assert(views(parts@).subrange(0, parts@.len() as int) == views(parts@));
        }
        r
    }

    /// Root-relative URL: `/<slug>/`, or `/` for the home slug.
    pub fn url(&self) -> (r: String)
        ensures
            r@ == slug_url(self@),
    {
        let cs = chars_of(self.0.as_str());
        let mut r = String::new();
        push_char(&mut r, '/');
        if cs.len() > 0 {
            r = r.concat(self.0.as_str());
            push_char(&mut r, '/');
        }
        r
    }

    /// The output file: `<dist>/<segments>/index.html`, as text.
    pub fn output_path(&self, dist: &str) -> (r: String)
        ensures
            r@ == slug_output_path(dist@, self@),
    {
        let segs = self.segments();
        let base = push_all_exec(dist, &segs);
        push_component_exec(base.as_str(), "index.html")
    }

    /// A copy of this slug.
    pub fn cloned(&self) -> (r: Slug)
        ensures
            r@ == self@,
    {
        proof {
            use_type_invariant(self);
        }
        Slug(self.0.clone())
    }

    /// Whether two slugs are the same text.
    pub fn same_as(&self, other: &Slug) -> (r: bool)
        ensures
            r == (self@ == other@),
    {
        self.0 == other.0
    }
}

/// `rel` without the extension of its last component.
fn strip_extension(rel: &Vec<char>) -> (r: Vec<char>)
    ensures
        r@ == without_extension(rel@),
{
    proof {
        lemma_last_index_of(rel@, '/');
    }
    let slash: usize = match chars_last_index(rel, '/') {
        Some(k) => {
            assert(k < rel.len());
            k + 1
        },
        None => 0,
    };
    let mut name: Vec<char> = Vec::new();
    let mut j: usize = slash;
    while j < rel.len()
        invariant
            slash <= j <= rel@.len(),
            name@ == rel@.subrange(slash as int, j as int),
        decreases rel@.len() - j,
    {
        name.push(rel[j]);
        proof {
            assert(rel@.subrange(slash as int, j + 1) == rel@.subrange(slash as int, j as int).push(rel@[j as int]));
        }
        j += 1;
    }
    let keep: usize = match chars_last_index(&name, '.') {
        None => name.len(),
        Some(dot) => {
            if dot == 0 {
                name.len()
            } else if dot == 1 && name[0] == '.' {
                2
            } else {
                dot
            }
        },
    };
    proof {
        lemma_last_index_of(name@, '.');
        lemma_last_index_of(rel@, '/');
    }
    let mut out: Vec<char> = Vec::new();
    let mut k: usize = 0;
    while k < slash
        invariant
            k <= slash <= rel@.len(),
            out@ == rel@.subrange(0, k as int),
        decreases slash - k,
    {
        out.push(rel[k]);
        proof {
            assert(rel@.subrange(0, k + 1) == rel@.subrange(0, k as int).push(rel@[k as int]));
        }
        k += 1;
    }
    let mut m: usize = 0;
    while m < keep
        invariant
            m <= keep <= name@.len(),
            slash <= rel@.len(),
            out@ == rel@.subrange(0, slash as int) + name@.subrange(0, m as int),
        decreases keep - m,
    {
        out.push(name[m]);
        proof {
            assert(name@.subrange(0, m + 1) == name@.subrange(0, m as int).push(name@[m as int]));
        }
        m += 1;
    }
    proof {
        assert(name@.subrange(0, name@.len() as int) == name@);
        assert(name@ == rel@.subrange(slash as int, rel@.len() as int));
        if keep == 2 && last_index_of(name@, '.') == 1 && name@[0] == '.' {
            assert(name@.subrange(0, 2) =~= seq!['.', '.']);
        }
    }
    out
}

} // verus!

verus! {

/// A character a URL path carries as it is: a slug character or `/`.
pub open spec fn is_url_safe(c: char) -> bool {
    is_slug_char(c) || c == '/'
}

/// Every URL of a valid slug is valid without encoding: it holds only ASCII
/// letters, digits, `-`, `_`, `.` and `/`.
pub proof fn lemma_valid_slug_url_is_safe(t: Seq<char>)
    requires
        valid_slug_text(t),
    ensures
        forall|i: int| 0 <= i < slug_url(t).len() ==> is_url_safe(#[trigger] slug_url(t)[i]),
{
    let pieces = split_on(t, '/');
    assert forall|i: int| 0 <= i < t.len() implies is_url_safe(#[trigger] t[i]) by {
        if t[i] != '/' {
            crate::text::lemma_split_covers(t, '/', i);
            let (j, k) = choose|j: int, k: int|
                0 <= j < pieces.len() && 0 <= k < pieces[j].len() && #[trigger] pieces[j][k] == t[i];
            assert(segment_ok(pieces[j]));
            assert(is_slug_char(pieces[j][k]));
        }
    }
    let u = slug_url(t);
    assert forall|i: int| 0 <= i < u.len() implies is_url_safe(#[trigger] u[i]) by {
        if t.len() > 0 && 0 < i < u.len() - 1 {
            assert(u[i] == t[i - 1]);
        }
    }
}

} // verus!

verus! {

/// The folder part of valid slug text, before one of its `/`, is valid too.
pub proof fn lemma_slug_prefix_is_valid(t: Seq<char>, k: int)
    requires
        slug_text_ok(t),
        0 <= k < t.len(),
        t[k] == '/',
    ensures
        valid_slug_text(t.subrange(0, k)),
{
    let a = t.subrange(0, k);
    let b = t.subrange(k + 1, t.len() as int);
    assert(t =~= a + seq!['/'] + b);
    crate::text::lemma_split_concat(a, b, '/');
    let pa = split_on(a, '/');
    assert forall|i: int| 0 <= i < pa.len() implies segment_ok(#[trigger] pa[i]) by {
        assert(split_on(t, '/')[i] == pa[i]);
    }
}

/// `tags` is valid slug text.
pub proof fn lemma_tags_is_valid()
    ensures
        valid_slug_text("tags"@),
{
    reveal_strlit("tags");
    let t = "tags"@;
    assert(!has_char(t, '/')) by {
        if has_char(t, '/') {
            let k = choose|k: int| 0 <= k < t.len() && t[k] == '/';
        }
    }
    crate::text::lemma_split_whole(t, '/');
    assert(segment_ok(t)) by {
        assert(t[0] != '.');
    }
}

/// A tag's page, `tags/<tag>`, is valid slug text.
pub proof fn lemma_tag_page_is_valid(tag: Seq<char>)
    requires
        crate::tag::valid_tag(tag),
    ensures
        valid_slug_text("tags/"@ + tag),
{
    reveal_strlit("tags/");
    reveal_strlit("tags");
    assert forall|i: int| 0 <= i < tag.len() implies (#[trigger] tag[i] == '-' || crate::tag::is_tag_char(
        tag[i],
    )) by {
        if tag[i] != '-' {
            crate::text::lemma_split_covers(tag, '-', i);
            let parts = split_on(tag, '-');
            let (j, k) = choose|j: int, k: int|
                0 <= j < parts.len() && 0 <= k < parts[j].len() && #[trigger] parts[j][k] == tag[i];
            assert(crate::tag::tag_part_ok(parts[j]));
        }
    }
    assert(!has_char(tag, '/')) by {
        if has_char(tag, '/') {
            let k = choose|k: int| 0 <= k < tag.len() && tag[k] == '/';
            assert(tag[k] == '-' || crate::tag::is_tag_char(tag[k]));
        }
    }
    assert(segment_ok(tag)) by {
        assert forall|i: int| 0 <= i < tag.len() implies is_slug_char(#[trigger] tag[i]) by {
            assert(tag[i] == '-' || crate::tag::is_tag_char(tag[i]));
        }
        assert(tag[0] == '-' || crate::tag::is_tag_char(tag[0]));
    }
    lemma_tags_is_valid();
    let t = "tags"@;
    assert("tags/"@ + tag =~= t + seq!['/'] + tag);
    crate::text::lemma_split_concat(t, tag, '/');
    crate::text::lemma_split_whole(tag, '/');
    crate::text::lemma_split_whole(t, '/');
    let all = split_on("tags/"@ + tag, '/');
    assert(all =~= seq![t, tag]);
}

/// The segments of a slug joined with `/` give the slug back, and none of
/// them is empty; the home slug has no segments; a slug is top-level exactly
/// when it has one segment.
pub proof fn lemma_segments_join_back(t: Seq<char>)
    requires
        slug_text_ok(t),
    ensures
        t.len() == 0 ==> slug_segments(t).len() == 0,
        t.len() > 0 ==> join(slug_segments(t), seq!['/']) == t,
        forall|i: int| 0 <= i < slug_segments(t).len() ==> (#[trigger] slug_segments(t)[i]).len() > 0,
        slug_is_top_level(t) <==> slug_segments(t).len() == 1,
{
    crate::text::lemma_join_split(t, '/');
    crate::text::lemma_split_single(t, '/');
    assert forall|i: int| 0 <= i < slug_segments(t).len() implies (#[trigger] slug_segments(t)[i]).len() > 0 by {
        assert(segment_ok(split_on(t, '/')[i]));
    }
}

} // verus!

verus! {

/// `base` as `PathBuf::push` leaves it before a component: a `/` added
/// unless it is empty or already ends in `/`.
pub open spec fn push_prefix(base: Seq<char>) -> Seq<char> {
    if base.len() == 0 || base.last() == '/' {
        base
    } else {
        base + seq!['/']
    }
}

proof fn lemma_push_all_joins(base: Seq<char>, segs: Seq<Seq<char>>)
    requires
        segs.len() > 0,
        forall|i: int| 0 <= i < segs.len() ==> (#[trigger] segs[i]).len() > 0 && segs[i].last() != '/',
    ensures
        push_all(base, segs) == push_prefix(base) + join(segs, seq!['/']),
        join(segs, seq!['/']).len() > 0,
        join(segs, seq!['/']).last() == segs.last().last(),
    decreases segs.len(),
{
    let l = segs.last();
    assert(l.len() > 0 && l.last() != '/') by {
        assert(segs[segs.len() - 1] == l);
    }
    if segs.len() == 1 {
        assert(segs.drop_last().len() == 0);
        assert(push_all(base, segs.drop_last()) == base);
        assert(join(segs, seq!['/']) == segs[0]);
        assert(segs[0] == l);
        assert(push_component(base, l) =~= push_prefix(base) + l);
    } else {
        let d = segs.drop_last();
        assert forall|i: int| 0 <= i < d.len() implies (#[trigger] d[i]).len() > 0 && d[i].last() != '/' by {
            assert(d[i] == segs[i]);
        }
        lemma_push_all_joins(base, d);
        let x = push_all(base, d);
        assert(x.len() > 0 && x.last() != '/') by {
            assert(x == push_prefix(base) + join(d, seq!['/']));
            assert(x.last() == join(d, seq!['/']).last());
        }
        assert(push_all(base, segs) == push_component(x, l));
        assert(push_component(x, l) == x + seq!['/'] + l);
        assert(join(segs, seq!['/']) == join(d, seq!['/']) + seq!['/'] + l);
        assert(push_prefix(base) + join(segs, seq!['/']) =~= x + seq!['/'] + l);
        let j = join(segs, seq!['/']);
        assert(j.last() == l.last()) by {
            assert(j[j.len() - 1] == l[l.len() - 1]);
        }
    }
}

/// The output file of a slug other than home, below the output folder.
proof fn lemma_output_path_of(dist: Seq<char>, t: Seq<char>)
    requires
        slug_text_ok(t),
    ensures
        t.len() == 0 ==> slug_output_path(dist, t) == push_prefix(dist) + "index.html"@,
        t.len() > 0 ==> slug_output_path(dist, t) == push_prefix(dist) + t + seq!['/'] + "index.html"@,
{
    if t.len() == 0 {
        assert(slug_segments(t).len() == 0);
        assert(push_all(dist, slug_segments(t)) == dist);
    } else {
        lemma_segments_join_back(t);
        let segs = slug_segments(t);
        assert forall|i: int| 0 <= i < segs.len() implies (#[trigger] segs[i]).len() > 0 && segs[i].last() != '/' by {
            assert(segment_ok(segs[i]));
            assert(is_slug_char(segs[i][segs[i].len() - 1]));
        }
        lemma_push_all_joins(dist, segs);
        let x = push_all(dist, segs);
        assert(x == push_prefix(dist) + t);
        assert(x.len() > 0 && x.last() != '/') by {
            assert(x.last() == t.last());
            assert(t.last() == segs.last().last());
        }
        assert(push_prefix(dist) + t + seq!['/'] + "index.html"@ =~= x + seq!['/'] + "index.html"@);
    }
}

/// Different slugs write different files: under any output folder, two
/// slugs with different text have different output paths.
pub proof fn lemma_distinct_slugs_distinct_paths(dist: Seq<char>, a: Seq<char>, b: Seq<char>)
    requires
        slug_text_ok(a),
        slug_text_ok(b),
        a != b,
    ensures
        slug_output_path(dist, a) != slug_output_path(dist, b),
{
    reveal_strlit("index.html");
    lemma_output_path_of(dist, a);
    lemma_output_path_of(dist, b);
    let p = push_prefix(dist);
    let n = "index.html"@;
    let pa = if a.len() > 0 { p + a + seq!['/'] + n } else { p + n };
    let pb = if b.len() > 0 { p + b + seq!['/'] + n } else { p + n };
    assert(pa == slug_output_path(dist, a));
    assert(pb == slug_output_path(dist, b));
    if pa == pb {
        assert(pa.len() == pb.len());
        if a.len() > 0 && b.len() > 0 {
            assert(a.len() == b.len());
            assert forall|i: int| 0 <= i < a.len() implies a[i] == b[i] by {
                assert(pa[p.len() + i] == a[i]);
                assert(pb[p.len() + i] == b[i]);
            }
            assert(a =~= b);
        } else if a.len() == 0 && b.len() == 0 {
            assert(a =~= b);
        }
    }
}

} // verus!
