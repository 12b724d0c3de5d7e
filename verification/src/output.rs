//! What a build puts in the output folder, where each thing goes, and the
//! check that no two things land on the same file.

use vstd::prelude::*;
use vstd::string::StringExecFns;
use std::path::PathBuf;
use crate::date::Date;
use crate::error::MangoError;
use crate::slug::{slug_segments, Slug};
use crate::tag::Tag;
use crate::template::TemplateContext;
use crate::text::{join, push_all, push_all_exec, push_joined, replace_char, replace_char_exec};

verus! {

/// A file system path, carried through from where it was found to where it
/// is used.
#[verifier::external_type_specification]
#[verifier::external_body]
pub struct ExPathBuf(PathBuf);

/// What an output is. Each variant carries exactly what identifies an output
/// of that kind: its location, collision label and sitemap entry derive from
/// it.
#[derive(Debug, PartialEq, Eq)]
pub enum OutputKind {
    /// A content page and its frontmatter date (the sitemap's `<lastmod>`).
    Page { slug: Slug, date: Option<Date> },
    /// A section index.
    Section(Slug),
    Home,
    TagIndex,
    Tag(Tag),
    /// `feed.xml`.
    Feed,
    /// `sitemap.xml`.
    Sitemap,
    /// An asset copy: `folder` is the assets folder's name (the folder under
    /// the output folder it is copied into), `rel` the components of its path
    /// relative to that folder.
    Asset { folder: String, rel: Vec<String> },
}

/// How an output's bytes are produced.
#[derive(Debug)]
pub enum Body {
    /// Rendered through a template (which also gets the site config).
    Template { name: String, context: TemplateContext },
    /// Generated in memory (the feed and sitemap XML).
    Text(String),
    /// Copied from this source file.
    Copy(PathBuf),
}

/// One thing a build puts in the output folder.
#[derive(Debug)]
pub struct Output {
    pub kind: OutputKind,
    pub body: Body,
}

/// An output after rendering: its full path, its path below the output
/// folder, and what is written there.
#[derive(Debug)]
pub struct RenderedOutput {
    pub path: String,
    pub relative: String,
    pub contents: Contents,
}

/// A rendered output's contents: text to write, or a file to copy.
#[derive(Debug, PartialEq, Eq)]
pub enum Contents {
    Text(String),
    Copy(PathBuf),
}

/// The slug of an HTML output; none for the other kinds.
pub open spec fn html_slug(k: OutputKind) -> Option<Seq<char>> {
    match k {
        OutputKind::Page { slug, .. } => Some(slug@),
        OutputKind::Section(slug) => Some(slug@),
        OutputKind::Home => Some(Seq::empty()),
        OutputKind::TagIndex => Some("tags"@),
        OutputKind::Tag(t) => Some("tags/"@ + t@),
        _ => None,
    }
}

/// The path components below the output folder of an output's file.
pub open spec fn kind_segments(k: OutputKind) -> Seq<Seq<char>> {
    match k {
        OutputKind::Feed => seq!["feed.xml"@],
        OutputKind::Sitemap => seq!["sitemap.xml"@],
        OutputKind::Asset { folder, rel } => seq![folder@] + rel.deep_view(),
        _ => slug_segments(html_slug(k)->0).push("index.html"@),
    }
}

/// The label an output goes by in collision errors.
pub open spec fn kind_label(k: OutputKind) -> Seq<char> {
    match k {
        OutputKind::Page { slug, .. } => "page '"@ + slug@ + "'"@,
        OutputKind::Section(slug) => "section index '"@ + slug@ + "'"@,
        OutputKind::Home => "home page"@,
        OutputKind::TagIndex => "tag index"@,
        OutputKind::Tag(t) => "tag page '"@ + t@ + "'"@,
        OutputKind::Feed => "RSS feed"@,
        OutputKind::Sitemap => "sitemap"@,
        OutputKind::Asset { rel, .. } => "asset '"@ + replace_char(
            join(rel.deep_view(), "/"@),
            '\\',
            '/',
        ) + "'"@,
    }
}

/// Appends `index.html` to some components.
fn with_index(segs: Vec<String>) -> (r: Vec<String>)
    ensures
        r.deep_view() == segs.deep_view().push("index.html"@),
{
    let mut segs = segs;
    let ghost before = segs.deep_view();
    segs.push(String::from_str("index.html"));
    proof {
        assert(segs.deep_view() =~= before.push("index.html"@));
    }
    segs
}

impl OutputKind {
    /// The path components below the output folder of this output's file.
    pub fn segments(&self) -> (r: Vec<String>)
        ensures
            r.deep_view() == kind_segments(*self),
    {
        match self {
            OutputKind::Page { slug, .. } => with_index(slug.segments()),
            OutputKind::Section(slug) => with_index(slug.segments()),
            OutputKind::Home => with_index(Slug::home().segments()),
            OutputKind::TagIndex => with_index(Slug::tag_index().segments()),
            OutputKind::Tag(t) => with_index(t.slug().segments()),
            OutputKind::Feed => {
                let r = vec![String::from_str("feed.xml")];
                proof {
                    assert(r.deep_view() =~= seq!["feed.xml"@]);
                }
                r
            },
            OutputKind::Sitemap => {
                let r = vec![String::from_str("sitemap.xml")];
                proof {
                    assert(r.deep_view() =~= seq!["sitemap.xml"@]);
                }
                r
            },
            OutputKind::Asset { folder, rel } => {
                let mut r = vec![folder.clone()];
                let mut i: usize = 0;
                while i < rel.len()
                    invariant
                        i <= rel@.len(),
                        r.deep_view() == seq![folder@] + rel.deep_view().subrange(0, i as int),
                    decreases rel@.len() - i,
                {
                    let ghost before = r.deep_view();
                    r.push(rel[i].clone());
                    proof {
                        assert(r.deep_view() =~= before.push(rel@[i as int]@));
                        assert(rel.deep_view().subrange(0, i + 1) =~= rel.deep_view().subrange(
                            0,
                            i as int,
                        ).push(rel@[i as int]@));
                    }
                    i += 1;
                }
                proof {
                    assert(rel.deep_view().subrange(0, rel@.len() as int) =~= rel.deep_view());
                }
                r
            },
        }
    }

    /// The label this output goes by in collision errors.
    pub fn label(&self) -> (r: String)
        ensures
            r@ == kind_label(*self),
    {
        match self {
            OutputKind::Page { slug, .. } => String::from_str("page '").concat(slug.as_str()).concat(
                "'",
            ),
            OutputKind::Section(slug) => String::from_str("section index '").concat(
                slug.as_str(),
            ).concat("'"),
            OutputKind::Home => String::from_str("home page"),
            OutputKind::TagIndex => String::from_str("tag index"),
            OutputKind::Tag(t) => String::from_str("tag page '").concat(t.as_str()).concat("'"),
            OutputKind::Feed => String::from_str("RSS feed"),
            OutputKind::Sitemap => String::from_str("sitemap"),
            OutputKind::Asset { rel, .. } => {
                let mut joined = String::new();
                push_joined(&mut joined, rel, "/");
                proof {
                    assert(Seq::<char>::empty() + join(rel.deep_view(), "/"@) =~= join(
                        rel.deep_view(),
                        "/"@,
                    ));
                }
                String::from_str("asset '").concat(
                    replace_char_exec(joined.as_str(), '\\', '/').as_str(),
                ).concat("'")
            },
        }
    }
}

impl Output {
    /// The file this output is written to under `dist`.
    pub fn path(&self, dist: &str) -> (r: String)
        ensures
            r@ == push_all(dist@, kind_segments(self.kind)),
    {
        push_all_exec(dist, &self.kind.segments())
    }

    /// The file this output is written to, relative to the output folder.
    pub fn relative(&self) -> (r: String)
        ensures
            r@ == push_all(Seq::empty(), kind_segments(self.kind)),
    {
        proof {
            reveal_strlit("");
            assert(""@ =~= Seq::<char>::empty());
        }
        push_all_exec("", &self.kind.segments())
    }
}

/// The file components of each output, in order.
pub open spec fn output_segments(outputs: Seq<Output>) -> Seq<Seq<Seq<char>>> {
    Seq::new(outputs.len(), |i: int| kind_segments(outputs[i].kind))
}

/// Outputs `i` and `j` (`i` listed first) write the same file.
pub open spec fn same_file(ss: Seq<Seq<Seq<char>>>, i: int, j: int) -> bool {
    0 <= i < j < ss.len() && ss[i] == ss[j]
}

/// The first clash: the earliest output that writes a file an earlier one
/// writes, and the first output that writes it.
pub open spec fn first_same_file(ss: Seq<Seq<Seq<char>>>) -> (int, int) {
    choose|i: int, j: int|
        same_file(ss, i, j) && (forall|a: int, b: int| #[trigger] same_file(ss, a, b) ==> j <= b)
            && (forall|a: int| #[trigger] same_file(ss, a, j) ==> i <= a)
}

/// Output `i` writes a file where output `j` needs a folder: the first `k`
/// components of `j`'s path, `k` at least one and short of all of them.
pub open spec fn file_under(ss: Seq<Seq<Seq<char>>>, i: int, j: int, k: int) -> bool {
    0 <= i < ss.len() && 0 <= j < ss.len() && 1 <= k < ss[j].len() && ss[i] == ss[j].subrange(
        0,
        k,
    )
}

/// The first file/folder clash: the earliest output that needs a folder
/// where another output writes a file, at the deepest such folder.
pub open spec fn first_file_under(ss: Seq<Seq<Seq<char>>>) -> (int, int, int) {
    choose|i: int, j: int, k: int|
        file_under(ss, i, j, k) && (forall|a: int, b: int, c: int| #[trigger]
            file_under(ss, a, b, c) ==> j <= b) && (forall|a: int, c: int| #[trigger]
            file_under(ss, a, j, c) ==> c <= k)
}

/// What `check_collisions` reports for `outputs` under `dist`: the first two
/// outputs that write the same file, else the first output that needs a
/// folder where another writes a file, else nothing.
pub open spec fn collision_outcome(dist: Seq<char>, outputs: Seq<Output>) -> Result<(), Seq<char>> {
    let ss = output_segments(outputs);
    if exists|i: int, j: int| same_file(ss, i, j) {
        let (i, j) = first_same_file(ss);
        Err(
            "output path '"@ + push_all(dist, ss[j]) + "' would be written by both "@ + kind_label(
                outputs[i].kind,
            ) + " and "@ + kind_label(outputs[j].kind),
        )
    } else if exists|i: int, j: int, k: int| file_under(ss, i, j, k) {
        let (i, j, k) = first_file_under(ss);
        Err(
            "output path '"@ + push_all(dist, ss[j].subrange(0, k)) + "' would be written as a file by "@
                + kind_label(outputs[i].kind) + ", but "@ + kind_label(outputs[j].kind)
                + " needs it to be a directory for '"@ + push_all(dist, ss[j]) + "'"@,
        )
    } else {
        Ok(())
    }
}

proof fn lemma_first_same_file(ss: Seq<Seq<Seq<char>>>, i: int, j: int)
    requires
        same_file(ss, i, j),
        forall|a: int, b: int| #[trigger] same_file(ss, a, b) ==> j <= b,
        forall|a: int| #[trigger] same_file(ss, a, j) ==> i <= a,
    ensures
        first_same_file(ss) == (i, j),
{
    let (x, y) = first_same_file(ss);
    assert(same_file(ss, x, y));
    assert(y <= j);
    assert(j <= y);
    assert(same_file(ss, x, j));
    assert(x <= i);
    assert(i <= x);
}

proof fn lemma_first_file_under(ss: Seq<Seq<Seq<char>>>, i: int, j: int, k: int)
    requires
        file_under(ss, i, j, k),
        forall|a: int, b: int, c: int| #[trigger] file_under(ss, a, b, c) ==> j <= b,
        forall|a: int, c: int| #[trigger] file_under(ss, a, j, c) ==> c <= k,
        forall|a: int, b: int| !(#[trigger] same_file(ss, a, b)),
    ensures
        first_file_under(ss) == (i, j, k),
{
    let (x, y, z) = first_file_under(ss);
    assert(file_under(ss, x, y, z));
    assert(y <= j);
    assert(j <= y);
    assert(file_under(ss, x, j, z));
    assert(z <= k);
    assert(k <= z);
    if x < i {
        assert(same_file(ss, x, i));
    } else if i < x {
        assert(same_file(ss, i, x));
    }
}

/// Whether the components `a` are the first `k` components of `b`.
fn same_prefix(a: &Vec<String>, b: &Vec<String>, k: usize) -> (r: bool)
    requires
        k <= b@.len(),
    ensures
        r == (a.deep_view() == b.deep_view().subrange(0, k as int)),
{
    if a.len() != k {
        proof {
            assert(a.deep_view().len() != b.deep_view().subrange(0, k as int).len());
        }
        return false;
    }
    let mut i: usize = 0;
    while i < k
        invariant
            i <= k,
            k <= b@.len(),
            a@.len() == k,
            forall|m: int| 0 <= m < i ==> a.deep_view()[m] == b.deep_view()[m],
        decreases k - i,
    {
        assert(a.deep_view()[i as int] == a@[i as int]@);
        assert(b.deep_view()[i as int] == b@[i as int]@);
        if a[i] != b[i] {
            proof {
                assert(a.deep_view()[i as int] != b.deep_view().subrange(0, k as int)[i as int]);
            }
            return false;
        }
        i += 1;
    }
    proof {
        assert(a.deep_view() =~= b.deep_view().subrange(0, k as int));
    }
    true
}

/// The first `k` components of `segs`.
fn first_components(segs: &Vec<String>, k: usize) -> (r: Vec<String>)
    requires
        k <= segs@.len(),
    ensures
        r.deep_view() == segs.deep_view().subrange(0, k as int),
{
    let mut r: Vec<String> = Vec::new();
    let mut i: usize = 0;
    while i < k
        invariant
            i <= k,
            k <= segs@.len(),
            r.deep_view() == segs.deep_view().subrange(0, i as int),
        decreases k - i,
    {
        let ghost before = r.deep_view();
        r.push(segs[i].clone());
        proof {
            assert(r.deep_view() =~= before.push(segs@[i as int]@));
            assert(r.deep_view() =~= segs.deep_view().subrange(0, i + 1));
        }
        i += 1;
    }
    r
}

/// Fails if two outputs would write the same file, or if one output would be
/// a file where another needs a folder (`dist/feed.xml` next to
/// `dist/feed.xml/index.html`). Outputs are checked in the given order, so
/// the earlier output is named first.
pub fn check_collisions(dist: &str, outputs: &Vec<Output>) -> (r: Result<(), MangoError>)
    ensures
        match collision_outcome(dist@, outputs@) {
            Ok(()) => r is Ok,
            Err(m) => r matches Err(MangoError::General(e)) && e@ == m,
        },
{
    let ghost ss = output_segments(outputs@);
    let mut segs: Vec<Vec<String>> = Vec::new();
    let mut o: usize = 0;
    while o < outputs.len()
        invariant
            o <= outputs@.len(),
            segs@.len() == o,
            ss == output_segments(outputs@),
            forall|q: int| 0 <= q < o ==> (#[trigger] segs@[q]).deep_view() == ss[q],
        decreases outputs@.len() - o,
    {
        segs.push(outputs[o].kind.segments());
        o += 1;
    }
    let n = segs.len();
    let mut j: usize = 0;
    while j < n
        invariant
            n == segs@.len(),
            n == ss.len(),
            n == outputs@.len(),
            ss == output_segments(outputs@),
            j <= n,
            forall|q: int| 0 <= q < n ==> (#[trigger] segs@[q]).deep_view() == ss[q],
            forall|a: int, b: int| #[trigger] same_file(ss, a, b) ==> j <= b,
        decreases n - j,
    {
        let mut i: usize = 0;
        while i < j
            invariant
                n == segs@.len(),
                n == ss.len(),
                n == outputs@.len(),
                ss == output_segments(outputs@),
                i <= j < n,
                forall|q: int| 0 <= q < n ==> (#[trigger] segs@[q]).deep_view() == ss[q],
                forall|a: int, b: int| #[trigger] same_file(ss, a, b) ==> j <= b,
                forall|a: int| #[trigger] same_file(ss, a, j as int) ==> i <= a,
            decreases j - i,
        {
            if same_prefix(&segs[i], &segs[j], segs[j].len()) {
                proof {
                    assert(segs@[j as int].deep_view().subrange(0, segs@[j as int]@.len() as int)
                        =~= segs@[j as int].deep_view());
                    assert(same_file(ss, i as int, j as int));
                    lemma_first_same_file(ss, i as int, j as int);
                }
                let path = outputs[j].path(dist);
                let msg = String::from_str("output path '").concat(path.as_str()).concat(
                    "' would be written by both ",
                ).concat(outputs[i].kind.label().as_str()).concat(" and ").concat(
                    outputs[j].kind.label().as_str(),
                );
                return Err(MangoError::General(msg));
            }
            proof {
                assert(segs@[j as int].deep_view().subrange(0, segs@[j as int]@.len() as int)
                    =~= segs@[j as int].deep_view());
            }
            i += 1;
        }
        j += 1;
    }
    proof {
        assert forall|a: int, b: int| !(#[trigger] same_file(ss, a, b)) by {}
    }
    let mut j: usize = 0;
    while j < n
        invariant
            n == segs@.len(),
            n == ss.len(),
            n == outputs@.len(),
            ss == output_segments(outputs@),
            j <= n,
            forall|q: int| 0 <= q < n ==> (#[trigger] segs@[q]).deep_view() == ss[q],
            forall|a: int, b: int| !(#[trigger] same_file(ss, a, b)),
            forall|a: int, b: int, c: int| #[trigger] file_under(ss, a, b, c) ==> j <= b,
        decreases n - j,
    {
        let len = segs[j].len();
        let mut k: usize = len;
        while k > 1
            invariant
                n == segs@.len(),
                n == ss.len(),
                n == outputs@.len(),
                ss == output_segments(outputs@),
                j < n,
                len == segs@[j as int]@.len(),
                1 <= k <= len || (k == 0 && len == 0),
                forall|q: int| 0 <= q < n ==> (#[trigger] segs@[q]).deep_view() == ss[q],
                forall|a: int, b: int| !(#[trigger] same_file(ss, a, b)),
                forall|a: int, b: int, c: int| #[trigger] file_under(ss, a, b, c) ==> j <= b,
                forall|a: int, c: int| #[trigger] file_under(ss, a, j as int, c) ==> c < k,
            decreases k,
        {
            k -= 1;
            let mut i: usize = 0;
            while i < n
                invariant
                    n == segs@.len(),
                    n == ss.len(),
                    n == outputs@.len(),
                    ss == output_segments(outputs@),
                    j < n,
                    i <= n,
                    len == segs@[j as int]@.len(),
                    1 <= k < len,
                    forall|q: int| 0 <= q < n ==> (#[trigger] segs@[q]).deep_view() == ss[q],
                    forall|a: int, b: int| !(#[trigger] same_file(ss, a, b)),
                    forall|a: int, b: int, c: int| #[trigger] file_under(ss, a, b, c) ==> j <= b,
                    forall|a: int, c: int| #[trigger] file_under(ss, a, j as int, c) ==> c <= k,
                    forall|a: int| 0 <= a < i ==> !(#[trigger] file_under(ss, a, j as int, k as int)),
                decreases n - i,
            {
                if same_prefix(&segs[i], &segs[j], k) {
                    proof {
                        assert(file_under(ss, i as int, j as int, k as int));
                        lemma_first_file_under(ss, i as int, j as int, k as int);
                    }
                    let folder = push_all_exec(dist, &first_components(&segs[j], k));
                    let path = outputs[j].path(dist);
                    let msg = String::from_str("output path '").concat(folder.as_str()).concat(
                        "' would be written as a file by ",
                    ).concat(outputs[i].kind.label().as_str()).concat(", but ").concat(
                        outputs[j].kind.label().as_str(),
                    ).concat(" needs it to be a directory for '").concat(path.as_str()).concat(
                        "'",
                    );
                    return Err(MangoError::General(msg));
                }
                i += 1;
            }
        }
        j += 1;
    }
    proof {
        assert forall|a: int, b: int, c: int| !(#[trigger] file_under(ss, a, b, c)) by {}
    }
    Ok(())
}

} // verus!

verus! {

/// The check passes exactly when every output has a file of its own and no
/// output's file stands where another output needs a folder.
pub proof fn lemma_check_passes_iff_separate(dist: Seq<char>, outputs: Seq<Output>)
    ensures
        (collision_outcome(dist, outputs) is Ok) <==> ((forall|i: int, j: int|
            0 <= i < j < outputs.len() ==> kind_segments(#[trigger] outputs[i].kind)
                != kind_segments(#[trigger] outputs[j].kind)) && (forall|i: int, j: int, k: int|
            #![trigger kind_segments(outputs[i].kind), kind_segments(outputs[j].kind).subrange(0, k)]
            0 <= i < outputs.len() && 0 <= j < outputs.len() && 1 <= k < kind_segments(
                outputs[j].kind,
            ).len() ==> kind_segments(outputs[i].kind) != kind_segments(outputs[j].kind).subrange(
                0,
                k,
            ))),
{
    let ss = output_segments(outputs);
    if collision_outcome(dist, outputs) is Ok {
        assert forall|i: int, j: int| 0 <= i < j < outputs.len() implies kind_segments(
            #[trigger] outputs[i].kind,
        ) != kind_segments(#[trigger] outputs[j].kind) by {
            if kind_segments(outputs[i].kind) == kind_segments(outputs[j].kind) {
                assert(same_file(ss, i, j));
            }
        }
        assert forall|i: int, j: int, k: int|
            #![trigger kind_segments(outputs[i].kind), kind_segments(outputs[j].kind).subrange(0, k)]
            0 <= i < outputs.len() && 0 <= j < outputs.len() && 1 <= k < kind_segments(
                outputs[j].kind,
            ).len() implies kind_segments(outputs[i].kind) != kind_segments(
            outputs[j].kind,
        ).subrange(0, k) by {
            if kind_segments(outputs[i].kind) == kind_segments(outputs[j].kind).subrange(0, k) {
                assert(file_under(ss, i, j, k));
            }
        }
    } else {
        if exists|i: int, j: int| same_file(ss, i, j) {
            let (i, j) = choose|i: int, j: int| same_file(ss, i, j);
            assert(kind_segments(outputs[i].kind) == kind_segments(outputs[j].kind));
        } else {
            let (i, j, k) = choose|i: int, j: int, k: int| file_under(ss, i, j, k);
            assert(kind_segments(outputs[i].kind) == kind_segments(outputs[j].kind).subrange(0, k));
        }
    }
}

} // verus!
