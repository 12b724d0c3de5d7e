//! Asset copies: every file under the assets folder, copied into the folder
//! of the same name under the output folder.

use vstd::prelude::*;
use vstd::string::StringExecFns;
use std::path::PathBuf;
use crate::error::MangoError;
use crate::output::{Body, Output, OutputKind};
use crate::sort::{rank_sort, sort_ranked, Ranked};
use crate::text::{chars_of, lemma_lex_lt_irreflexive, lemma_lex_lt_total, lemma_lex_lt_transitive, lex_lt, split_chars, split_on, str_lt, string_from_chars, views};

verus! {

/// Path order: component by component, each compared byte-wise.
pub open spec fn components_lt(a: Seq<Seq<char>>, b: Seq<Seq<char>>) -> bool
    decreases a.len(),
{
    if a.len() == 0 {
        b.len() > 0
    } else if b.len() == 0 {
        false
    } else if a[0] != b[0] {
        lex_lt(a[0], b[0])
    } else {
        components_lt(a.drop_first(), b.drop_first())
    }
}

proof fn lemma_components_irreflexive(a: Seq<Seq<char>>)
    ensures
        !components_lt(a, a),
    decreases a.len(),
{
    if a.len() > 0 {
        lemma_components_irreflexive(a.drop_first());
    }
}

proof fn lemma_components_transitive(a: Seq<Seq<char>>, b: Seq<Seq<char>>, c: Seq<Seq<char>>)
    requires
        components_lt(a, b),
        components_lt(b, c),
    ensures
        components_lt(a, c),
    decreases a.len(),
{
    if a.len() > 0 && b.len() > 0 && c.len() > 0 {
        if a[0] == b[0] && b[0] == c[0] {
            lemma_components_transitive(a.drop_first(), b.drop_first(), c.drop_first());
        } else if a[0] != b[0] && b[0] != c[0] {
            lemma_lex_lt_transitive(a[0], b[0], c[0]);
            if a[0] == c[0] {
                lemma_lex_lt_irreflexive(a[0]);
            }
        }
    }
}

proof fn lemma_components_total(a: Seq<Seq<char>>, b: Seq<Seq<char>>)
    ensures
        a == b || components_lt(a, b) || components_lt(b, a),
    decreases a.len(),
{
    if a.len() > 0 && b.len() > 0 {
        if a[0] == b[0] {
            lemma_components_total(a.drop_first(), b.drop_first());
            if a.drop_first() == b.drop_first() {
                assert(a =~= seq![a[0]] + a.drop_first());
                assert(b =~= seq![b[0]] + b.drop_first());
            }
        } else {
            lemma_lex_lt_total(a[0], b[0]);
        }
    } else if a.len() == 0 && b.len() == 0 {
        assert(a =~= b);
    }
}

/// A file found under the assets folder: its path below that folder, as
/// components, and where it is copied from.
#[derive(Debug)]
pub struct AssetFile {
    pub rel: Vec<String>,
    pub source: PathBuf,
}

/// Path order on component lists.
fn components_before(a: &Vec<String>, b: &Vec<String>) -> (r: bool)
    ensures
        r == components_lt(a.deep_view(), b.deep_view()),
{
    let mut i: usize = 0;
    proof {
        assert(a.deep_view().subrange(0, a@.len() as int) =~= a.deep_view());
        assert(b.deep_view().subrange(0, b@.len() as int) =~= b.deep_view());
    }
    while i < a.len() && i < b.len()
        invariant
            i <= a@.len(),
            i <= b@.len(),
            components_lt(a.deep_view(), b.deep_view()) == components_lt(
                a.deep_view().subrange(i as int, a@.len() as int),
                b.deep_view().subrange(i as int, b@.len() as int),
            ),
        decreases a@.len() - i,
    {
        let ghost sa = a.deep_view().subrange(i as int, a@.len() as int);
        let ghost sb = b.deep_view().subrange(i as int, b@.len() as int);
        proof {
            assert(sa[0] == a@[i as int]@);
            assert(sb[0] == b@[i as int]@);
        }
        if a[i] != b[i] {
            return str_lt(a[i].as_str(), b[i].as_str());
        }
        proof {
            assert(sa.drop_first() =~= a.deep_view().subrange(i + 1, a@.len() as int));
            assert(sb.drop_first() =~= b.deep_view().subrange(i + 1, b@.len() as int));
        }
        i += 1;
    }
    proof {
        let sa = a.deep_view().subrange(i as int, a@.len() as int);
        let sb = b.deep_view().subrange(i as int, b@.len() as int);
        assert(i == a@.len() ==> sa.len() == 0);
        assert(i == b@.len() ==> sb.len() == 0);
    }
    i < b.len()
}

impl Ranked for AssetFile {
    open spec fn before(self, other: Self) -> bool {
        components_lt(self.rel.deep_view(), other.rel.deep_view())
    }

    fn precedes(&self, other: &Self) -> (r: bool) {
        components_before(&self.rel, &other.rel)
    }

    proof fn lemma_order(a: Self, b: Self, c: Self) {
        let (x, y, z) = (a.rel.deep_view(), b.rel.deep_view(), c.rel.deep_view());
        lemma_components_irreflexive(x);
        if components_lt(x, y) && components_lt(y, z) {
            lemma_components_transitive(x, y, z);
        }
        if components_lt(x, y) && !components_lt(z, y) {
            lemma_components_total(y, z);
            if components_lt(y, z) {
                lemma_components_transitive(x, y, z);
            }
        }
    }
}

/// `o` copies file `f` into the folder `folder` under the output folder.
pub open spec fn is_asset_output(o: Output, folder: Seq<char>, f: AssetFile) -> bool {
    &&& o.kind matches OutputKind::Asset { folder: d, rel } && d@ == folder && rel.deep_view()
        == f.rel.deep_view()
    &&& o.body matches Body::Copy(s) && s == f.source
}

/// One copy output per file, sorted by path (so by destination), into the
/// `folder` folder under the output folder.
pub fn plan(folder: &str, files: Vec<AssetFile>) -> (r: Vec<Output>)
    ensures
        r@.len() == files@.len(),
        forall|i: int|
            0 <= i < r@.len() ==> is_asset_output(#[trigger] r@[i], folder@, rank_sort(files@)[i]),
{
    proof {
        crate::sort::lemma_rank_sort_permutes(files@);
    }
    let mut sorted = sort_ranked(files);
    let ghost ord = sorted@;
    let n = sorted.len();
    let mut rev: Vec<Output> = Vec::new();
    while sorted.len() > 0
        invariant
            sorted@.len() + rev@.len() == n,
            n == ord.len(),
            sorted@ == ord.subrange(0, sorted@.len() as int),
            forall|k: int|
                0 <= k < rev@.len() ==> is_asset_output(#[trigger] rev@[k], folder@, ord[n - 1 - k]),
        decreases sorted@.len(),
    {
        let f = sorted.pop().unwrap();
        assert(f == ord[sorted@.len() as int]);
        let AssetFile { rel, source } = f;
        rev.push(
            Output {
                kind: OutputKind::Asset { folder: String::from_str(folder), rel },
                body: Body::Copy(source),
            },
        );
        proof {
            assert(sorted@ =~= ord.subrange(0, sorted@.len() as int));
        }
    }
    let mut r: Vec<Output> = Vec::new();
    while rev.len() > 0
        invariant
            rev@.len() + r@.len() == n,
            forall|k: int|
                0 <= k < rev@.len() ==> is_asset_output(#[trigger] rev@[k], folder@, ord[n - 1 - k]),
            forall|k: int| 0 <= k < r@.len() ==> is_asset_output(#[trigger] r@[k], folder@, ord[k]),
        decreases rev@.len(),
    {
        let o = rev.pop().unwrap();
        r.push(o);
    }
    r
}

/// The last name of a path cut at `/`: empty pieces and `.` are skipped, and
/// a path ending in `..` has none.
pub open spec fn last_name(pieces: Seq<Seq<char>>) -> Option<Seq<char>>
    decreases pieces.len(),
{
    if pieces.len() == 0 {
        None
    } else if pieces.last().len() == 0 || pieces.last() == "."@ {
        last_name(pieces.drop_last())
    } else if pieces.last() == ".."@ {
        None
    } else {
        Some(pieces.last())
    }
}

/// `Path::file_name` of `path`, as text.
pub open spec fn path_file_name(path: Seq<char>) -> Option<Seq<char>> {
    last_name(split_on(path, '/'))
}

fn is_text(cs: &Vec<char>, t: &str) -> (r: bool)
    ensures
        r == (cs@ == t@),
{
    let tc = chars_of(t);
    if cs.len() != tc.len() {
        return false;
    }
    let mut i: usize = 0;
    while i < cs.len()
        invariant
            i <= cs@.len(),
            cs@.len() == tc@.len(),
            tc@ == t@,
            forall|k: int| 0 <= k < i ==> cs@[k] == tc@[k],
        decreases cs@.len() - i,
    {
        if cs[i] != tc[i] {
            return false;
        }
        i += 1;
    }
    proof {
        assert(cs@ =~= tc@);
    }
    true
}

/// The name of the folder under the output folder that assets are copied
/// into: the assets path's own name. An error when it has none (`..`, `/`).
pub fn folder_name(assets: &str) -> (r: Result<String, MangoError>)
    ensures
        match path_file_name(assets@) {
            Some(n) => r matches Ok(s) && s@ == n,
            None => r matches Err(MangoError::General(m)) && m@ == "the assets path '"@ + assets@
                + "' has no directory name to copy into the output"@,
        },
{
    let cs = chars_of(assets);
    let pieces = split_chars(&cs, '/');
    let ghost pv = split_on(assets@, '/');
    let mut n: usize = pieces.len();
    proof {
        assert(views(pieces@).subrange(0, n as int) =~= pv);
    }
    while n > 0 && (pieces[n - 1].len() == 0 || is_text(&pieces[n - 1], "."))
        invariant
            n <= pieces@.len(),
            views(pieces@) == pv,
            last_name(pv.subrange(0, n as int)) == last_name(pv),
        decreases n,
    {
        proof {
            assert(pv.subrange(0, n as int).drop_last() =~= pv.subrange(0, n - 1));
            assert(pv.subrange(0, n as int).last() == pieces@[n - 1]@);
        }
        n -= 1;
    }
    if n == 0 || is_text(&pieces[n - 1], "..") {
        proof {
            if n > 0 {
                assert(pv.subrange(0, n as int).last() == pieces@[n - 1]@);
            }
        }
        return Err(
            MangoError::General(
                String::from_str("the assets path '").concat(assets).concat(
                    "' has no directory name to copy into the output",
                ),
            ),
        );
    }
    proof {
        assert(pv.subrange(0, n as int).last() == pieces@[n - 1]@);
    }
    Ok(string_from_chars(&pieces[n - 1]))
}

} // verus!
