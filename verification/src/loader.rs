//! The decisions of loading a site: which files are pages, how a file
//! becomes a page, and which pages are published.

use vstd::prelude::*;
use vstd::string::StringExecFns;
use crate::error::MangoError;
use crate::page::{page_result, MangoFrontmatter, Page, PageType};
use crate::relative::{relative_text, site_relative_text};
use crate::text::{chars_last_index, chars_of, last_index_of, lemma_last_index_of, replace_char, replace_char_exec};

verus! {

/// `Path::extension` of a file name: the text after its last `.`, unless the
/// name has no `.` past its first character, or is `..`.
pub open spec fn name_extension(name: Seq<char>) -> Option<Seq<char>> {
    let dot = last_index_of(name, '.');
    if name == ".."@ || dot <= 0 {
        None
    } else {
        Some(name.subrange(dot + 1, name.len() as int))
    }
}

/// ASCII letters in lower case; every other character unchanged.
pub open spec fn ascii_lower(c: char) -> char {
    if 'A' <= c && c <= 'Z' {
        ((c as u32) + 32) as char
    } else {
        c
    }
}

/// Equal up to ASCII letter case.
pub open spec fn same_ignoring_case(a: Seq<char>, b: Seq<char>) -> bool {
    a.len() == b.len() && forall|i: int| 0 <= i < a.len() ==> ascii_lower(#[trigger] a[i]) == ascii_lower(b[i])
}

/// A file name whose extension is `md` or `markdown`, in any letter case.
pub open spec fn is_markdown_name(name: Seq<char>) -> bool {
    match name_extension(name) {
        Some(e) => same_ignoring_case(e, "md"@) || same_ignoring_case(e, "markdown"@),
        None => false,
    }
}

fn lower(c: char) -> (r: char)
    ensures
        r == ascii_lower(c),
{
    if 'A' <= c && c <= 'Z' {
        ((c as u8) + 32) as char
    } else {
        c
    }
}

fn same_ignoring_case_exec(a: &Vec<char>, from: usize, b: &str) -> (r: bool)
    requires
        from <= a@.len(),
    ensures
        r == same_ignoring_case(a@.subrange(from as int, a@.len() as int), b@),
{
    let bc = chars_of(b);
    let ghost sa = a@.subrange(from as int, a@.len() as int);
    if a.len() - from != bc.len() {
        return false;
    }
    let mut i: usize = 0;
    while i < bc.len()
        invariant
            i <= bc@.len(),
            bc@ == b@,
            from + bc@.len() == a@.len(),
            a@.len() == a.len(),
            sa == a@.subrange(from as int, a@.len() as int),
            forall|k: int| 0 <= k < i ==> ascii_lower(#[trigger] sa[k]) == ascii_lower(bc@[k]),
        decreases bc@.len() - i,
    {
        assert(sa[i as int] == a@[from + i]);
        if lower(a[from + i]) != lower(bc[i]) {
            return false;
        }
        i += 1;
    }
    true
}

/// `.md` and `.markdown` files, in any letter case, are pages.
pub fn is_markdown(file_name: &str) -> (r: bool)
    ensures
        r == is_markdown_name(file_name@),
{
    let cs = chars_of(file_name);
    proof {
        lemma_last_index_of(cs@, '.');
        reveal_strlit("..");
    }
    if cs.len() == 2 && cs[0] == '.' && cs[1] == '.' {
        assert(cs@ =~= ".."@);
        return false;
    }
    assert(cs@ != ".."@) by {
        if cs@ == ".."@ {
            assert(cs@[0] == '.' && cs@[1] == '.');
        }
    }
    match chars_last_index(&cs, '.') {
        None => false,
        Some(dot) => {
            if dot == 0 {
                return false;
            }
            same_ignoring_case_exec(&cs, dot + 1, "md") || same_ignoring_case_exec(
                &cs,
                dot + 1,
                "markdown",
            )
        },
    }
}

/// A path for messages: relative to the site folder when it is inside it,
/// with `/` separators.
pub open spec fn site_relative_label(site: Seq<char>, path: Seq<char>) -> Seq<char> {
    replace_char(
        match site_relative_text(path, site) {
            Some(r) => r,
            None => path,
        },
        '\\',
        '/',
    )
}

/// Labels a path for error messages: relative to the site folder, with `/`
/// separators, falling back to the full path if it is not under `site`.
pub fn site_relative(site: &str, path: &str) -> (r: String)
    ensures
        r@ == site_relative_label(site@, path@),
{
    match relative_text(path, site) {
        Some(rel) => replace_char_exec(rel.as_str(), '\\', '/'),
        None => replace_char_exec(path, '\\', '/'),
    }
}

/// The page in the file `path` under `site`, from the typed reading of its
/// frontmatter and its markdown body. Frontmatter errors name the file.
pub fn page_from_frontmatter(
    path: &str,
    site: &str,
    typed: Result<MangoFrontmatter, String>,
    body: String,
) -> (r: Result<Page, MangoError>)
    ensures
        match typed {
            Err(e) => r matches Err(MangoError::Frontmatter(m)) && m@ == path@ + ": "@ + e@,
            Ok(fm) => page_result(fm, body@, PageType::General, path@, site@, path@ + ": "@, r),
        },
{
    match typed {
        Err(e) => Err(MangoError::Frontmatter(e).in_file(path)),
        Ok(fm) => {
            let ghost f = fm;
            let ghost b = body@;
            match Page::new(fm, body, PageType::General, path, site) {
                Ok(p) => Ok(p),
                Err(e) => {
                    let ghost e0 = e;
                    let r = e.in_file(path);
                    proof {
                        if let MangoError::Frontmatter(m) = e0 {
                            assert(r matches MangoError::Frontmatter(n) && n@ == path@ + ": "@ + m@);
                            assert((path@ + ": "@) + m@ =~= path@ + ": "@ + m@);
                        }
                        assert forall|x: Seq<char>| #[trigger] (Seq::<char>::empty() + x) == x by {
                            assert(Seq::<char>::empty() + x =~= x);
                        }
                        assert forall|x: Seq<char>| #[trigger] ((path@ + ": "@) + x) == path@
                            + ": "@ + x by {
                            assert((path@ + ": "@) + x =~= path@ + ": "@ + x);
                        }
                    }
                    Err(r)
                },
            }
        },
    }
}

/// The error for a page file without a frontmatter block.
pub fn missing_frontmatter(path: &str) -> (r: MangoError)
    ensures
        r matches MangoError::Frontmatter(m) && m@ == path@
            + ": missing frontmatter: the file must start with a '---' line, a JSON object and a closing '---' line"@,
{
    MangoError::Frontmatter(
        String::from_str(path).concat(
            ": missing frontmatter: the file must start with a '---' line, a JSON object and a closing '---' line",
        ),
    )
}

/// The error for a site path that is not a folder.
pub fn not_a_directory(path: &str) -> (r: MangoError)
    ensures
        r matches MangoError::General(m) && m@ == path@ + " is not a directory"@,
{
    MangoError::General(String::from_str(path).concat(" is not a directory"))
}

/// The message for a content folder at `path` that is a symlink: symlinked
/// folders are not followed.
pub open spec fn symlinked_folder_message(site: Seq<char>, path: Seq<char>) -> Seq<char> {
    "content folder '"@ + site_relative_label(site, path) + "' is a symlink to a directory ('"@
        + path + "'): symlinked folders are not followed; replace it with a real folder"@
}

/// The error for a content folder that is a symlink.
pub fn symlinked_folder(site: &str, path: &str) -> (r: MangoError)
    ensures
        r matches MangoError::General(m) && m@ == symlinked_folder_message(site@, path@),
{
    MangoError::General(
        String::from_str("content folder '").concat(site_relative(site, path).as_str()).concat(
            "' is a symlink to a directory ('",
        ).concat(path).concat("'): symlinked folders are not followed; replace it with a real folder"),
    )
}

/// The pages that are not drafts, in order.
pub open spec fn published(pages: Seq<Page>) -> Seq<Page>
    decreases pages.len(),
{
    if pages.len() == 0 {
        pages
    } else if !pages.last().draft {
        published(pages.drop_last()).push(pages.last())
    } else {
        published(pages.drop_last())
    }
}

/// Drops draft pages: they are checked like every page but never published.
pub fn keep_published(pages: Vec<Page>) -> (r: Vec<Page>)
    ensures
        r@ == published(pages@),
{
    let ghost all = pages@;
    let mut rest = pages;
    let mut rev: Vec<Page> = Vec::new();
    while rest.len() > 0
        invariant
            rest@.len() <= all.len(),
            rest@ == all.subrange(0, rest@.len() as int),
            published(all) == published(rest@) + rev@.reverse(),
        decreases rest@.len(),
    {
        let ghost before = rest@;
        let p = rest.pop().unwrap();
        proof {
            assert(rest@ =~= before.drop_last());
            assert(p == before.last());
        }
        if !p.draft {
            let ghost old_rev = rev@;
            rev.push(p);
            proof {
                assert(rev@.reverse() =~= seq![p] + old_rev.reverse());
                assert(published(before) == published(rest@).push(p));
                assert(published(rest@).push(p) + old_rev.reverse() =~= published(rest@) + rev@.reverse());
            }
        }
        proof {
            assert(rest@ =~= all.subrange(0, rest@.len() as int));
        }
    }
    proof {
        assert(rest@ =~= Seq::<Page>::empty());
        assert(published(all) =~= rev@.reverse());
    }
    let mut r: Vec<Page> = Vec::new();
    let ghost target = rev@.reverse();
    while rev.len() > 0
        invariant
            target == r@ + rev@.reverse(),
        decreases rev@.len(),
    {
        let ghost before = rev@;
        let p = rev.pop().unwrap();
        proof {
            assert(rev@ =~= before.drop_last());
            assert(before.reverse() =~= seq![p] + rev@.reverse());
        }
        r.push(p);
        proof {
            assert(r@ + rev@.reverse() =~= target);
        }
    }
    proof {
        assert(r@ =~= target);
    }
    r
}

} // verus!

verus! {

/// Published pages are exactly the pages that are not drafts, in order:
/// none of them is a draft, and every page that is not a draft is among them.
pub proof fn lemma_published_are_the_non_drafts(pages: Seq<Page>)
    ensures
        forall|i: int| 0 <= i < published(pages).len() ==> !(#[trigger] published(pages)[i]).draft,
        forall|i: int| 0 <= i < pages.len() && !(#[trigger] pages[i]).draft ==> published(pages).contains(pages[i]),
    decreases pages.len(),
{
    if pages.len() > 0 {
        let rest = pages.drop_last();
        lemma_published_are_the_non_drafts(rest);
        let r = published(rest);
        if !pages.last().draft {
            assert forall|i: int| 0 <= i < r.push(pages.last()).len() implies !(#[trigger] r.push(
                pages.last(),
            )[i]).draft by {
                if i < r.len() {
                    assert(r.push(pages.last())[i] == r[i]);
                }
            }
        }
        assert forall|i: int| 0 <= i < pages.len() && !(#[trigger] pages[i]).draft implies published(
            pages,
        ).contains(pages[i]) by {
            if i < pages.len() - 1 {
                assert(rest[i] == pages[i]);
                assert(r.contains(pages[i]));
                let k = choose|k: int| 0 <= k < r.len() && r[k] == pages[i];
                if !pages.last().draft {
                    assert(r.push(pages.last())[k] == pages[i]);
                }
            } else {
                assert(r.push(pages.last())[r.len() as int] == pages[i]);
            }
        }
    }
}

} // verus!
