//! The decisions of the two folder walks, one entry at a time: skip it, go
//! into it, take it, or stop the build. Reading folders and resolving links
//! is left to the caller, which hands each entry's findings in.

use vstd::prelude::*;
use vstd::string::StringExecFns;
use crate::error::MangoError;
use crate::loader::{is_markdown, is_markdown_name, symlinked_folder, symlinked_folder_message};
use crate::relative::{is_real_piece, real_piece, relative_text, site_relative_text};
use crate::text::{chars_of, join, push_joined, replace_char, replace_char_exec, split_chars, split_on, string_from_chars, views};

verus! {

/// What an entry is once links are followed.
#[derive(Clone, Copy, Debug, PartialEq, Eq)]
pub enum EntryKind {
    Folder,
    File,
    Other,
}

/// What the content walk does with one entry.
#[derive(Debug)]
pub enum ContentStep {
    Skip,
    Descend,
    Read,
    Refuse(MangoError),
}

/// What the assets walk does with one entry.
#[derive(Debug)]
pub enum AssetStep {
    Skip,
    Descend,
    Copy,
    Refuse(MangoError),
}

/// A hidden entry: its own name starts with `.`.
pub open spec fn hidden_name(name: Seq<char>) -> bool {
    name.len() > 0 && name[0] == '.'
}

fn is_hidden_name(name: &str) -> (r: bool)
    ensures
        r == hidden_name(name@),
{
    let cs = chars_of(name);
    cs.len() > 0 && cs[0] == '.'
}

/// One entry of the site folder, at `path`, named `name` in its folder.
/// `resolved` is what the entry is once links are followed (`None` when that
/// fails: a dangling link, a link loop), `is_link` whether the entry itself is
/// a symlink. Hidden entries and entries that do not resolve are skipped; a
/// folder is gone into unless it is a symlink, which stops the build; a
/// markdown file is read; anything else is skipped.
pub fn content_entry(
    site: &str,
    path: &str,
    name: &str,
    resolved: Option<EntryKind>,
    is_link: bool,
) -> (r: ContentStep)
    ensures
        hidden_name(name@) ==> r is Skip,
        !hidden_name(name@) ==> match resolved {
            None => r is Skip,
            Some(EntryKind::Folder) => if is_link {
                r matches ContentStep::Refuse(MangoError::General(m)) && m@
                    == symlinked_folder_message(site@, path@)
            } else {
                r is Descend
            },
            Some(EntryKind::File) => if is_markdown_name(name@) {
                r is Read
            } else {
                r is Skip
            },
            Some(EntryKind::Other) => r is Skip,
        },
{
    if is_hidden_name(name) {
        return ContentStep::Skip;
    }
    match resolved {
        None => ContentStep::Skip,
        Some(EntryKind::Folder) => {
            if is_link {
                ContentStep::Refuse(symlinked_folder(site, path))
            } else {
                ContentStep::Descend
            }
        },
        Some(EntryKind::File) => {
            if is_markdown(name) {
                ContentStep::Read
            } else {
                ContentStep::Skip
            }
        },
        Some(EntryKind::Other) => ContentStep::Skip,
    }
}

/// The message for an asset at `rel` (below the assets folder) that is a
/// symlink to a folder, found at `source`.
pub open spec fn asset_link_message(rel: Seq<Seq<char>>, source: Seq<char>) -> Seq<char> {
    "asset '"@ + replace_char(join(rel, "/"@), '\\', '/') + "' is a symlink to a directory ('"@
        + source + "'): symlinked folders are not copied; replace it with a real folder"@
}

/// One entry of the assets folder, at `rel` below it and at `source`, named
/// `name` in its folder. `resolved` is what the entry is once links are
/// followed, or why that failed; `is_link` whether the entry itself is a
/// symlink. Hidden entries are skipped; an entry that does not resolve stops
/// the build, and so does a symlink to a folder; a real folder is gone into;
/// anything else is copied.
pub fn asset_entry(
    rel: &Vec<String>,
    source: &str,
    name: &str,
    resolved: Result<EntryKind, String>,
    is_link: bool,
) -> (r: AssetStep)
    ensures
        hidden_name(name@) ==> r is Skip,
        !hidden_name(name@) ==> match resolved {
            Err(e) => r matches AssetStep::Refuse(MangoError::IoPath { path, message }) && path@
                == source@ && message@ == e@,
            Ok(EntryKind::Folder) => if is_link {
                r matches AssetStep::Refuse(MangoError::General(m)) && m@ == asset_link_message(
                    rel.deep_view(),
                    source@,
                )
            } else {
                r is Descend
            },
            Ok(_) => r is Copy,
        },
{
    if is_hidden_name(name) {
        return AssetStep::Skip;
    }
    match resolved {
        Err(e) => AssetStep::Refuse(MangoError::io_at(source, e.as_str())),
        Ok(EntryKind::Folder) => {
            if is_link {
                let mut joined = String::new();
                push_joined(&mut joined, rel, "/");
                proof {
                    reveal_strlit("/");
                    assert(joined@ =~= join(rel.deep_view(), "/"@));
                }
                let shown = replace_char_exec(joined.as_str(), '\\', '/');
                AssetStep::Refuse(
                    MangoError::General(
                        String::from_str("asset '").concat(shown.as_str()).concat(
                            "' is a symlink to a directory ('",
                        ).concat(source).concat(
                            "'): symlinked folders are not copied; replace it with a real folder",
                        ),
                    ),
                )
            } else {
                AssetStep::Descend
            }
        },
        Ok(_) => AssetStep::Copy,
    }
}

/// The pieces that name components: neither empty nor `.`.
pub open spec fn real_pieces(ps: Seq<Seq<char>>) -> Seq<Seq<char>>
    decreases ps.len(),
{
    if ps.len() == 0 {
        Seq::empty()
    } else if real_piece(ps.last()) {
        real_pieces(ps.drop_last()).push(ps.last())
    } else {
        real_pieces(ps.drop_last())
    }
}

/// The message for an asset found outside the assets folder.
pub open spec fn asset_outside_message(source: Seq<char>, root: Seq<char>) -> Seq<char> {
    "asset '"@ + source + "' is outside the assets folder '"@ + root + "'"@
}

/// The components of an asset's path at `source` below the assets folder
/// `root`, as `Path::strip_prefix` finds them.
pub fn asset_relative(source: &str, root: &str) -> (r: Result<Vec<String>, MangoError>)
    ensures
        match site_relative_text(source@, root@) {
            None => r matches Err(MangoError::General(m)) && m@ == asset_outside_message(
                source@,
                root@,
            ),
            Some(t) => r matches Ok(v) && v.deep_view() == real_pieces(split_on(t, '/')),
        },
{
    match relative_text(source, root) {
        None => Err(
            MangoError::General(
                String::from_str("asset '").concat(source).concat(
                    "' is outside the assets folder '",
                ).concat(root).concat("'"),
            ),
        ),
        Some(t) => {
            let cs = chars_of(t.as_str());
            let pieces = split_chars(&cs, '/');
            let ghost pv = views(pieces@);
            let mut out: Vec<String> = Vec::new();
            let mut i: usize = 0;
            while i < pieces.len()
                invariant
                    i <= pieces@.len(),
                    pv == views(pieces@),
                    out.deep_view() == real_pieces(pv.subrange(0, i as int)),
                decreases pieces@.len() - i,
            {
                proof {
                    assert(pv.subrange(0, i + 1).drop_last() =~= pv.subrange(0, i as int));
                    assert(pv.subrange(0, i + 1).last() == pieces@[i as int]@);
                }
                if is_real_piece(&pieces[i]) {
                    let ghost before = out.deep_view();
                    out.push(string_from_chars(&pieces[i]));
                    proof {
                        assert(out.deep_view() =~= before.push(pieces@[i as int]@));
                    }
                }
                i += 1;
            }
            proof {
                assert(pv.subrange(0, pieces@.len() as int) =~= pv);
            }
            Ok(out)
        },
    }
}

} // verus!
