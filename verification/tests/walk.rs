use mango::error::MangoError;
use mango::walk::{asset_entry, asset_relative, content_entry, AssetStep, ContentStep, EntryKind};

#[test]
fn content_walk_skips_hidden_entries_whatever_they_are() {
    for resolved in [None, Some(EntryKind::Folder), Some(EntryKind::File), Some(EntryKind::Other)] {
        for link in [false, true] {
            let step = content_entry("site", "site/.drafts", ".drafts", resolved, link);
            assert!(matches!(step, ContentStep::Skip), "{resolved:?} {link}");
        }
    }
}

#[test]
fn content_walk_skips_entries_that_do_not_resolve() {
    let step = content_entry("site", "site/dangling.md", "dangling.md", None, true);
    assert!(matches!(step, ContentStep::Skip));
}

#[test]
fn content_walk_refuses_a_symlinked_folder() {
    let step = content_entry("site", "site/posts/vendor", "vendor", Some(EntryKind::Folder), true);
    match step {
        ContentStep::Refuse(e) => assert_eq!(
            e.to_string(),
            "Mango Error: content folder 'posts/vendor' is a symlink to a directory ('site/posts/vendor'): symlinked folders are not followed; replace it with a real folder"
        ),
        other => panic!("{other:?}"),
    }
}

#[test]
fn content_walk_descends_into_real_folders_even_named_md() {
    let step = content_entry("site", "site/notes.md", "notes.md", Some(EntryKind::Folder), false);
    assert!(matches!(step, ContentStep::Descend));
}

#[test]
fn content_walk_reads_markdown_files_only() {
    for name in ["a.md", "b.MD", "c.markdown", "d.MarkDown"] {
        let step = content_entry("site", "site/x", name, Some(EntryKind::File), false);
        assert!(matches!(step, ContentStep::Read), "{name}");
    }
    let linked = content_entry("site", "site/l.md", "l.md", Some(EntryKind::File), true);
    assert!(matches!(linked, ContentStep::Read));
    for name in ["a.txt", "md", "a.md.bak"] {
        let step = content_entry("site", "site/x", name, Some(EntryKind::File), false);
        assert!(matches!(step, ContentStep::Skip), "{name}");
    }
    let other = content_entry("site", "site/p.md", "p.md", Some(EntryKind::Other), false);
    assert!(matches!(other, ContentStep::Skip));
}

fn rel(parts: &[&str]) -> Vec<String> {
    parts.iter().map(|p| p.to_string()).collect()
}

#[test]
fn assets_walk_skips_hidden_entries_even_broken_ones() {
    let step = asset_entry(&rel(&[".git"]), "assets/.git", ".git", Err("loop".to_string()), true);
    assert!(matches!(step, AssetStep::Skip));
}

#[test]
fn assets_walk_refuses_entries_that_do_not_resolve() {
    let step = asset_entry(&rel(&["gone.css"]), "assets/gone.css", "gone.css", Err("No such file".to_string()), true);
    match step {
        AssetStep::Refuse(MangoError::IoPath { path, message }) => {
            assert_eq!(path, "assets/gone.css");
            assert_eq!(message, "No such file");
        }
        other => panic!("{other:?}"),
    }
}

#[test]
fn assets_walk_refuses_a_symlinked_folder() {
    let step = asset_entry(&rel(&["img", "shared"]), "assets/img/shared", "shared", Ok(EntryKind::Folder), true);
    match step {
        AssetStep::Refuse(e) => assert_eq!(
            e.to_string(),
            "Mango Error: asset 'img/shared' is a symlink to a directory ('assets/img/shared'): symlinked folders are not copied; replace it with a real folder"
        ),
        other => panic!("{other:?}"),
    }
}

#[test]
fn assets_walk_descends_into_folders_and_copies_the_rest() {
    let folder = asset_entry(&rel(&["img"]), "assets/img", "img", Ok(EntryKind::Folder), false);
    assert!(matches!(folder, AssetStep::Descend));
    for (kind, link) in [(EntryKind::File, false), (EntryKind::File, true), (EntryKind::Other, false)] {
        let step = asset_entry(&rel(&["a.css"]), "assets/a.css", "a.css", Ok(kind), link);
        assert!(matches!(step, AssetStep::Copy), "{kind:?} {link}");
    }
}

#[test]
fn asset_relative_gives_components_below_the_root() {
    assert_eq!(asset_relative("assets/img/a.png", "assets").unwrap(), rel(&["img", "a.png"]));
    assert_eq!(asset_relative("./assets//img/./a.png", "./assets").unwrap(), rel(&["img", "a.png"]));
    let err = asset_relative("other/a.png", "assets").unwrap_err();
    assert_eq!(
        err.to_string(),
        "Mango Error: asset 'other/a.png' is outside the assets folder 'assets'"
    );
}
