use mango::clean::{ensure_safe_to_clean, Canonical, Protected};
use mango::error::{not_implemented, MangoError};
use mango::hidden::is_hidden;
use mango::loader::{is_markdown, keep_published, missing_frontmatter, page_from_frontmatter, site_relative};
use mango::page::{MangoFrontmatter, PageType};
use mango::relative::relative_text;

#[test]
fn names_starting_with_a_dot_are_hidden() {
    for name in [".notes.md", ".drafts", ".git", ".DS_Store", ".#post.md", "...md", "..md"] {
        assert!(is_hidden(name.as_bytes()), "{name}");
    }
}

#[test]
fn other_names_are_not_hidden() {
    for name in ["notes.md", "_notes.md", "a.b", "notes.", "#post.md#", "~notes.md", ""] {
        assert!(!is_hidden(name.as_bytes()), "{name}");
    }
}

#[test]
fn non_utf8_names_are_judged_by_their_first_byte() {
    assert!(is_hidden(b".\xff"));
    assert!(!is_hidden(b"\xff."));
}

#[test]
fn io_display_includes_underlying_message() {
    let err = MangoError::Io("disk went away".into());
    assert_eq!(err.to_string(), "Mango I/O Error: disk went away");
}

#[test]
fn io_path_display_includes_path_and_cause() {
    let err = MangoError::io_at("site/posts/x.md", "denied");
    let msg = err.to_string();
    assert!(msg.contains("site/posts/x.md"), "{msg}");
    assert!(msg.contains("denied"), "{msg}");
}

#[test]
fn commands_not_yet_implemented_say_so() {
    assert_eq!(
        not_implemented("publish").to_string(),
        "Mango Error: the 'publish' command is not implemented yet"
    );
}

#[test]
fn markdown_extensions_in_any_case_are_pages() {
    for name in ["a.md", "b.MD", "c.markdown", "d.MarkDown", "...md", "notes.md"] {
        assert!(is_markdown(name), "{name}");
    }
    for name in ["e.txt", "f.mdx", ".md", "md", "..", "x.", "a.md.txt"] {
        assert!(!is_markdown(name), "{name}");
    }
}

#[test]
fn site_relative_labels() {
    assert_eq!(site_relative("site", "site/posts/vendor"), "posts/vendor");
    assert_eq!(site_relative("site", "elsewhere/x"), "elsewhere/x");
    assert_eq!(site_relative("site", "site/a\\b"), "a/b");
}

fn fm(draft: bool) -> MangoFrontmatter {
    MangoFrontmatter {
        title: "t".into(),
        author: "a".into(),
        description: "d".into(),
        date: None,
        tags: None,
        draft,
    }
}

#[test]
fn draft_pages_are_excluded() {
    let published = page_from_frontmatter("site/posts/published.md", "site", Ok(fm(false)), "b".into()).unwrap();
    let secret = page_from_frontmatter("site/posts/secret.md", "site", Ok(fm(true)), "b".into()).unwrap();
    let pages = keep_published(vec![published, secret]);
    let slugs: Vec<_> = pages.iter().map(|p| p.slug.to_string()).collect();
    assert_eq!(slugs, vec!["posts/published"]);
    assert_eq!(pages[0].kind, PageType::General);
}

#[test]
fn frontmatter_errors_name_the_file() {
    let err = page_from_frontmatter("site/posts/bad.md", "site", Err("expected value".into()), String::new())
        .unwrap_err();
    assert_eq!(
        err.to_string(),
        "Mango Frontmatter Error: site/posts/bad.md: expected value"
    );

    let mut bad_date = fm(false);
    bad_date.date = Some("2026-02-30".into());
    let err = page_from_frontmatter("site/my posts/x.md", "site", Ok(bad_date), String::new()).unwrap_err();
    assert_eq!(
        err.to_string(),
        "Mango Frontmatter Error: site/my posts/x.md: invalid date '2026-02-30': expected a valid YYYY-MM-DD date"
    );

    let err = page_from_frontmatter("site/posts/...md", "site", Ok(fm(true)), String::new()).unwrap_err();
    assert!(matches!(err, MangoError::General(_)), "{err:?}");
    assert!(
        err.to_string()
            .contains("invalid file name '..': a segment cannot consist only of dots"),
        "{}",
        err.to_string()
    );

    assert_eq!(
        missing_frontmatter("site/posts/bad.md").to_string(),
        "Mango Frontmatter Error: site/posts/bad.md: missing frontmatter: the file must start with a '---' line, a JSON object and a closing '---' line"
    );
}

fn comps(path: &str) -> Vec<String> {
    let mut v = vec!["/".to_string()];
    v.extend(path.split('/').filter(|s| !s.is_empty()).map(String::from));
    v
}

#[test]
fn refuses_cwd() {
    let err = ensure_safe_to_clean("child/..", Canonical::Found(comps("/w")), ".", Ok(comps("/w")), &vec![])
        .expect_err("cwd must be refused");
    assert!(matches!(err, MangoError::General(_)), "{err:?}");
    assert_eq!(
        err.to_string(),
        "Mango Error: refusing to clean output path 'child/..': it is or contains the current directory '.'"
    );
}

#[test]
fn refuses_parent_of_cwd() {
    let err = ensure_safe_to_clean("..", Canonical::Found(comps("/w")), ".", Ok(comps("/w/x")), &vec![])
        .expect_err("a parent of the cwd must be refused");
    assert!(err.to_string().contains("current directory"));
}

#[test]
fn refuses_protected_path_or_its_parent() {
    let protected = vec![
        Protected { path: "gone".into(), canonical: None },
        Protected { path: "dist/site".into(), canonical: Some(comps("/w/dist/site")) },
    ];
    let err = ensure_safe_to_clean("dist", Canonical::Found(comps("/w/dist")), ".", Ok(comps("/w")), &protected)
        .expect_err("protected");
    assert_eq!(
        err.to_string(),
        "Mango Error: refusing to clean output path 'dist': it is or contains the input path 'dist/site'"
    );
    ensure_safe_to_clean("out", Canonical::Found(comps("/w/out")), ".", Ok(comps("/w")), &protected).unwrap();
}

#[test]
fn missing_target_is_safe() {
    ensure_safe_to_clean("dist", Canonical::Missing, ".", Err("unused".into()), &vec![]).unwrap();
    let err = ensure_safe_to_clean("dist", Canonical::Failed("denied".into()), ".", Ok(comps("/w")), &vec![])
        .unwrap_err();
    assert_eq!(err.to_string(), "Mango I/O Error at 'dist': denied");
}

#[test]
fn template_display_includes_source_chain() {
    let err = MangoError::Template(
        "Failed to render 'page.html': Variable `x` not found".into(),
    );
    let msg = err.to_string();
    assert!(msg.starts_with("Mango Template Error: "), "{msg}");
    assert!(msg.contains("Failed to render 'page.html'"), "{msg}");
    assert!(msg.contains("Variable `x` not found"), "{msg}");
}

#[test]
fn frontmatter_errors_gain_the_file_name_and_others_do_not() {
    let err = MangoError::Frontmatter("bad".into()).in_file("site/x.md");
    assert_eq!(err.to_string(), "Mango Frontmatter Error: site/x.md: bad");
    let err = MangoError::General("bad".into()).in_file("site/x.md");
    assert_eq!(err.to_string(), "Mango Error: bad");
    assert_eq!(MangoError::Config("c".into()).to_string(), "Mango Config Error: c");
}

#[test]
fn relative_text_follows_path_components() {
    assert_eq!(relative_text("site//a/b/", "site").as_deref(), Some("a/b"));
    assert_eq!(relative_text("site/a/.", "site").as_deref(), Some("a"));
    assert_eq!(relative_text("site", "site").as_deref(), Some(""));
    assert_eq!(relative_text("site/.", "./site"), None);
    assert_eq!(relative_text("./a//", "").as_deref(), Some("./a"));
    assert_eq!(relative_text("/", "").as_deref(), Some("/"));
    assert_eq!(relative_text("/a", "/").as_deref(), Some("a"));
    assert_eq!(relative_text("a/../b", "a").as_deref(), Some("../b"));
    assert_eq!(site_relative("site", "site//posts/vendor"), "posts/vendor");
}
