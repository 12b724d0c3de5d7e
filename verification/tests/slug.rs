use mango::error::MangoError;
use mango::slug::Slug;

fn slug(path: &str) -> Result<Slug, MangoError> {
    Slug::from_content_path(path, "site")
}

const CHARSET_MESSAGE: &str = "use only ASCII letters, digits, '-', '_' and '.'";
const DOTS_MESSAGE: &str = "a segment cannot consist only of dots";

#[test]
fn slug_generate_slug_strips_site_prefix_and_extension() {
    assert_eq!(
        slug("site/posts/post_one.md").unwrap().to_string(),
        "posts/post_one"
    );
}

#[test]
fn slug_generate_slug_fails_when_path_is_outside_site() {
    let result = slug("elsewhere/post.md");
    assert!(matches!(result, Err(MangoError::General(_))));
}

#[test]
fn generate_slug_outside_site_message() {
    let err = slug("elsewhere/post.md").expect_err("outside the site");
    assert!(matches!(err, MangoError::General(_)), "{err:?}");
    assert_eq!(
        err.to_string(),
        "Mango Error: unable to generate slug from path"
    );
}

#[test]
fn generate_slug_accepts_safe_names_and_rejects_others() {
    for ok in ["site/posts/post_one.md", "site/A-b_c/v1.2.md"] {
        slug(ok).unwrap_or_else(|e| panic!("{ok}: {}", e.to_string()));
    }

    for (bad, segment) in [
        ("site/my posts/one.md", "my posts"),
        ("site/héllo.md", "héllo"),
        ("site/a+b.md", "a+b"),
    ] {
        let err = slug(bad).expect_err(bad);
        assert!(matches!(err, MangoError::General(_)), "{bad}: {err:?}");
        let msg = err.to_string();
        assert!(msg.contains(bad), "{msg}");
        assert!(
            msg.contains(&format!("invalid file name '{segment}'")),
            "{msg}"
        );
    }
}

#[test]
fn generate_slug_error_message_is_exact() {
    let err = slug("site/a+b.md").expect_err("'+' is not allowed");
    assert!(matches!(err, MangoError::General(_)), "{err:?}");
    assert_eq!(
        err.to_string(),
        "Mango Error: site/a+b.md: invalid file name 'a+b': use only ASCII letters, digits, '-', '_' and '.'"
    );
}

#[test]
fn backslash_in_stem_becomes_separator() {
    assert_eq!(slug("site/a\\b.md").unwrap().to_string(), "a/b");
}

#[test]
fn non_utf8_file_name_is_rejected_lossily() {
    // A name that is not UTF-8 reaches the library as its lossy text.
    let path = String::from_utf8_lossy(b"site/\xff.md").into_owned();
    let err = Slug::from_content_path(&path, "site")
        .expect_err("invalid UTF-8 is replaced and rejected");
    assert!(matches!(err, MangoError::General(_)), "{err:?}");
    let msg = err.to_string();
    assert!(
        msg.contains(&format!("invalid file name '\u{FFFD}': {CHARSET_MESSAGE}")),
        "{msg}"
    );
}

#[test]
fn empty_and_bad_segments_get_the_charset_message() {
    for (text, segment) in [
        ("a//b", ""),
        ("", ""),
        ("/a", ""),
        ("a/", ""),
        ("a b", "a b"),
    ] {
        let err = Slug::parse(text.to_string(), "site/x.md").expect_err(text);
        assert!(matches!(err, MangoError::General(_)), "{text}: {err:?}");
        let msg = err.to_string();
        assert_eq!(
            msg,
            format!("Mango Error: site/x.md: invalid file name '{segment}': {CHARSET_MESSAGE}"),
            "{text}"
        );
        assert!(!msg.contains(DOTS_MESSAGE), "{text}: {msg}");
    }
}

#[test]
fn dot_only_segments_get_their_own_message() {
    for (text, segment) in [
        (".", "."),
        ("..", ".."),
        ("...", "..."),
        ("posts/.", "."),
        ("posts/..", ".."),
        ("a/./b", "."),
    ] {
        let err = Slug::parse(text.to_string(), "site/x.md").expect_err(text);
        assert!(matches!(err, MangoError::General(_)), "{text}: {err:?}");
        assert_eq!(
            err.to_string(),
            format!("Mango Error: site/x.md: invalid file name '{segment}': {DOTS_MESSAGE}"),
            "{text}"
        );
    }

    for ok in [".a", "a.", "v1.2", "a/.b/c"] {
        Slug::parse(ok.to_string(), "site/x.md")
            .unwrap_or_else(|e| panic!("{ok}: {}", e.to_string()));
    }
}

#[test]
fn dot_only_file_names_are_rejected() {
    for (path, segment) in [
        ("site/...md", ".."),
        ("site/..md", ".."),
        ("site/posts/...md", ".."),
    ] {
        let err = slug(path).expect_err(path);
        assert_eq!(
            err.to_string(),
            format!("Mango Error: {path}: invalid file name '{segment}': {DOTS_MESSAGE}")
        );
    }
}

#[test]
fn slug_url_is_root_relative_with_trailing_slash() {
    assert_eq!(
        Slug::from_test_text("posts/post_one").url(),
        "/posts/post_one/"
    );
    assert_eq!(Slug::from_test_text("posts").url(), "/posts/");
    assert_eq!(Slug::home().url(), "/");
    assert_eq!(Slug::tag_index().url(), "/tags/");
}

#[test]
fn output_path_is_index_html_under_segments() {
    let dist = "dist";
    assert_eq!(Slug::home().output_path(dist), "dist/index.html");
    assert_eq!(
        Slug::from_test_text("a/b/c").output_path(dist),
        "dist/a/b/c/index.html"
    );
    assert_eq!(
        Slug::tag_index().output_path(dist),
        "dist/tags/index.html"
    );
}

#[test]
fn parent_uses_last_separator() {
    let parent = |s: &str| Slug::from_test_text(s).parent().map(|p| p.to_string());
    assert_eq!(parent("a/b/c"), Some("a/b".to_string()));
    assert_eq!(parent("posts/one"), Some("posts".to_string()));
    assert_eq!(parent("about"), None);
    assert_eq!(Slug::home().parent(), None);
}

#[test]
fn top_level_and_segments() {
    assert!(Slug::from_test_text("posts").is_top_level());
    assert!(!Slug::from_test_text("posts/one").is_top_level());
    assert!(!Slug::home().is_top_level());

    let segments = |s: &Slug| s.segments();
    assert_eq!(segments(&Slug::from_test_text("a/b/c")), ["a", "b", "c"]);
    assert_eq!(segments(&Slug::from_test_text("about")), ["about"]);
    assert!(segments(&Slug::home()).is_empty());
}

#[test]
fn orders_bytewise_on_joined_text() {
    assert!(Slug::from_test_text("a-c") < Slug::from_test_text("a/b"));
    assert!(Slug::from_test_text("a") < Slug::from_test_text("a/b"));
    assert!(Slug::home() < Slug::from_test_text("a"));
}

#[test]
fn output_path_under_a_dist_with_trailing_slash() {
    assert_eq!(
        Slug::from_test_text("a/b").output_path("dist/"),
        "dist/a/b/index.html"
    );
    assert_eq!(Slug::home().output_path(""), "index.html");
}

#[test]
fn site_folder_is_stripped_component_by_component() {
    assert_eq!(slug("site//a.md").unwrap().to_string(), "a");
    assert_eq!(slug("site/./a.md").unwrap().to_string(), "a");
    assert_eq!(slug("site/.//posts/a.md").unwrap().to_string(), "posts/a");
    assert_eq!(
        Slug::from_content_path("./site/posts/a.md", "./site").unwrap().to_string(),
        "posts/a"
    );
    assert_eq!(
        Slug::from_content_path("./site/posts/a.md", "site/").unwrap_err().to_string(),
        "Mango Error: unable to generate slug from path"
    );
    assert_eq!(
        Slug::from_content_path("/srv/site/a.md", "/srv//site/.").unwrap().to_string(),
        "a"
    );
    assert_eq!(
        Slug::from_content_path("site/a.md", "/site").unwrap_err().to_string(),
        "Mango Error: unable to generate slug from path"
    );
    assert!(slug("sites/a.md").is_err());
}

#[test]
fn empty_segment_inside_the_relative_path_is_refused() {
    let err = slug("site/a//b.md").unwrap_err();
    assert_eq!(
        err.to_string(),
        format!("Mango Error: site/a//b.md: invalid file name '': {CHARSET_MESSAGE}")
    );
}

#[test]
fn segments_join_back_to_the_slug() {
    for text in ["posts/one", "a/b/c", "about", "v1.2/x_y-z"] {
        let s = Slug::parse(text.to_string(), "file").unwrap();
        let segments = s.segments();
        assert!(segments.iter().all(|seg| !seg.is_empty()), "{text}");
        assert_eq!(segments.join("/"), s.to_string());
        assert_eq!(s.is_top_level(), segments.len() == 1, "{text}");
    }
    assert!(Slug::home().segments().is_empty());
    assert!(!Slug::home().is_top_level());
}

#[test]
fn different_slugs_write_different_files() {
    let texts = ["index.html", "a/b", "a-b", "a/b/c", "tags", "tags/rust"];
    let mut paths: Vec<String> = texts
        .iter()
        .map(|t| Slug::parse(t.to_string(), "file").unwrap().output_path("dist"))
        .collect();
    paths.push(Slug::home().output_path("dist"));
    assert_eq!(paths[0], "dist/index.html/index.html");
    assert_eq!(paths[6], "dist/index.html");
    let mut sorted = paths.clone();
    sorted.sort();
    sorted.dedup();
    assert_eq!(sorted.len(), paths.len());
}

#[test]
fn tag_pages_and_parents_are_valid_slugs() {
    let tag = mango::tag::Tag::parse("rust-2024".to_string()).unwrap();
    let page = Slug::tag_page(&tag);
    assert_eq!(page.to_string(), "tags/rust-2024");
    assert!(Slug::parse(page.to_string(), "file").is_ok());
    let parent = Slug::parse("a/b/c".to_string(), "file").unwrap().parent().unwrap();
    assert!(Slug::parse(parent.to_string(), "file").is_ok());
    assert!(Slug::parse(Slug::tag_index().to_string(), "file").is_ok());
}
