use mango::config::SiteConfig;
use mango::error::MangoError;
use mango::generate::assets::{plan as plan_assets, AssetFile};
use mango::output::{Contents, OutputKind, RenderedOutput};
use mango::page::{MangoFrontmatter, Page, PageType};
use mango::pipeline::{plan, BuildOptions, BuildPlan, PlannedOutput};
use std::path::PathBuf;

fn page(slug: &str, date: Option<&str>, tags: &[&str]) -> Page {
    let fm = MangoFrontmatter {
        title: slug.to_string(),
        author: "a".into(),
        description: "d".into(),
        date: date.map(String::from),
        tags: Some(tags.iter().map(|t| t.to_string()).collect()),
        draft: false,
    };
    Page::new(fm, String::new(), PageType::General, &format!("site/{slug}.md"), "site").unwrap()
}

fn labels(pages: &Vec<Page>, config: &SiteConfig) -> Vec<String> {
    let assets = plan_assets(
        "assets",
        vec![AssetFile { rel: vec!["style.css".into()], source: PathBuf::from("meta/assets/style.css") }],
    );
    plan(pages, config, assets, "dist")
        .unwrap()
        .iter()
        .map(|o| o.kind.label())
        .collect()
}

#[test]
fn outputs_come_in_pipeline_order() {
    let pages = vec![page("posts/one", Some("2026-01-24"), &["blog"]), page("about", None, &[])];
    assert_eq!(
        labels(&pages, &SiteConfig::default()),
        [
            "page 'posts/one'",
            "page 'about'",
            "section index 'posts'",
            "home page",
            "tag index",
            "tag page 'blog'",
            "asset 'style.css'",
        ]
    );
    let with_base = SiteConfig { base_url: Some("https://example.com".into()), ..SiteConfig::default() };
    assert_eq!(
        labels(&pages, &with_base),
        [
            "page 'posts/one'",
            "page 'about'",
            "section index 'posts'",
            "home page",
            "tag index",
            "tag page 'blog'",
            "RSS feed",
            "sitemap",
            "asset 'style.css'",
        ]
    );
}

#[test]
fn a_tags_folder_collides_with_the_tag_index() {
    let pages = vec![page("tags", None, &[])];
    let err = plan(&pages, &SiteConfig::default(), Vec::new(), "dist").unwrap_err();
    assert!(matches!(err, MangoError::General(_)));
    assert_eq!(
        err.to_string(),
        "Mango Error: output path 'dist/tags/index.html' would be written by both page 'tags' and tag index"
    );
}

#[test]
fn planned_outputs_list_files_then_copies() {
    let opts = BuildOptions {
        site: "site".into(),
        templates: "meta/templates".into(),
        assets: "meta/assets".into(),
        output: "dist".into(),
        config: None,
    };
    let plan = BuildPlan::new(
        &opts,
        vec![PathBuf::from("./site")],
        vec![
            RenderedOutput {
                path: "dist/index.html".into(),
                relative: "index.html".into(),
                contents: Contents::Text("<p>hi</p>".into()),
            },
            RenderedOutput {
                path: "dist/assets/style.css".into(),
                relative: "assets/style.css".into(),
                contents: Contents::Copy(PathBuf::from("meta/assets/style.css")),
            },
        ],
    );
    assert_eq!(plan.output_dir(), "dist");
    let source = PathBuf::from("meta/assets/style.css");
    assert_eq!(
        plan.outputs(),
        vec![
            PlannedOutput::File { path: "index.html", contents: "<p>hi</p>" },
            PlannedOutput::Copy { path: "assets/style.css", source: &source },
        ]
    );
    assert_eq!(plan.protected(), &vec![PathBuf::from("./site")]);
    assert_eq!(plan.rendered().len(), 2);
}

#[test]
fn the_home_page_is_always_planned() {
    let outputs = plan(&Vec::new(), &SiteConfig::default(), Vec::new(), "dist").unwrap();
    let kinds: Vec<_> = outputs.iter().map(|o| o.kind.label()).collect();
    assert_eq!(kinds, ["home page", "tag index"]);
    assert_eq!(outputs[0].kind, OutputKind::Home);
}

fn asset_file(rel: &[&str]) -> AssetFile {
    AssetFile {
        rel: rel.iter().map(|s| s.to_string()).collect(),
        source: PathBuf::from("meta/assets").join(rel.join("/")),
    }
}

fn plan_error(pages: Vec<Page>, config: &SiteConfig, folder: &str, assets: Vec<AssetFile>) -> String {
    let assets = plan_assets(folder, assets);
    match plan(&pages, config, assets, "dist") {
        Err(e) => {
            assert!(matches!(e, MangoError::General(_)), "{e:?}");
            e.to_string()
        }
        Ok(_) => panic!("the plan must fail"),
    }
}

#[test]
fn page_and_section_index_collision_fails_planning() {
    let msg = plan_error(vec![page("posts", None, &[]), page("posts/one", None, &[])], &SiteConfig::default(), "assets", vec![]);
    assert!(msg.contains("dist/posts/index.html"), "{msg}");
    assert!(msg.contains("both page 'posts' and section index 'posts'"), "{msg}");
}

#[test]
fn collision_labels_are_exact_for_reachable_kinds() {
    let msg = plan_error(vec![page("tags/one", None, &[])], &SiteConfig::default(), "assets", vec![]);
    assert_eq!(
        msg,
        "Mango Error: output path 'dist/tags/index.html' would be written by both section index 'tags' and tag index"
    );

    let msg = plan_error(
        vec![page("posts/one", None, &["blog"])],
        &SiteConfig::default(),
        "tags",
        vec![asset_file(&["blog", "index.html"])],
    );
    assert_eq!(
        msg,
        "Mango Error: output path 'dist/tags/blog/index.html' would be written by both tag page 'blog' and asset 'blog/index.html'"
    );

    let with_base = SiteConfig { base_url: Some("https://example.com".into()), ..SiteConfig::default() };
    let msg = plan_error(vec![page("sitemap.xml", None, &[])], &with_base, "assets", vec![]);
    assert_eq!(
        msg,
        "Mango Error: output path 'dist/sitemap.xml' would be written as a file by sitemap, but page 'sitemap.xml' needs it to be a directory for 'dist/sitemap.xml/index.html'"
    );
}

#[test]
fn page_and_asset_collision_names_the_page_first() {
    let msg = plan_error(
        vec![page("assets/x", None, &[])],
        &SiteConfig::default(),
        "assets",
        vec![asset_file(&["x", "index.html"])],
    );
    assert_eq!(
        msg,
        "Mango Error: output path 'dist/assets/x/index.html' would be written by both page 'assets/x' and asset 'x/index.html'"
    );
}

#[test]
fn plan_enumerates_every_kind_in_order() {
    let with_base = SiteConfig { base_url: Some("https://example.com".into()), ..SiteConfig::default() };
    let assets = plan_assets(
        "assets",
        vec![asset_file(&["z.txt"]), asset_file(&["img", "logo.svg"]), asset_file(&["style.css"])],
    );
    let outputs = plan(&vec![page("a/b/c", Some("2026-01-01"), &["rust", "blog"])], &with_base, assets, "dist").unwrap();
    let paths: Vec<String> = outputs.iter().map(|o| o.relative()).collect();
    assert_eq!(
        paths,
        [
            "a/b/c/index.html",
            "a/index.html",
            "a/b/index.html",
            "index.html",
            "tags/index.html",
            "tags/blog/index.html",
            "tags/rust/index.html",
            "feed.xml",
            "sitemap.xml",
            "assets/img/logo.svg",
            "assets/style.css",
            "assets/z.txt",
        ]
    );
}

#[test]
fn planning_twice_gives_identical_outputs() {
    let pages = || vec![page("posts/one", Some("2026-01-01"), &["rust"]), page("notes/two", Some("2025-01-01"), &["notes"])];
    let a: Vec<String> = plan(&pages(), &SiteConfig::default(), Vec::new(), "dist").unwrap().iter().map(|o| o.path("dist")).collect();
    let b: Vec<String> = plan(&pages(), &SiteConfig::default(), Vec::new(), "dist").unwrap().iter().map(|o| o.path("dist")).collect();
    assert!(!a.is_empty(), "nothing was planned");
    assert_eq!(a, b);
}

fn planned(pages: &Vec<Page>, config: &SiteConfig) -> Vec<String> {
    let assets = plan_assets(
        "assets",
        vec![AssetFile { rel: vec!["img".into(), "logo.svg".into()], source: PathBuf::from("meta/assets/img/logo.svg") }],
    );
    plan(pages, config, assets, "dist")
        .unwrap()
        .iter()
        .map(|o| format!("{} {:?}", o.path("dist"), o.body))
        .collect()
}

#[test]
fn planning_twice_gives_the_same_outputs() {
    let pages = vec![
        page("posts/one", Some("2026-01-01"), &["rust"]),
        page("notes/two", Some("2025-01-01"), &["notes"]),
    ];
    let config = SiteConfig { base_url: Some("https://example.com/".into()), ..SiteConfig::default() };
    let first = planned(&pages, &config);
    let second = planned(&pages, &config);
    assert_eq!(first, second);
    assert!(!first.is_empty(), "nothing was planned");
}

#[test]
fn a_plan_is_bound_to_the_output_folder_of_its_options() {
    let opts = BuildOptions {
        site: "site".into(),
        templates: "t".into(),
        assets: "a".into(),
        output: "public/www".into(),
        config: Some("site.json".into()),
    };
    let plan = BuildPlan::new(&opts, Vec::new(), Vec::new());
    assert_eq!(plan.output_dir(), "public/www");
    assert!(plan.outputs().is_empty());
}
