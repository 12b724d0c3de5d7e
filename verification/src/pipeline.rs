//! A build in two phases: planning puts together and checks every output,
//! writing nothing; committing writes a finished plan out.

use vstd::prelude::*;
use vstd::string::StringExecFns;
use std::path::PathBuf;
use crate::config::{base_root, SiteConfig};
use crate::error::MangoError;
use crate::generate::content::is_page_output;
use crate::generate::feed::feed_text;
use crate::generate::home::is_home_output;
use crate::generate::section::is_section_output;
use crate::generate::sitemap::{entry_date, entry_key, lemma_sitemap_by_keys, same_entry_keys, sitemap_text};
use crate::generate::tag::{is_tag_index_output, is_tag_output};
use crate::generate::{content, feed, home, section, sitemap, tag};
use crate::index::{build_section_index, build_tag_index, children_of, pages_in, pages_tagged, slug_texts, group_tags, is_section_of, is_tag_of, section_index_of, section_keys, tag_index_of, Section, TagGroup};
use crate::output::{check_collisions, collision_outcome, html_slug, kind_segments, output_segments, Body, Contents, Output, OutputKind, RenderedOutput};
use crate::sort::lemma_sorted_same_members;
use crate::page::Page;
use crate::generate::home::{home_sections_of, recent_pages, top_sections};
use crate::generate::section::section_links_of;
use crate::generate::tag::tag_entries_of;
use crate::template::page_template_of;
use crate::sort::rank_sort;
use crate::summary::{date_view, summarize_all, summarizes, PageSummary};
use crate::template::{HomeSection, SectionLink, TagIndexEntry, TagLink, TemplateContext};
use crate::text::has_char;

verus! {

/// The inputs a build needs: the paths `mango build` accepts.
#[derive(Debug)]
pub struct BuildOptions {
    pub site: String,
    pub templates: String,
    pub assets: String,
    pub output: String,
    /// `None` reads `mango.json` from the current folder, and falls back to
    /// the defaults when that file does not exist.
    pub config: Option<String>,
}

/// `outs` is the planned list for `pages`, config `c` and asset copies
/// `assets`, given the section index `secs` and tag index `groups`: content
/// pages, section indexes, the home page, the tag index and tag pages, then
/// the feed and sitemap when `base_url` is set, then the asset copies.
pub open spec fn plan_shape(
    pages: Seq<Page>,
    c: SiteConfig,
    assets: Seq<Output>,
    outs: Seq<Output>,
    secs: Seq<Section>,
    groups: Seq<TagGroup>,
) -> bool {
    let a = pages.len() as int;
    let h = a + secs.len();
    let t = h + 1;
    let f = t + 1 + groups.len();
    let g = if base_root(c) is Some {
        f + 2
    } else {
        f
    };
    &&& section_index_of(pages, secs)
    &&& tag_index_of(pages, groups)
    &&& outs.len() == g + assets.len()
    &&& forall|i: int| 0 <= i < a ==> is_page_output(#[trigger] outs[i], pages[i])
    &&& forall|i: int| 0 <= i < secs.len() ==> is_section_output(#[trigger] outs[a + i], secs[i])
    &&& is_home_output(outs[h], pages, c, secs)
    &&& is_tag_index_output(outs[t], groups)
    &&& forall|i: int| 0 <= i < groups.len() ==> is_tag_output(#[trigger] outs[t + 1 + i], groups[i])
    &&& match base_root(c) {
        None => true,
        Some(base) => {
            &&& outs[f].kind is Feed
            &&& outs[f].body matches Body::Text(x) && x@ == feed_text(c, base, pages)
            &&& outs[f + 1].kind is Sitemap
            &&& outs[f + 1].body matches Body::Text(y) && y@ == sitemap_text(
                base,
                outs.subrange(0, f + 1),
            )
        },
    }
    &&& outs.subrange(g, outs.len() as int) == assets
}

/// `outs` is the planned list for `pages`, config `c` and asset copies
/// `assets`.
pub open spec fn is_plan(pages: Seq<Page>, c: SiteConfig, assets: Seq<Output>, outs: Seq<Output>) -> bool {
    exists|secs: Seq<Section>, groups: Seq<TagGroup>| plan_shape(pages, c, assets, outs, secs, groups)
}

/// Puts together every output of a build, in the order they are checked,
/// rendered and written: content pages, section indexes, the home page, the
/// tag index and tag pages, the feed and sitemap (only with `base_url`), then
/// the asset copies. Fails if two outputs would write the same file or a
/// file would stand where another output needs a folder.
pub fn plan(pages: &Vec<Page>, config: &SiteConfig, assets: Vec<Output>, dist: &str) -> (r: Result<
    Vec<Output>,
    MangoError,
>)
    ensures
        r matches Ok(outs) ==> is_plan(pages@, *config, assets@, outs@) && collision_outcome(
            dist@,
            outs@,
        ) is Ok,
        r matches Err(e) ==> exists|outs: Seq<Output>|
            is_plan(pages@, *config, assets@, outs) && (#[trigger] collision_outcome(dist@, outs)
                matches Err(m) && e matches MangoError::General(x) && x@ == m),
{
    let ghost av = assets@;
    let mut outs = content::build(pages);
    let ghost cv = outs@;
    let ghost a = pages@.len() as int;
    let si = build_section_index(pages);
    let ghost secs = si.sections@;
    let home_output = home::build(pages, &si, config);
    let mut section_outputs = section::build(si);
    let ghost sv = section_outputs@;
    outs.append(&mut section_outputs);
    let ghost h = outs@.len() as int;
    let ghost hv = home_output;
    outs.push(home_output);
    let groups = build_tag_index(pages);
    let ghost gs = groups@;
    let mut tag_outputs = tag::build(groups);
    let ghost tv = tag_outputs@;
    let ghost t = outs@.len() as int;
    outs.append(&mut tag_outputs);
    let ghost f = outs@.len() as int;
    let ghost o3 = outs@;
    proof {
        assert(o3 =~= cv + sv + seq![hv] + tv);
    }
    match feed::build(pages, config) {
        Some(o) => outs.push(o),
        None => {},
    }
    let ghost o4 = outs@;
    match sitemap::build(&outs, config) {
        Some(o) => outs.push(o),
        None => {},
    }
    let ghost g = outs@.len() as int;
    let ghost o5 = outs@;
    let mut assets = assets;
    outs.append(&mut assets);
    proof {
        let fin = outs@;
        assert(fin =~= o5 + av);
        assert(o5.subrange(0, f) =~= o3);
        assert forall|i: int| 0 <= i < f implies fin[i] == o3[i] by {
            assert(fin[i] == o5[i]);
            assert(o5.subrange(0, f)[i] == o5[i]);
        }
        assert(h == a + secs.len());
        assert(t == h + 1);
        assert(f == t + 1 + gs.len());
        assert forall|i: int| 0 <= i < a implies is_page_output(#[trigger] fin[i], pages@[i]) by {
            assert(fin[i] == o3[i]);
            assert(o3[i] == cv[i]);
        }
        assert forall|i: int| 0 <= i < secs.len() implies is_section_output(
            #[trigger] fin[a + i],
            secs[i],
        ) by {
            assert(fin[a + i] == o3[a + i]);
            assert(o3[a + i] == sv[i]);
        }
        assert(fin[h] == o3[h]);
        assert(o3[h] == hv);
        assert(fin[t] == o3[t]);
        assert(o3[t] == tv[0]);
        assert forall|i: int| 0 <= i < gs.len() implies is_tag_output(
            #[trigger] fin[t + 1 + i],
            gs[i],
        ) by {
            assert(fin[t + 1 + i] == o3[t + 1 + i]);
            assert(o3[t + 1 + i] == tv[i + 1]);
        }
        if base_root(*config) is Some {
            assert(o4 == o3.push(o4[f]));
            assert(o5 == o4.push(o5[f + 1]));
            assert(fin[f] == o5[f]);
            assert(fin[f + 1] == o5[f + 1]);
            assert(o4 =~= fin.subrange(0, f + 1));
        } else {
            assert(o5 == o3);
        }
        assert(fin.subrange(g, fin.len() as int) =~= av);
        assert(plan_shape(pages@, *config, av, fin, secs, gs));
    }
    match check_collisions(dist, &outs) {
        Ok(()) => Ok(outs),
        Err(e) => Err(e),
    }
}

/// One thing a plan would put in the output folder.
#[derive(Debug, PartialEq, Eq)]
pub enum PlannedOutput<'a> {
    /// A rendered or generated file: its path below the output folder, and
    /// the exact text that will be written.
    File { path: &'a str, contents: &'a str },
    /// An asset copy: its path below the output folder, and the file it is
    /// copied from.
    Copy { path: &'a str, source: &'a PathBuf },
}

/// A complete, fully rendered build, held in memory and bound to the one
/// output folder it was planned against.
#[derive(Debug)]
pub struct BuildPlan {
    output_dir: String,
    /// Input paths the output folder may neither be nor contain.
    protected: Vec<PathBuf>,
    /// Every output, rendered, in the order it is written.
    outputs: Vec<RenderedOutput>,
}

impl BuildPlan {
    /// The output folder, as text.
    pub closed spec fn dir_text(self) -> Seq<char> {
        self.output_dir@
    }

    /// The protected input paths.
    pub closed spec fn protected_paths(self) -> Seq<PathBuf> {
        self.protected@
    }

    /// The rendered outputs.
    pub closed spec fn rendered_outputs(self) -> Seq<RenderedOutput> {
        self.outputs@
    }

    /// The plan of a build with options `opts`, of its rendered outputs: it is
    /// bound to the output folder those options name.
    pub fn new(opts: &BuildOptions, protected: Vec<PathBuf>, outputs: Vec<RenderedOutput>) -> (r:
        BuildPlan)
        ensures
            r.dir_text() == opts.output@,
            r.protected_paths() == protected@,
            r.rendered_outputs() == outputs@,
    {
        BuildPlan { output_dir: String::from_str(opts.output.as_str()), protected, outputs }
    }

    /// The output folder this plan was planned against and the only folder
    /// it can be committed into.
    pub fn output_dir(&self) -> (r: &str)
        ensures
            r@ == self.dir_text(),
    {
        self.output_dir.as_str()
    }

    /// The input paths the output folder may neither be nor contain.
    pub fn protected(&self) -> (r: &Vec<PathBuf>)
        ensures
            r@ == self.protected_paths(),
    {
        &self.protected
    }

    /// Every rendered output, in the order it is written.
    pub fn rendered(&self) -> (r: &Vec<RenderedOutput>)
        ensures
            r@ == self.rendered_outputs(),
    {
        &self.outputs
    }

    /// Every output this plan would produce, in the order it is written:
    /// files first, then asset copies.
    pub fn outputs(&self) -> (r: Vec<PlannedOutput<'_>>)
        ensures
            r@.len() == self.rendered_outputs().len(),
            forall|i: int|
                0 <= i < r@.len() ==> match (#[trigger] self.rendered_outputs()[i]).contents {
                    Contents::Text(t) => r@[i] matches PlannedOutput::File { path, contents }
                        && path@ == self.rendered_outputs()[i].relative@ && contents@ == t@,
                    Contents::Copy(s) => r@[i] matches PlannedOutput::Copy { path, source }
                        && path@ == self.rendered_outputs()[i].relative@ && *source == s,
                },
    {
        let mut r: Vec<PlannedOutput<'_>> = Vec::new();
        let mut i: usize = 0;
        while i < self.outputs.len()
            invariant
                i <= self.outputs@.len(),
                r@.len() == i,
                forall|k: int|
                    0 <= k < i ==> match (#[trigger] self.outputs@[k]).contents {
                        Contents::Text(t) => r@[k] matches PlannedOutput::File { path, contents }
                            && path@ == self.outputs@[k].relative@ && contents@ == t@,
                        Contents::Copy(s) => r@[k] matches PlannedOutput::Copy { path, source }
                            && path@ == self.outputs@[k].relative@ && *source == s,
                    },
            decreases self.outputs@.len() - i,
        {
            let o = &self.outputs[i];
            let p = match &o.contents {
                Contents::Text(t) => PlannedOutput::File {
                    path: o.relative.as_str(),
                    contents: t.as_str(),
                },
                Contents::Copy(s) => PlannedOutput::Copy { path: o.relative.as_str(), source: s },
            };
            r.push(p);
            i += 1;
        }
        r
    }
}

} // verus!

verus! {

/// `/tags/` is always generated: a page at `tags` (a `tags.md` page) or a
/// `tags` folder in the site makes every plan clash, so the build fails.
pub proof fn lemma_tags_is_reserved(
    pages: Seq<Page>,
    c: SiteConfig,
    assets: Seq<Output>,
    outs: Seq<Output>,
    dist: Seq<char>,
    i: int,
)
    requires
        is_plan(pages, c, assets, outs),
        0 <= i < pages.len(),
        pages[i].slug@ == "tags"@ || crate::index::is_ancestor_text("tags"@, pages[i].slug@),
    ensures
        collision_outcome(dist, outs) is Err,
{
    let (secs, groups) = choose|secs: Seq<Section>, groups: Seq<TagGroup>|
        plan_shape(pages, c, assets, outs, secs, groups);
    let a = pages.len() as int;
    let t = a + secs.len() + 1;
    let ss = crate::output::output_segments(outs);
    let tag_index_segs = crate::slug::slug_segments("tags"@).push("index.html"@);
    assert(is_tag_index_output(outs[t], groups));
    assert(ss[t] == tag_index_segs);
    if pages[i].slug@ == "tags"@ {
        assert(is_page_output(outs[i], pages[i]));
        assert(ss[i] == tag_index_segs);
        assert(crate::output::same_file(ss, i, t));
    } else {
        assert(crate::index::is_section_of(pages, "tags"@));
        let ks = crate::index::section_keys(secs);
        assert(ks.contains("tags"@));
        let j = choose|j: int| 0 <= j < ks.len() && ks[j] == "tags"@;
        assert(is_section_output(outs[a + j], secs[j]));
        assert(ss[a + j] == tag_index_segs);
        assert(crate::output::same_file(ss, a + j, t));
    }
}

} // verus!

verus! {

/// Two outputs at the same place: they write the same file, and the sitemap
/// lists them under the same URL and date.
pub open spec fn same_place(x: OutputKind, y: OutputKind) -> bool {
    &&& kind_segments(x) == kind_segments(y)
    &&& html_slug(x) == html_slug(y)
    &&& entry_date(x) == entry_date(y)
}

/// The name of the template an output is rendered with, if any.
pub open spec fn template_name(b: Body) -> Option<Seq<char>> {
    match b {
        Body::Template { name, .. } => Some(name@),
        _ => None,
    }
}

proof fn lemma_same_place_at(
    pages: Seq<Page>,
    c: SiteConfig,
    assets: Seq<Output>,
    o1: Seq<Output>,
    o2: Seq<Output>,
    s1: Seq<Section>,
    g1: Seq<TagGroup>,
    s2: Seq<Section>,
    g2: Seq<TagGroup>,
    i: int,
)
    requires
        plan_shape(pages, c, assets, o1, s1, g1),
        plan_shape(pages, c, assets, o2, s2, g2),
        section_keys(s1) == section_keys(s2),
        group_tags(g1) == group_tags(g2),
        o1.len() == o2.len(),
        0 <= i < o1.len(),
    ensures
        same_place(o1[i].kind, o2[i].kind),
        template_name(o1[i].body) == template_name(o2[i].body),
{
    let a = pages.len() as int;
    let h = a + s1.len();
    let t = h + 1;
    let f = t + 1 + g1.len();
    let g = if base_root(c) is Some {
        f + 2
    } else {
        f
    };
    assert(section_keys(s1).len() == s1.len() && section_keys(s2).len() == s2.len());
    assert(group_tags(g1).len() == g1.len() && group_tags(g2).len() == g2.len());
    if i < a {
        assert(is_page_output(o1[i], pages[i]));
        assert(is_page_output(o2[i], pages[i]));
    } else if i < h {
        let j = i - a;
        assert(is_section_output(o1[a + j], s1[j]));
        assert(is_section_output(o2[a + j], s2[j]));
        assert(section_keys(s1)[j] == s1[j].slug@);
        assert(section_keys(s2)[j] == s2[j].slug@);
    } else if i == h {
    } else if i == t {
    } else if i < f {
        let j = i - t - 1;
        assert(is_tag_output(o1[t + 1 + j], g1[j]));
        assert(is_tag_output(o2[t + 1 + j], g2[j]));
        assert(group_tags(g1)[j] == g1[j].tag@);
        assert(group_tags(g2)[j] == g2[j].tag@);
    } else if i < g {
    } else {
        assert(o1.subrange(g, o1.len() as int).len() == assets.len());
        assert(o1.subrange(g, o1.len() as int)[i - g] == o1[i]);
        assert(o2.subrange(g, o2.len() as int)[i - g] == o2[i]);
    }
}

proof fn lemma_same_text_at(
    pages: Seq<Page>,
    c: SiteConfig,
    assets: Seq<Output>,
    o1: Seq<Output>,
    o2: Seq<Output>,
    s1: Seq<Section>,
    g1: Seq<TagGroup>,
    s2: Seq<Section>,
    g2: Seq<TagGroup>,
    i: int,
)
    requires
        plan_shape(pages, c, assets, o1, s1, g1),
        plan_shape(pages, c, assets, o2, s2, g2),
        s1.len() == s2.len(),
        g1.len() == g2.len(),
        base_root(c) is Some ==> ({
            let e = pages.len() + s1.len() + g1.len() + 3int;
            sitemap_text(base_root(c)->0, o1.subrange(0, e)) == sitemap_text(
                base_root(c)->0,
                o2.subrange(0, e),
            )
        }),
        0 <= i < o1.len() - assets.len(),
    ensures
        o1[i].body matches Body::Text(x) ==> (o2[i].body matches Body::Text(y) && x@ == y@),
{
    let a = pages.len() as int;
    let h = a + s1.len();
    let t = h + 1;
    let f = t + 1 + g1.len();
    if i < a {
        assert(is_page_output(o1[i], pages[i]));
    } else if i < h {
        let j = i - a;
        assert(is_section_output(o1[a + j], s1[j]));
    } else if i == h {
    } else if i == t {
    } else if i < f {
        let j = i - t - 1;
        assert(is_tag_output(o1[t + 1 + j], g1[j]));
    } else if i == f {
        assert(base_root(c) is Some);
        let base = base_root(c)->0;
        assert(o1[f].body matches Body::Text(x) && x@ == feed_text(c, base, pages));
        assert(o2[f].body matches Body::Text(y) && y@ == feed_text(c, base, pages));
    } else {
        assert(base_root(c) is Some);
        assert(i == f + 1);
        let base = base_root(c)->0;
        assert(o1[f + 1].body matches Body::Text(x) && x@ == sitemap_text(base, o1.subrange(0, f + 1)));
        assert(o2[f + 1].body matches Body::Text(y) && y@ == sitemap_text(base, o2.subrange(0, f + 1)));
    }
}

/// Planning is fixed by its inputs: two plans of the same pages, config and
/// asset copies have as many outputs, and at each place in the list the two
/// outputs are the same: the same kind, and the same body (the same template
/// with the same context, the same text, or a copy of the same file). So
/// they write the same file, are listed in the sitemap under the same URL
/// and date, and both plans end with the asset copies as given.
pub proof fn lemma_plan_is_determined(
    pages: Seq<Page>,
    c: SiteConfig,
    assets: Seq<Output>,
    o1: Seq<Output>,
    o2: Seq<Output>,
)
    requires
        is_plan(pages, c, assets, o1),
        is_plan(pages, c, assets, o2),
    ensures
        o1.len() == o2.len(),
        output_segments(o1) == output_segments(o2),
        forall|i: int| 0 <= i < o1.len() ==> same_place((#[trigger] o1[i]).kind, o2[i].kind),
        forall|i: int| 0 <= i < o1.len() ==> template_name((#[trigger] o1[i]).body) == template_name(o2[i].body),
        forall|i: int| 0 <= i < o1.len() - assets.len() ==> ((#[trigger] o1[i]).body matches Body::Text(
            x) ==> (o2[i].body matches Body::Text(y) && x@ == y@)),
        forall|i: int| 0 <= i < o1.len() ==> same_output(#[trigger] o1[i], o2[i]),
        o1.len() >= assets.len(),
        o1.subrange(o1.len() - assets.len(), o1.len() as int) == assets,
        o2.subrange(o2.len() - assets.len(), o2.len() as int) == assets,
{
    let (s1, g1) = choose|secs: Seq<Section>, groups: Seq<TagGroup>|
        plan_shape(pages, c, assets, o1, secs, groups);
    let (s2, g2) = choose|secs: Seq<Section>, groups: Seq<TagGroup>|
        plan_shape(pages, c, assets, o2, secs, groups);
    let k1 = section_keys(s1);
    let k2 = section_keys(s2);
    assert forall|x: Seq<char>| #![trigger k1.contains(x)] #![trigger k2.contains(x)] k1.contains(x)
        <==> k2.contains(x) by {
        assert(k1.contains(x) == is_section_of(pages, x));
        assert(k2.contains(x) == is_section_of(pages, x));
    }
    lemma_sorted_same_members(k1, k2);
    let t1 = group_tags(g1);
    let t2 = group_tags(g2);
    assert forall|x: Seq<char>| #![trigger t1.contains(x)] #![trigger t2.contains(x)] t1.contains(x)
        <==> t2.contains(x) by {
        assert(t1.contains(x) == is_tag_of(pages, x));
        assert(t2.contains(x) == is_tag_of(pages, x));
    }
    lemma_sorted_same_members(t1, t2);
    assert(k1.len() == s1.len() && k2.len() == s2.len());
    assert(t1.len() == g1.len() && t2.len() == g2.len());
    assert(o1.len() == o2.len());
    assert forall|i: int| 0 <= i < o1.len() implies same_place((#[trigger] o1[i]).kind, o2[i].kind)
        && template_name(o1[i].body) == template_name(o2[i].body) by {
        lemma_same_place_at(pages, c, assets, o1, o2, s1, g1, s2, g2, i);
    }
    if base_root(c) is Some {
        let e = pages.len() + s1.len() + g1.len() + 3int;
        let p1 = o1.subrange(0, e);
        let p2 = o2.subrange(0, e);
        assert(same_entry_keys(p1, p2)) by {
            assert forall|j: int| 0 <= j < p1.len() implies entry_key(#[trigger] p1[j]) == entry_key(
                p2[j],
            ) by {
                assert(p1[j] == o1[j] && p2[j] == o2[j]);
                assert(same_place(o1[j].kind, o2[j].kind));
            }
        }
        lemma_sitemap_by_keys(base_root(c)->0, p1, p2);
    }
    assert forall|i: int| 0 <= i < o1.len() - assets.len() implies ((#[trigger] o1[i]).body matches Body::Text(
        x) ==> (o2[i].body matches Body::Text(y) && x@ == y@)) by {
        lemma_same_text_at(pages, c, assets, o1, o2, s1, g1, s2, g2, i);
    }
    let n = o1.len() - assets.len();
    assert forall|i: int| 0 <= i < o1.len() implies same_output(#[trigger] o1[i], o2[i]) by {
        if i >= n {
            assert(o1.subrange(n, o1.len() as int)[i - n] == o1[i]);
            assert(o2.subrange(n, o2.len() as int)[i - n] == o2[i]);
        }
        lemma_same_output_at(pages, c, assets, o1, o2, s1, g1, s2, g2, i);
    }
    assert(output_segments(o1) =~= output_segments(o2));
}

} // verus!

verus! {

/// Two listing summaries show the same title, date, slug and URL.
pub open spec fn same_summary(a: PageSummary, b: PageSummary) -> bool {
    &&& a.title@ == b.title@
    &&& date_view(a.date) == date_view(b.date)
    &&& a.slug@ == b.slug@
    &&& a.url@ == b.url@
}

/// Two lists of summaries show the same, place by place.
pub open spec fn same_summaries(a: Seq<PageSummary>, b: Seq<PageSummary>) -> bool {
    a.len() == b.len() && forall|i: int| 0 <= i < a.len() ==> same_summary(#[trigger] a[i], b[i])
}

/// Two lists of tag links with the same names and URLs.
pub open spec fn same_tag_links(a: Seq<TagLink>, b: Seq<TagLink>) -> bool {
    a.len() == b.len() && forall|i: int|
        0 <= i < a.len() ==> (#[trigger] a[i]).name@ == b[i].name@ && a[i].url@ == b[i].url@
}

/// Two lists of section links with the same slugs and URLs.
pub open spec fn same_section_links(a: Seq<SectionLink>, b: Seq<SectionLink>) -> bool {
    a.len() == b.len() && forall|i: int|
        0 <= i < a.len() ==> (#[trigger] a[i]).slug@ == b[i].slug@ && a[i].url@ == b[i].url@
}

/// Two lists of home sections with the same slugs, URLs and page counts.
pub open spec fn same_home_sections(a: Seq<HomeSection>, b: Seq<HomeSection>) -> bool {
    a.len() == b.len() && forall|i: int|
        0 <= i < a.len() ==> (#[trigger] a[i]).slug@ == b[i].slug@ && a[i].url@ == b[i].url@
            && a[i].page_count == b[i].page_count
}

/// Two tag index listings with the same names, URLs and page counts.
pub open spec fn same_tag_entries(a: Seq<TagIndexEntry>, b: Seq<TagIndexEntry>) -> bool {
    a.len() == b.len() && forall|i: int|
        0 <= i < a.len() ==> (#[trigger] a[i]).name@ == b[i].name@ && a[i].url@ == b[i].url@
            && a[i].page_count == b[i].page_count
}

/// Two template contexts that give a template the same values.
pub open spec fn same_context(x: TemplateContext, y: TemplateContext) -> bool {
    match x {
        TemplateContext::Page(a) => y matches TemplateContext::Page(b) && a.title@ == b.title@
            && a.author@ == b.author@ && a.description@ == b.description@ && a.date == b.date
            && same_tag_links(a.tags@, b.tags@) && a.url@ == b.url@ && a.content@ == b.content@,
        TemplateContext::Section(a) => y matches TemplateContext::Section(b) && a.slug@ == b.slug@
            && a.url@ == b.url@ && same_summaries(a.pages@, b.pages@) && same_section_links(
            a.subsections@,
            b.subsections@,
        ),
        TemplateContext::Home(a) => y matches TemplateContext::Home(b) && same_summaries(
            a.recent@,
            b.recent@,
        ) && same_home_sections(a.sections@, b.sections@),
        TemplateContext::TagIndex(a) => y matches TemplateContext::TagIndex(b) && same_tag_entries(
            a@,
            b@,
        ),
        TemplateContext::Tag(a) => y matches TemplateContext::Tag(b) && a.name@ == b.name@ && a.url@
            == b.url@ && same_summaries(a.pages@, b.pages@),
    }
}

/// Two output kinds for the same thing.
pub open spec fn same_kind(x: OutputKind, y: OutputKind) -> bool {
    match x {
        OutputKind::Page { slug, date } => y matches OutputKind::Page { slug: s, date: d } && slug@
            == s@ && date == d,
        OutputKind::Section(slug) => y matches OutputKind::Section(s) && slug@ == s@,
        OutputKind::Home => y is Home,
        OutputKind::TagIndex => y is TagIndex,
        OutputKind::Tag(t) => y matches OutputKind::Tag(u) && t@ == u@,
        OutputKind::Feed => y is Feed,
        OutputKind::Sitemap => y is Sitemap,
        OutputKind::Asset { folder, rel } => y matches OutputKind::Asset { folder: f, rel: r }
            && folder@ == f@ && rel.deep_view() == r.deep_view(),
    }
}

/// Two bodies that produce the same bytes: the same template with the same
/// context, the same text, or a copy of the same file.
pub open spec fn same_body(x: Body, y: Body) -> bool {
    match x {
        Body::Template { name, context } => y matches Body::Template { name: n, context: c }
            && name@ == n@ && same_context(context, c),
        Body::Text(t) => y matches Body::Text(u) && t@ == u@,
        Body::Copy(p) => y matches Body::Copy(q) && p == q,
    }
}

/// Two outputs of the same kind with the same body.
pub open spec fn same_output(a: Output, b: Output) -> bool {
    same_kind(a.kind, b.kind) && same_body(a.body, b.body)
}

proof fn lemma_summaries_agree(a: Seq<PageSummary>, b: Seq<PageSummary>, p: Seq<Page>)
    requires
        summarize_all(a, p),
        summarize_all(b, p),
    ensures
        same_summaries(a, b),
{
    assert forall|i: int| 0 <= i < a.len() implies same_summary(#[trigger] a[i], b[i]) by {
        assert(summarizes(a[i], p[i]) && summarizes(b[i], p[i]));
    }
}

/// The sections directly under the root of two indexes with the same slugs
/// and page counts have the same slugs and page counts.
proof fn lemma_top_sections_agree(s1: Seq<Section>, s2: Seq<Section>)
    requires
        s1.len() == s2.len(),
        forall|i: int| 0 <= i < s1.len() ==> (#[trigger] s1[i]).slug@ == s2[i].slug@ && s1[i].pages@.len()
            == s2[i].pages@.len(),
    ensures
        top_sections(s1).len() == top_sections(s2).len(),
        forall|i: int| 0 <= i < top_sections(s1).len() ==> (#[trigger] top_sections(s1)[i]).slug@
            == top_sections(s2)[i].slug@ && top_sections(s1)[i].pages@.len() == top_sections(s2)[i].pages@.len(),
    decreases s1.len(),
{
    if s1.len() > 0 {
        let d1 = s1.drop_last();
        let d2 = s2.drop_last();
        assert forall|i: int| 0 <= i < d1.len() implies (#[trigger] d1[i]).slug@ == d2[i].slug@ && d1[i].pages@.len()
            == d2[i].pages@.len() by {
            assert(d1[i] == s1[i] && d2[i] == s2[i]);
        }
        lemma_top_sections_agree(d1, d2);
        assert(s1.last() == s1[s1.len() - 1] && s2.last() == s2[s2.len() - 1]);
        let t1 = top_sections(d1);
        let t2 = top_sections(d2);
        if !has_char(s1.last().slug@, '/') {
            assert forall|i: int| 0 <= i < t1.push(s1.last()).len() implies (#[trigger] t1.push(s1.last())[i]).slug@
                == t2.push(s2.last())[i].slug@ && t1.push(s1.last())[i].pages@.len() == t2.push(
                s2.last(),
            )[i].pages@.len() by {
                if i < t1.len() {
                    assert(t1.push(s1.last())[i] == t1[i] && t2.push(s2.last())[i] == t2[i]);
                }
            }
        }
    }
}

} // verus!

verus! {

proof fn lemma_same_output_at(
    pages: Seq<Page>,
    c: SiteConfig,
    assets: Seq<Output>,
    o1: Seq<Output>,
    o2: Seq<Output>,
    s1: Seq<Section>,
    g1: Seq<TagGroup>,
    s2: Seq<Section>,
    g2: Seq<TagGroup>,
    i: int,
)
    requires
        plan_shape(pages, c, assets, o1, s1, g1),
        plan_shape(pages, c, assets, o2, s2, g2),
        section_keys(s1) == section_keys(s2),
        group_tags(g1) == group_tags(g2),
        o1.len() == o2.len(),
        0 <= i < o1.len(),
        o1[i].body matches Body::Text(x) ==> (o2[i].body matches Body::Text(y) && x@ == y@),
    ensures
        same_output(o1[i], o2[i]),
{
    let a = pages.len() as int;
    let h = a + s1.len();
    let t = h + 1;
    let f = t + 1 + g1.len();
    let g = if base_root(c) is Some {
        f + 2
    } else {
        f
    };
    let k1 = section_keys(s1);
    let k2 = section_keys(s2);
    assert(k1.len() == s1.len() && k2.len() == s2.len());
    assert(group_tags(g1).len() == g1.len() && group_tags(g2).len() == g2.len());
    if i < a {
        let p = pages[i];
        assert(is_page_output(o1[i], p));
        assert(is_page_output(o2[i], p));
        if let (Body::Template { context: TemplateContext::Page(x), .. }, Body::Template {
            context: TemplateContext::Page(y),
            ..
        }) = (o1[i].body, o2[i].body) {
            assert(page_template_of(x, p) && page_template_of(y, p));
            assert forall|m: int| 0 <= m < x.tags@.len() implies (#[trigger] x.tags@[m]).name@
                == y.tags@[m].name@ && x.tags@[m].url@ == y.tags@[m].url@ by {
                assert(x.tags@[m].name@ == p.tags@[m]@);
                assert(y.tags@[m].name@ == p.tags@[m]@);
            }
        }
    } else if i < h {
        let j = i - a;
        assert(is_section_output(o1[a + j], s1[j]));
        assert(is_section_output(o2[a + j], s2[j]));
        assert(k1[j] == s1[j].slug@ && k2[j] == s2[j].slug@);
        lemma_summaries_agree(s1[j].pages@, s2[j].pages@, rank_sort(pages_in(pages, k1[j])));
        if let (Body::Template { context: TemplateContext::Section(x), .. }, Body::Template {
            context: TemplateContext::Section(y),
            ..
        }) = (o1[i].body, o2[i].body) {
            assert(section_links_of(x.subsections@, s1[j].subsections@));
            assert(section_links_of(y.subsections@, s2[j].subsections@));
            let c1 = slug_texts(s1[j].subsections@);
            let c2 = slug_texts(s2[j].subsections@);
            assert(c1 == children_of(k1, k1[j]) && c2 == children_of(k2, k2[j]));
            assert(c1 == c2);
            assert(c1.len() == s1[j].subsections@.len() && c2.len() == s2[j].subsections@.len());
            assert forall|m: int| 0 <= m < x.subsections@.len() implies (#[trigger] x.subsections@[m]).slug@
                == y.subsections@[m].slug@ && x.subsections@[m].url@ == y.subsections@[m].url@ by {
                assert(c1[m] == s1[j].subsections@[m]@);
                assert(c2[m] == s2[j].subsections@[m]@);
            }
        }
    } else if i == h {
        assert forall|m: int| 0 <= m < s1.len() implies (#[trigger] s1[m]).slug@ == s2[m].slug@
            && s1[m].pages@.len() == s2[m].pages@.len() by {
            assert(k1[m] == s1[m].slug@ && k2[m] == s2[m].slug@);
            assert(summarize_all(s1[m].pages@, rank_sort(pages_in(pages, k1[m]))));
            assert(summarize_all(s2[m].pages@, rank_sort(pages_in(pages, k2[m]))));
        }
        lemma_top_sections_agree(s1, s2);
        if let (Body::Template { context: TemplateContext::Home(x), .. }, Body::Template {
            context: TemplateContext::Home(y),
            ..
        }) = (o1[i].body, o2[i].body) {
            lemma_summaries_agree(x.recent@, y.recent@, recent_pages(pages, c.recent_count as nat));
            let u1 = top_sections(s1);
            let u2 = top_sections(s2);
            assert(home_sections_of(x.sections@, u1) && home_sections_of(y.sections@, u2));
            assert forall|m: int| 0 <= m < x.sections@.len() implies (#[trigger] x.sections@[m]).slug@
                == y.sections@[m].slug@ && x.sections@[m].url@ == y.sections@[m].url@
                && x.sections@[m].page_count == y.sections@[m].page_count by {
                assert(u1[m].slug@ == u2[m].slug@);
            }
        }
    } else if i == t {
        assert forall|m: int| 0 <= m < g1.len() implies (#[trigger] g1[m]).tag@ == g2[m].tag@
            && g1[m].pages@.len() == g2[m].pages@.len() by {
            assert(group_tags(g1)[m] == g1[m].tag@ && group_tags(g2)[m] == g2[m].tag@);
            assert(summarize_all(g1[m].pages@, rank_sort(pages_tagged(pages, group_tags(g1)[m]))));
            assert(summarize_all(g2[m].pages@, rank_sort(pages_tagged(pages, group_tags(g2)[m]))));
        }
        if let (Body::Template { context: TemplateContext::TagIndex(x), .. }, Body::Template {
            context: TemplateContext::TagIndex(y),
            ..
        }) = (o1[i].body, o2[i].body) {
            assert(tag_entries_of(x@, g1) && tag_entries_of(y@, g2));
            assert forall|m: int| 0 <= m < x@.len() implies (#[trigger] x@[m]).name@ == y@[m].name@
                && x@[m].url@ == y@[m].url@ && x@[m].page_count == y@[m].page_count by {
                assert(g1[m].tag@ == g2[m].tag@);
            }
        }
    } else if i < f {
        let j = i - t - 1;
        assert(is_tag_output(o1[t + 1 + j], g1[j]));
        assert(is_tag_output(o2[t + 1 + j], g2[j]));
        assert(group_tags(g1)[j] == g1[j].tag@ && group_tags(g2)[j] == g2[j].tag@);
        lemma_summaries_agree(g1[j].pages@, g2[j].pages@, rank_sort(pages_tagged(pages, g1[j].tag@)));
    } else if i < g {
    } else {
        assert(o1.subrange(g, o1.len() as int)[i - g] == o1[i]);
        assert(o2.subrange(g, o2.len() as int)[i - g] == o2[i]);
        let o = o1[i];
        if let Body::Template { context, .. } = o.body {
            match context {
                TemplateContext::Page(x) => {
                    assert(same_tag_links(x.tags@, x.tags@));
                },
                TemplateContext::Section(x) => {
                    assert(same_summaries(x.pages@, x.pages@));
                    assert(same_section_links(x.subsections@, x.subsections@));
                },
                TemplateContext::Home(x) => {
                    assert(same_summaries(x.recent@, x.recent@));
                    assert(same_home_sections(x.sections@, x.sections@));
                },
                TemplateContext::TagIndex(x) => {
                    assert(same_tag_entries(x@, x@));
                },
                TemplateContext::Tag(x) => {
                    assert(same_summaries(x.pages@, x.pages@));
                },
            }
        }
    }
}

} // verus!
