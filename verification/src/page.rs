//! A page: its checked frontmatter, where it lives, and its markdown.

use vstd::prelude::*;
use crate::date::{parse_date, shaped_day, shaped_month, shaped_year, valid_date_text, date_message, Date};
use crate::error::MangoError;
use crate::relative::site_relative_text;
use crate::slug::{content_slug_text, slug_message, valid_slug_text, Slug};
use crate::tag::{dedup, first_invalid_tag, tag_message, valid_tag, Tag};

verus! {

/// The fields of a frontmatter block, as the typed JSON parse gives them.
pub struct MangoFrontmatter {
    pub title: String,
    pub author: String,
    pub description: String,
    pub date: Option<String>,
    pub tags: Option<Vec<String>>,
    pub draft: bool,
}

/// What kind of page a file is.
#[derive(Debug, PartialEq, Eq)]
pub enum PageType {
    General,
}

/// A loaded page.
#[derive(Debug)]
pub struct Page {
    pub title: String,
    pub author: String,
    pub description: String,
    pub date: Option<Date>,
    pub slug: Slug,
    pub tags: Vec<Tag>,
    pub content: String,
    pub draft: bool,
    pub kind: PageType,
}

/// The frontmatter's date is absent or valid.
pub open spec fn fm_date_ok(fm: MangoFrontmatter) -> bool {
    match fm.date {
        None => true,
        Some(d) => valid_date_text(d@),
    }
}

/// The frontmatter's tag values, none when the key is absent.
pub open spec fn fm_tag_values(fm: MangoFrontmatter) -> Seq<Seq<char>> {
    match fm.tags {
        None => Seq::empty(),
        Some(v) => v.deep_view(),
    }
}

/// Every tag value is a valid tag.
pub open spec fn all_valid_tags(vs: Seq<Seq<char>>) -> bool {
    forall|i: int| 0 <= i < vs.len() ==> valid_tag(#[trigger] vs[i])
}

/// `date` is the parse of the frontmatter's date text.
pub open spec fn date_from(date: Option<Date>, text: Option<String>) -> bool {
    match text {
        None => date is None,
        Some(t) => date matches Some(d) && d@ == (shaped_year(t@), shaped_month(t@), shaped_day(t@)),
    }
}

/// `r` is the page built from frontmatter `fm`, markdown `content` and the
/// file `path` under `site`, or the first problem with them: the date, then
/// the tags, then the file name. Frontmatter errors carry `prefix` in front.
pub open spec fn page_result(
    fm: MangoFrontmatter,
    content: Seq<char>,
    kind: PageType,
    path: Seq<char>,
    site: Seq<char>,
    prefix: Seq<char>,
    r: Result<Page, MangoError>,
) -> bool {
    &&& !fm_date_ok(fm) ==> (r matches Err(MangoError::Frontmatter(m)) && m@ == prefix
        + date_message(fm.date->0@))
    &&& fm_date_ok(fm) && !all_valid_tags(fm_tag_values(fm)) ==> (r matches Err(
        MangoError::Frontmatter(m),
    ) && m@ == prefix + tag_message(fm_tag_values(fm)[first_invalid_tag(fm_tag_values(fm))]))
    &&& fm_date_ok(fm) && all_valid_tags(fm_tag_values(fm)) ==> match site_relative_text(
        path,
        site,
    ) {
        None => r matches Err(MangoError::General(m)) && m@ == "unable to generate slug from path"@,
        Some(rel) => {
            let t = content_slug_text(rel);
            &&& !valid_slug_text(t) ==> (r matches Err(MangoError::General(m)) && m@
                == slug_message(path, t))
            &&& valid_slug_text(t) ==> (r matches Ok(p) && p.title@ == fm.title@ && p.author@
                == fm.author@ && p.description@ == fm.description@ && date_from(p.date, fm.date)
                && p.slug@ == t && p.tags.deep_view() == dedup(fm_tag_values(fm)) && p.content@
                == content && p.draft == fm.draft && p.kind == kind)
        },
    }
}

impl Page {
    /// Builds a page from its frontmatter, markdown and file path. The date
    /// is checked first, then the tags, then the file name (the slug); the
    /// first problem is the error.
    pub fn new(fm: MangoFrontmatter, content: String, kind: PageType, path: &str, site: &str) -> (r:
        Result<Page, MangoError>)
        ensures
            page_result(fm, content@, kind, path@, site@, Seq::empty(), r),
    {
        let date = match &fm.date {
            None => None,
            Some(d) => match parse_date(d.as_str()) {
                Ok(d) => Some(d),
                Err(e) => {
                    proof {
                        assert(Seq::<char>::empty() + date_message(d@) =~= date_message(d@));
                    }
                    return Err(e);
                },
            },
        };
        let tags = match fm.tags {
            None => {
                let v: Vec<Tag> = Vec::new();
                proof {
                    assert(v.deep_view() =~= dedup(Seq::<Seq<char>>::empty()));
                }
                v
            },
            Some(values) => {
                proof {
                    assert(all_valid_tags(values.deep_view()) == (forall|i: int|
                        0 <= i < values@.len() ==> valid_tag(#[trigger] values@[i]@))) by {
                        assert forall|i: int| 0 <= i < values@.len() implies values.deep_view()[i]
                            == #[trigger] values@[i]@ by {}
                    }
                }
                match Tag::parse_list(values) {
                    Ok(t) => t,
                    Err(e) => {
                        proof {
                            let vs = fm_tag_values(fm);
                            assert(Seq::<char>::empty() + tag_message(vs[first_invalid_tag(vs)])
                                =~= tag_message(vs[first_invalid_tag(vs)]));
                        }
                        return Err(e);
                    },
                }
            },
        };
        let slug = match Slug::from_content_path(path, site) {
            Ok(s) => s,
            Err(e) => return Err(e),
        };
        Ok(
            Page {
                title: fm.title,
                author: fm.author,
                description: fm.description,
                date,
                slug,
                tags,
                content,
                draft: fm.draft,
                kind,
            },
        )
    }
}

/// `q` is `p` with only the slug possibly changed.
pub open spec fn same_but_slug(q: Page, p: Page) -> bool {
    &&& q.title == p.title
    &&& q.author == p.author
    &&& q.description == p.description
    &&& q.date == p.date
    &&& q.tags == p.tags
    &&& q.content == p.content
    &&& q.draft == p.draft
    &&& q.kind == p.kind
}

impl Page {
    /// Sets the slug from the page's file `path` below `site`, checked like
    /// any content file name. On an error the page is unchanged.
    pub fn generate_slug(&mut self, path: &str, site: &str) -> (r: Result<(), MangoError>)
        ensures
            same_but_slug(*final(self), *old(self)),
            match site_relative_text(path@, site@) {
                None => r matches Err(MangoError::General(m)) && m@
                    == "unable to generate slug from path"@ && final(self).slug == old(self).slug,
                Some(rel) => {
                    let t = content_slug_text(rel);
                    &&& valid_slug_text(t) ==> (r is Ok && final(self).slug@ == t)
                    &&& !valid_slug_text(t) ==> (r matches Err(MangoError::General(m)) && m@
                        == slug_message(path@, t) && final(self).slug == old(self).slug)
                },
            },
    {
        match Slug::from_content_path(path, site) {
            Ok(s) => {
                self.slug = s;
                Ok(())
            },
            Err(e) => Err(e),
        }
    }
}

} // verus!
