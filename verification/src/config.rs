//! The site config (`mango.json`): defaults, checks and `base_url`.

use vstd::prelude::*;
use vstd::string::{StrSliceExecFns, StringExecFns};
use crate::error::MangoError;
use crate::text::chars_of;

verus! {

/// Config file used when `--config` is not given, relative to the current
/// folder.
pub const DEFAULT_CONFIG_PATH: &'static str = "mango.json";

/// How many dated pages the home page and the feed list by default.
pub const DEFAULT_RECENT_COUNT: usize = 10;

/// Site-wide metadata given to every template as `config`.
#[derive(Debug, PartialEq)]
pub struct SiteConfig {
    pub title: Option<String>,
    pub author: Option<String>,
    pub description: Option<String>,
    pub base_url: Option<String>,
    pub recent_count: usize,
}

/// The defaults: nothing set, ten recent pages.
pub open spec fn is_default_config(c: SiteConfig) -> bool {
    &&& c.title is None
    &&& c.author is None
    &&& c.description is None
    &&& c.base_url is None
    &&& c.recent_count == 10
}

impl Default for SiteConfig {
    fn default() -> (r: SiteConfig)
        ensures
            is_default_config(r),
    {
        SiteConfig {
            title: None,
            author: None,
            description: None,
            base_url: None,
            recent_count: DEFAULT_RECENT_COUNT,
        }
    }
}

/// `s` without its trailing `/` characters.
pub open spec fn trim_end_slashes(s: Seq<char>) -> Seq<char>
    decreases s.len(),
{
    if s.len() > 0 && s.last() == '/' {
        trim_end_slashes(s.drop_last())
    } else {
        s
    }
}

/// `base_url` without trailing `/`, or `None` when unset.
pub open spec fn base_root(c: SiteConfig) -> Option<Seq<char>> {
    match c.base_url {
        None => None,
        Some(u) => Some(trim_end_slashes(u@)),
    }
}

/// `base_url` with trailing `/` characters removed, for joining with
/// root-relative URLs (`/x/`) in generated absolute links. `None` when unset.
pub fn base_url_root(config: &SiteConfig) -> (r: Option<&str>)
    ensures
        match base_root(*config) {
            None => r is None,
            Some(t) => r matches Some(x) && x@ == t,
        },
{
    match &config.base_url {
        None => None,
        Some(url) => {
            let cs = chars_of(url.as_str());
            let mut n: usize = cs.len();
            proof {
                assert(cs@.subrange(0, n as int) =~= cs@);
            }
            while n > 0 && cs[n - 1] == '/'
                invariant
                    n <= cs@.len(),
                    cs@ == url@,
                    trim_end_slashes(cs@.subrange(0, n as int)) == trim_end_slashes(url@),
                decreases n,
            {
                proof {
                    assert(cs@.subrange(0, n as int).drop_last() =~= cs@.subrange(0, n - 1));
                }
                n -= 1;
            }
            Some(url.as_str().substring_char(0, n))
        },
    }
}

/// Trailing slashes on `base_url` make no difference to its root.
pub proof fn lemma_trailing_slash_ignored(u: Seq<char>)
    ensures
        trim_end_slashes(u.push('/')) == trim_end_slashes(u),
{
    assert(u.push('/').drop_last() =~= u);
}

/// A root has no trailing slash, and trimming it again changes nothing.
pub proof fn lemma_root_is_trimmed(u: Seq<char>)
    ensures
        trim_end_slashes(u).len() == 0 || trim_end_slashes(u).last() != '/',
        trim_end_slashes(trim_end_slashes(u)) == trim_end_slashes(u),
    decreases u.len(),
{
    if u.len() > 0 && u.last() == '/' {
        lemma_root_is_trimmed(u.drop_last());
    }
}

/// What reading the config file gave.
pub enum ConfigRead {
    /// The file does not exist.
    Missing,
    /// Reading it failed otherwise: the I/O error's message.
    Failed(String),
    /// Its JSON, with unknown fields refused, gave this config.
    Parsed(SiteConfig),
    /// Its JSON did not give a config: the parser's message.
    Malformed(String),
}

/// `u` starts with `http://` or `https://`.
pub open spec fn is_http_url(u: Seq<char>) -> bool {
    "http://"@.is_prefix_of(u) || "https://"@.is_prefix_of(u)
}

/// Whether `u` starts with `p`.
fn starts_with(u: &str, p: &str) -> (r: bool)
    ensures
        r == p@.is_prefix_of(u@),
{
    let a = chars_of(u);
    let b = chars_of(p);
    if b.len() > a.len() {
        return false;
    }
    let mut i: usize = 0;
    while i < b.len()
        invariant
            i <= b@.len() <= a@.len(),
            a@ == u@,
            b@ == p@,
            forall|k: int| 0 <= k < i ==> a@[k] == b@[k],
        decreases b@.len() - i,
    {
        if a[i] != b[i] {
            proof {
                assert(a@.subrange(0, b@.len() as int)[i as int] != b@[i as int]);
            }
            return false;
        }
        i += 1;
    }
    proof {
        assert(a@.subrange(0, b@.len() as int) =~= b@);
    }
    true
}

/// The config for `path` given what reading it gave. A missing file is fine
/// unless the path was given explicitly; an unreadable file, malformed JSON
/// or a `base_url` that is not `http://` or `https://` is an error naming
/// the file.
pub fn load(path: &str, explicit: bool, read: ConfigRead) -> (r: Result<SiteConfig, MangoError>)
    ensures
        match read {
            ConfigRead::Missing => if explicit {
                r matches Err(MangoError::Config(m)) && m@ == "config file '"@ + path@
                    + "' does not exist"@
            } else {
                r matches Ok(c) && is_default_config(c)
            },
            ConfigRead::Failed(e) => r matches Err(MangoError::IoPath { path: p, message: m })
                && p@ == path@ && m@ == e@,
            ConfigRead::Malformed(e) => r matches Err(MangoError::Config(m)) && m@ == "'"@ + path@
                + "': "@ + e@,
            ConfigRead::Parsed(c) => match c.base_url {
                Some(u) if !is_http_url(u@) => r matches Err(MangoError::Config(m)) && m@ == "'"@
                    + path@ + "': invalid base_url '"@ + u@
                    + "': must start with http:// or https://"@,
                _ => r == Ok::<SiteConfig, MangoError>(c),
            },
        },
{
    match read {
        ConfigRead::Missing => {
            if explicit {
                Err(
                    MangoError::Config(
                        String::from_str("config file '").concat(path).concat("' does not exist"),
                    ),
                )
            } else {
                Ok(SiteConfig::default())
            }
        },
        ConfigRead::Failed(e) => Err(MangoError::io_at(path, e.as_str())),
        ConfigRead::Malformed(e) => Err(
            MangoError::Config(String::from_str("'").concat(path).concat("': ").concat(e.as_str())),
        ),
        ConfigRead::Parsed(c) => {
            let bad = match &c.base_url {
                Some(u) => !(starts_with(u.as_str(), "http://") || starts_with(
                    u.as_str(),
                    "https://",
                )),
                None => false,
            };
            if bad {
                let u = c.base_url.as_ref().unwrap();
                let m = String::from_str("'").concat(path).concat("': invalid base_url '").concat(
                    u.as_str(),
                ).concat("': must start with http:// or https://");
                return Err(MangoError::Config(m));
            }
            Ok(c)
        },
    }
}

} // verus!
