//! The check that keeps a build or `mango clean` from deleting what it must
//! not: the current folder and the inputs.

use vstd::prelude::*;
use vstd::string::StringExecFns;
use crate::error::MangoError;

verus! {

/// What resolving a path to its canonical form gave.
pub enum Canonical {
    /// The canonical path, as its components.
    Found(Vec<String>),
    /// Nothing exists at the path.
    Missing,
    /// Resolving failed otherwise: the I/O error's message.
    Failed(String),
}

/// An input path the output folder may neither be nor contain: its text,
/// and its canonical components when it resolves.
pub struct Protected {
    pub path: String,
    pub canonical: Option<Vec<String>>,
}

/// `base` is `path` or one of its ancestors: its components come first.
pub open spec fn within(path: Seq<Seq<char>>, base: Seq<Seq<char>>) -> bool {
    base.is_prefix_of(path)
}

/// The first protected path, from `from` on, that resolves inside the target.
pub open spec fn first_inside(ps: Seq<Protected>, target: Seq<Seq<char>>, from: int) -> int
    decreases ps.len() - from,
{
    if from >= ps.len() || from < 0 {
        -1
    } else if ps[from].canonical matches Some(c) && within(c.deep_view(), target) {
        from
    } else {
        first_inside(ps, target, from + 1)
    }
}

/// Protected path `i` resolves to the target or to something inside it.
pub open spec fn resolves_inside(ps: Seq<Protected>, i: int, target: Seq<Seq<char>>) -> bool {
    ps[i].canonical matches Some(c) && target.is_prefix_of(c.deep_view())
}

/// The search for a protected path inside the target finds the first one:
/// it finds one exactly when some protected path, at any position, resolves
/// to the target or inside it, and then the one it finds does and none
/// before it does.
pub proof fn lemma_first_inside_finds_first(ps: Seq<Protected>, target: Seq<Seq<char>>, from: int)
    requires
        0 <= from <= ps.len(),
    ensures
        first_inside(ps, target, from) >= 0 <==> exists|i: int|
            from <= i < ps.len() && #[trigger] resolves_inside(ps, i, target),
        first_inside(ps, target, from) >= 0 ==> {
            let k = first_inside(ps, target, from);
            &&& from <= k < ps.len()
            &&& resolves_inside(ps, k, target)
            &&& forall|i: int| from <= i < k ==> !#[trigger] resolves_inside(ps, i, target)
        },
    decreases ps.len() - from,
{
    if from < ps.len() {
        lemma_first_inside_finds_first(ps, target, from + 1);
        if !resolves_inside(ps, from, target) {
            assert forall|i: int| from <= i < ps.len() && #[trigger] resolves_inside(ps, i, target) implies from
                + 1 <= i by {}
        }
    }
}

/// Whether the components `base` come first in `path`.
fn starts_with(path: &Vec<String>, base: &Vec<String>) -> (r: bool)
    ensures
        r == within(path.deep_view(), base.deep_view()),
{
    if base.len() > path.len() {
        return false;
    }
    let mut i: usize = 0;
    while i < base.len()
        invariant
            i <= base@.len() <= path@.len(),
            forall|k: int| 0 <= k < i ==> path.deep_view()[k] == base.deep_view()[k],
        decreases base@.len() - i,
    {
        assert(path.deep_view()[i as int] == path@[i as int]@);
        assert(base.deep_view()[i as int] == base@[i as int]@);
        if path[i] != base[i] {
            return false;
        }
        i += 1;
    }
    proof {
        assert(path.deep_view().subrange(0, base@.len() as int) =~= base.deep_view());
    }
    true
}

/// Refuses to clean `target` if it is the current folder or one of its
/// ancestors, or if it is or contains an existing protected path. Paths are
/// compared by their canonical components. A missing target is safe: there
/// is nothing to delete. A protected path that does not resolve is skipped.
pub fn ensure_safe_to_clean(
    target: &str,
    target_canon: Canonical,
    cwd: &str,
    cwd_canon: Result<Vec<String>, String>,
    protected: &Vec<Protected>,
) -> (r: Result<(), MangoError>)
    ensures
        match target_canon {
            Canonical::Missing => r is Ok,
            Canonical::Failed(e) => r matches Err(MangoError::IoPath { path, message }) && path@
                == target@ && message@ == e@,
            Canonical::Found(t) => match cwd_canon {
                Ok(c) => if within(c.deep_view(), t.deep_view()) {
                    r matches Err(MangoError::General(m)) && m@ == "refusing to clean output path '"@
                        + target@ + "': it is or contains the current directory '"@ + cwd@ + "'"@
                } else if first_inside(protected@, t.deep_view(), 0) >= 0 {
                    r matches Err(MangoError::General(m)) && m@ == "refusing to clean output path '"@
                        + target@ + "': it is or contains the input path '"@
                        + protected@[first_inside(protected@, t.deep_view(), 0)].path@ + "'"@
                } else {
                    r is Ok
                },
                Err(e) => r matches Err(MangoError::IoPath { path, message }) && path@ == cwd@
                    && message@ == e@,
            },
        },
        target_canon matches Canonical::Found(t) && (exists|i: int|
            0 <= i < protected@.len() && #[trigger] resolves_inside(protected@, i, t.deep_view()))
            ==> r is Err,
        target_canon matches Canonical::Found(t) && cwd_canon matches Ok(c) && t.deep_view().is_prefix_of(
            c.deep_view(),
        ) ==> r is Err,
        r is Ok ==> target_canon is Missing || (target_canon matches Canonical::Found(t)
            && cwd_canon matches Ok(c) && !t.deep_view().is_prefix_of(c.deep_view()) && forall|i: int|
            0 <= i < protected@.len() ==> !#[trigger] resolves_inside(protected@, i, t.deep_view())),
{
    let t = match target_canon {
        Canonical::Missing => return Ok(()),
        Canonical::Failed(e) => return Err(MangoError::io_at(target, e.as_str())),
        Canonical::Found(t) => t,
    };
    let c = match cwd_canon {
        Ok(c) => c,
        Err(e) => return Err(MangoError::io_at(cwd, e.as_str())),
    };
    proof {
        lemma_first_inside_finds_first(protected@, t.deep_view(), 0);
    }
    if starts_with(&c, &t) {
        let m = String::from_str("refusing to clean output path '").concat(target).concat(
            "': it is or contains the current directory '",
        ).concat(cwd).concat("'");
        return Err(MangoError::General(m));
    }
    let mut i: usize = 0;
    while i < protected.len()
        invariant
            i <= protected@.len(),
            target_canon == Canonical::Found(t),
            cwd_canon == Ok::<Vec<String>, String>(c),
            !within(c.deep_view(), t.deep_view()),
            first_inside(protected@, t.deep_view(), 0) == first_inside(
                protected@,
                t.deep_view(),
                i as int,
            ),
        decreases protected@.len() - i,
    {
        let inside = match &protected[i].canonical {
            Some(p) => starts_with(p, &t),
            None => false,
        };
        proof {
            if inside {
                assert(first_inside(protected@, t.deep_view(), i as int) == i);
            } else {
                assert(first_inside(protected@, t.deep_view(), i as int) == first_inside(
                    protected@,
                    t.deep_view(),
                    i + 1,
                ));
            }
        }
        if inside {
            let m = String::from_str("refusing to clean output path '").concat(target).concat(
                "': it is or contains the input path '",
            ).concat(protected[i].path.as_str()).concat("'");
            return Err(MangoError::General(m));
        }
        i += 1;
    }
    Ok(())
}

} // verus!
