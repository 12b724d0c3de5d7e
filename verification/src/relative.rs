//! The part of a path below a folder, found component by component as
//! `Path::strip_prefix` finds it: repeated `/` and `.` components do not
//! count, a leading `.` and a leading `/` do.

use vstd::prelude::*;
use crate::text::{chars_eq, chars_of, join, join_pieces, lemma_split_len, split_chars, split_on, views};

verus! {

/// A piece between two `/` that names a component past the first one:
/// neither empty nor `.`.
pub open spec fn real_piece(p: Seq<char>) -> bool {
    p.len() > 0 && p != seq!['.']
}

/// Whether piece `i` of a path split at `/` is one of its components. The
/// first piece is one unless the path is empty: a name, a leading `.`, or
/// (when it is empty) the root.
pub open spec fn is_component(pp: Seq<Seq<char>>, i: int) -> bool {
    if i == 0 {
        pp[0].len() > 0 || pp.len() > 1
    } else {
        real_piece(pp[i])
    }
}

/// The text of the component at piece `i`: `/` for the root.
pub open spec fn component_text(pp: Seq<Seq<char>>, i: int) -> Seq<char> {
    if i == 0 && pp[0].len() == 0 {
        seq!['/']
    } else {
        pp[i]
    }
}

/// The indices of the pieces `pp[..n]` that are components, in order.
pub open spec fn component_indices(pp: Seq<Seq<char>>, n: int) -> Seq<int>
    decreases n,
{
    if n <= 0 {
        Seq::empty()
    } else if is_component(pp, n - 1) {
        component_indices(pp, n - 1).push(n - 1)
    } else {
        component_indices(pp, n - 1)
    }
}

/// The components at `ib` of `bp` begin the components at `ip` of `pp`.
pub open spec fn components_begin(
    pp: Seq<Seq<char>>,
    ip: Seq<int>,
    bp: Seq<Seq<char>>,
    ib: Seq<int>,
) -> bool {
    ib.len() <= ip.len() && forall|k: int|
        0 <= k < ib.len() ==> #[trigger] component_text(pp, ip[k]) == component_text(bp, ib[k])
}

/// One past the last real piece of `pp[from..n]`, or `from` when there is none.
pub open spec fn real_end(pp: Seq<Seq<char>>, from: int, n: int) -> int
    decreases n - from,
{
    if n <= from {
        from
    } else if real_piece(pp[n - 1]) {
        n
    } else {
        real_end(pp, from, n - 1)
    }
}

/// The first real piece of `pp[a..b]`, or `b` when there is none.
pub open spec fn real_start(pp: Seq<Seq<char>>, a: int, b: int) -> int
    decreases b - a,
{
    if a >= b {
        b
    } else if real_piece(pp[a]) {
        a
    } else {
        real_start(pp, a + 1, b)
    }
}

/// The pieces from `start` on, without the empty and `.` pieces at either end,
/// joined again.
pub open spec fn trimmed_rest(pp: Seq<Seq<char>>, start: int) -> Seq<char> {
    let b = real_end(pp, start, pp.len() as int);
    join(pp.subrange(real_start(pp, start, b), b), seq!['/'])
}

/// The whole path, without empty and `.` pieces at its end (a leading `/` or
/// `.` stays).
pub open spec fn whole_path(pp: Seq<Seq<char>>) -> Seq<char> {
    let b = real_end(pp, 1, pp.len() as int);
    if b == 1 && pp[0].len() == 0 && pp.len() > 1 {
        seq!['/']
    } else {
        join(pp.subrange(0, b), seq!['/'])
    }
}

/// The part of `path` below `site`, as `Path::strip_prefix` gives it, or
/// `None` when the components of `site` do not begin those of `path`.
pub open spec fn site_relative_text(path: Seq<char>, site: Seq<char>) -> Option<Seq<char>> {
    let pp = split_on(path, '/');
    let bp = split_on(site, '/');
    let ip = component_indices(pp, pp.len() as int);
    let ib = component_indices(bp, bp.len() as int);
    if !components_begin(pp, ip, bp, ib) {
        None
    } else if ib.len() == 0 {
        Some(whole_path(pp))
    } else {
        Some(trimmed_rest(pp, ip[ib.len() - 1] + 1))
    }
}

/// The indices held by a vector, as integers.
pub open spec fn as_ints(v: Seq<usize>) -> Seq<int> {
    Seq::new(v.len(), |i: int| v[i] as int)
}

pub(crate) fn is_real_piece(p: &Vec<char>) -> (r: bool)
    ensures
        r == real_piece(p@),
{
    if p.len() == 0 {
        return false;
    }
    if p.len() == 1 && p[0] == '.' {
        assert(p@ =~= seq!['.']);
        return false;
    }
    assert(p@ != seq!['.']) by {
        if p@ == seq!['.'] {
            assert(p@[0] == '.');
        }
    }
    true
}

fn piece_is_component(pp: &Vec<Vec<char>>, i: usize) -> (r: bool)
    requires
        i < pp@.len(),
    ensures
        r == is_component(views(pp@), i as int),
{
    if i == 0 {
        pp[0].len() > 0 || pp.len() > 1
    } else {
        is_real_piece(&pp[i])
    }
}

fn components_of(pp: &Vec<Vec<char>>) -> (r: Vec<usize>)
    ensures
        as_ints(r@) == component_indices(views(pp@), pp@.len() as int),
        forall|k: int| 0 <= k < r@.len() ==> r@[k] < pp@.len(),
{
    let ghost v = views(pp@);
    let mut r: Vec<usize> = Vec::new();
    let mut i: usize = 0;
    while i < pp.len()
        invariant
            i <= pp@.len(),
            v == views(pp@),
            as_ints(r@) == component_indices(v, i as int),
            forall|k: int| 0 <= k < r@.len() ==> r@[k] < i,
        decreases pp@.len() - i,
    {
        if piece_is_component(pp, i) {
            let ghost before = r@;
            r.push(i);
            proof {
                assert(as_ints(r@) =~= as_ints(before).push(i as int));
            }
        }
        i += 1;
    }
    r
}

fn same_component(pp: &Vec<Vec<char>>, i: usize, bp: &Vec<Vec<char>>, j: usize) -> (r: bool)
    requires
        i < pp@.len(),
        j < bp@.len(),
    ensures
        r == (component_text(views(pp@), i as int) == component_text(views(bp@), j as int)),
{
    let root: Vec<char> = vec!['/'];
    assert(root@ =~= seq!['/']);
    let a: &Vec<char> = if i == 0 && pp[0].len() == 0 {
        &root
    } else {
        &pp[i]
    };
    let b: &Vec<char> = if j == 0 && bp[0].len() == 0 {
        &root
    } else {
        &bp[j]
    };
    chars_eq(a, b)
}

fn real_end_exec(pp: &Vec<Vec<char>>, from: usize, n: usize) -> (r: usize)
    requires
        from <= n <= pp@.len(),
    ensures
        r == real_end(views(pp@), from as int, n as int),
        from <= r <= n,
    decreases n - from,
{
    if n <= from {
        from
    } else if is_real_piece(&pp[n - 1]) {
        n
    } else {
        real_end_exec(pp, from, n - 1)
    }
}

fn real_start_exec(pp: &Vec<Vec<char>>, a: usize, b: usize) -> (r: usize)
    requires
        a <= b <= pp@.len(),
    ensures
        r == real_start(views(pp@), a as int, b as int),
        a <= r <= b,
    decreases b - a,
{
    if a >= b {
        b
    } else if is_real_piece(&pp[a]) {
        a
    } else {
        real_start_exec(pp, a + 1, b)
    }
}

/// The part of `path` below `site`, or `None` when `path` is not inside it.
pub fn relative_text(path: &str, site: &str) -> (r: Option<String>)
    ensures
        match site_relative_text(path@, site@) {
            None => r is None,
            Some(rel) => r matches Some(t) && t@ == rel,
        },
{
    let pc = chars_of(path);
    let sc = chars_of(site);
    let pp = split_chars(&pc, '/');
    let bp = split_chars(&sc, '/');
    let ghost pv = split_on(path@, '/');
    let ghost bv = split_on(site@, '/');
    proof {
        lemma_split_len(path@, '/');
        lemma_split_len(site@, '/');
    }
    let ip = components_of(&pp);
    let ib = components_of(&bp);
    let ghost iv = component_indices(pv, pv.len() as int);
    let ghost jv = component_indices(bv, bv.len() as int);
    proof {
        assert(iv.len() == ip@.len());
        assert(jv.len() == ib@.len());
    }
    if ib.len() > ip.len() {
        assert(!components_begin(pv, iv, bv, jv));
        return None;
    }
    let mut k: usize = 0;
    while k < ib.len()
        invariant
            k <= ib@.len() <= ip@.len(),
            views(pp@) == pv,
            views(bp@) == bv,
            pv == split_on(path@, '/'),
            bv == split_on(site@, '/'),
            iv == component_indices(pv, pv.len() as int),
            jv == component_indices(bv, bv.len() as int),
            as_ints(ip@) == iv,
            as_ints(ib@) == jv,
            forall|k: int| 0 <= k < ip@.len() ==> ip@[k] < pp@.len(),
            forall|k: int| 0 <= k < ib@.len() ==> ib@[k] < bp@.len(),
            forall|m: int| 0 <= m < k ==> #[trigger] component_text(pv, iv[m]) == component_text(bv, jv[m]),
        decreases ib@.len() - k,
    {
        assert(iv[k as int] == ip@[k as int]);
        assert(jv[k as int] == ib@[k as int]);
        if !same_component(&pp, ip[k], &bp, ib[k]) {
            assert(!components_begin(pv, iv, bv, jv));
            return None;
        }
        k += 1;
    }
    assert(components_begin(pv, iv, bv, jv));
    if ib.len() == 0 {
        let b = real_end_exec(&pp, 1, pp.len());
        if b == 1 && pp[0].len() == 0 && pp.len() > 1 {
            let mut t = String::new();
            crate::text::push_char(&mut t, '/');
            assert(t@ =~= seq!['/']);
            return Some(t);
        }
        proof {
            assert(views(pp@).subrange(0, b as int) == pv.subrange(0, b as int));
        }
        return Some(join_pieces(&pp, 0, b, '/'));
    }
    let last = ib.len() - 1;
    let idx = ip[last];
    assert(iv[last as int] == idx);
    assert(ip@[last as int] < pp@.len());
    let n = pp.len();
    assert(idx < n);
    let start = idx + 1;
    let b = real_end_exec(&pp, start, pp.len());
    let a = real_start_exec(&pp, start, b);
    Some(join_pieces(&pp, a, b, '/'))
}

} // verus!
