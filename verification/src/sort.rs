//! Stable insertion sort, used for every listing the site shows.

use vstd::prelude::*;
use crate::text::{chars_lt, chars_of, lex_lt, lemma_lex_lt_asymmetric, lemma_lex_lt_irreflexive, lemma_lex_lt_total, lemma_lex_lt_transitive};

verus! {

/// A type whose values are listed in a fixed order: `before` is a strict weak
/// order (irreflexive, transitive, and "not after" is transitive with it).
pub trait Ranked: Sized {
    spec fn before(self, other: Self) -> bool;

    fn precedes(&self, other: &Self) -> (r: bool)
        ensures
            r == self.before(*other),
    ;

    proof fn lemma_order(a: Self, b: Self, c: Self)
        ensures
            !a.before(a),
            a.before(b) && b.before(c) ==> a.before(c),
            a.before(b) && !c.before(b) ==> a.before(c),
    ;
}

/// Where `x` goes in `s`: after every element it does not come before,
/// scanning from the end, so equal elements keep their order.
pub open spec fn insert_index<T: Ranked>(s: Seq<T>, x: T) -> int
    decreases s.len(),
{
    if s.len() == 0 {
        0
    } else if x.before(s.last()) {
        insert_index(s.drop_last(), x)
    } else {
        s.len() as int
    }
}

/// `s` with `x` put in its place.
pub open spec fn insert_ranked<T: Ranked>(s: Seq<T>, x: T) -> Seq<T> {
    s.insert(insert_index(s, x), x)
}

/// `s` sorted by `before`; elements that neither precedes keep their order.
pub open spec fn rank_sort<T: Ranked>(s: Seq<T>) -> Seq<T>
    decreases s.len(),
{
    if s.len() == 0 {
        s
    } else {
        insert_ranked(rank_sort(s.drop_last()), s.last())
    }
}

/// No element comes before an element listed ahead of it.
pub open spec fn is_ranked<T: Ranked>(s: Seq<T>) -> bool {
    forall|i: int, j: int| 0 <= i < j < s.len() ==> !(#[trigger] s[j]).before(#[trigger] s[i])
}

pub proof fn lemma_insert_index<T: Ranked>(s: Seq<T>, x: T)
    ensures
        0 <= insert_index(s, x) <= s.len(),
        forall|k: int| insert_index(s, x) <= k < s.len() ==> x.before(#[trigger] s[k]),
        insert_index(s, x) > 0 ==> !x.before(s[insert_index(s, x) - 1]),
    decreases s.len(),
{
    if s.len() > 0 && x.before(s.last()) {
        lemma_insert_index(s.drop_last(), x);
        assert forall|k: int| insert_index(s, x) <= k < s.len() implies x.before(#[trigger] s[k]) by {
            if k < s.len() - 1 {
                assert(s[k] == s.drop_last()[k]);
            }
        }
        if insert_index(s, x) > 0 {
            assert(s.drop_last()[insert_index(s, x) - 1] == s[insert_index(s, x) - 1]);
        }
    }
}

/// Sorting keeps every element, as often as it occurs.
pub proof fn lemma_rank_sort_permutes<T: Ranked>(s: Seq<T>)
    ensures
        rank_sort(s).to_multiset() == s.to_multiset(),
        rank_sort(s).len() == s.len(),
    decreases s.len(),
{
    broadcast use vstd::seq_lib::group_to_multiset_ensures;
    if s.len() > 0 {
        lemma_rank_sort_permutes(s.drop_last());
        let r = rank_sort(s.drop_last());
        lemma_insert_index(r, s.last());
        let p = insert_index(r, s.last());
        r.insert_ensures(p, s.last());
        assert(r.insert(p, s.last()) =~= r.subrange(0, p) + seq![s.last()] + r.subrange(p, r.len() as int));
        vstd::seq_lib::lemma_multiset_commutative(r.subrange(0, p) + seq![s.last()], r.subrange(p, r.len() as int));
        vstd::seq_lib::lemma_multiset_commutative(r.subrange(0, p), seq![s.last()]);
        vstd::seq_lib::lemma_multiset_commutative(r.subrange(0, p), r.subrange(p, r.len() as int));
        assert(r.subrange(0, p) + r.subrange(p, r.len() as int) =~= r);
        assert(s.drop_last().push(s.last()) =~= s);
    }
}

/// Sorting leaves no element ahead of one it comes after.
pub proof fn lemma_rank_sort_ranked<T: Ranked>(s: Seq<T>)
    ensures
        is_ranked(rank_sort(s)),
    decreases s.len(),
{
    if s.len() > 0 {
        lemma_rank_sort_ranked(s.drop_last());
        let r = rank_sort(s.drop_last());
        let x = s.last();
        lemma_insert_index(r, x);
        let p = insert_index(r, x);
        let t = r.insert(p, x);
        r.insert_ensures(p, x);
        assert forall|i: int, j: int| 0 <= i < j < t.len() implies !(#[trigger] t[j]).before(#[trigger] t[i]) by {
            if j < p {
                assert(t[i] == r[i] && t[j] == r[j]);
            } else if j == p {
                assert(t[i] == r[i]);
                T::lemma_order(r[p - 1], r[p - 1], r[p - 1]);
                if i < p - 1 {
                    T::lemma_order(x, r[i], r[p - 1]);
                    assert(!r[p - 1].before(r[i]));
                }
            } else if i < p {
                assert(t[i] == r[i] && t[j] == r[j - 1]);
                if i == p - 1 {
                    assert(!r[j - 1].before(r[i]));
                } else {
                    assert(!r[j - 1].before(r[i]));
                }
            } else if i == p {
                assert(t[j] == r[j - 1]);
                assert(x.before(r[j - 1]));
                T::lemma_order(x, r[j - 1], x);
                T::lemma_order(r[j - 1], x, r[j - 1]);
            } else {
                assert(t[i] == r[i - 1] && t[j] == r[j - 1]);
            }
        }
    }
}

/// `v` sorted by `before`, stably.
pub fn sort_ranked<T: Ranked>(v: Vec<T>) -> (r: Vec<T>)
    ensures
        r@ == rank_sort(v@),
{
    let ghost orig = v@;
    let mut v = v;
    let mut rev: Vec<T> = Vec::new();
    while v.len() > 0
        invariant
            orig == v@ + rev@.reverse(),
        decreases v@.len(),
    {
        let ghost before_v = v@;
        let ghost before_rev = rev@;
        let x = v.pop().unwrap();
        rev.push(x);
        proof {
            assert(before_v == v@.push(x));
            assert(rev@.reverse() =~= seq![x] + before_rev.reverse());
            assert(orig =~= v@ + rev@.reverse());
        }
    }
    let mut out: Vec<T> = Vec::new();
    let ghost mut done: int = 0;
    proof {
        assert(orig =~= rev@.reverse());
        assert(orig.subrange(0, 0) =~= Seq::<T>::empty());
    }
    while rev.len() > 0
        invariant
            0 <= done <= orig.len(),
            orig.subrange(done, orig.len() as int) =~= rev@.reverse(),
            out@ == rank_sort(orig.subrange(0, done)),
        decreases rev@.len(),
    {
        let ghost before_rev = rev@;
        let x = rev.pop().unwrap();
        proof {
            assert(before_rev == rev@.push(x));
            assert(before_rev.reverse() =~= seq![x] + rev@.reverse());
            assert(orig.subrange(done, orig.len() as int)[0] == x);
            assert(orig[done] == x);
            assert(orig.subrange(done + 1, orig.len() as int) =~= orig.subrange(done, orig.len() as int).drop_first());
            assert(orig.subrange(done + 1, orig.len() as int) =~= rev@.reverse());
            assert(orig.subrange(0, done + 1).drop_last() =~= orig.subrange(0, done));
            assert(orig.subrange(0, done + 1).last() == x);
        }
        let ghost old_out = out@;
        let mut j = out.len();
        proof {
            assert(old_out.subrange(0, old_out.len() as int) =~= old_out);
        }
        while j > 0 && x.precedes(&out[j - 1])
            invariant
                out@ == old_out,
                j <= old_out.len(),
                insert_index(old_out, x) == insert_index(old_out.subrange(0, j as int), x),
            decreases j,
        {
            proof {
                assert(old_out.subrange(0, j as int).drop_last() =~= old_out.subrange(0, j - 1));
                assert(old_out.subrange(0, j as int).last() == old_out[j - 1]);
            }
            j -= 1;
        }
        proof {
            if j > 0 {
                assert(old_out.subrange(0, j as int).last() == old_out[j - 1]);
            }
            assert(old_out.subrange(0, old_out.len() as int) =~= old_out);
        }
        out.insert(j, x);
        proof {
            done = done + 1;
        }
    }
    proof {
        assert(orig.subrange(0, orig.len() as int) =~= orig);
    }
    out
}

impl Ranked for String {
    open spec fn before(self, other: Self) -> bool {
        lex_lt(self@, other@)
    }

    fn precedes(&self, other: &Self) -> (r: bool) {
        let a = chars_of(self.as_str());
        let b = chars_of(other.as_str());
        chars_lt(&a, &b)
    }

    proof fn lemma_order(a: Self, b: Self, c: Self) {
        lemma_lex_lt_irreflexive(a@);
        if lex_lt(a@, b@) && lex_lt(b@, c@) {
            lemma_lex_lt_transitive(a@, b@, c@);
        }
        if lex_lt(a@, b@) && !lex_lt(c@, b@) {
            lemma_lex_lt_total(b@, c@);
            if lex_lt(b@, c@) {
                lemma_lex_lt_transitive(a@, b@, c@);
            }
        }
    }
}

} // verus!

verus! {

/// The texts held by a sequence of strings.
pub open spec fn texts(s: Seq<String>) -> Seq<Seq<char>> {
    Seq::new(s.len(), |i: int| s[i]@)
}

/// Where text `x` goes in sorted text `s`.
pub open spec fn text_insert_index(s: Seq<Seq<char>>, x: Seq<char>) -> int
    decreases s.len(),
{
    if s.len() == 0 {
        0
    } else if lex_lt(x, s.last()) {
        text_insert_index(s.drop_last(), x)
    } else {
        s.len() as int
    }
}

/// Texts in lexicographic (byte-wise) order.
pub open spec fn sort_texts(s: Seq<Seq<char>>) -> Seq<Seq<char>>
    decreases s.len(),
{
    if s.len() == 0 {
        s
    } else {
        let r = sort_texts(s.drop_last());
        r.insert(text_insert_index(r, s.last()), s.last())
    }
}

proof fn lemma_texts_insert_index(s: Seq<String>, x: String)
    ensures
        insert_index(s, x) == text_insert_index(texts(s), x@),
    decreases s.len(),
{
    if s.len() > 0 {
        assert(texts(s.drop_last()) =~= texts(s).drop_last());
        lemma_texts_insert_index(s.drop_last(), x);
    }
}

proof fn lemma_texts_rank_sort(s: Seq<String>)
    ensures
        texts(rank_sort(s)) == sort_texts(texts(s)),
    decreases s.len(),
{
    if s.len() > 0 {
        lemma_texts_rank_sort(s.drop_last());
        assert(texts(s.drop_last()) =~= texts(s).drop_last());
        let r = rank_sort(s.drop_last());
        lemma_texts_insert_index(r, s.last());
        lemma_insert_index(r, s.last());
        let p = insert_index(r, s.last());
        assert(texts(r.insert(p, s.last())) =~= texts(r).insert(p, s.last()@));
    }
}

/// Strings in lexicographic (byte-wise) order.
pub fn sort_strings(v: Vec<String>) -> (r: Vec<String>)
    ensures
        r.deep_view() == sort_texts(v.deep_view()),
{
    let ghost orig = v@;
    let r = sort_ranked(v);
    proof {
        lemma_texts_rank_sort(orig);
        assert(r.deep_view() =~= texts(r@));
        assert(texts(orig) =~= v.deep_view());
    }
    r
}

} // verus!

verus! {

/// Each text comes strictly before the next: sorted, with no repeats.
pub open spec fn strictly_sorted(s: Seq<Seq<char>>) -> bool {
    forall|i: int, j: int| 0 <= i < j < s.len() ==> lex_lt(#[trigger] s[i], #[trigger] s[j])
}

/// Adds `x` to the strictly sorted texts in `v`, in its place, unless it is
/// already there.
pub fn insert_sorted_unique(v: &mut Vec<String>, x: String)
    requires
        strictly_sorted(old(v).deep_view()),
    ensures
        strictly_sorted(final(v).deep_view()),
        forall|y: Seq<char>| #[trigger]
            final(v).deep_view().contains(y) <==> (old(v).deep_view().contains(y) || y == x@),
{
    let ghost xs = v.deep_view();
    let mut j: usize = 0;
    while j < v.len() && v[j].precedes(&x)
        invariant
            j <= v@.len(),
            xs == v.deep_view(),
            forall|k: int| 0 <= k < j ==> lex_lt(#[trigger] xs[k], x@),
        decreases v@.len() - j,
    {
        assert(xs[j as int] == v@[j as int]@);
        j += 1;
    }
    if j < v.len() && v[j] == x {
        assert(xs[j as int] == x@);
        return;
    }
    proof {
        if j < v@.len() {
            assert(xs[j as int] == v@[j as int]@);
            lemma_lex_lt_total(xs[j as int], x@);
            assert(lex_lt(x@, xs[j as int]));
        }
    }
    v.insert(j, x);
    proof {
        let ys = v.deep_view();
        assert(ys =~= xs.insert(j as int, x@));
        assert forall|a: int, b: int| 0 <= a < b < ys.len() implies lex_lt(
            #[trigger] ys[a],
            #[trigger] ys[b],
        ) by {
            if b < j {
                assert(ys[a] == xs[a] && ys[b] == xs[b]);
            } else if b == j {
                assert(ys[a] == xs[a]);
            } else if a < j {
                assert(ys[a] == xs[a] && ys[b] == xs[b - 1]);
                assert(lex_lt(x@, xs[j as int]));
                if b - 1 > j {
                    lemma_lex_lt_transitive(x@, xs[j as int], xs[b - 1]);
                }
                lemma_lex_lt_transitive(xs[a], x@, xs[b - 1]);
            } else if a == j {
                assert(ys[b] == xs[b - 1]);
                if b - 1 > j {
                    lemma_lex_lt_transitive(x@, xs[j as int], xs[b - 1]);
                }
            } else {
                assert(ys[a] == xs[a - 1] && ys[b] == xs[b - 1]);
            }
        }
        assert forall|y: Seq<char>| #[trigger] ys.contains(y) <==> (xs.contains(y) || y == x@) by {
            if xs.contains(y) {
                let k = choose|k: int| 0 <= k < xs.len() && xs[k] == y;
                if k < j {
                    assert(ys[k] == y);
                } else {
                    assert(ys[k + 1] == y);
                }
            }
            if y == x@ {
                assert(ys[j as int] == y);
            }
            if ys.contains(y) {
                let k = choose|k: int| 0 <= k < ys.len() && ys[k] == y;
                if k < j {
                    assert(xs[k] == y);
                } else if k > j {
                    assert(xs[k - 1] == y);
                }
            }
        }
    }
}

} // verus!

verus! {

/// Sorting two sequences whose elements correspond one to one, by orders
/// that agree on corresponding elements, keeps the correspondence.
pub proof fn lemma_sort_matched<A: Ranked, B: Ranked>(
    s: Seq<A>,
    p: Seq<B>,
    rel: spec_fn(A, B) -> bool,
)
    requires
        s.len() == p.len(),
        forall|i: int| 0 <= i < s.len() ==> #[trigger] rel(s[i], p[i]),
        forall|a1: A, a2: A, b1: B, b2: B|
            #[trigger] rel(a1, b1) && #[trigger] rel(a2, b2) ==> (a1.before(a2) == b1.before(b2)),
    ensures
        rank_sort(s).len() == s.len(),
        rank_sort(p).len() == s.len(),
        forall|i: int| 0 <= i < s.len() ==> #[trigger] rel(rank_sort(s)[i], rank_sort(p)[i]),
    decreases s.len(),
{
    lemma_rank_sort_permutes(s);
    lemma_rank_sort_permutes(p);
    if s.len() > 0 {
        let s0 = s.drop_last();
        let p0 = p.drop_last();
        assert forall|i: int| 0 <= i < s0.len() implies #[trigger] rel(s0[i], p0[i]) by {
            assert(rel(s[i], p[i]));
        }
        lemma_sort_matched(s0, p0, rel);
        let rs = rank_sort(s0);
        let rp = rank_sort(p0);
        let x = s.last();
        let y = p.last();
        assert(rel(x, y)) by {
            assert(rel(s[s.len() - 1], p[p.len() - 1]));
        }
        lemma_matched_insert_index(rs, rp, x, y, rel);
        lemma_insert_index(rs, x);
        let k = insert_index(rs, x);
        let a = rs.insert(k, x);
        let b = rp.insert(k, y);
        assert forall|i: int| 0 <= i < a.len() implies #[trigger] rel(a[i], b[i]) by {
            if i < k {
                assert(a[i] == rs[i] && b[i] == rp[i]);
                assert(rel(rs[i], rp[i]));
            } else if i > k {
                assert(a[i] == rs[i - 1] && b[i] == rp[i - 1]);
                assert(rel(rs[i - 1], rp[i - 1]));
            }
        }
    }
}

proof fn lemma_matched_insert_index<A: Ranked, B: Ranked>(
    s: Seq<A>,
    p: Seq<B>,
    x: A,
    y: B,
    rel: spec_fn(A, B) -> bool,
)
    requires
        s.len() == p.len(),
        forall|i: int| 0 <= i < s.len() ==> #[trigger] rel(s[i], p[i]),
        rel(x, y),
        forall|a1: A, a2: A, b1: B, b2: B|
            #[trigger] rel(a1, b1) && #[trigger] rel(a2, b2) ==> (a1.before(a2) == b1.before(b2)),
    ensures
        insert_index(s, x) == insert_index(p, y),
    decreases s.len(),
{
    if s.len() > 0 {
        assert(rel(s[s.len() - 1], p[p.len() - 1]));
        let s0 = s.drop_last();
        let p0 = p.drop_last();
        assert forall|i: int| 0 <= i < s0.len() implies #[trigger] rel(s0[i], p0[i]) by {
            assert(rel(s[i], p[i]));
        }
        lemma_matched_insert_index(s0, p0, x, y, rel);
    }
}

} // verus!

verus! {

/// Strictly sorted texts are fixed by which texts they hold: two of them
/// that hold the same texts are the same sequence.
pub proof fn lemma_sorted_same_members(a: Seq<Seq<char>>, b: Seq<Seq<char>>)
    requires
        strictly_sorted(a),
        strictly_sorted(b),
        forall|x: Seq<char>| #![trigger a.contains(x)] #![trigger b.contains(x)] a.contains(x) <==> b.contains(x),
    ensures
        a == b,
    decreases a.len() + b.len(),
{
    if a.len() == 0 {
        if b.len() > 0 {
            assert(b.contains(b[0]));
        }
        assert(b =~= a);
    } else if b.len() == 0 {
        assert(a.contains(a[0]));
    } else {
        assert(a.contains(a[0]));
        assert(b.contains(b[0]));
        let j = choose|j: int| 0 <= j < b.len() && b[j] == a[0];
        let i = choose|i: int| 0 <= i < a.len() && a[i] == b[0];
        if a[0] != b[0] {
            assert(j > 0 && i > 0);
            assert(lex_lt(b[0], b[j]));
            assert(lex_lt(a[0], a[i]));
            lemma_lex_lt_asymmetric(a[0], b[0]);
        }
        let a1 = a.drop_first();
        let b1 = b.drop_first();
        assert forall|x: Seq<char>| #[trigger] a1.contains(x) implies b1.contains(x) by {
            let k = choose|k: int| 0 <= k < a1.len() && a1[k] == x;
            assert(a[k + 1] == x);
            assert(a.contains(x));
            let m = choose|m: int| 0 <= m < b.len() && b[m] == x;
            if m == 0 {
                assert(lex_lt(a[0], a[k + 1]));
                lemma_lex_lt_irreflexive(x);
            }
            assert(b1[m - 1] == x);
        }
        assert forall|x: Seq<char>| #[trigger] b1.contains(x) implies a1.contains(x) by {
            let k = choose|k: int| 0 <= k < b1.len() && b1[k] == x;
            assert(b[k + 1] == x);
            assert(b.contains(x));
            let m = choose|m: int| 0 <= m < a.len() && a[m] == x;
            if m == 0 {
                assert(lex_lt(b[0], b[k + 1]));
                lemma_lex_lt_irreflexive(x);
            }
            assert(a1[m - 1] == x);
        }
        assert forall|p: int, q: int| 0 <= p < q < a1.len() implies lex_lt(#[trigger] a1[p], #[trigger] a1[q]) by {
            assert(a1[p] == a[p + 1] && a1[q] == a[q + 1]);
        }
        assert forall|p: int, q: int| 0 <= p < q < b1.len() implies lex_lt(#[trigger] b1[p], #[trigger] b1[q]) by {
            assert(b1[p] == b[p + 1] && b1[q] == b[q + 1]);
        }
        lemma_sorted_same_members(a1, b1);
        assert(a =~= seq![a[0]] + a1);
        assert(b =~= seq![b[0]] + b1);
    }
}

} // verus!
