//! Character-level helpers shared by the parsers and generators.

use vstd::prelude::*;
use vstd::string::{StrSliceExecFns, StringExecFns};

verus! {

/// Appends one character to a string (`String::push`).
#[verifier::external_body]
pub fn push_char(s: &mut String, c: char)
    ensures
        final(s)@ == old(s)@.push(c),
{
    s.push(c);
}

/// The characters of `s`, in order.
pub fn chars_of(s: &str) -> (r: Vec<char>)
    ensures
        r@ == s@,
{
    let mut r: Vec<char> = Vec::new();
    for c in it: s.chars()
        invariant
            r@ == it.seq().subrange(0, it.index() as int),
    {
        r.push(c);
    }
    r
}

} // verus!

verus! {

/// A string holding exactly the given characters.
pub fn string_from_chars(cs: &Vec<char>) -> (r: String)
    ensures
        r@ == cs@,
{
    let mut r = String::new();
    let mut i: usize = 0;
    while i < cs.len()
        invariant
            i <= cs@.len(),
            r@ == cs@.subrange(0, i as int),
        decreases cs@.len() - i,
    {
        push_char(&mut r, cs[i]);
        proof {
            assert(cs@.subrange(0, i + 1) == cs@.subrange(0, i as int).push(cs@[i as int]));
        }
        i += 1;
    }
    proof {
        assert(cs@.subrange(0, cs@.len() as int) == cs@);
    }
    r
}

/// Appends `cs[from..to]` to `s`.
pub fn push_range(s: &mut String, cs: &Vec<char>, from: usize, to: usize)
    requires
        from <= to <= cs@.len(),
    ensures
        final(s)@ == old(s)@ + cs@.subrange(from as int, to as int),
{
    let ghost start = s@;
    let mut i: usize = from;
    while i < to
        invariant
            from <= i <= to,
            to <= cs@.len(),
            s@ == start + cs@.subrange(from as int, i as int),
        decreases to - i,
    {
        push_char(s, cs[i]);
        proof {
            assert(cs@.subrange(from as int, i + 1) == cs@.subrange(from as int, i as int).push(
                cs@[i as int],
            ));
        }
        i += 1;
    }
}

/// `s` cut at every `sep`: `"a/b"` gives `["a", "b"]`, `""` gives `[""]`.
pub open spec fn split_on(s: Seq<char>, sep: char) -> Seq<Seq<char>>
    decreases s.len(),
{
    if s.len() == 0 {
        seq![Seq::<char>::empty()]
    } else if s.last() == sep {
        split_on(s.drop_last(), sep).push(Seq::empty())
    } else {
        let p = split_on(s.drop_last(), sep);
        p.update(p.len() - 1, p.last().push(s.last()))
    }
}

/// The pieces joined with `sep` between each two.
pub open spec fn join(parts: Seq<Seq<char>>, sep: Seq<char>) -> Seq<char>
    decreases parts.len(),
{
    if parts.len() == 0 {
        Seq::empty()
    } else if parts.len() == 1 {
        parts[0]
    } else {
        join(parts.drop_last(), sep) + sep + parts.last()
    }
}

/// Whether `c` occurs in `s`.
pub open spec fn has_char(s: Seq<char>, c: char) -> bool {
    exists|i: int| 0 <= i < s.len() && s[i] == c
}

/// The index of the last `c` in `s`, or -1.
pub open spec fn last_index_of(s: Seq<char>, c: char) -> int
    decreases s.len(),
{
    if s.len() == 0 {
        -1
    } else if s.last() == c {
        s.len() - 1
    } else {
        last_index_of(s.drop_last(), c)
    }
}

/// `s` with every `from` replaced by `to`.
pub open spec fn replace_char(s: Seq<char>, from: char, to: char) -> Seq<char> {
    s.map_values(|c: char| if c == from { to } else { c })
}

/// Strict lexicographic order on characters, compared by code point. For
/// strings this is the byte-wise order of their UTF-8 encodings.
pub open spec fn lex_lt(a: Seq<char>, b: Seq<char>) -> bool
    decreases a.len(),
{
    if a.len() == 0 {
        b.len() > 0
    } else if b.len() == 0 {
        false
    } else if a[0] != b[0] {
        a[0] < b[0]
    } else {
        lex_lt(a.drop_first(), b.drop_first())
    }
}

pub proof fn lemma_split_len(s: Seq<char>, sep: char)
    ensures
        split_on(s, sep).len() >= 1,
    decreases s.len(),
{
    if s.len() > 0 {
        lemma_split_len(s.drop_last(), sep);
    }
}

pub proof fn lemma_last_index_of(s: Seq<char>, c: char)
    ensures
        -1 <= last_index_of(s, c) < s.len(),
        last_index_of(s, c) >= 0 ==> s[last_index_of(s, c)] == c,
        forall|k: int| last_index_of(s, c) < k < s.len() ==> s[k] != c,
    decreases s.len(),
{
    if s.len() > 0 && s.last() != c {
        lemma_last_index_of(s.drop_last(), c);
        assert forall|k: int| last_index_of(s, c) < k < s.len() implies s[k] != c by {
            if k < s.len() - 1 {
                assert(s[k] == s.drop_last()[k]);
            }
        }
    }
}

pub proof fn lemma_lex_lt_irreflexive(a: Seq<char>)
    ensures
        !lex_lt(a, a),
    decreases a.len(),
{
    if a.len() > 0 {
        lemma_lex_lt_irreflexive(a.drop_first());
    }
}

pub proof fn lemma_lex_lt_transitive(a: Seq<char>, b: Seq<char>, c: Seq<char>)
    requires
        lex_lt(a, b),
        lex_lt(b, c),
    ensures
        lex_lt(a, c),
    decreases a.len(),
{
    if a.len() > 0 && b.len() > 0 && c.len() > 0 && a[0] == b[0] && b[0] == c[0] {
        lemma_lex_lt_transitive(a.drop_first(), b.drop_first(), c.drop_first());
    }
}

pub proof fn lemma_lex_lt_total(a: Seq<char>, b: Seq<char>)
    ensures
        a == b || lex_lt(a, b) || lex_lt(b, a),
    decreases a.len(),
{
    if a.len() > 0 && b.len() > 0 && a[0] == b[0] {
        lemma_lex_lt_total(a.drop_first(), b.drop_first());
        if a.drop_first() == b.drop_first() {
            assert(a == seq![a[0]] + a.drop_first());
            assert(b == seq![b[0]] + b.drop_first());
        }
    } else if a.len() == 0 && b.len() == 0 {
        assert(a == b);
    }
}

pub proof fn lemma_lex_lt_asymmetric(a: Seq<char>, b: Seq<char>)
    requires
        lex_lt(a, b),
    ensures
        !lex_lt(b, a),
{
    if lex_lt(b, a) {
        lemma_lex_lt_transitive(a, b, a);
        lemma_lex_lt_irreflexive(a);
    }
}

/// Whether `a` comes strictly before `b` in lexicographic order.
pub fn chars_lt(a: &Vec<char>, b: &Vec<char>) -> (r: bool)
    ensures
        r == lex_lt(a@, b@),
{
    let mut i: usize = 0;
    proof {
        assert(a@.subrange(0, a@.len() as int) == a@);
        assert(b@.subrange(0, b@.len() as int) == b@);
    }
    while i < a.len() && i < b.len()
        invariant
            i <= a@.len(),
            i <= b@.len(),
            a@.subrange(0, i as int) == b@.subrange(0, i as int),
            lex_lt(a@, b@) == lex_lt(a@.subrange(i as int, a@.len() as int), b@.subrange(i as int, b@.len() as int)),
        decreases a@.len() - i,
    {
        if a[i] != b[i] {
            proof {
                let sa = a@.subrange(i as int, a@.len() as int);
                let sb = b@.subrange(i as int, b@.len() as int);
                assert(sa[0] == a@[i as int]);
                assert(sb[0] == b@[i as int]);
            }
            return a[i] < b[i];
        }
        proof {
            let sa = a@.subrange(i as int, a@.len() as int);
            let sb = b@.subrange(i as int, b@.len() as int);
            assert(sa.drop_first() == a@.subrange(i + 1, a@.len() as int));
            assert(sb.drop_first() == b@.subrange(i + 1, b@.len() as int));
            assert(a@.subrange(0, i + 1) == a@.subrange(0, i as int).push(a@[i as int]));
            assert(b@.subrange(0, i + 1) == b@.subrange(0, i as int).push(b@[i as int]));
        }
        i += 1;
    }
    proof {
        let sa = a@.subrange(i as int, a@.len() as int);
        let sb = b@.subrange(i as int, b@.len() as int);
        assert(i == a@.len() ==> sa.len() == 0);
        assert(i == b@.len() ==> sb.len() == 0);
    }
    i < b.len()
}

/// Whether `a` comes strictly before `b` in lexicographic order.
pub fn str_lt(a: &str, b: &str) -> (r: bool)
    ensures
        r == lex_lt(a@, b@),
{
    let ca = chars_of(a);
    let cb = chars_of(b);
    chars_lt(&ca, &cb)
}

} // verus!

verus! {

/// The character sequences held by a vector of character vectors.
pub open spec fn views(v: Seq<Vec<char>>) -> Seq<Seq<char>> {
    Seq::new(v.len(), |i: int| v[i]@)
}

/// `s` cut at every `sep`, as character vectors.
pub fn split_chars(cs: &Vec<char>, sep: char) -> (r: Vec<Vec<char>>)
    ensures
        views(r@) == split_on(cs@, sep),
{
    let mut done: Vec<Vec<char>> = Vec::new();
    let mut cur: Vec<char> = Vec::new();
    let mut i: usize = 0;
    while i < cs.len()
        invariant
            i <= cs@.len(),
            split_on(cs@.subrange(0, i as int), sep) == views(done@).push(cur@),
        decreases cs@.len() - i,
    {
        let c = cs[i];
        let ghost before = cs@.subrange(0, i as int);
        proof {
            assert(cs@.subrange(0, i + 1).drop_last() == before);
            assert(cs@.subrange(0, i + 1).last() == c);
        }
        if c == sep {
            let ghost old_done = done@;
            let ghost old_cur = cur@;
            done.push(cur);
            cur = Vec::new();
            proof {
                assert(views(done@) =~= views(old_done).push(old_cur));
            }
        } else {
            cur.push(c);
        }
        i += 1;
    }
    proof {
        assert(cs@.subrange(0, cs@.len() as int) == cs@);
    }
    let ghost old_done = done@;
    let ghost old_cur = cur@;
    done.push(cur);
    proof {
        assert(views(done@) =~= views(old_done).push(old_cur));
    }
    done
}

/// Whether `c` occurs in `cs`.
pub fn chars_contain(cs: &Vec<char>, c: char) -> (r: bool)
    ensures
        r == has_char(cs@, c),
{
    let mut i: usize = 0;
    while i < cs.len()
        invariant
            i <= cs@.len(),
            forall|k: int| 0 <= k < i ==> cs@[k] != c,
        decreases cs@.len() - i,
    {
        if cs[i] == c {
            return true;
        }
        i += 1;
    }
    false
}

/// The index of the last `c` in `cs`, if any.
pub fn chars_last_index(cs: &Vec<char>, c: char) -> (r: Option<usize>)
    ensures
        match r {
            Some(k) => k == last_index_of(cs@, c),
            None => last_index_of(cs@, c) == -1,
        },
{
    let mut i: usize = cs.len();
    proof {
        assert(cs@.subrange(0, cs@.len() as int) == cs@);
    }
    while i > 0
        invariant
            i <= cs@.len(),
            last_index_of(cs@, c) == last_index_of(cs@.subrange(0, i as int), c),
        decreases i,
    {
        proof {
            assert(cs@.subrange(0, i as int).last() == cs@[i - 1]);
            assert(cs@.subrange(0, i as int).drop_last() == cs@.subrange(0, i - 1));
        }
        if cs[i - 1] == c {
            return Some(i - 1);
        }
        i -= 1;
    }
    None
}

/// `PathBuf::push` of one relative component onto `base`, as text: a `/`
/// goes between them unless `base` is empty or already ends in `/`.
pub open spec fn push_component(base: Seq<char>, comp: Seq<char>) -> Seq<char> {
    if base.len() == 0 {
        comp
    } else if base.last() == '/' {
        base + comp
    } else {
        base + seq!['/'] + comp
    }
}

/// `base` with each component pushed in turn.
pub open spec fn push_all(base: Seq<char>, comps: Seq<Seq<char>>) -> Seq<char>
    decreases comps.len(),
{
    if comps.len() == 0 {
        base
    } else {
        push_component(push_all(base, comps.drop_last()), comps.last())
    }
}

/// `PathBuf::push` of one relative component onto `base`, as text.
pub fn push_component_exec(base: &str, comp: &str) -> (r: String)
    ensures
        r@ == push_component(base@, comp@),
{
    let cs = chars_of(base);
    if cs.len() == 0 {
        String::from_str(comp)
    } else if cs[cs.len() - 1] == '/' {
        String::from_str(base).concat(comp)
    } else {
        let mut r = String::from_str(base);
        push_char(&mut r, '/');
        r.concat(comp)
    }
}

/// `base` with each component pushed in turn, as text.
pub fn push_all_exec(base: &str, comps: &Vec<String>) -> (r: String)
    ensures
        r@ == push_all(base@, comps.deep_view()),
{
    let mut r = String::from_str(base);
    let mut i: usize = 0;
    while i < comps.len()
        invariant
            i <= comps@.len(),
            r@ == push_all(base@, comps.deep_view().subrange(0, i as int)),
        decreases comps@.len() - i,
    {
        proof {
            let s = comps.deep_view().subrange(0, i + 1);
            assert(s.drop_last() == comps.deep_view().subrange(0, i as int));
            assert(s.last() == comps@[i as int]@);
        }
        r = push_component_exec(r.as_str(), comps[i].as_str());
        i += 1;
    }
    proof {
        assert(comps.deep_view().subrange(0, comps@.len() as int) == comps.deep_view());
    }
    r
}

} // verus!

verus! {

/// Every character of `s` other than `sep` lands in some piece of the split.
pub proof fn lemma_split_covers(s: Seq<char>, sep: char, i: int)
    requires
        0 <= i < s.len(),
        s[i] != sep,
    ensures
        exists|j: int, k: int|
            0 <= j < split_on(s, sep).len() && 0 <= k < split_on(s, sep)[j].len()
                && #[trigger] split_on(s, sep)[j][k] == s[i],
    decreases s.len(),
{
    lemma_split_len(s.drop_last(), sep);
    let p = split_on(s.drop_last(), sep);
    if i < s.len() - 1 {
        lemma_split_covers(s.drop_last(), sep, i);
        let (j, k) = choose|j: int, k: int|
            0 <= j < p.len() && 0 <= k < p[j].len() && #[trigger] p[j][k] == s.drop_last()[i];
        if s.last() == sep {
            assert(split_on(s, sep)[j][k] == s[i]);
        } else {
            assert(split_on(s, sep)[j][k] == s[i]);
        }
    } else {
        let q = split_on(s, sep);
        assert(q[q.len() - 1] == p.last().push(s.last()));
        assert(q[q.len() - 1][p.last().len() as int] == s[i]);
    }
}

/// The last `c` of `a + b` is in `b` when `b` holds a `c`, else it is `a`'s.
pub proof fn lemma_last_index_of_concat(a: Seq<char>, b: Seq<char>, c: char)
    requires
        !has_char(b, c),
    ensures
        last_index_of(a + b, c) == last_index_of(a, c),
    decreases b.len(),
{
    if b.len() > 0 {
        assert((a + b).drop_last() == a + b.drop_last());
        assert((a + b).last() == b.last());
        assert(b.last() == b[b.len() - 1]);
        lemma_last_index_of_concat(a, b.drop_last(), c);
    } else {
        assert(a + b == a);
    }
}

} // verus!

verus! {

/// Appends `parts` joined by `sep` (as `join` defines it) to `out`.
pub fn push_joined(out: &mut String, parts: &Vec<String>, sep: &str)
    ensures
        final(out)@ == old(out)@ + join(parts.deep_view(), sep@),
{
    let ghost start = out@;
    let mut i: usize = 0;
    while i < parts.len()
        invariant
            i <= parts@.len(),
            out@ == start + join(parts.deep_view().subrange(0, i as int), sep@),
        decreases parts@.len() - i,
    {
        let ghost pre = parts.deep_view().subrange(0, i as int);
        let ghost next = parts.deep_view().subrange(0, i + 1);
        proof {
            assert(next.drop_last() =~= pre);
            assert(next.last() == parts@[i as int]@);
        }
        if i > 0 {
            out.append(sep);
        } else {
            assert(next =~= seq![parts@[0]@]);
            assert(pre =~= Seq::<Seq<char>>::empty());
        }
        out.append(parts[i].as_str());
        i += 1;
    }
    proof {
        assert(parts.deep_view().subrange(0, parts@.len() as int) =~= parts.deep_view());
    }
}

} // verus!

verus! {

/// `s` with every `from` written as `to`.
pub fn replace_char_exec(s: &str, from: char, to: char) -> (r: String)
    ensures
        r@ == replace_char(s@, from, to),
{
    let cs = chars_of(s);
    let mut r = String::new();
    let mut i: usize = 0;
    while i < cs.len()
        invariant
            i <= cs@.len(),
            cs@ == s@,
            r@ == replace_char(cs@.subrange(0, i as int), from, to),
        decreases cs@.len() - i,
    {
        let c = cs[i];
        push_char(&mut r, if c == from { to } else { c });
        proof {
            assert(replace_char(cs@.subrange(0, i + 1), from, to) =~= replace_char(
                cs@.subrange(0, i as int),
                from,
                to,
            ).push(if c == from { to } else { c }));
        }
        i += 1;
    }
    proof {
        assert(cs@.subrange(0, cs@.len() as int) =~= cs@);
    }
    r
}

} // verus!

verus! {

/// The pieces `ls[from..to]` joined with `sep`.
pub fn join_pieces(ls: &Vec<Vec<char>>, from: usize, to: usize, sep: char) -> (r: String)
    requires
        from <= to <= ls@.len(),
    ensures
        r@ == join(views(ls@).subrange(from as int, to as int), seq![sep]),
{
    let mut out = String::new();
    let mut i: usize = from;
    while i < to
        invariant
            from <= i <= to <= ls@.len(),
            out@ == join(views(ls@).subrange(from as int, i as int), seq![sep]),
        decreases to - i,
    {
        let ghost pre = views(ls@).subrange(from as int, i as int);
        let ghost next = views(ls@).subrange(from as int, i + 1);
        proof {
            assert(next.drop_last() =~= pre);
            assert(next.last() == ls@[i as int]@);
        }
        if i > from {
            push_char(&mut out, sep);
        } else {
            assert(next =~= seq![ls@[i as int]@]);
            assert(pre =~= Seq::<Seq<char>>::empty());
        }
        let piece = &ls[i];
        push_range(&mut out, piece, 0, piece.len());
        proof {
            assert(piece@.subrange(0, piece@.len() as int) =~= piece@);
        }
        i += 1;
    }
    out
}

/// Whether two character vectors hold the same characters.
pub fn chars_eq(a: &Vec<char>, b: &Vec<char>) -> (r: bool)
    ensures
        r == (a@ == b@),
{
    if a.len() != b.len() {
        return false;
    }
    let mut i: usize = 0;
    while i < a.len()
        invariant
            i <= a@.len(),
            a@.len() == b@.len(),
            forall|k: int| 0 <= k < i ==> a@[k] == b@[k],
        decreases a@.len() - i,
    {
        if a[i] != b[i] {
            return false;
        }
        i += 1;
    }
    assert(a@ =~= b@);
    true
}

} // verus!

verus! {

/// Joining the pieces of a split with the separator gives the text back.
pub proof fn lemma_join_split(s: Seq<char>, sep: char)
    ensures
        join(split_on(s, sep), seq![sep]) == s,
    decreases s.len(),
{
    if s.len() > 0 {
        let t = s.drop_last();
        lemma_join_split(t, sep);
        lemma_split_len(t, sep);
        let p = split_on(t, sep);
        if s.last() == sep {
            let q = p.push(Seq::<char>::empty());
            assert(q.drop_last() =~= p);
            assert(q.last() == Seq::<char>::empty());
            assert(join(q, seq![sep]) == join(p, seq![sep]) + seq![sep] + q.last());
            assert(s =~= t + seq![sep] + Seq::<char>::empty());
        } else {
            let q = p.update(p.len() - 1, p.last().push(s.last()));
            if p.len() == 1 {
                assert(join(q, seq![sep]) == q[0]);
                assert(s =~= t.push(s.last()));
            } else {
                assert(q.drop_last() =~= p.drop_last());
                assert(q.last() == p.last().push(s.last()));
                assert(join(q, seq![sep]) =~= join(p, seq![sep]).push(s.last()));
                assert(s =~= t.push(s.last()));
            }
        }
    }
}

/// A split gives a single piece exactly when the separator does not occur.
pub proof fn lemma_split_single(s: Seq<char>, sep: char)
    ensures
        (split_on(s, sep).len() == 1) == !has_char(s, sep),
    decreases s.len(),
{
    if s.len() > 0 {
        let t = s.drop_last();
        lemma_split_single(t, sep);
        lemma_split_len(t, sep);
        assert(s[s.len() - 1] == s.last());
        if s.last() != sep {
            if has_char(s, sep) {
                let k = choose|k: int| 0 <= k < s.len() && s[k] == sep;
                assert(t[k] == sep);
            }
            if has_char(t, sep) {
                let k = choose|k: int| 0 <= k < t.len() && t[k] == sep;
                assert(s[k] == sep);
            }
        }
    }
}

/// Pieces and a separator without `c` join to a text without `c`.
pub proof fn lemma_join_lacks(parts: Seq<Seq<char>>, sep: Seq<char>, c: char)
    requires
        forall|i: int| 0 <= i < parts.len() ==> !has_char(#[trigger] parts[i], c),
        !has_char(sep, c),
    ensures
        !has_char(join(parts, sep), c),
    decreases parts.len(),
{
    if parts.len() == 1 {
        assert(!has_char(parts[0], c));
    } else if parts.len() > 1 {
        let d = parts.drop_last();
        assert forall|i: int| 0 <= i < d.len() implies !has_char(#[trigger] d[i], c) by {
            assert(d[i] == parts[i]);
        }
        lemma_join_lacks(d, sep, c);
        let x = join(d, sep);
        let l = parts.last();
        assert(!has_char(l, c)) by {
            assert(parts[parts.len() - 1] == l);
        }
        let j = x + sep + l;
        if has_char(j, c) {
            let k = choose|k: int| 0 <= k < j.len() && j[k] == c;
            if k < x.len() {
                assert(x[k] == c);
            } else if k < x.len() + sep.len() {
                assert(sep[k - x.len()] == c);
            } else {
                assert(l[k - x.len() - sep.len()] == c);
            }
        }
    }
}

} // verus!

verus! {

/// Splitting `a`, a separator and `b` gives the pieces of `a` followed by
/// those of `b`.
pub proof fn lemma_split_concat(a: Seq<char>, b: Seq<char>, sep: char)
    ensures
        split_on(a + seq![sep] + b, sep) == split_on(a, sep) + split_on(b, sep),
    decreases b.len(),
{
    let s = a + seq![sep] + b;
    if b.len() == 0 {
        assert(s.drop_last() =~= a);
        assert(s.last() == sep);
        assert(split_on(b, sep) =~= seq![Seq::<char>::empty()]);
        assert(split_on(a, sep).push(Seq::empty()) =~= split_on(a, sep) + seq![Seq::<char>::empty()]);
    } else {
        let b1 = b.drop_last();
        lemma_split_concat(a, b1, sep);
        lemma_split_len(b1, sep);
        assert(s.drop_last() =~= a + seq![sep] + b1);
        assert(s.last() == b.last());
        let pa = split_on(a, sep);
        let pb = split_on(b1, sep);
        if b.last() == sep {
            assert(split_on(b, sep) == pb.push(Seq::empty()));
            assert((pa + pb).push(Seq::<char>::empty()) =~= pa + pb.push(Seq::empty()));
        } else {
            let p = pa + pb;
            assert(split_on(b, sep) == pb.update(pb.len() - 1, pb.last().push(b.last())));
            assert(p.last() == pb.last());
            assert(p.update(p.len() - 1, p.last().push(b.last())) =~= pa + pb.update(
                pb.len() - 1,
                pb.last().push(b.last()),
            ));
        }
    }
}

/// A text without the separator splits into itself alone.
pub proof fn lemma_split_whole(s: Seq<char>, sep: char)
    requires
        !has_char(s, sep),
    ensures
        split_on(s, sep) == seq![s],
{
    lemma_split_single(s, sep);
    lemma_join_split(s, sep);
    assert(split_on(s, sep) =~= seq![split_on(s, sep)[0]]);
}

} // verus!

verus! {

/// `a` and `b` agree on their first `k` characters, and there `a` ends
/// while `b` goes on, or `a` has the smaller character.
pub open spec fn first_difference_favours(a: Seq<char>, b: Seq<char>, k: int) -> bool {
    &&& 0 <= k <= a.len()
    &&& k <= b.len()
    &&& a.subrange(0, k) == b.subrange(0, k)
    &&& ((k == a.len() && k < b.len()) || (k < a.len() && k < b.len() && a[k] < b[k]))
}

/// Text order is dictionary order: `a` comes before `b` exactly when, at
/// the first place they differ, `a` has the smaller character, or `a` is a
/// proper prefix of `b`.
pub proof fn lemma_lex_lt_first_difference(a: Seq<char>, b: Seq<char>)
    ensures
        lex_lt(a, b) <==> exists|k: int| #[trigger] first_difference_favours(a, b, k),
    decreases a.len(),
{
    if a.len() == 0 {
        if b.len() > 0 {
            assert(a.subrange(0, 0) =~= b.subrange(0, 0));
            assert(first_difference_favours(a, b, 0));
        }
    } else if b.len() == 0 {
        if exists|k: int| #[trigger] first_difference_favours(a, b, k) {
            let k = choose|k: int| #[trigger] first_difference_favours(a, b, k);
        }
    } else if a[0] != b[0] {
        if a[0] < b[0] {
            assert(a.subrange(0, 0) =~= b.subrange(0, 0));
            assert(first_difference_favours(a, b, 0));
        }
        if exists|k: int| #[trigger] first_difference_favours(a, b, k) {
            let k = choose|k: int| #[trigger] first_difference_favours(a, b, k);
            if k > 0 {
                assert(a.subrange(0, k)[0] == b.subrange(0, k)[0]);
            }
        }
    } else {
        let a1 = a.drop_first();
        let b1 = b.drop_first();
        lemma_lex_lt_first_difference(a1, b1);
        if lex_lt(a1, b1) {
            let k = choose|k: int| #[trigger] first_difference_favours(a1, b1, k);
            assert(a.subrange(0, k + 1) =~= seq![a[0]] + a1.subrange(0, k));
            assert(b.subrange(0, k + 1) =~= seq![b[0]] + b1.subrange(0, k));
            assert(first_difference_favours(a, b, k + 1));
        }
        if exists|k: int| #[trigger] first_difference_favours(a, b, k) {
            let k = choose|k: int| #[trigger] first_difference_favours(a, b, k);
            if k == 0 {
                assert(a[0] == b[0]);
            } else {
                assert(a1.subrange(0, k - 1) =~= a.subrange(0, k).drop_first());
                assert(b1.subrange(0, k - 1) =~= b.subrange(0, k).drop_first());
                assert(first_difference_favours(a1, b1, k - 1));
            }
        }
    }
}

} // verus!
