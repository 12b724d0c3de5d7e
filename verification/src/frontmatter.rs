//! The `---` JSON `---` block at the top of every page.

use vstd::prelude::*;
use vstd::string::StringExecFns;
use crate::error::MangoError;
use crate::sort::{sort_strings, sort_texts};
use crate::text::{chars_of, has_char, join, join_pieces, push_char, push_joined, push_range, split_chars, split_on, string_from_chars, views};

verus! {

/// Every key a page's frontmatter may contain, in the README field table's
/// order.
pub open spec fn accepted_keys() -> Seq<Seq<char>> {
    seq!["title"@, "author"@, "description"@, "date"@, "tags"@, "draft"@]
}

/// The keys a page's frontmatter must contain, in the order they are
/// reported.
pub open spec fn required_keys() -> Seq<Seq<char>> {
    seq!["title"@, "author"@, "description"@, "draft"@]
}

/// The keys of the JSON object that `json` holds, as serde_json reads it, or
/// `None` when `json` is not valid JSON or not an object.
pub uninterp spec fn json_object_keys(json: Seq<char>) -> Option<Seq<Seq<char>>>;

/// serde_json's reading of `json` as a `serde_json::Value`: the keys of the
/// object when it is an object, `None` otherwise (invalid JSON included).
#[verifier::external_body]
fn object_keys(json: &str) -> (r: Option<Vec<String>>)
    ensures
        match r {
            Some(v) => json_object_keys(json@) == Some(v.deep_view()),
            None => json_object_keys(json@) is None,
        },
{
    match serde_json::from_str::<serde_json::Value>(json) {
        Ok(serde_json::Value::Object(map)) => Some(map.keys().cloned().collect()),
        _ => None,
    }
}

/// A key that is not accepted.
pub open spec fn is_unknown_key() -> spec_fn(Seq<char>) -> bool {
    |k: Seq<char>| !accepted_keys().contains(k)
}

/// A key that `keys` lacks.
pub open spec fn is_absent_from(keys: Seq<Seq<char>>) -> spec_fn(Seq<char>) -> bool {
    |k: Seq<char>| !keys.contains(k)
}

/// The keys of `keys` that are not accepted, sorted byte-wise.
pub open spec fn unknown_keys(keys: Seq<Seq<char>>) -> Seq<Seq<char>> {
    sort_texts(keys.filter(is_unknown_key()))
}

/// The required keys that `keys` lacks, in the order they are reported.
pub open spec fn missing_keys(keys: Seq<Seq<char>>) -> Seq<Seq<char>> {
    required_keys().filter(is_absent_from(keys))
}

/// Every key problem, unknown keys first.
pub open spec fn key_problems(keys: Seq<Seq<char>>) -> Seq<Seq<char>> {
    unknown_keys(keys).map_values(|k: Seq<char>| "unknown '"@ + k + "'"@) + missing_keys(
        keys,
    ).map_values(|k: Seq<char>| "missing '"@ + k + "'"@)
}

/// The one message listing every key problem, plus the accepted keys when
/// any key is unknown.
pub open spec fn key_message(keys: Seq<Seq<char>>) -> Seq<char> {
    "invalid frontmatter keys: "@ + join(key_problems(keys), ", "@) + if unknown_keys(keys).len()
        > 0 {
        "; accepted keys are 'title', 'author', 'description', 'date', 'tags', 'draft'"@
    } else {
        Seq::empty()
    }
}

/// The key error for `json`, if any: none when it is not a JSON object (the
/// typed parse reports that) or when its keys are fine.
pub open spec fn key_error(json: Seq<char>) -> Option<Seq<char>> {
    match json_object_keys(json) {
        None => None,
        Some(keys) => if key_problems(keys).len() == 0 {
            None
        } else {
            Some(key_message(keys))
        },
    }
}

fn is_accepted(k: &String) -> (r: bool)
    ensures
        r == accepted_keys().contains(k@),
{
    let r = *k == String::from_str("title") || *k == String::from_str("author") || *k
        == String::from_str("description") || *k == String::from_str("date") || *k
        == String::from_str("tags") || *k == String::from_str("draft");
    proof {
        let a = accepted_keys();
        if r {
            if k@ == "title"@ {
                assert(a[0] == k@);
            } else if k@ == "author"@ {
                assert(a[1] == k@);
            } else if k@ == "description"@ {
                assert(a[2] == k@);
            } else if k@ == "date"@ {
                assert(a[3] == k@);
            } else if k@ == "tags"@ {
                assert(a[4] == k@);
            } else {
                assert(a[5] == k@);
            }
        } else {
            assert forall|i: int| 0 <= i < a.len() implies a[i] != k@ by {}
        }
    }
    r
}

fn contains_text(keys: &Vec<String>, k: &String) -> (r: bool)
    ensures
        r == keys.deep_view().contains(k@),
{
    let mut i: usize = 0;
    while i < keys.len()
        invariant
            i <= keys@.len(),
            forall|j: int| 0 <= j < i ==> keys.deep_view()[j] != k@,
        decreases keys@.len() - i,
    {
        assert(keys.deep_view()[i as int] == keys@[i as int]@);
        if keys[i] == *k {
            return true;
        }
        i += 1;
    }
    false
}

/// Checks the keys of a JSON object: one error listing every unknown key
/// (sorted byte-wise) and then every missing required key, plus the accepted
/// keys when any key is unknown. Anything that is not a JSON object passes,
/// so that the typed parse reports it.
pub fn check_keys(json: &str) -> (r: Result<(), MangoError>)
    ensures
        match key_error(json@) {
            None => r is Ok,
            Some(m) => r matches Err(MangoError::Frontmatter(e)) && e@ == m,
        },
{
    let keys = match object_keys(json) {
        None => return Ok(()),
        Some(k) => k,
    };
    let ghost kv = keys.deep_view();
    let mut unknown: Vec<String> = Vec::new();
    let mut i: usize = 0;
    while i < keys.len()
        invariant
            i <= keys@.len(),
            kv == keys.deep_view(),
            unknown.deep_view() == kv.subrange(0, i as int).filter(is_unknown_key()),
        decreases keys@.len() - i,
    {
        let ghost pre = kv.subrange(0, i as int);
        proof {
            assert(kv.subrange(0, i + 1).drop_last() =~= pre);
            assert(kv.subrange(0, i + 1).last() == keys@[i as int]@);
            assert(kv.subrange(0, i + 1) =~= pre.push(keys@[i as int]@));
            pre.lemma_filter_push(keys@[i as int]@, is_unknown_key());
        }
        if !is_accepted(&keys[i]) {
            let ghost old_u = unknown.deep_view();
            unknown.push(keys[i].clone());
            proof {
                assert(unknown.deep_view() =~= old_u.push(keys@[i as int]@));
            }
        }
        i += 1;
    }
    proof {
        assert(kv.subrange(0, keys@.len() as int) =~= kv);
    }
    let unknown = sort_strings(unknown);
    let required = vec![
        String::from_str("title"),
        String::from_str("author"),
        String::from_str("description"),
        String::from_str("draft"),
    ];
    proof {
        assert(required.deep_view() =~= required_keys());
    }
    let mut missing: Vec<String> = Vec::new();
    let mut j: usize = 0;
    while j < required.len()
        invariant
            j <= required@.len(),
            required.deep_view() == required_keys(),
            kv == keys.deep_view(),
            missing.deep_view() == required_keys().subrange(0, j as int).filter(is_absent_from(kv)),
        decreases required@.len() - j,
    {
        let ghost pre = required_keys().subrange(0, j as int);
        proof {
            assert(required_keys().subrange(0, j + 1).drop_last() =~= pre);
            assert(required_keys().subrange(0, j + 1).last() == required@[j as int]@);
            assert(required_keys().subrange(0, j + 1) =~= pre.push(required@[j as int]@));
            pre.lemma_filter_push(required@[j as int]@, is_absent_from(kv));
        }
        if !contains_text(&keys, &required[j]) {
            let ghost old_m = missing.deep_view();
            missing.push(required[j].clone());
            proof {
                assert(missing.deep_view() =~= old_m.push(required@[j as int]@));
            }
        }
        j += 1;
    }
    proof {
        assert(required_keys().subrange(0, 4) =~= required_keys());
    }
    let mut problems: Vec<String> = Vec::new();
    let mut k: usize = 0;
    while k < unknown.len()
        invariant
            k <= unknown@.len(),
            problems.deep_view() == unknown.deep_view().subrange(0, k as int).map_values(
                |x: Seq<char>| "unknown '"@ + x + "'"@,
            ),
        decreases unknown@.len() - k,
    {
        let p = String::from_str("unknown '").concat(unknown[k].as_str()).concat("'");
        let ghost old_p = problems.deep_view();
        problems.push(p);
        proof {
            assert(problems.deep_view() =~= old_p.push(p@));
            assert(unknown.deep_view().subrange(0, k + 1) =~= unknown.deep_view().subrange(
                0,
                k as int,
            ).push(unknown@[k as int]@));
        }
        k += 1;
    }
    let mut m: usize = 0;
    let ghost first = problems.deep_view();
    proof {
        assert(unknown.deep_view().subrange(0, unknown@.len() as int) =~= unknown.deep_view());
    }
    while m < missing.len()
        invariant
            m <= missing@.len(),
            problems.deep_view() == first + missing.deep_view().subrange(0, m as int).map_values(
                |x: Seq<char>| "missing '"@ + x + "'"@,
            ),
        decreases missing@.len() - m,
    {
        let p = String::from_str("missing '").concat(missing[m].as_str()).concat("'");
        let ghost old_p = problems.deep_view();
        problems.push(p);
        proof {
            assert(problems.deep_view() =~= old_p.push(p@));
            assert(missing.deep_view().subrange(0, m + 1) =~= missing.deep_view().subrange(
                0,
                m as int,
            ).push(missing@[m as int]@));
        }
        m += 1;
    }
    proof {
        assert(missing.deep_view().subrange(0, missing@.len() as int) =~= missing.deep_view());
        assert(problems.deep_view() =~= key_problems(kv));
    }
    if problems.len() == 0 {
        return Ok(());
    }
    let mut msg = String::from_str("invalid frontmatter keys: ");
    push_joined(&mut msg, &problems, ", ");
    if unknown.len() > 0 {
        msg.append("; accepted keys are 'title', 'author', 'description', 'date', 'tags', 'draft'");
    } else {
        proof {
            assert(msg@ + Seq::<char>::empty() =~= msg@);
        }
    }
    Err(MangoError::Frontmatter(msg))
}

} // verus!

verus! {

/// The byte order mark some editors put at the start of a file.
pub open spec fn bom() -> char {
    '\u{feff}'
}

/// A character with the Unicode `White_Space` property, as `str::trim` uses.
pub open spec fn is_white_space(c: char) -> bool {
    ('\u{9}' <= c && c <= '\u{d}') || c == ' ' || c == '\u{85}' || c == '\u{a0}' || c == '\u{1680}'
        || ('\u{2000}' <= c && c <= '\u{200a}') || c == '\u{2028}' || c == '\u{2029}' || c
        == '\u{202f}' || c == '\u{205f}' || c == '\u{3000}'
}

/// A line that is `---` once surrounding white space is trimmed.
pub open spec fn is_delimiter(line: Seq<char>) -> bool {
    exists|a: int|
        0 <= a && a + 3 <= line.len() && #[trigger] line[a] == '-' && line[a + 1] == '-' && line[a
            + 2] == '-' && (forall|k: int| 0 <= k < a ==> is_white_space(#[trigger] line[k])) && (
        forall|k: int| a + 3 <= k < line.len() ==> is_white_space(#[trigger] line[k]))
}

/// A line without the `\r` of a `\r\n` ending.
pub open spec fn strip_cr(p: Seq<char>) -> Seq<char> {
    if p.len() > 0 && p.last() == '\r' {
        p.drop_last()
    } else {
        p
    }
}

/// The lines of `s` as `str::lines` gives them: split at `\n`, a `\r` right
/// before a `\n` dropped, and no empty line after a final `\n`.
pub open spec fn text_lines(s: Seq<char>) -> Seq<Seq<char>> {
    let p = split_on(s, '\n');
    let head = Seq::new((p.len() - 1) as nat, |i: int| strip_cr(p[i]));
    if p.last().len() == 0 {
        head
    } else {
        head.push(p.last())
    }
}

/// `s` without one leading byte order mark.
pub open spec fn strip_bom(s: Seq<char>) -> Seq<char> {
    if s.len() > 0 && s[0] == bom() {
        s.drop_first()
    } else {
        s
    }
}

/// Some line after the first one closes the block.
pub open spec fn has_block_end(ls: Seq<Seq<char>>) -> bool {
    exists|m: int| 1 <= m < ls.len() && is_delimiter(#[trigger] ls[m])
}

/// The first line after the first one that closes the block.
pub open spec fn block_end(ls: Seq<Seq<char>>) -> int {
    choose|m: int|
        1 <= m < ls.len() && is_delimiter(ls[m]) && forall|k: int|
            1 <= k < m ==> !is_delimiter(#[trigger] ls[k])
}

/// What `parse` makes of `content`: the JSON text of its frontmatter block
/// (`None` without a block) and the body, or an error message.
pub open spec fn frontmatter_outcome(content: Seq<char>) -> Result<
    (Option<Seq<char>>, Seq<char>),
    Seq<char>,
> {
    let c = strip_bom(content);
    let ls = text_lines(c);
    if ls.len() == 0 || !is_delimiter(ls[0]) {
        Ok((None, c))
    } else if !has_block_end(ls) {
        Err("unterminated frontmatter block"@)
    } else {
        let m = block_end(ls);
        let json = join(ls.subrange(1, m), seq!['\n']);
        let body = join(ls.subrange(m + 1, ls.len() as int), seq!['\n']);
        match key_error(json) {
            Some(e) => Err(e),
            None => Ok((Some(json), body)),
        }
    }
}

fn is_white_space_exec(c: char) -> (r: bool)
    ensures
        r == is_white_space(c),
{
    ('\u{9}' <= c && c <= '\u{d}') || c == ' ' || c == '\u{85}' || c == '\u{a0}' || c == '\u{1680}'
        || ('\u{2000}' <= c && c <= '\u{200a}') || c == '\u{2028}' || c == '\u{2029}' || c
        == '\u{202f}' || c == '\u{205f}' || c == '\u{3000}'
}

fn is_delimiter_exec(line: &Vec<char>) -> (r: bool)
    ensures
        r == is_delimiter(line@),
{
    let mut a: usize = 0;
    while a < line.len() && is_white_space_exec(line[a])
        invariant
            a <= line@.len(),
            forall|k: int| 0 <= k < a ==> is_white_space(#[trigger] line@[k]),
        decreases line@.len() - a,
    {
        a += 1;
    }
    proof {
        assert(!is_white_space('-'));
        if is_delimiter(line@) {
            let b = choose|b: int|
                0 <= b && b + 3 <= line@.len() && #[trigger] line@[b] == '-' && line@[b + 1] == '-'
                    && line@[b + 2] == '-' && (forall|k: int|
                    0 <= k < b ==> is_white_space(#[trigger] line@[k])) && (forall|k: int|
                    b + 3 <= k < line@.len() ==> is_white_space(#[trigger] line@[k]));
            if b < a {
                assert(is_white_space(line@[b]));
            } else if b > a {
                if a < line@.len() {
                    assert(is_white_space(line@[a as int]));
                }
            }
            assert(b == a);
        }
    }
    if !(a < line.len() && line.len() - a >= 3 && line[a] == '-' && line[a + 1] == '-' && line[a
        + 2] == '-') {
        return false;
    }
    let mut k: usize = a + 3;
    while k < line.len()
        invariant
            a + 3 <= k <= line@.len(),
            forall|j: int| a + 3 <= j < k ==> is_white_space(#[trigger] line@[j]),
            is_delimiter(line@) ==> forall|j: int|
                a + 3 <= j < line@.len() ==> is_white_space(#[trigger] line@[j]),
        decreases line@.len() - k,
    {
        if !is_white_space_exec(line[k]) {
            return false;
        }
        k += 1;
    }
    proof {
        assert(line@[a as int] == '-');
    }
    true
}

fn strip_cr_exec(p: &Vec<char>) -> (r: Vec<char>)
    ensures
        r@ == strip_cr(p@),
{
    let n = if p.len() > 0 && p[p.len() - 1] == '\r' {
        p.len() - 1
    } else {
        p.len()
    };
    let mut r: Vec<char> = Vec::new();
    let mut i: usize = 0;
    while i < n
        invariant
            i <= n <= p@.len(),
            r@ == p@.subrange(0, i as int),
        decreases n - i,
    {
        r.push(p[i]);
        proof {
            assert(p@.subrange(0, i + 1) =~= p@.subrange(0, i as int).push(p@[i as int]));
        }
        i += 1;
    }
    proof {
        assert(p@.subrange(0, p@.len() as int) =~= p@);
        assert(p@.len() > 0 ==> p@.drop_last() =~= p@.subrange(0, p@.len() - 1));
    }
    r
}

fn text_lines_exec(cs: &Vec<char>) -> (r: Vec<Vec<char>>)
    ensures
        views(r@) == text_lines(cs@),
{
    let pieces = split_chars(cs, '\n');
    let ghost p = split_on(cs@, '\n');
    proof {
        crate::text::lemma_split_len(cs@, '\n');
    }
    let n = pieces.len();
    let mut r: Vec<Vec<char>> = Vec::new();
    let mut i: usize = 0;
    while i + 1 < n
        invariant
            n == pieces@.len(),
            views(pieces@) == p,
            n >= 1,
            i + 1 <= n,
            views(r@) == Seq::new(i as nat, |j: int| strip_cr(p[j])),
        decreases n - i,
    {
        let line = strip_cr_exec(&pieces[i]);
        let ghost old_r = r@;
        proof {
            assert(pieces@[i as int]@ == p[i as int]);
        }
        r.push(line);
        proof {
            assert(views(r@) =~= views(old_r).push(strip_cr(p[i as int])));
            assert(views(r@) =~= Seq::new((i + 1) as nat, |j: int| strip_cr(p[j])));
        }
        i += 1;
    }
    if pieces[n - 1].len() > 0 {
        let mut last: Vec<char> = Vec::new();
        let lp = &pieces[n - 1];
        let mut k: usize = 0;
        while k < lp.len()
            invariant
                k <= lp@.len(),
                last@ == lp@.subrange(0, k as int),
            decreases lp@.len() - k,
        {
            last.push(lp[k]);
            proof {
                assert(lp@.subrange(0, k + 1) =~= lp@.subrange(0, k as int).push(lp@[k as int]));
            }
            k += 1;
        }
        proof {
            assert(lp@.subrange(0, lp@.len() as int) =~= lp@);
        }
        let ghost old_r = r@;
        r.push(last);
        proof {
            assert(views(r@) =~= views(old_r).push(p.last()));
        }
    }
    r
}


/// Splits a leading `---` JSON `---` block from the markdown body, and checks
/// the block's keys. A UTF-8 byte order mark is ignored. Without a block the
/// content comes back unchanged; with one, the JSON text comes back for the
/// typed parse, and the body with `\n` line endings.
pub fn parse(content: String) -> (r: Result<(Option<String>, String), MangoError>)
    ensures
        match frontmatter_outcome(content@) {
            Ok((json, body)) => r matches Ok((j, b)) && j.deep_view() == json && b@ == body,
            Err(e) => r matches Err(MangoError::Frontmatter(m)) && m@ == e,
        },
{
    let all = chars_of(content.as_str());
    let mut cs: Vec<char> = Vec::new();
    let start: usize = if all.len() > 0 && all[0] == '\u{feff}' {
        1
    } else {
        0
    };
    let mut i: usize = start;
    while i < all.len()
        invariant
            start <= i <= all@.len(),
            cs@ == all@.subrange(start as int, i as int),
        decreases all@.len() - i,
    {
        cs.push(all[i]);
        proof {
            assert(all@.subrange(start as int, i + 1) =~= all@.subrange(start as int, i as int).push(
                all@[i as int],
            ));
        }
        i += 1;
    }
    proof {
        assert(cs@ =~= strip_bom(content@));
    }
    let ls = text_lines_exec(&cs);
    let ghost lv = views(ls@);
    if ls.len() == 0 || !is_delimiter_exec(&ls[0]) {
        return Ok((None, string_from_chars(&cs)));
    }
    let mut m: usize = 1;
    while m < ls.len() && !is_delimiter_exec(&ls[m])
        invariant
            1 <= m <= ls@.len(),
            lv == views(ls@),
            forall|k: int| 1 <= k < m ==> !is_delimiter(#[trigger] lv[k]),
        decreases ls@.len() - m,
    {
        m += 1;
    }
    if m == ls.len() {
        proof {
            assert forall|k: int| 1 <= k < lv.len() implies !is_delimiter(#[trigger] lv[k]) by {}
        }
        return Err(MangoError::Frontmatter(String::from_str("unterminated frontmatter block")));
    }
    proof {
        let b = block_end(lv);
        assert(is_delimiter(lv[m as int]));
        if b < m {
            assert(!is_delimiter(lv[b]));
        } else if b > m {
            assert(!is_delimiter(lv[m as int]));
        }
    }
    let json = join_pieces(&ls, 1, m, '\n');
    let body = join_pieces(&ls, m + 1, ls.len(), '\n');
    match check_keys(json.as_str()) {
        Ok(()) => Ok((Some(json), body)),
        Err(e) => Err(e),
    }
}

} // verus!

verus! {

/// `s` with every `\n` written as `\r\n`, as Windows editors save files.
pub open spec fn crlf(s: Seq<char>) -> Seq<char>
    decreases s.len(),
{
    if s.len() == 0 {
        s
    } else if s.last() == '\n' {
        crlf(s.drop_last()) + seq!['\r', '\n']
    } else {
        crlf(s.drop_last()).push(s.last())
    }
}

proof fn lemma_crlf_concat(a: Seq<char>, b: Seq<char>)
    ensures
        crlf(a + b) == crlf(a) + crlf(b),
    decreases b.len(),
{
    if b.len() == 0 {
        assert(a + b =~= a);
        assert(crlf(a) + crlf(b) =~= crlf(a));
    } else {
        lemma_crlf_concat(a, b.drop_last());
        assert((a + b).drop_last() =~= a + b.drop_last());
        assert((a + b).last() == b.last());
        if b.last() == '\n' {
            assert(crlf(a) + (crlf(b.drop_last()) + seq!['\r', '\n']) =~= (crlf(a) + crlf(
                b.drop_last(),
            )) + seq!['\r', '\n']);
        } else {
            assert(crlf(a) + crlf(b.drop_last()).push(b.last()) =~= (crlf(a) + crlf(b.drop_last())).push(
                b.last(),
            ));
        }
    }
}

proof fn lemma_crlf_no_cr(s: Seq<char>)
    requires
        !has_char(s, '\r'),
    ensures
        ({
            let lf = split_on(s, '\n');
            let cr = split_on(crlf(s), '\n');
            &&& lf.len() == cr.len()
            &&& lf.len() >= 1
            &&& cr.last() == lf.last()
            &&& forall|i: int| 0 <= i < lf.len() - 1 ==> #[trigger] cr[i] == lf[i].push('\r')
            &&& forall|i: int| 0 <= i < lf.len() ==> !has_char(#[trigger] lf[i], '\r')
        }),
    decreases s.len(),
{
    if s.len() > 0 {
        let t = s.drop_last();
        assert(!has_char(t, '\r')) by {
            if has_char(t, '\r') {
                let k = choose|k: int| 0 <= k < t.len() && t[k] == '\r';
                assert(s[k] == '\r');
            }
        }
        lemma_crlf_no_cr(t);
        let c = s.last();
        assert(c != '\r') by {
            assert(s[s.len() - 1] == c);
        }
        let p = split_on(t, '\n');
        let q = split_on(crlf(t), '\n');
        if c == '\n' {
            let x = crlf(t).push('\r');
            assert(crlf(s) =~= x.push('\n'));
            assert(x.push('\n').drop_last() =~= x);
            assert(x.drop_last() =~= crlf(t));
            assert(x.last() == '\r');
            assert(x.push('\n').last() == '\n');
            assert(split_on(x, '\n') == q.update(q.len() - 1, q.last().push('\r')));
            assert(split_on(x.push('\n'), '\n') == split_on(x, '\n').push(Seq::empty()));
            let lf = split_on(s, '\n');
            let cr = split_on(crlf(s), '\n');
            assert(cr == q.update(q.len() - 1, q.last().push('\r')).push(Seq::empty()));
            assert(lf == p.push(Seq::empty()));
            assert forall|i: int| 0 <= i < lf.len() - 1 implies #[trigger] cr[i] == lf[i].push('\r') by {
                if i < p.len() - 1 {
                    assert(cr[i] == q[i]);
                    assert(lf[i] == p[i]);
                } else {
                    assert(cr[i] == q.last().push('\r'));
                    assert(lf[i] == p.last());
                }
            }
            assert forall|i: int| 0 <= i < lf.len() implies !has_char(#[trigger] lf[i], '\r') by {
                if i < lf.len() - 1 {
                    assert(lf[i] == p[i]);
                }
            }
        } else {
            let x = crlf(t).push(c);
            assert(crlf(s) =~= x);
            assert(x.drop_last() =~= crlf(t));
            let lf = split_on(s, '\n');
            let cr = split_on(crlf(s), '\n');
            assert(lf =~= p.update(p.len() - 1, p.last().push(c)));
            assert(cr =~= q.update(q.len() - 1, q.last().push(c)));
            assert forall|i: int| 0 <= i < lf.len() implies !has_char(#[trigger] lf[i], '\r') by {
                if i < lf.len() - 1 {
                    assert(lf[i] == p[i]);
                } else {
                    assert(!has_char(p.last(), '\r'));
                    if has_char(lf[i], '\r') {
                        let k = choose|k: int| 0 <= k < lf[i].len() && lf[i][k] == '\r';
                        if k < p.last().len() {
                            assert(p.last()[k] == '\r');
                        }
                    }
                }
            }
        }
    }
}

/// A document saved with `\r\n` line endings has the same lines as the same
/// document saved with `\n` line endings.
pub proof fn lemma_crlf_same_lines(s: Seq<char>)
    requires
        !has_char(s, '\r'),
    ensures
        text_lines(crlf(s)) == text_lines(s),
{
    lemma_crlf_no_cr(s);
    let lf = split_on(s, '\n');
    let cr = split_on(crlf(s), '\n');
    assert forall|i: int| 0 <= i < lf.len() - 1 implies strip_cr(#[trigger] cr[i]) == strip_cr(lf[i]) by {
        assert(cr[i].drop_last() =~= lf[i]);
        if lf[i].len() > 0 {
            assert(lf[i].last() != '\r') by {
                assert(lf[i][lf[i].len() - 1] == lf[i].last());
            }
        }
    }
    assert(Seq::new((cr.len() - 1) as nat, |i: int| strip_cr(cr[i])) =~= Seq::new(
        (lf.len() - 1) as nat,
        |i: int| strip_cr(lf[i]),
    ));
}

/// CRLF and LF documents with a frontmatter block parse identically: the
/// same JSON text, the same body (with `\n` endings) or the same error.
pub proof fn lemma_crlf_parses_like_lf(s: Seq<char>)
    requires
        !has_char(s, '\r'),
        text_lines(strip_bom(s)).len() > 0,
        is_delimiter(text_lines(strip_bom(s))[0]),
    ensures
        frontmatter_outcome(crlf(s)) == frontmatter_outcome(s),
{
    let c = strip_bom(s);
    assert(!has_char(c, '\r')) by {
        if has_char(c, '\r') {
            let k = choose|k: int| 0 <= k < c.len() && c[k] == '\r';
            if s.len() > 0 && s[0] == bom() {
                assert(s[k + 1] == '\r');
            } else {
                assert(s[k] == '\r');
            }
        }
    }
    if s.len() > 0 {
        let head = seq![s[0]];
        let rest = s.drop_first();
        assert(s =~= head + rest);
        lemma_crlf_concat(head, rest);
        assert(head.drop_last() =~= Seq::<char>::empty());
        assert(head.last() == s[0]);
        assert(crlf(head.drop_last()) =~= Seq::<char>::empty());
        if s[0] == '\n' {
            assert(crlf(head) == crlf(head.drop_last()) + seq!['\r', '\n']);
            assert(crlf(head) =~= seq!['\r', '\n']);
        } else {
            assert(crlf(head) == crlf(head.drop_last()).push(s[0]));
            assert(crlf(head) =~= head);
        }
        if s[0] == bom() {
            assert(strip_bom(crlf(s)) =~= crlf(rest));
            assert(c =~= rest);
        } else {
            assert(crlf(s)[0] != bom());
            assert(strip_bom(crlf(s)) == crlf(s));
        }
    }
    lemma_crlf_same_lines(c);
}

/// A byte order mark in front of a document changes nothing.
pub proof fn lemma_bom_is_ignored(s: Seq<char>)
    requires
        s.len() == 0 || s[0] != bom(),
    ensures
        frontmatter_outcome(seq![bom()] + s) == frontmatter_outcome(s),
{
    assert((seq![bom()] + s).drop_first() =~= s);
}

} // verus!

verus! {

/// The lines of a text without `\r` hold no `\r`.
proof fn lemma_lines_lack_cr(c: Seq<char>)
    requires
        !has_char(c, '\r'),
    ensures
        forall|i: int| 0 <= i < text_lines(c).len() ==> !has_char(#[trigger] text_lines(c)[i], '\r'),
{
    lemma_crlf_no_cr(c);
    let p = split_on(c, '\n');
    let ls = text_lines(c);
    assert forall|i: int| 0 <= i < ls.len() implies !has_char(#[trigger] ls[i], '\r') by {
        assert(!has_char(p[i], '\r'));
        if i < p.len() - 1 {
            assert(ls[i] == strip_cr(p[i]));
            if p[i].len() > 0 && p[i].last() == '\r' {
                assert(p[i][p[i].len() - 1] == '\r');
            }
        } else {
            assert(ls[i] == p.last());
        }
    }
}

/// When some line closes the block, a first such line exists.
proof fn lemma_first_delimiter(ls: Seq<Seq<char>>, w: int)
    requires
        1 <= w < ls.len(),
        is_delimiter(ls[w]),
    ensures
        1 <= block_end(ls) < ls.len(),
    decreases w,
{
    if exists|k: int| 1 <= k < w && is_delimiter(#[trigger] ls[k]) {
        let k = choose|k: int| 1 <= k < w && is_delimiter(#[trigger] ls[k]);
        lemma_first_delimiter(ls, k);
    } else {
        assert(forall|k: int| 1 <= k < w ==> !is_delimiter(#[trigger] ls[k]));
    }
}

/// A document without `\r` (past a byte order mark) parses to a body
/// without `\r`.
proof fn lemma_body_lacks_cr(s: Seq<char>)
    requires
        !has_char(strip_bom(s), '\r'),
    ensures
        frontmatter_outcome(s) matches Ok((_, body)) ==> !has_char(body, '\r'),
{
    let c = strip_bom(s);
    let ls = text_lines(c);
    if ls.len() > 0 && is_delimiter(ls[0]) && has_block_end(ls) {
        lemma_lines_lack_cr(c);
        let w = choose|m: int| 1 <= m < ls.len() && is_delimiter(#[trigger] ls[m]);
        lemma_first_delimiter(ls, w);
        let m = block_end(ls);
        let rest = ls.subrange(m + 1, ls.len() as int);
        assert forall|i: int| 0 <= i < rest.len() implies !has_char(#[trigger] rest[i], '\r') by {
            assert(rest[i] == ls[m + 1 + i]);
        }
        let nl = seq!['\n'];
        assert(!has_char(nl, '\r')) by {
            if has_char(nl, '\r') {
                let k = choose|k: int| 0 <= k < nl.len() && nl[k] == '\r';
                assert(nl[0] == '\n');
            }
        }
        crate::text::lemma_join_lacks(rest, nl, '\r');
    }
}

/// A document saved with `\r\n` line endings parses to a body without any
/// `\r`: the body comes back with `\n` line endings only.
pub proof fn lemma_crlf_body_has_no_cr(s: Seq<char>)
    requires
        !has_char(s, '\r'),
        text_lines(strip_bom(s)).len() > 0,
        is_delimiter(text_lines(strip_bom(s))[0]),
    ensures
        frontmatter_outcome(crlf(s)) matches Ok((_, body)) ==> !has_char(body, '\r'),
{
    lemma_crlf_parses_like_lf(s);
    let c = strip_bom(s);
    assert(!has_char(c, '\r')) by {
        if has_char(c, '\r') {
            let k = choose|k: int| 0 <= k < c.len() && c[k] == '\r';
            if s.len() > 0 && s[0] == bom() {
                assert(s[k + 1] == '\r');
            } else {
                assert(s[k] == '\r');
            }
        }
    }
    lemma_body_lacks_cr(s);
}

} // verus!
