//! Escaping text for XML element content and attribute values.

use vstd::prelude::*;
use vstd::string::StringExecFns;
use crate::text::{chars_of, push_char};

verus! {

/// What one character becomes in escaped XML text.
pub open spec fn escape_char(c: char) -> Seq<char> {
    if c == '&' {
        seq!['&', 'a', 'm', 'p', ';']
    } else if c == '<' {
        seq!['&', 'l', 't', ';']
    } else if c == '>' {
        seq!['&', 'g', 't', ';']
    } else if c == '"' {
        seq!['&', 'q', 'u', 'o', 't', ';']
    } else if c == '\'' {
        seq!['&', 'a', 'p', 'o', 's', ';']
    } else {
        seq![c]
    }
}

/// `s` with every character replaced by its escape, in order.
pub open spec fn escaped(s: Seq<char>) -> Seq<char>
    decreases s.len(),
{
    if s.len() == 0 {
        Seq::empty()
    } else {
        escaped(s.drop_last()) + escape_char(s.last())
    }
}

/// A character that `escape` leaves alone.
pub open spec fn is_plain_xml_char(c: char) -> bool {
    c != '&' && c != '<' && c != '>' && c != '"' && c != '\''
}

/// Escapes text for XML element content and attribute values: `&`, `<`,
/// `>`, `"` and `'`. Everything else is left unchanged.
pub fn escape(s: &str) -> (r: String)
    ensures
        r@ == escaped(s@),
{
    let cs = chars_of(s);
    let mut out = String::new();
    let mut i: usize = 0;
    while i < cs.len()
        invariant
            i <= cs@.len(),
            cs@ == s@,
            out@ == escaped(cs@.subrange(0, i as int)),
        decreases cs@.len() - i,
    {
        let c = cs[i];
        proof {
            assert(cs@.subrange(0, i + 1).drop_last() == cs@.subrange(0, i as int));
            assert(cs@.subrange(0, i + 1).last() == c);
        }
        if c == '&' {
            out.append("&amp;");
            proof { reveal_strlit("&amp;"); }
        } else if c == '<' {
            out.append("&lt;");
            proof { reveal_strlit("&lt;"); }
        } else if c == '>' {
            out.append("&gt;");
            proof { reveal_strlit("&gt;"); }
        } else if c == '"' {
            out.append("&quot;");
            proof { reveal_strlit("&quot;"); }
        } else if c == '\'' {
            out.append("&apos;");
            proof { reveal_strlit("&apos;"); }
        } else {
            push_char(&mut out, c);
        }
        i += 1;
    }
    proof {
        assert(cs@.subrange(0, cs@.len() as int) == cs@);
    }
    out
}

/// Escaping distributes over concatenation.
pub proof fn lemma_escaped_concat(a: Seq<char>, b: Seq<char>)
    ensures
        escaped(a + b) == escaped(a) + escaped(b),
    decreases b.len(),
{
    if b.len() == 0 {
        assert(a + b == a);
    } else {
        lemma_escaped_concat(a, b.drop_last());
        assert((a + b).drop_last() == a + b.drop_last());
    }
}

/// Text with none of the five special characters is left unchanged.
pub proof fn lemma_escape_plain_is_identity(s: Seq<char>)
    requires
        forall|i: int| 0 <= i < s.len() ==> is_plain_xml_char(#[trigger] s[i]),
    ensures
        escaped(s) == s,
    decreases s.len(),
{
    if s.len() > 0 {
        lemma_escape_plain_is_identity(s.drop_last());
        assert(s.drop_last().push(s.last()) == s);
    }
}

} // verus!
