use vstd::prelude::*;
use crate::text::{chars_of, string_of};

verus! {

/// How one character of a cached text field is written.
pub open spec fn escape_char(c: char) -> Seq<char> {
    if c == '\\' {
        seq!['\\', '\\']
    } else if c == '\t' {
        seq!['\\', 't']
    } else if c == '\n' {
        seq!['\\', 'n']
    } else if c == '\r' {
        seq!['\\', 'r']
    } else {
        seq![c]
    }
}

/// A text field as the OCR cache writes it: backslash, tab, newline and carriage
/// return each become a backslash followed by `\`, `t`, `n` or `r`.
pub open spec fn escape_field(s: Seq<char>) -> Seq<char>
    decreases s.len(),
{
    if s.len() == 0 {
        Seq::empty()
    } else {
        escape_field(s.drop_last()) + escape_char(s.last())
    }
}

/// What a backslash followed by `c` stands for in a cached text field.
pub open spec fn unescape_pair(c: char) -> Seq<char> {
    if c == '\\' {
        seq!['\\']
    } else if c == 't' {
        seq!['\t']
    } else if c == 'n' {
        seq!['\n']
    } else if c == 'r' {
        seq!['\r']
    } else {
        seq!['\\', c]
    }
}

/// A cached text field read back: each backslash pair is decoded as `unescape_pair`
/// says, and a backslash at the very end stands for itself.
pub open spec fn unescape_field(s: Seq<char>) -> Seq<char>
    decreases s.len(),
{
    if s.len() == 0 {
        Seq::empty()
    } else if s[0] != '\\' {
        seq![s[0]] + unescape_field(s.drop_first())
    } else if s.len() == 1 {
        seq!['\\']
    } else {
        unescape_pair(s[1]) + unescape_field(s.subrange(2, s.len() as int))
    }
}

proof fn lemma_escape_prepend(c: char, s: Seq<char>)
    ensures
        escape_field(seq![c] + s) == escape_char(c) + escape_field(s),
    decreases s.len(),
{
    if s.len() == 0 {
        assert(seq![c] + s == seq![c]);
        assert((seq![c]).drop_last() =~= Seq::<char>::empty());
        assert(escape_field(Seq::<char>::empty()) == Seq::<char>::empty());
        assert(escape_field(seq![c]) =~= escape_char(c));
    } else {
        assert((seq![c] + s).drop_last() == seq![c] + s.drop_last());
        lemma_escape_prepend(c, s.drop_last());
        assert((seq![c] + s).last() == s.last());
        assert(escape_field(seq![c] + s) == escape_field(seq![c] + s.drop_last()) + escape_char(s.last()));
        assert(escape_char(c) + escape_field(s.drop_last()) + escape_char(s.last())
            =~= escape_char(c) + (escape_field(s.drop_last()) + escape_char(s.last())));
    }
}

/// Reading back a field that the cache wrote gives the text it was written from.
pub proof fn lemma_unescape_escape(s: Seq<char>)
    ensures
        unescape_field(escape_field(s)) == s,
    decreases s.len(),
{
    if s.len() == 0 {
        assert(escape_field(s) == Seq::<char>::empty());
    } else {
        let c = s[0];
        let rest = s.drop_first();
        assert(s == seq![c] + rest);
        lemma_escape_prepend(c, rest);
        lemma_unescape_escape(rest);
        let e = escape_field(s);
        assert(e == escape_char(c) + escape_field(rest));
        if c == '\\' || c == '\t' || c == '\n' || c == '\r' {
            assert(e[0] == '\\');
            assert(e.subrange(2, e.len() as int) =~= escape_field(rest));
        } else {
            assert(e[0] == c);
            assert(e.drop_first() =~= escape_field(rest));
        }
        assert(unescape_field(e) =~= s);
    }
}

/// Writes a text field for the OCR cache.
pub fn escape_cache_field(value: &str) -> (r: String)
    ensures
        r@ == escape_field(value@),
{
    let s = chars_of(value);
    let out = escape_chars(&s);
    string_of(&out)
}

/// Reads back a text field of the OCR cache.
pub fn unescape_cache_field(value: &str) -> (r: String)
    ensures
        r@ == unescape_field(value@),
{
    let s = chars_of(value);
    let out = unescape_chars(&s);
    string_of(&out)
}

/// `escape_field` on a sequence of characters.
pub fn escape_chars(s: &[char]) -> (out: Vec<char>)
    ensures
        out@ == escape_field(s@),
{
    let mut out: Vec<char> = Vec::new();
    let mut i: usize = 0;
    while i < s.len()
        invariant
            i <= s.len(),
            out@ == escape_field(s@.take(i as int)),
        decreases s.len() - i,
    {
        let c = s[i];
        assert(s@.take(i + 1).drop_last() == s@.take(i as int));
        if c == '\\' {
            out.push('\\');
            out.push('\\');
        } else if c == '\t' {
            out.push('\\');
            out.push('t');
        } else if c == '\n' {
            out.push('\\');
            out.push('n');
        } else if c == '\r' {
            out.push('\\');
            out.push('r');
        } else {
            out.push(c);
        }
        i = i + 1;
        assert(out@ =~= escape_field(s@.take(i as int)));
    }
    assert(s@.take(s.len() as int) == s@);
    out
}

/// `unescape_field` on a sequence of characters.
pub fn unescape_chars(s: &[char]) -> (out: Vec<char>)
    ensures
        out@ == unescape_field(s@),
{
    let mut out: Vec<char> = Vec::new();
    let mut i: usize = 0;
    assert(s@.subrange(0, s.len() as int) == s@);
    assert(out@ + unescape_field(s@) == unescape_field(s@));
    while i < s.len()
        invariant
            i <= s.len(),
            unescape_field(s@) == out@ + unescape_field(s@.subrange(i as int, s.len() as int)),
        decreases s.len() - i,
    {
        let ghost rest = s@.subrange(i as int, s.len() as int);
        let c = s[i];
        if c != '\\' {
            out.push(c);
            assert(rest.drop_first() =~= s@.subrange(i + 1, s.len() as int));
            i = i + 1;
        } else if i + 1 == s.len() {
            out.push('\\');
            assert(s@.subrange(i + 1, s.len() as int) =~= Seq::<char>::empty());
            i = i + 1;
        } else {
            let n = s[i + 1];
            if n == '\\' {
                out.push('\\');
            } else if n == 't' {
                out.push('\t');
            } else if n == 'n' {
                out.push('\n');
            } else if n == 'r' {
                out.push('\r');
            } else {
                out.push('\\');
                out.push(n);
            }
            assert(rest.subrange(2, rest.len() as int) =~= s@.subrange(i + 2, s.len() as int));
            i = i + 2;
        }
    }
    assert(s@.subrange(s.len() as int, s.len() as int) =~= Seq::<char>::empty());
    out
}

} // verus!
