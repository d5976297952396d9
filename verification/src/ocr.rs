use vstd::prelude::*;
use crate::text::{chars_of, is_space, is_whitespace, leading_spaces, string_of, trailing_spaces, trim, trim_chars};

verus! {

/// Signs that whitespace before or after is dropped around.
pub open spec fn is_sign(c: char) -> bool {
    c == '+' || c == '-' || c == '−'
}

/// Characters that whitespace before is dropped before: signs and percent signs.
pub open spec fn is_sign_or_percent(c: char) -> bool {
    c == '%' || c == '％' || is_sign(c)
}

/// The normalized text of `c` (already trimmed) from index `i` on, after `acc`: each run
/// of whitespace becomes one space, except that whitespace just before a sign or
/// percent sign, or just after a sign, is dropped.
pub open spec fn normalize_from(c: Seq<char>, i: int, acc: Seq<char>) -> Seq<char>
    decreases c.len() - i,
{
    if i < 0 || i >= c.len() {
        acc
    } else if is_space(c[i]) {
        if (i + 1 < c.len() && is_sign_or_percent(c[i + 1])) || (i > 0 && is_sign(c[i - 1])) {
            normalize_from(c, i + 1, acc)
        } else if acc.len() > 0 && acc.last() == ' ' {
            normalize_from(c, i + 1, acc)
        } else {
            normalize_from(c, i + 1, acc.push(' '))
        }
    } else {
        normalize_from(c, i + 1, acc.push(c[i]))
    }
}

/// Recognized text tidied up: trimmed, with whitespace collapsed and dropped around
/// signs (see `normalize_from`).
pub open spec fn normalized(text: Seq<char>) -> Seq<char> {
    normalize_from(trim(text), 0, Seq::empty())
}

/// Whitespace in `r` is only single spaces, each before a character that is none.
pub open spec fn spaces_collapsed(r: Seq<char>) -> bool {
    forall|k: int| 0 <= k < r.len() && is_space(#[trigger] r[k]) ==> {
        &&& r[k] == ' '
        &&& k > 0
        &&& k + 1 < r.len() ==> !is_space(r[k + 1])
    }
}

proof fn lemma_leading_stop(s: Seq<char>)
    ensures
        leading_spaces(s) <= s.len(),
        leading_spaces(s) < s.len() ==> !is_space(s[leading_spaces(s) as int]),
    decreases s.len(),
{
    if s.len() > 0 && is_space(s[0]) {
        lemma_leading_stop(s.drop_first());
        if leading_spaces(s) < s.len() {
            assert(s[leading_spaces(s) as int] == s.drop_first()[leading_spaces(s.drop_first()) as int]);
        }
    }
}

proof fn lemma_trailing_stop(s: Seq<char>)
    ensures
        trailing_spaces(s) <= s.len(),
        trailing_spaces(s) < s.len() ==> !is_space(s[s.len() - 1 - trailing_spaces(s)]),
        forall|k: int| s.len() - trailing_spaces(s) <= k < s.len() ==> is_space(#[trigger] s[k]),
    decreases s.len(),
{
    if s.len() > 0 && is_space(s.last()) {
        lemma_trailing_stop(s.drop_last());
        if trailing_spaces(s) < s.len() {
            assert(s[s.len() - 1 - trailing_spaces(s)] == s.drop_last()[s.drop_last().len() - 1 - trailing_spaces(s.drop_last())]);
        }
        assert forall|k: int| s.len() - trailing_spaces(s) <= k < s.len() implies is_space(#[trigger] s[k]) by {
            if k < s.len() - 1 {
                assert(s[k] == s.drop_last()[k]);
            }
        }
    }
}

proof fn lemma_trim_ends(s: Seq<char>)
    ensures
        trim(s).len() > 0 ==> !is_space(trim(s)[0]) && !is_space(trim(s).last()),
{
    lemma_leading_stop(s);
    lemma_trailing_stop(s);
    let t = trim(s);
    if t.len() > 0 {
        let l = leading_spaces(s) as int;
        if s.len() - trailing_spaces(s) <= l {
            assert(is_space(s[l]));
        }
        assert(t[0] == s[leading_spaces(s) as int]);
        assert(t.last() == s[s.len() - 1 - trailing_spaces(s)]);
    }
}

proof fn lemma_normalize_collapses(c: Seq<char>, i: int, acc: Seq<char>)
    requires
        0 <= i <= c.len(),
        c.len() > 0 ==> !is_space(c[0]) && !is_space(c.last()),
        i > 0 ==> acc.len() > 0,
        spaces_collapsed(acc),
    ensures
        spaces_collapsed(normalize_from(c, i, acc)),
        i < c.len() ==> normalize_from(c, i, acc).len() > 0 && !is_space(normalize_from(c, i, acc).last()),
        i == c.len() ==> normalize_from(c, i, acc) == acc,
    decreases c.len() - i,
{
    if i < c.len() {
        if is_space(c[i]) {
            if (i + 1 < c.len() && is_sign_or_percent(c[i + 1])) || (i > 0 && is_sign(c[i - 1])) {
                lemma_normalize_collapses(c, i + 1, acc);
            } else if acc.len() > 0 && acc.last() == ' ' {
                lemma_normalize_collapses(c, i + 1, acc);
            } else {
                let next = acc.push(' ');
                assert(spaces_collapsed(next)) by {
                    assert forall|k: int| 0 <= k < next.len() && is_space(#[trigger] next[k]) implies {
                        &&& next[k] == ' '
                        &&& k > 0
                        &&& k + 1 < next.len() ==> !is_space(next[k + 1])
                    } by {
                        if k < acc.len() {
                            assert(next[k] == acc[k]);
                            if k + 1 < acc.len() {
                                assert(next[k + 1] == acc[k + 1]);
                            }
                        }
                    }
                }
                lemma_normalize_collapses(c, i + 1, next);
            }
        } else {
            let next = acc.push(c[i]);
            assert(spaces_collapsed(next)) by {
                assert forall|k: int| 0 <= k < next.len() && is_space(#[trigger] next[k]) implies {
                    &&& next[k] == ' '
                    &&& k > 0
                    &&& k + 1 < next.len() ==> !is_space(next[k + 1])
                } by {
                    assert(next[k] == acc[k]);
                    if k + 1 < acc.len() {
                        assert(next[k + 1] == acc[k + 1]);
                    }
                }
            }
            lemma_normalize_collapses(c, i + 1, next);
        }
    }
}

/// Tidied text has no whitespace but single spaces between other characters: it does
/// not start or end with whitespace and never holds two whitespace characters in a row.
pub proof fn lemma_normalized_spaces(text: Seq<char>)
    ensures
        forall|k: int| 0 <= k < normalized(text).len() && is_space(#[trigger] normalized(text)[k]) ==> {
            &&& normalized(text)[k] == ' '
            &&& 0 < k < normalized(text).len() - 1
            &&& !is_space(normalized(text)[k - 1])
            &&& !is_space(normalized(text)[k + 1])
        },
{
    let c = trim(text);
    lemma_trim_ends(text);
    lemma_normalize_collapses(c, 0, Seq::empty());
    let r = normalized(text);
    assert forall|k: int| 0 <= k < r.len() && is_space(#[trigger] r[k]) implies {
        &&& r[k] == ' '
        &&& 0 < k < r.len() - 1
        &&& !is_space(r[k - 1])
        &&& !is_space(r[k + 1])
    } by {
        if is_space(r[k - 1]) {
            assert(r[k - 1] == ' ');
        }
    }
}

fn is_sign_exec(c: char) -> (r: bool)
    ensures
        r == is_sign(c),
{
    c == '+' || c == '-' || c == '−'
}

/// `normalized` on a sequence of characters.
pub fn normalize_chars(text: &[char]) -> (r: Vec<char>)
    ensures
        r@ == normalized(text@),
{
    let c = trim_chars(text);
    let mut out: Vec<char> = Vec::new();
    let mut i: usize = 0;
    while i < c.len()
        invariant
            i <= c.len(),
            normalized(text@) == normalize_from(c@, i as int, out@),
        decreases c.len() - i,
    {
        let ch = c[i];
        if is_whitespace(ch) {
            let next_sign = i + 1 < c.len() && (c[i + 1] == '%' || c[i + 1] == '％' || is_sign_exec(c[i + 1]));
            let prev_sign = i > 0 && is_sign_exec(c[i - 1]);
            if next_sign || prev_sign {
                i = i + 1;
                continue;
            }
            if out.len() > 0 && out[out.len() - 1] == ' ' {
                i = i + 1;
                continue;
            }
            out.push(' ');
        } else {
            out.push(ch);
        }
        i = i + 1;
    }
    out
}

/// Tidies recognized text (see `normalized`).
pub fn normalize_joined_text(text: &str) -> (r: String)
    ensures
        r@ == normalized(text@),
{
    let s = chars_of(text);
    let n = normalize_chars(&s);
    string_of(&n)
}

} // verus!
