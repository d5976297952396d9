use vstd::prelude::*;
use crate::numbers::{parse_u64, spec_parse_u64};
use crate::text::{
    chars_of, is_ascii_digit, is_digit, is_space, is_whitespace, starts_with, starts_with_exec,
    string_of, trim, trim_chars,
};

verus! {

/// Characters that may make up a metric value such as `1.2万`, `35%` or `3分钟`.
pub open spec fn is_metric_char(c: char) -> bool {
    is_digit(c) || is_space(c) || c == ',' || c == '.' || c == '%' || c == '％' || c == '+' || c == '-'
        || c == '−' || c == '万' || c == '元' || c == '分' || c == '钟' || c == '小' || c == '时'
        || c == '秒'
}

/// `s` has a digit.
pub open spec fn has_digit(s: Seq<char>) -> bool {
    exists|i: int| 0 <= i < s.len() && is_digit(#[trigger] s[i])
}

/// `s` is made of metric characters only.
pub open spec fn all_metric_chars(s: Seq<char>) -> bool {
    forall|i: int| 0 <= i < s.len() ==> is_metric_char(#[trigger] s[i])
}

/// A text that reads as a metric value: trimmed, it does not start with `较近`
/// (a comparison with an earlier period), has a digit, and has only metric characters.
pub open spec fn metric_value_text(s: Seq<char>) -> bool {
    let t = trim(s);
    !starts_with(t, "较近"@) && has_digit(t) && all_metric_chars(t)
}

/// A nonempty metric value text, the kind that may stand beside or below a label.
pub open spec fn plain_metric_value(s: Seq<char>) -> bool {
    trim(s).len() > 0 && metric_value_text(s)
}

/// A dash that a page shows where a metric has no value.
pub open spec fn empty_metric_value(s: Seq<char>) -> bool {
    trim(s) == "-"@ || trim(s) == "一"@
}

/// The digits and decimal points of `s`, in order.
pub open spec fn number_chars(s: Seq<char>) -> Seq<char>
    decreases s.len(),
{
    if s.len() == 0 {
        Seq::empty()
    } else if is_digit(s.last()) || s.last() == '.' {
        number_chars(s.drop_last()).push(s.last())
    } else {
        number_chars(s.drop_last())
    }
}

/// `s` without its commas.
pub open spec fn without_commas(s: Seq<char>) -> Seq<char>
    decreases s.len(),
{
    if s.len() == 0 {
        Seq::empty()
    } else if s.last() == ',' {
        without_commas(s.drop_last())
    } else {
        without_commas(s.drop_last()).push(s.last())
    }
}

/// The number that a metric value shows: its digits and decimal points, or `-` when
/// it has none and is a dash.
pub open spec fn stripped_number(s: Seq<char>) -> Seq<char> {
    if number_chars(s).len() == 0 && empty_metric_value(s) {
        "-"@
    } else {
        number_chars(s)
    }
}

/// Equality of two character sequences.
pub fn chars_eq(a: &[char], b: &[char]) -> (r: bool)
    ensures
        r == (a@ == b@),
{
    if a.len() != b.len() {
        return false;
    }
    let mut i: usize = 0;
    while i < a.len()
        invariant
            a.len() == b.len(),
            i <= a.len(),
            forall|k: int| 0 <= k < i ==> a@[k] == b@[k],
        decreases a.len() - i,
    {
        if a[i] != b[i] {
            return false;
        }
        i = i + 1;
    }
    assert(a@ =~= b@);
    true
}

fn is_metric_char_exec(c: char) -> (r: bool)
    ensures
        r == is_metric_char(c),
{
    is_ascii_digit(c) || is_whitespace(c) || c == ',' || c == '.' || c == '%' || c == '％' || c == '+'
        || c == '-' || c == '−' || c == '万' || c == '元' || c == '分' || c == '钟' || c == '小'
        || c == '时' || c == '秒'
}

/// `metric_value_text` on a sequence of characters.
pub fn metric_value_chars(s: &[char]) -> (r: bool)
    ensures
        r == metric_value_text(s@),
{
    let t = trim_chars(s);
    let prefix = chars_of("较近");
    if starts_with_exec(&t, &prefix) {
        return false;
    }
    let mut found_digit = false;
    let mut i: usize = 0;
    while i < t.len()
        invariant
            i <= t.len(),
            t@ == trim(s@),
            forall|k: int| 0 <= k < i ==> is_metric_char(#[trigger] t@[k]),
            found_digit == exists|k: int| 0 <= k < i && is_digit(#[trigger] t@[k]),
        decreases t.len() - i,
    {
        if !is_metric_char_exec(t[i]) {
            assert(!is_metric_char(t@[i as int]));
            assert(!all_metric_chars(t@));
            return false;
        }
        if is_ascii_digit(t[i]) {
            found_digit = true;
        }
        i = i + 1;
    }
    found_digit
}

/// A text that reads as a metric value (see `metric_value_text`).
pub fn is_metric_value_text(text: &str) -> (r: bool)
    ensures
        r == metric_value_text(text@),
{
    let s = chars_of(text);
    metric_value_chars(&s)
}

/// A nonempty text that reads as a metric value.
pub fn is_plain_metric_value(text: &str) -> (r: bool)
    ensures
        r == plain_metric_value(text@),
{
    let s = chars_of(text);
    let t = trim_chars(&s);
    t.len() > 0 && metric_value_chars(&s)
}

/// Every metric value text is nonempty, so the two readings agree.
pub proof fn lemma_plain_metric_value(s: Seq<char>)
    ensures
        plain_metric_value(s) == metric_value_text(s),
{
}

/// `empty_metric_value` on a sequence of characters.
pub fn empty_metric_chars(s: &[char]) -> (r: bool)
    ensures
        r == empty_metric_value(s@),
{
    let t = trim_chars(s);
    let dash = chars_of("-");
    let one = chars_of("一");
    chars_eq(&t, &dash) || chars_eq(&t, &one)
}

/// A dash that a page shows where a metric has no value.
pub fn is_empty_metric_value(text: &str) -> (r: bool)
    ensures
        r == empty_metric_value(text@),
{
    let s = chars_of(text);
    empty_metric_chars(&s)
}

fn number_chars_exec(s: &[char]) -> (r: Vec<char>)
    ensures
        r@ == number_chars(s@),
{
    let mut r: Vec<char> = Vec::new();
    let mut i: usize = 0;
    while i < s.len()
        invariant
            i <= s.len(),
            r@ == number_chars(s@.take(i as int)),
        decreases s.len() - i,
    {
        assert(s@.take(i + 1).drop_last() == s@.take(i as int));
        if is_ascii_digit(s[i]) || s[i] == '.' {
            r.push(s[i]);
        }
        i = i + 1;
    }
    assert(s@.take(s.len() as int) == s@);
    r
}

fn without_commas_exec(s: &[char]) -> (r: Vec<char>)
    ensures
        r@ == without_commas(s@),
{
    let mut r: Vec<char> = Vec::new();
    let mut i: usize = 0;
    while i < s.len()
        invariant
            i <= s.len(),
            r@ == without_commas(s@.take(i as int)),
        decreases s.len() - i,
    {
        assert(s@.take(i + 1).drop_last() == s@.take(i as int));
        if s[i] != ',' {
            r.push(s[i]);
        }
        i = i + 1;
    }
    assert(s@.take(s.len() as int) == s@);
    r
}

fn strip_number_chars(s: &[char]) -> (r: Vec<char>)
    ensures
        r@ == stripped_number(s@),
{
    let n = number_chars_exec(s);
    if n.len() == 0 && empty_metric_chars(s) {
        chars_of("-")
    } else {
        n
    }
}

/// The number that a metric value shows (see `stripped_number`).
pub fn strip_number_text(value: &str) -> (r: String)
    ensures
        r@ == stripped_number(value@),
{
    let s = chars_of(value);
    let r = strip_number_chars(&s);
    string_of(&r)
}

/// A count as a metric value shows it, with commas dropped after trimming.
pub open spec fn count_text(s: Seq<char>) -> Seq<char> {
    without_commas(trim(s))
}

/// A count written in units of ten thousand: it ends with `万`.
pub open spec fn is_ten_thousands(s: Seq<char>) -> bool {
    count_text(s).len() > 0 && count_text(s).last() == '万'
}

/// The integer count of a metric value without `万`: its number, read as `u64`.
pub open spec fn plain_count(s: Seq<char>) -> Option<u64> {
    spec_parse_u64(stripped_number(count_text(s)))
}

/// Reads a metric value as an integer count. A value in units of ten thousand
/// (`1.2万`) is scaled by `scale`, which gets the number before `万`; any other value
/// is read from its digits.
pub fn parse_count_to_integer<F: Fn(String) -> Option<u64>>(value: &str, scale: &F) -> (r: Option<u64>)
    requires
        forall|n: String| scale.requires((n,)),
    ensures
        is_ten_thousands(value@) ==> exists|n: String|
            n@ == count_text(value@).drop_last() && scale.ensures((n,), r),
        !is_ten_thousands(value@) ==> r == plain_count(value@),
{
    let s = chars_of(value);
    let t = trim_chars(&s);
    let v = without_commas_exec(&t);
    if v.len() > 0 && v[v.len() - 1] == '万' {
        let mut number: Vec<char> = Vec::new();
        let mut i: usize = 0;
        while i + 1 < v.len()
            invariant
                v.len() > 0,
                i + 1 <= v.len(),
                number@ == v@.take(i as int),
            decreases v.len() - i,
        {
            number.push(v[i]);
            assert(v@.take(i + 1) == v@.take(i as int).push(v@[i as int]));
            i = i + 1;
        }
        assert(number@ == v@.drop_last());
        let n = string_of(&number);
        let r = scale(n);
        return r;
    }
    let stripped = strip_number_chars(&v);
    parse_u64(&stripped)
}

} // verus!
