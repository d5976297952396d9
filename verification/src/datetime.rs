use vstd::prelude::*;
use crate::text::{
    after_first, chars_of, copy_range, find_exec, is_ascii_digit, is_ascii_space, is_ascii_whitespace,
    is_digit, matches_at, string_of,
};

verus! {

/// `s[i..i + n]` lies inside `s` and holds only ASCII digits.
pub open spec fn digits_at(s: Seq<char>, i: int, n: int) -> bool {
    0 <= i && i + n <= s.len() && forall|k: int| 0 <= k < n ==> is_digit(#[trigger] s[i + k])
}

/// A date `YYYY-MM-DD` starts at index `i` of `s`.
pub open spec fn is_date_at(s: Seq<char>, i: int) -> bool {
    &&& digits_at(s, i, 4)
    &&& i + 10 <= s.len()
    &&& s[i + 4] == '-'
    &&& digits_at(s, i + 5, 2)
    &&& s[i + 7] == '-'
    &&& digits_at(s, i + 8, 2)
}

/// The first index at or after `j` that holds no ASCII whitespace.
pub open spec fn skip_ascii_spaces(s: Seq<char>, j: int) -> int
    decreases s.len() - j,
{
    if 0 <= j < s.len() && is_ascii_space(s[j]) {
        skip_ascii_spaces(s, j + 1)
    } else {
        j
    }
}

/// The end of the one or two digits that begin at `start`.
pub open spec fn hour_end(s: Seq<char>, start: int) -> int {
    if 0 <= start < s.len() && is_digit(s[start]) {
        if start + 1 < s.len() && is_digit(s[start + 1]) {
            start + 2
        } else {
            start + 1
        }
    } else {
        start
    }
}

/// The date and time `YYYY-MM-DD HH:MM:SS` that starts at index `i` of `s`, if one does:
/// the date, optional ASCII whitespace, an hour of one or two digits, then `:MM:SS`.
/// A one-digit hour is written with a leading zero.
pub open spec fn datetime_at(s: Seq<char>, i: int) -> Option<Seq<char>> {
    if !is_date_at(s, i) {
        None
    } else {
        let hs = skip_ascii_spaces(s, i + 10);
        let he = hour_end(s, hs);
        let ms = he + 1;
        let ss = ms + 3;
        if he == hs || !(he < s.len() && s[he] == ':') {
            None
        } else if !(ms + 2 < s.len() && s[ms + 2] == ':') || !digits_at(s, ms, 2) || !digits_at(s, ss, 2) {
            None
        } else {
            let hour = if he - hs == 1 { seq!['0', s[hs]] } else { s.subrange(hs, he) };
            Some(s.subrange(i, i + 10) + seq![' '] + hour + seq![':'] + s.subrange(ms, ms + 2)
                + seq![':'] + s.subrange(ss, ss + 2))
        }
    }
}

/// The first date and time in `s` at or after index `i`.
pub open spec fn first_datetime_from(s: Seq<char>, i: int) -> Option<Seq<char>>
    decreases s.len() - i,
{
    if i < 0 || i >= s.len() {
        None
    } else if datetime_at(s, i) is Some {
        datetime_at(s, i)
    } else {
        first_datetime_from(s, i + 1)
    }
}

/// The first date and time in `s`.
pub open spec fn first_datetime(s: Seq<char>) -> Option<Seq<char>> {
    first_datetime_from(s, 0)
}

/// The labels after which a live page states when it started, in the order they are tried.
pub open spec fn start_time_labels() -> Seq<Seq<char>> {
    seq!["开播时间："@, "开播时间:"@, "开播时间"@]
}

/// The first date and time found after the first of `labels` (from index `k` on) that
/// occurs in `s` and is followed by one.
pub open spec fn labelled_datetime_from(s: Seq<char>, labels: Seq<Seq<char>>, k: int) -> Option<Seq<char>>
    decreases labels.len() - k,
{
    if k < 0 || k >= labels.len() {
        None
    } else {
        match after_first(s, labels[k]) {
            Some(rest) if first_datetime(rest) is Some => first_datetime(rest),
            _ => labelled_datetime_from(s, labels, k + 1),
        }
    }
}

/// When a live page says it started: the date and time after a start label, else the
/// first one anywhere in the text.
pub open spec fn start_time(s: Seq<char>) -> Option<Seq<char>> {
    match labelled_datetime_from(s, start_time_labels(), 0) {
        Some(v) => Some(v),
        None => first_datetime(s),
    }
}

/// `d` is written `YYYY-MM-DD HH:MM:SS`: a date, a space, and a time of two-digit hour,
/// minute and second.
pub open spec fn is_datetime_text(d: Seq<char>) -> bool {
    &&& d.len() == 19
    &&& is_date_at(d, 0)
    &&& d[10] == ' '
    &&& digits_at(d, 11, 2)
    &&& d[13] == ':'
    &&& digits_at(d, 14, 2)
    &&& d[16] == ':'
    &&& digits_at(d, 17, 2)
}

proof fn lemma_datetime_at_format(s: Seq<char>, i: int)
    ensures
        datetime_at(s, i) matches Some(d) ==> is_datetime_text(d),
{
    if datetime_at(s, i) is Some {
        let d = datetime_at(s, i)->0;
        let hs = skip_ascii_spaces(s, i + 10);
        let he = hour_end(s, hs);
        let ms = he + 1;
        let ss = ms + 3;
        let hour = if he - hs == 1 { seq!['0', s[hs]] } else { s.subrange(hs, he) };
        assert(is_digit(s[hs]));
        assert(hour.len() == 2 && is_digit(hour[0]) && is_digit(hour[1]));
        let date = s.subrange(i, i + 10);
        let mm = s.subrange(ms, ms + 2);
        let sec = s.subrange(ss, ss + 2);
        assert(d == date + seq![' '] + hour + seq![':'] + mm + seq![':'] + sec);
        assert forall|k: int| 0 <= k < 10 implies d[k] == s[i + k] by {
            assert(d[k] == date[k]);
        }
        assert(is_date_at(d, 0)) by {
            assert forall|k: int| 0 <= k < 4 implies is_digit(#[trigger] d[0 + k]) by {
                assert(d[k] == s[i + k]);
            }
            assert forall|k: int| 0 <= k < 2 implies is_digit(#[trigger] d[5 + k]) by {
                assert(d[5 + k] == s[i + 5 + k]);
            }
            assert forall|k: int| 0 <= k < 2 implies is_digit(#[trigger] d[8 + k]) by {
                assert(d[8 + k] == s[i + 8 + k]);
            }
        }
        assert(d[11] == hour[0] && d[12] == hour[1]);
        assert(digits_at(d, 11, 2)) by {
            assert forall|k: int| 0 <= k < 2 implies is_digit(#[trigger] d[11 + k]) by {
                assert(d[11 + k] == hour[k]);
            }
        }
        assert(digits_at(d, 14, 2)) by {
            assert forall|k: int| 0 <= k < 2 implies is_digit(#[trigger] d[14 + k]) by {
                assert(d[14 + k] == mm[k]);
                assert(mm[k] == s[ms + k]);
            }
        }
        assert(digits_at(d, 17, 2)) by {
            assert forall|k: int| 0 <= k < 2 implies is_digit(#[trigger] d[17 + k]) by {
                assert(d[17 + k] == sec[k]);
                assert(sec[k] == s[ss + k]);
            }
        }
    }
}

proof fn lemma_first_datetime_format(s: Seq<char>, i: int)
    ensures
        first_datetime_from(s, i) matches Some(d) ==> is_datetime_text(d),
    decreases s.len() - i,
{
    if 0 <= i < s.len() {
        lemma_datetime_at_format(s, i);
        lemma_first_datetime_format(s, i + 1);
    }
}

proof fn lemma_labelled_datetime_format(s: Seq<char>, labels: Seq<Seq<char>>, k: int)
    ensures
        labelled_datetime_from(s, labels, k) matches Some(d) ==> is_datetime_text(d),
    decreases labels.len() - k,
{
    if 0 <= k < labels.len() {
        if let Some(rest) = after_first(s, labels[k]) {
            lemma_first_datetime_format(rest, 0);
        }
        lemma_labelled_datetime_format(s, labels, k + 1);
    }
}

/// A start time, wherever it was found, is written `YYYY-MM-DD HH:MM:SS`.
pub proof fn lemma_start_time_format(s: Seq<char>)
    ensures
        start_time(s) matches Some(d) ==> is_datetime_text(d),
        first_datetime(s) matches Some(d) ==> is_datetime_text(d),
{
    lemma_labelled_datetime_format(s, start_time_labels(), 0);
    lemma_first_datetime_format(s, 0);
}

fn digits_at_exec(s: &[char], i: usize, n: usize) -> (r: bool)
    ensures
        r == digits_at(s@, i as int, n as int),
{
    if i > s.len() || n > s.len() - i {
        return false;
    }
    let mut k: usize = 0;
    while k < n
        invariant
            i + n <= s.len(),
            k <= n,
            forall|m: int| 0 <= m < k ==> is_digit(#[trigger] s@[i + m]),
        decreases n - k,
    {
        if !is_ascii_digit(s[i + k]) {
            return false;
        }
        k = k + 1;
    }
    true
}

fn is_date_start(s: &[char], i: usize) -> (r: bool)
    ensures
        r == is_date_at(s@, i as int),
{
    digits_at_exec(s, i, 4) && 10 <= s.len() - i && s[i + 4] == '-' && digits_at_exec(s, i + 5, 2)
        && s[i + 7] == '-' && digits_at_exec(s, i + 8, 2)
}

fn datetime_at_exec(s: &[char], i: usize) -> (r: Option<Vec<char>>)
    ensures
        r matches Some(v) ==> datetime_at(s@, i as int) == Some(v@),
        r is None ==> datetime_at(s@, i as int) is None,
{
    if !is_date_start(s, i) {
        return None;
    }
    assert(i + 10 <= s.len());
    let mut hs: usize = i + 10;
    while hs < s.len() && is_ascii_whitespace(s[hs])
        invariant
            i + 10 <= hs <= s.len(),
            skip_ascii_spaces(s@, i + 10) == skip_ascii_spaces(s@, hs as int),
        decreases s.len() - hs,
    {
        hs = hs + 1;
    }
    let mut he: usize = hs;
    while he < s.len() && is_ascii_digit(s[he]) && he - hs < 2
        invariant
            hs <= he <= s.len(),
            he <= hs + 2,
            forall|m: int| hs <= m < he ==> is_digit(#[trigger] s@[m]),
        decreases s.len() - he,
    {
        he = he + 1;
    }
    assert(he == hour_end(s@, hs as int));
    if he == hs || !(he < s.len() && s[he] == ':') {
        return None;
    }
    let ms = he + 1;
    if !(2 < s.len() - ms && s[ms + 2] == ':') || !digits_at_exec(s, ms, 2) || !digits_at_exec(s, ms + 3, 2) {
        return None;
    }
    let ss = ms + 3;
    let mut out = copy_range(s, i, i + 10);
    out.push(' ');
    if he - hs == 1 {
        out.push('0');
        out.push(s[hs]);
    } else {
        out.push(s[hs]);
        out.push(s[hs + 1]);
    }
    out.push(':');
    out.push(s[ms]);
    out.push(s[ms + 1]);
    out.push(':');
    out.push(s[ss]);
    out.push(s[ss + 1]);
    let ghost hour = if he - hs == 1 { seq!['0', s@[hs as int]] } else { s@.subrange(hs as int, he as int) };
    assert(out@ =~= s@.subrange(i as int, i + 10) + seq![' '] + hour + seq![':'] + s@.subrange(ms as int, ms + 2)
        + seq![':'] + s@.subrange(ss as int, ss + 2));
    Some(out)
}

fn find_datetime_chars(s: &[char]) -> (r: Option<Vec<char>>)
    ensures
        r matches Some(v) ==> first_datetime(s@) == Some(v@),
        r is None ==> first_datetime(s@) is None,
{
    let mut i: usize = 0;
    while i < s.len()
        invariant
            i <= s.len(),
            first_datetime(s@) == first_datetime_from(s@, i as int),
        decreases s.len() - i,
    {
        let found = datetime_at_exec(s, i);
        if found.is_some() {
            return found;
        }
        i = i + 1;
    }
    None
}

/// The first date and time `YYYY-MM-DD HH:MM:SS` in `text`.
pub fn find_datetime(text: &str) -> (r: Option<String>)
    ensures
        r matches Some(v) ==> first_datetime(text@) == Some(v@),
        r is None ==> first_datetime(text@) is None,
{
    let s = chars_of(text);
    match find_datetime_chars(&s) {
        Some(v) => Some(string_of(&v)),
        None => None,
    }
}

/// When a live page's text says the stream started.
pub fn extract_start_time(text: &str) -> (r: Option<String>)
    ensures
        r matches Some(v) ==> start_time(text@) == Some(v@),
        r is None ==> start_time(text@) is None,
{
    let s = chars_of(text);
    let labels: [&str; 3] = ["开播时间：", "开播时间:", "开播时间"];
    let ghost label_seq = start_time_labels();
    let mut k: usize = 0;
    while k < 3
        invariant
            k <= 3,
            s@ == text@,
            label_seq == start_time_labels(),
            forall|j: int| 0 <= j < 3 ==> (#[trigger] labels@[j])@ == label_seq[j],
            labelled_datetime_from(s@, label_seq, 0) == labelled_datetime_from(s@, label_seq, k as int),
        decreases 3 - k,
    {
        let label = chars_of(labels[k]);
        assert(label@ == label_seq[k as int]);
        match find_exec(&s, &label) {
            Some(at) => {
                assert(matches_at(s@, label@, at as int));
                assert(at + label@.len() <= s@.len());
                assert(label.len() == label@.len() && s.len() == s@.len());
                let from: usize = at + label.len();
                let rest = copy_range(&s, from, s.len());
                assert(after_first(s@, label_seq[k as int]) == Some(rest@));
                let found = find_datetime_chars(&rest);
                match found {
                    Some(v) => {
                        assert(labelled_datetime_from(s@, label_seq, k as int) == Some(v@));
                        return Some(string_of(&v));
                    },
                    None => {},
                }
            },
            None => {},
        }
        k = k + 1;
    }
    match find_datetime_chars(&s) {
        Some(v) => Some(string_of(&v)),
        None => None,
    }
}

} // verus!
