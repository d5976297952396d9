use vstd::prelude::*;
use crate::numbers::{parse_u64, spec_parse_u64};
use crate::text::{
    after_first, chars_of, contains, matches_at, copy_range, find_exec, is_ascii_digit, is_digit, is_space, is_whitespace,
    trim, trim_chars,
};

verus! {

/// Characters that end a duration once a number has begun.
pub open spec fn is_duration_stop(c: char) -> bool {
    is_space(c) || c == '%' || c == '％' || c == '同' || c == '级' || c == '别' || c == '主'
        || c == '播' || c == '数' || c == '据'
}

/// Characters that may follow a unit before the next number.
pub open spec fn is_unit_char(c: char) -> bool {
    c == '小' || c == '时' || c == '分' || c == '钟' || c == '秒'
}

/// The seconds that one number contributes with the unit character `c`
/// (hours for `小`, minutes for `分`, seconds for `秒`, nothing otherwise),
/// added to `seconds` with the wrap-around of 64-bit arithmetic.
pub open spec fn add_unit(seconds: u64, value: u64, c: char) -> u64 {
    if c == '小' {
        seconds.wrapping_add(value.wrapping_mul(3600))
    } else if c == '分' {
        seconds.wrapping_add(value.wrapping_mul(60))
    } else if c == '秒' {
        seconds.wrapping_add(value)
    } else {
        seconds
    }
}

/// The reading of a duration from index `i` of `s` on, given the seconds summed so
/// far, the digits of the number being read and whether a unit has been seen.
/// Digits accumulate into a number; a non-digit after a number ends the reading if it
/// is a stop character, otherwise closes the number with that character as its unit;
/// a non-digit with no number pending is skipped, unless a unit was already seen and
/// it is no unit character, which ends the reading. A number too large for `u64`
/// makes the whole reading fail. The reading gives the seconds once some unit was seen.
pub open spec fn duration_from(s: Seq<char>, i: int, seconds: u64, number: Seq<char>, has_unit: bool) -> Option<u64>
    decreases s.len() - i,
{
    if i < 0 || i >= s.len() {
        if has_unit { Some(seconds) } else { None }
    } else {
        let c = s[i];
        if is_digit(c) {
            duration_from(s, i + 1, seconds, number.push(c), has_unit)
        } else if number.len() > 0 && is_duration_stop(c) {
            if has_unit { Some(seconds) } else { None }
        } else if number.len() == 0 {
            if has_unit && !is_unit_char(c) {
                Some(seconds)
            } else {
                duration_from(s, i + 1, seconds, number, has_unit)
            }
        } else {
            match spec_parse_u64(number) {
                None => None,
                Some(v) => duration_from(
                    s,
                    i + 1,
                    add_unit(seconds, v, c),
                    Seq::empty(),
                    has_unit || c == '小' || c == '分' || c == '秒',
                ),
            }
        }
    }
}

/// The seconds that a duration text such as `1小时2分钟3秒` stands for.
pub open spec fn duration_seconds(s: Seq<char>) -> Option<u64> {
    duration_from(trim(s), 0, 0, Seq::empty(), false)
}

/// The duration read from the first digit of `s`, at or after index `i`, at which a
/// duration can be read.
pub open spec fn first_duration_from(s: Seq<char>, i: int) -> Option<u64>
    decreases s.len() - i,
{
    if i < 0 || i >= s.len() {
        None
    } else if is_digit(s[i]) && duration_seconds(s.subrange(i, s.len() as int)) is Some {
        duration_seconds(s.subrange(i, s.len() as int))
    } else {
        first_duration_from(s, i + 1)
    }
}

/// The first duration that can be read from a digit of `s`.
pub open spec fn first_duration(s: Seq<char>) -> Option<u64> {
    first_duration_from(s, 0)
}

/// The labels after which a live page states its duration, in the order they are tried.
pub open spec fn duration_labels() -> Seq<Seq<char>> {
    seq!["开播时长："@, "开播时长:"@, "开播时长"@, "直播时长："@, "直播时长:"@]
}

/// The first duration found after the first of `labels` (from index `k` on) that
/// occurs in `s` and is followed by a duration.
pub open spec fn labelled_duration_from(s: Seq<char>, labels: Seq<Seq<char>>, k: int) -> Option<u64>
    decreases labels.len() - k,
{
    if k < 0 || k >= labels.len() {
        None
    } else {
        match after_first(s, labels[k]) {
            Some(rest) if first_duration(rest) is Some => first_duration(rest),
            _ => labelled_duration_from(s, labels, k + 1),
        }
    }
}

/// The duration of a live page's text: the one after a duration label, else the
/// first one anywhere in the text.
pub open spec fn text_duration(s: Seq<char>) -> Option<u64> {
    match labelled_duration_from(s, duration_labels(), 0) {
        Some(v) => Some(v),
        None => first_duration(s),
    }
}

/// A text that names its duration after the label `开播时长`, and holds neither
/// `开播时长：` nor `开播时长:`, has the first duration after that label as its duration,
/// whatever durations come before the label.
pub proof fn lemma_duration_after_label(s: Seq<char>, d: u64)
    requires
        !contains(s, "开播时长："@),
        !contains(s, "开播时长:"@),
        after_first(s, "开播时长"@) matches Some(rest) && first_duration(rest) == Some(d),
    ensures
        text_duration(s) == Some(d),
{
    let labels = duration_labels();
    assert(labels[0] == "开播时长："@);
    assert(labels[1] == "开播时长:"@);
    assert(labels[2] == "开播时长"@);
    assert(after_first(s, labels[0]) is None);
    assert(after_first(s, labels[1]) is None);
    assert(labelled_duration_from(s, labels, 2) == Some(d));
    assert(labelled_duration_from(s, labels, 1) == Some(d));
    assert(labelled_duration_from(s, labels, 0) == Some(d));
}

fn parse_duration_chars(duration: &[char]) -> (r: Option<u64>)
    ensures
        r == duration_seconds(duration@),
{
    let d = trim_chars(duration);
    let mut seconds: u64 = 0;
    let mut number: Vec<char> = Vec::new();
    let mut has_unit = false;
    let mut i: usize = 0;
    while i < d.len()
        invariant
            i <= d.len(),
            duration_seconds(duration@) == duration_from(d@, i as int, seconds, number@, has_unit),
        decreases d.len() - i,
    {
        let c = d[i];
        if is_ascii_digit(c) {
            number.push(c);
            i = i + 1;
            continue;
        }
        if number.len() > 0 && (is_whitespace(c) || c == '%' || c == '％' || c == '同' || c == '级'
            || c == '别' || c == '主' || c == '播' || c == '数' || c == '据') {
            return if has_unit { Some(seconds) } else { None };
        }
        if number.len() == 0 {
            if has_unit && !(c == '小' || c == '时' || c == '分' || c == '钟' || c == '秒') {
                return Some(seconds);
            }
            i = i + 1;
            continue;
        }
        let value = match parse_u64(&number) {
            Some(v) => v,
            None => {
                return None;
            },
        };
        number = Vec::new();
        if c == '小' {
            seconds = seconds.wrapping_add(value.wrapping_mul(3600));
            has_unit = true;
        } else if c == '分' {
            seconds = seconds.wrapping_add(value.wrapping_mul(60));
            has_unit = true;
        } else if c == '秒' {
            seconds = seconds.wrapping_add(value);
            has_unit = true;
        }
        i = i + 1;
    }
    if has_unit {
        Some(seconds)
    } else {
        None
    }
}

/// Reads a duration such as `1小时2分钟3秒` as a number of seconds.
pub fn parse_duration_seconds(duration: &str) -> (r: Option<u64>)
    ensures
        r == duration_seconds(duration@),
{
    let v = chars_of(duration);
    parse_duration_chars(&v)
}

fn find_duration_chars(s: &[char]) -> (r: Option<u64>)
    ensures
        r == first_duration(s@),
{
    let mut i: usize = 0;
    while i < s.len()
        invariant
            i <= s.len(),
            first_duration(s@) == first_duration_from(s@, i as int),
        decreases s.len() - i,
    {
        if is_ascii_digit(s[i]) {
            let rest = copy_range(s, i, s.len());
            let found = parse_duration_chars(&rest);
            if found.is_some() {
                return found;
            }
        }
        i = i + 1;
    }
    None
}

/// The first duration that can be read starting at a digit of `text`.
pub fn find_duration_seconds(text: &str) -> (r: Option<u64>)
    ensures
        r == first_duration(text@),
{
    let v = chars_of(text);
    find_duration_chars(&v)
}

/// The duration of a live page's text, in seconds.
pub fn extract_duration_seconds(text: &str) -> (r: Option<u64>)
    ensures
        r == text_duration(text@),
{
    let s = chars_of(text);
    let labels: [&str; 5] = ["开播时长：", "开播时长:", "开播时长", "直播时长：", "直播时长:"];
    let ghost label_seq = duration_labels();
    let mut k: usize = 0;
    while k < 5
        invariant
            k <= 5,
            s@ == text@,
            label_seq == duration_labels(),
            forall|j: int| 0 <= j < 5 ==> (#[trigger] labels@[j])@ == label_seq[j],
            labelled_duration_from(s@, label_seq, 0) == labelled_duration_from(s@, label_seq, k as int),
        decreases 5 - k,
    {
        let label = chars_of(labels[k]);
        assert(label@ == label_seq[k as int]);
        match find_exec(&s, &label) {
            Some(at) => {
                assert(matches_at(s@, label@, at as int));
                assert(label.len() == label@.len() && s.len() == s@.len());
                let from: usize = at + label.len();
                let rest = copy_range(&s, from, s.len());
                assert(after_first(s@, label_seq[k as int]) == Some(rest@));
                let found = find_duration_chars(&rest);
                if found.is_some() {
                    assert(labelled_duration_from(s@, label_seq, k as int) == found);
                    return found;
                }
            },
            None => {},
        }
        k = k + 1;
    }
    find_duration_chars(&s)
}

} // verus!
