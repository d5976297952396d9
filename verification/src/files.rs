use vstd::prelude::*;
use vstd::relations::{sorted_by, strongly_connected, transitive};
use crate::metric::chars_eq;
use crate::numbers::{all_digits, parse_u64, spec_parse_u64};
use crate::sort::{insertion_sort, lemma_stable_sort_permutes, lemma_stable_sort_sorted, stable_sort};
use crate::text::{chars_of, copy_range, is_ascii_digit, string_of};

verus! {

/// The last index of `.` in `s`.
pub open spec fn last_dot(s: Seq<char>) -> Option<int>
    decreases s.len(),
{
    if s.len() == 0 {
        None
    } else if s.last() == '.' {
        Some(s.len() - 1)
    } else {
        last_dot(s.drop_last())
    }
}

/// The stem of a file name as `Path::file_stem` gives it: the part before the last
/// dot, or the whole name when there is no dot, the only dot leads, or it is `..`.
pub open spec fn file_stem(name: Seq<char>) -> Seq<char> {
    if name == ".."@ {
        name
    } else {
        match last_dot(name) {
            Some(i) if i > 0 => name.take(i),
            _ => name,
        }
    }
}

/// The extension of a file name as `Path::extension` gives it: the part after the last
/// dot, unless there is no dot, the only dot leads, or it is `..`.
pub open spec fn file_extension(name: Seq<char>) -> Option<Seq<char>> {
    if name == ".."@ {
        None
    } else {
        match last_dot(name) {
            Some(i) if i > 0 => Some(name.skip(i + 1)),
            _ => None,
        }
    }
}

/// ASCII letters in lower case.
pub open spec fn ascii_lower(c: char) -> char {
    if 'A' <= c && c <= 'Z' {
        ((c as u32) + 32) as char
    } else {
        c
    }
}

/// An image extension that the export reads: jpg, jpeg, png, webp or bmp, in any case.
pub open spec fn supported_extension(e: Seq<char>) -> bool {
    let l = e.map_values(|c: char| ascii_lower(c));
    l == "jpg"@ || l == "jpeg"@ || l == "png"@ || l == "webp"@ || l == "bmp"@
}

/// A file name the export takes: a supported image whose stem is all digits.
pub open spec fn numeric_image_name(name: Seq<char>) -> bool {
    &&& file_extension(name) matches Some(e)
    &&& supported_extension(e)
    &&& all_digits(file_stem(name))
}

/// The number a file stem reads as, or `u64::MAX` when it does not read.
pub open spec fn stem_number(name: Seq<char>) -> u64 {
    match spec_parse_u64(file_stem(name)) {
        Some(v) => v,
        None => u64::MAX,
    }
}

/// Lexicographic order of character sequences by code point, a prefix first.
pub open spec fn lex_le(a: Seq<char>, b: Seq<char>) -> bool
    decreases a.len(),
{
    if a.len() == 0 {
        true
    } else if b.len() == 0 {
        false
    } else if a[0] < b[0] {
        true
    } else if a[0] > b[0] {
        false
    } else {
        lex_le(a.drop_first(), b.drop_first())
    }
}

/// The order of image files: by the number of their stem, then by name.
pub open spec fn name_le(a: Seq<char>, b: Seq<char>) -> bool {
    stem_number(a) < stem_number(b) || (stem_number(a) == stem_number(b) && lex_le(a, b))
}

/// `name_le` on strings.
pub open spec fn string_name_le(a: String, b: String) -> bool {
    name_le(a@, b@)
}

/// The names a directory listing keeps, in the order they come.
pub open spec fn numeric_images(names: Seq<String>) -> Seq<String>
    decreases names.len(),
{
    if names.len() == 0 {
        Seq::empty()
    } else if numeric_image_name(names.last()@) {
        numeric_images(names.drop_last()).push(names.last())
    } else {
        numeric_images(names.drop_last())
    }
}

proof fn lemma_lex_le_total(a: Seq<char>, b: Seq<char>)
    ensures
        lex_le(a, b) || lex_le(b, a),
        lex_le(a, b) && lex_le(b, a) ==> a == b,
    decreases a.len(),
{
    if a.len() > 0 && b.len() > 0 && a[0] == b[0] {
        lemma_lex_le_total(a.drop_first(), b.drop_first());
        if lex_le(a, b) && lex_le(b, a) {
            assert(a =~= seq![a[0]] + a.drop_first());
            assert(b =~= seq![b[0]] + b.drop_first());
        }
    } else if a.len() > 0 && b.len() > 0 {
        assert(a[0] != b[0]);
    } else if a.len() == 0 && b.len() == 0 {
        assert(a =~= b);
    }
}

proof fn lemma_lex_le_trans(a: Seq<char>, b: Seq<char>, c: Seq<char>)
    requires
        lex_le(a, b),
        lex_le(b, c),
    ensures
        lex_le(a, c),
    decreases a.len(),
{
    if a.len() > 0 && b.len() > 0 && c.len() > 0 && a[0] == b[0] && b[0] == c[0] {
        lemma_lex_le_trans(a.drop_first(), b.drop_first(), c.drop_first());
    }
}

/// The order of image files is a total order.
pub proof fn lemma_name_le_total_order()
    ensures
        transitive(|a: String, b: String| string_name_le(a, b)),
        strongly_connected(|a: String, b: String| string_name_le(a, b)),
        forall|a: Seq<char>, b: Seq<char>| name_le(a, b) && name_le(b, a) ==> a == b,
{
    assert forall|x: String, y: String, z: String|
        #[trigger] string_name_le(x, y) && #[trigger] string_name_le(y, z) implies string_name_le(x, z) by {
        if lex_le(x@, y@) && lex_le(y@, z@) {
            lemma_lex_le_trans(x@, y@, z@);
        }
    }
    assert forall|x: String, y: String| #[trigger] string_name_le(x, y) || #[trigger] string_name_le(y, x) by {
        lemma_lex_le_total(x@, y@);
    }
    assert forall|a: Seq<char>, b: Seq<char>| name_le(a, b) && name_le(b, a) implies a == b by {
        lemma_lex_le_total(a, b);
    }
}

fn last_dot_exec(s: &[char]) -> (r: Option<usize>)
    ensures
        r matches Some(i) ==> last_dot(s@) == Some(i as int) && i < s.len(),
        r is None ==> last_dot(s@) is None,
{
    let mut j: usize = s.len();
    assert(s@.take(j as int) =~= s@);
    while j > 0
        invariant
            j <= s.len(),
            last_dot(s@) == last_dot(s@.take(j as int)),
        decreases j,
    {
        assert(s@.take(j as int).last() == s@[j - 1]);
        if s[j - 1] == '.' {
            return Some(j - 1);
        }
        assert(s@.take(j as int).drop_last() =~= s@.take(j - 1));
        j = j - 1;
    }
    None
}

/// Splits a file name into its stem and extension (see `file_stem`, `file_extension`).
fn split_file_name(name: &[char]) -> (r: (Vec<char>, Option<Vec<char>>))
    ensures
        r.0@ == file_stem(name@),
        r.1 matches Some(e) ==> file_extension(name@) == Some(e@),
        r.1 is None ==> file_extension(name@) is None,
{
    let dots = chars_of("..");
    if chars_eq(name, &dots) {
        return (copy_range(name, 0, name.len()), None);
    }
    assert(name@.subrange(0, name@.len() as int) == name@);
    match last_dot_exec(name) {
        Some(i) => {
            if i > 0 {
                (copy_range(name, 0, i), Some(copy_range(name, i + 1, name.len())))
            } else {
                (copy_range(name, 0, name.len()), None)
            }
        },
        None => (copy_range(name, 0, name.len()), None),
    }
}

fn supported_extension_exec(e: &[char]) -> (r: bool)
    ensures
        r == supported_extension(e@),
{
    let mut l: Vec<char> = Vec::new();
    let mut i: usize = 0;
    while i < e.len()
        invariant
            i <= e.len(),
            l@ == e@.take(i as int).map_values(|c: char| ascii_lower(c)),
        decreases e.len() - i,
    {
        let c = e[i];
        let lc = if 'A' <= c && c <= 'Z' { ((c as u32) + 32) as u8 as char } else { c };
        proof {
            if 'A' <= c && c <= 'Z' {
                assert(((c as u32) + 32) as u8 as char == ((c as u32) + 32) as char);
            }
        }
        l.push(lc);
        assert(e@.take(i + 1).map_values(|c: char| ascii_lower(c)) =~= l@);
        i = i + 1;
    }
    assert(e@.take(e.len() as int) == e@);
    chars_eq(&l, &chars_of("jpg")) || chars_eq(&l, &chars_of("jpeg")) || chars_eq(&l, &chars_of("png"))
        || chars_eq(&l, &chars_of("webp")) || chars_eq(&l, &chars_of("bmp"))
}

/// The file name has the extension of an image the export reads.
pub fn is_supported_image(file_name: &str) -> (r: bool)
    ensures
        r == (file_extension(file_name@) matches Some(e) && supported_extension(e)),
{
    let n = chars_of(file_name);
    let (_, ext) = split_file_name(&n);
    match ext {
        Some(e) => supported_extension_exec(&e),
        None => false,
    }
}

fn all_digits_exec(s: &[char]) -> (r: bool)
    ensures
        r == all_digits(s@),
{
    let mut i: usize = 0;
    while i < s.len()
        invariant
            i <= s.len(),
            forall|k: int| 0 <= k < i ==> crate::text::is_digit(#[trigger] s@[k]),
        decreases s.len() - i,
    {
        if !is_ascii_digit(s[i]) {
            return false;
        }
        i = i + 1;
    }
    true
}

/// The name is a supported image with an all-digit stem, such as `191.jpg`.
pub fn is_numeric_image_name(name: &str) -> (r: bool)
    ensures
        r == numeric_image_name(name@),
{
    let n = chars_of(name);
    let (stem, ext) = split_file_name(&n);
    match ext {
        Some(e) => supported_extension_exec(&e) && all_digits_exec(&stem),
        None => false,
    }
}

/// The number of a file's stem, or `u64::MAX` when it does not read as one.
pub fn file_stem_number(name: &str) -> (r: u64)
    ensures
        r == stem_number(name@),
{
    let n = chars_of(name);
    let (stem, _) = split_file_name(&n);
    match parse_u64(&stem) {
        Some(v) => v,
        None => u64::MAX,
    }
}

fn lex_le_exec(a: &[char], b: &[char]) -> (r: bool)
    ensures
        r == lex_le(a@, b@),
{
    let mut i: usize = 0;
    assert(a@.skip(0) =~= a@);
    assert(b@.skip(0) =~= b@);
    while i < a.len()
        invariant
            i <= a.len(),
            i <= b.len(),
            lex_le(a@, b@) == lex_le(a@.skip(i as int), b@.skip(i as int)),
        decreases a.len() - i,
    {
        if i == b.len() {
            return false;
        }
        assert(a@.skip(i as int)[0] == a@[i as int]);
        assert(b@.skip(i as int)[0] == b@[i as int]);
        if a[i] < b[i] {
            return true;
        }
        if a[i] > b[i] {
            return false;
        }
        assert(a@.skip(i as int).drop_first() =~= a@.skip(i + 1));
        assert(b@.skip(i as int).drop_first() =~= b@.skip(i + 1));
        i = i + 1;
    }
    true
}

/// Whether image `a` comes no later than image `b` in the export (see `name_le`).
pub fn numeric_name_le(a: &str, b: &str) -> (r: bool)
    ensures
        r == name_le(a@, b@),
{
    let na = file_stem_number(a);
    let nb = file_stem_number(b);
    if na != nb {
        return na < nb;
    }
    let ca = chars_of(a);
    let cb = chars_of(b);
    lex_le_exec(&ca, &cb)
}

/// The names of a directory listing that the export reads, in its order: supported
/// images with all-digit stems, sorted by the number of the stem, then by name.
pub fn select_numeric_images(names: Vec<String>) -> (r: Vec<String>)
    ensures
        r@ == stable_sort(numeric_images(names@), |a: String, b: String| string_name_le(a, b)),
        sorted_by(r@, |a: String, b: String| string_name_le(a, b)),
        r@.to_multiset() == numeric_images(names@).to_multiset(),
{
    let mut kept: Vec<String> = Vec::new();
    let mut i: usize = 0;
    while i < names.len()
        invariant
            i <= names.len(),
            kept@ == numeric_images(names@.take(i as int)),
        decreases names.len() - i,
    {
        assert(names@.take(i + 1).drop_last() =~= names@.take(i as int));
        assert(names@.take(i + 1).last() == names@[i as int]);
        if is_numeric_image_name(names[i].as_str()) {
            kept.push(names[i].clone());
        }
        i = i + 1;
    }
    assert(names@.take(names.len() as int) =~= names@);
    let le_exec = |a: &String, b: &String| -> (r: bool)
        ensures
            r == string_name_le(*a, *b),
        { numeric_name_le(a.as_str(), b.as_str()) };
    let ghost le = |a: String, b: String| string_name_le(a, b);
    let sorted = insertion_sort(kept, &le_exec, Ghost(le));
    proof {
        lemma_name_le_total_order();
        lemma_stable_sort_sorted(numeric_images(names@), le);
        lemma_stable_sort_permutes(numeric_images(names@), le);
    }
    sorted
}

/// The file in the cache directory that holds an image's recognized text.
pub fn cache_file_name(image_file_name: &str) -> (r: String)
    ensures
        r@ == image_file_name@ + ".tsv"@,
{
    let mut s = String::from_str(image_file_name);
    s.append(".tsv");
    s
}

} // verus!
