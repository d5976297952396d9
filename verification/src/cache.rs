use vstd::prelude::*;
use crate::block::OcrTextBlock;
use crate::escape::{escape_chars, escape_field, unescape_chars, unescape_field};
use crate::numbers::{decimal, i32_decimal, parse_i32, signed_decimal, spec_parse_i32, u64_decimal};
use crate::metric::chars_eq;
use crate::text::{append_chars, chars_of, copy_range, string_of};
use crate::tier::{tier_name, OcrModelTier};

verus! {

/// The first index at or after `i` that holds `c`.
pub open spec fn index_of_from(s: Seq<char>, c: char, i: int) -> Option<int>
    decreases s.len() - i,
{
    if i < 0 || i >= s.len() {
        None
    } else if s[i] == c {
        Some(i)
    } else {
        index_of_from(s, c, i + 1)
    }
}

/// The first index that holds `c`.
pub open spec fn index_of(s: Seq<char>, c: char) -> Option<int> {
    index_of_from(s, c, 0)
}

/// A found index holds `c`, lies at or after `i`, and no `c` comes before it from `i`.
pub proof fn lemma_index_of_from(s: Seq<char>, c: char, i: int)
    requires
        0 <= i,
    ensures
        index_of_from(s, c, i) matches Some(j) ==> i <= j < s.len() && s[j] == c
            && forall|k: int| i <= k < j ==> s[k] != c,
        index_of_from(s, c, i) is None ==> forall|k: int| i <= k < s.len() ==> s[k] != c,
    decreases s.len() - i,
{
    if i < s.len() && s[i] != c {
        lemma_index_of_from(s, c, i + 1);
    }
}

/// A line without its carriage return, when it ends with one.
pub open spec fn strip_cr(l: Seq<char>) -> Seq<char> {
    if l.len() > 0 && l.last() == '\r' {
        l.drop_last()
    } else {
        l
    }
}

/// The lines of a text as `str::lines` gives them: split after each line feed, with
/// the line feed, and a carriage return just before it, dropped; a text ending in a
/// line feed has no empty last line.
pub open spec fn lines(s: Seq<char>) -> Seq<Seq<char>>
    decreases s.len(),
{
    if s.len() == 0 {
        Seq::empty()
    } else {
        match index_of(s, '\n') {
            None => seq![s],
            Some(i) => {
                proof {
                    lemma_index_of_from(s, '\n', 0);
                }
                seq![strip_cr(s.take(i))] + lines(s.skip(i + 1))
            },
        }
    }
}

/// The pieces of a text between tabs, as `str::split('\t')` gives them.
pub open spec fn split_tabs(s: Seq<char>) -> Seq<Seq<char>>
    decreases s.len(),
{
    match index_of(s, '\t') {
        None => seq![s],
        Some(i) => {
            proof {
                lemma_index_of_from(s, '\t', 0);
            }
            seq![s.take(i)] + split_tabs(s.skip(i + 1))
        },
    }
}

/// A cached block: text, confidence as written, left, top, width, height, joined flag.
pub open spec fn entry<C: View<V = Seq<char>>>(b: OcrTextBlock<C>) -> (Seq<char>, Seq<char>, i32, i32, i32, i32, bool) {
    (b.text@, b.confidence@, b.left, b.top, b.width, b.height, b.is_special)
}

/// The first line of a cache file: version, tier, and the image's size and modification time.
pub open spec fn cache_header(tier: OcrModelTier, size: u64, modified: u64) -> Seq<char> {
    "v2"@ + seq!['\t'] + tier_name(tier) + seq!['\t'] + decimal(size as nat) + seq!['\t'] + decimal(modified as nat)
}

/// The line of one cached block, without its line feed.
pub open spec fn entry_line(e: (Seq<char>, Seq<char>, i32, i32, i32, i32, bool)) -> Seq<char> {
    escape_field(e.0) + seq!['\t'] + e.1 + seq!['\t'] + signed_decimal(e.2 as int) + seq!['\t']
        + signed_decimal(e.3 as int) + seq!['\t'] + signed_decimal(e.4 as int) + seq!['\t']
        + signed_decimal(e.5 as int) + seq!['\t'] + (if e.6 { seq!['1'] } else { seq!['0'] })
}

/// The lines of cached blocks, each ended by a line feed.
pub open spec fn cache_body(es: Seq<(Seq<char>, Seq<char>, i32, i32, i32, i32, bool)>) -> Seq<char>
    decreases es.len(),
{
    if es.len() == 0 {
        Seq::empty()
    } else {
        entry_line(es[0]).push('\n') + cache_body(es.drop_first())
    }
}

/// A whole cache file.
pub open spec fn cache_text(
    tier: OcrModelTier,
    size: u64,
    modified: u64,
    es: Seq<(Seq<char>, Seq<char>, i32, i32, i32, i32, bool)>,
) -> Seq<char> {
    cache_header(tier, size, modified).push('\n') + cache_body(es)
}

/// A number field of the cache, read as `i32`, or 0 when it does not read.
pub open spec fn field_i32(f: Seq<char>) -> i32 {
    match spec_parse_i32(f) {
        Some(v) => v,
        None => 0,
    }
}

/// The block that one cache line describes, when it has exactly seven fields.
pub open spec fn line_entry(line: Seq<char>) -> Option<(Seq<char>, Seq<char>, i32, i32, i32, i32, bool)> {
    let f = split_tabs(line);
    if f.len() != 7 {
        None
    } else {
        Some((unescape_field(f[0]), f[1], field_i32(f[2]), field_i32(f[3]), field_i32(f[4]), field_i32(f[5]), f[6] == seq!['1']))
    }
}

/// The blocks of cache lines, when every line describes one.
pub open spec fn line_entries(ls: Seq<Seq<char>>) -> Option<Seq<(Seq<char>, Seq<char>, i32, i32, i32, i32, bool)>>
    decreases ls.len(),
{
    if ls.len() == 0 {
        Some(Seq::empty())
    } else {
        match (line_entry(ls[0]), line_entries(ls.drop_first())) {
            (Some(e), Some(es)) => Some(seq![e] + es),
            _ => None,
        }
    }
}

/// The blocks a cache file holds for an image of the given tier, size and modification
/// time: none when the file is empty or its first line is another header.
pub open spec fn cached_entries(cache: Seq<char>, tier: OcrModelTier, size: u64, modified: u64)
    -> Option<Seq<(Seq<char>, Seq<char>, i32, i32, i32, i32, bool)>>
{
    let ls = lines(cache);
    if ls.len() == 0 || ls[0] != cache_header(tier, size, modified) {
        None
    } else {
        line_entries(ls.drop_first())
    }
}

fn index_of_exec(s: &[char], c: char, from: usize) -> (r: Option<usize>)
    requires
        from <= s.len(),
    ensures
        r matches Some(j) ==> index_of_from(s@, c, from as int) == Some(j as int),
        r is None ==> index_of_from(s@, c, from as int) is None,
{
    let mut i: usize = from;
    while i < s.len()
        invariant
            from <= i <= s.len(),
            index_of_from(s@, c, from as int) == index_of_from(s@, c, i as int),
        decreases s.len() - i,
    {
        if s[i] == c {
            return Some(i);
        }
        i = i + 1;
    }
    None
}

proof fn lemma_index_of_skip(s: Seq<char>, c: char, from: int, i: int)
    requires
        0 <= from <= i,
        from <= s.len(),
    ensures
        index_of_from(s, c, i) == match index_of_from(s.skip(from), c, i - from) {
            Some(j) => Some(j + from),
            None => None,
        },
    decreases s.len() - i,
{
    if i < s.len() {
        assert(s.skip(from)[i - from] == s[i]);
        if s[i] != c {
            lemma_index_of_skip(s, c, from, i + 1);
        }
    }
}

/// `str::lines` on a sequence of characters.
pub fn lines_exec(s: &[char]) -> (r: Vec<Vec<char>>)
    ensures
        r@.map_values(|l: Vec<char>| l@) == lines(s@),
{
    let mut out: Vec<Vec<char>> = Vec::new();
    let mut pos: usize = 0;
    assert(s@.skip(0) == s@);
    assert(out@.map_values(|l: Vec<char>| l@) + lines(s@) =~= lines(s@));
    while pos < s.len()
        invariant
            pos <= s.len(),
            lines(s@) == out@.map_values(|l: Vec<char>| l@) + lines(s@.skip(pos as int)),
        decreases s.len() - pos,
    {
        let ghost rest = s@.skip(pos as int);
        proof {
            lemma_index_of_skip(s@, '\n', pos as int, pos as int);
            lemma_index_of_from(s@, '\n', pos as int);
        }
        match index_of_exec(s, '\n', pos) {
            Some(nl) => {
                let mut line = copy_range(s, pos, nl);
                if line.len() > 0 && line[line.len() - 1] == '\r' {
                    line.pop();
                }
                proof {
                    assert(rest.take(nl - pos) =~= s@.subrange(pos as int, nl as int));
                    assert(rest.skip(nl - pos + 1) =~= s@.skip(nl + 1));
                }
                out.push(line);
                pos = nl + 1;
            },
            None => {
                let line = copy_range(s, pos, s.len());
                proof {
                    assert(rest =~= s@.subrange(pos as int, s.len() as int));
                    assert(s@.skip(s.len() as int) =~= Seq::<char>::empty());
                }
                out.push(line);
                pos = s.len();
            },
        }
        assert(lines(s@) =~= out@.map_values(|l: Vec<char>| l@) + lines(s@.skip(pos as int)));
    }
    assert(s@.skip(s.len() as int) =~= Seq::<char>::empty());
    assert(lines(s@) =~= out@.map_values(|l: Vec<char>| l@));
    out
}

/// `str::split('\t')` on a sequence of characters.
pub fn split_tabs_exec(s: &[char]) -> (r: Vec<Vec<char>>)
    ensures
        r@.map_values(|l: Vec<char>| l@) == split_tabs(s@),
{
    let mut out: Vec<Vec<char>> = Vec::new();
    let mut pos: usize = 0;
    assert(s@.skip(0) == s@);
    assert(out@.map_values(|l: Vec<char>| l@) + split_tabs(s@) =~= split_tabs(s@));
    loop
        invariant
            pos <= s.len(),
            split_tabs(s@) == out@.map_values(|l: Vec<char>| l@) + split_tabs(s@.skip(pos as int)),
        decreases s.len() - pos,
    {
        let ghost rest = s@.skip(pos as int);
        proof {
            lemma_index_of_skip(s@, '\t', pos as int, pos as int);
            lemma_index_of_from(s@, '\t', pos as int);
        }
        match index_of_exec(s, '\t', pos) {
            Some(t) => {
                let piece = copy_range(s, pos, t);
                proof {
                    assert(rest.take(t - pos) =~= s@.subrange(pos as int, t as int));
                    assert(rest.skip(t - pos + 1) =~= s@.skip(t + 1));
                }
                out.push(piece);
                pos = t + 1;
                assert(split_tabs(s@) =~= out@.map_values(|l: Vec<char>| l@) + split_tabs(s@.skip(pos as int)));
            },
            None => {
                let piece = copy_range(s, pos, s.len());
                proof {
                    assert(rest =~= s@.subrange(pos as int, s.len() as int));
                }
                out.push(piece);
                assert(split_tabs(s@) =~= out@.map_values(|l: Vec<char>| l@));
                return out;
            },
        }
    }
}

/// A text with no tab, line feed or carriage return, which a cache field keeps whole.
pub open spec fn plain_field(s: Seq<char>) -> bool {
    forall|i: int| 0 <= i < s.len() ==> (#[trigger] s[i]) != '\t' && s[i] != '\n' && s[i] != '\r'
}

proof fn lemma_index_of_first(s: Seq<char>, c: char, i: int, j: int)
    requires
        0 <= i <= j < s.len(),
        s[j] == c,
        forall|k: int| i <= k < j ==> s[k] != c,
    ensures
        index_of_from(s, c, i) == Some(j),
    decreases j - i,
{
    if i < j {
        lemma_index_of_first(s, c, i + 1, j);
    }
}

proof fn lemma_index_of_none(s: Seq<char>, c: char, i: int)
    requires
        0 <= i,
        forall|k: int| i <= k < s.len() ==> s[k] != c,
    ensures
        index_of_from(s, c, i) is None,
    decreases s.len() - i,
{
    if i < s.len() {
        lemma_index_of_none(s, c, i + 1);
    }
}

proof fn lemma_split_cons(a: Seq<char>, rest: Seq<char>)
    requires
        plain_field(a),
    ensures
        split_tabs(a + seq!['\t'] + rest) == seq![a] + split_tabs(rest),
{
    let s = a + seq!['\t'] + rest;
    assert(s[a.len() as int] == '\t');
    assert forall|k: int| 0 <= k < a.len() implies s[k] != '\t' by {
        assert(s[k] == a[k]);
    }
    lemma_index_of_first(s, '\t', 0, a.len() as int);
    assert(s.take(a.len() as int) =~= a);
    assert(s.skip(a.len() as int + 1) =~= rest);
}

proof fn lemma_split_single(a: Seq<char>)
    requires
        plain_field(a),
    ensures
        split_tabs(a) == seq![a],
{
    lemma_index_of_none(a, '\t', 0);
}

proof fn lemma_lines_cons(a: Seq<char>, rest: Seq<char>)
    requires
        no_newline(a),
        a.len() > 0,
        a.last() != '\r',
    ensures
        lines(a.push('\n') + rest) == seq![a] + lines(rest),
{
    let s = a.push('\n') + rest;
    assert(s[a.len() as int] == '\n');
    assert forall|k: int| 0 <= k < a.len() implies s[k] != '\n' by {
        assert(s[k] == a[k]);
    }
    lemma_index_of_first(s, '\n', 0, a.len() as int);
    assert(s.take(a.len() as int) =~= a);
    assert(s.skip(a.len() as int + 1) =~= rest);
}

proof fn lemma_escape_plain(s: Seq<char>)
    ensures
        plain_field(escape_field(s)),
    decreases s.len(),
{
    if s.len() > 0 {
        lemma_escape_plain(s.drop_last());
        let e = escape_field(s);
        let p = escape_field(s.drop_last());
        assert forall|i: int| 0 <= i < e.len() implies (#[trigger] e[i]) != '\t' && e[i] != '\n' && e[i] != '\r' by {
            if i < p.len() {
                assert(e[i] == p[i]);
            }
        }
    }
}

proof fn lemma_decimal_plain(n: nat)
    ensures
        plain_field(decimal(n)),
        decimal(n).len() > 0,
    decreases n,
{
    crate::numbers::lemma_decimal_digits(n);
    let d = decimal(n);
    assert forall|i: int| 0 <= i < d.len() implies (#[trigger] d[i]) != '\t' && d[i] != '\n' && d[i] != '\r' by {
        assert(crate::text::is_digit(d[i]));
    }
}

proof fn lemma_signed_decimal_plain(n: int)
    ensures
        plain_field(signed_decimal(n)),
{
    if n < 0 {
        lemma_decimal_plain((0 - n) as nat);
        let d = signed_decimal(n);
        let p = decimal((0 - n) as nat);
        assert forall|i: int| 0 <= i < d.len() implies (#[trigger] d[i]) != '\t' && d[i] != '\n' && d[i] != '\r' by {
            if i > 0 {
                assert(d[i] == p[i - 1]);
            }
        }
    } else {
        lemma_decimal_plain(n as nat);
    }
}

proof fn lemma_field_i32(n: i32)
    ensures
        field_i32(signed_decimal(n as int)) == n,
{
    crate::numbers::lemma_parse_i32_decimal(n);
}

/// `s` has no line feed.
pub open spec fn no_newline(s: Seq<char>) -> bool {
    forall|i: int| 0 <= i < s.len() ==> (#[trigger] s[i]) != '\n'
}

proof fn lemma_no_newline_concat(a: Seq<char>, b: Seq<char>)
    requires
        no_newline(a),
        no_newline(b),
    ensures
        no_newline(a + b),
{
    assert forall|i: int| 0 <= i < (a + b).len() implies (#[trigger] (a + b)[i]) != '\n' by {
        if i < a.len() {
            assert((a + b)[i] == a[i]);
        } else {
            assert((a + b)[i] == b[i - a.len()]);
        }
    }
}

#[verifier::rlimit(80)]
proof fn lemma_entry_line_split(e: (Seq<char>, Seq<char>, i32, i32, i32, i32, bool))
    requires
        plain_field(e.1),
    ensures
        split_tabs(entry_line(e)) == seq![
            escape_field(e.0), e.1, signed_decimal(e.2 as int), signed_decimal(e.3 as int),
            signed_decimal(e.4 as int), signed_decimal(e.5 as int),
            (if e.6 { seq!['1'] } else { seq!['0'] }),
        ],
{
    let t = seq!['\t'];
    let f0 = escape_field(e.0);
    let f2 = signed_decimal(e.2 as int);
    let f3 = signed_decimal(e.3 as int);
    let f4 = signed_decimal(e.4 as int);
    let f5 = signed_decimal(e.5 as int);
    let f6: Seq<char> = if e.6 { seq!['1'] } else { seq!['0'] };
    lemma_escape_plain(e.0);
    lemma_signed_decimal_plain(e.2 as int);
    lemma_signed_decimal_plain(e.3 as int);
    lemma_signed_decimal_plain(e.4 as int);
    lemma_signed_decimal_plain(e.5 as int);
    assert(plain_field(f6));
    let r5 = f5 + t + f6;
    let r4 = f4 + t + r5;
    let r3 = f3 + t + r4;
    let r2 = f2 + t + r3;
    let r1 = e.1 + t + r2;
    let r0 = f0 + t + r1;
    assert(entry_line(e) =~= r0);
    lemma_split_single(f6);
    lemma_split_cons(f5, f6);
    lemma_split_cons(f4, r5);
    lemma_split_cons(f3, r4);
    lemma_split_cons(f2, r3);
    lemma_split_cons(e.1, r2);
    lemma_split_cons(f0, r1);
    assert(split_tabs(entry_line(e)) =~= seq![f0, e.1, f2, f3, f4, f5, f6]);
}

proof fn lemma_plain_no_newline(s: Seq<char>)
    requires
        plain_field(s),
    ensures
        no_newline(s),
{
}

proof fn lemma_line_entry(e: (Seq<char>, Seq<char>, i32, i32, i32, i32, bool))
    requires
        plain_field(e.1),
    ensures
        line_entry(entry_line(e)) == Some(e),
        entry_line(e).len() > 0,
        entry_line(e).last() != '\r',
        no_newline(entry_line(e)),
{
    lemma_entry_line_split(e);
    crate::escape::lemma_unescape_escape(e.0);
    lemma_field_i32(e.2);
    lemma_field_i32(e.3);
    lemma_field_i32(e.4);
    lemma_field_i32(e.5);
    let fs = split_tabs(entry_line(e));
    assert(fs.len() == 7);
    assert(unescape_field(fs[0]) == e.0);
    assert(fs[1] == e.1);
    assert(field_i32(fs[2]) == e.2);
    assert(field_i32(fs[3]) == e.3);
    assert(field_i32(fs[4]) == e.4);
    assert(field_i32(fs[5]) == e.5);
    if !e.6 {
        assert(fs[6][0] == '0');
        assert(fs[6] != seq!['1']);
    }
    assert((fs[6] == seq!['1']) == e.6);
    assert(line_entry(entry_line(e)) == Some(e));
    let t = seq!['\t'];
    let f0 = escape_field(e.0);
    let f2 = signed_decimal(e.2 as int);
    let f3 = signed_decimal(e.3 as int);
    let f4 = signed_decimal(e.4 as int);
    let f5 = signed_decimal(e.5 as int);
    let f6: Seq<char> = if e.6 { seq!['1'] } else { seq!['0'] };
    lemma_escape_plain(e.0);
    lemma_signed_decimal_plain(e.2 as int);
    lemma_signed_decimal_plain(e.3 as int);
    lemma_signed_decimal_plain(e.4 as int);
    lemma_signed_decimal_plain(e.5 as int);
    lemma_plain_no_newline(f0);
    lemma_plain_no_newline(e.1);
    lemma_plain_no_newline(f2);
    lemma_plain_no_newline(f3);
    lemma_plain_no_newline(f4);
    lemma_plain_no_newline(f5);
    assert(no_newline(f6));
    assert(no_newline(t));
    lemma_no_newline_concat(f0, t);
    lemma_no_newline_concat(f0 + t, e.1);
    lemma_no_newline_concat(f0 + t + e.1, t);
    lemma_no_newline_concat(f0 + t + e.1 + t, f2);
    lemma_no_newline_concat(f0 + t + e.1 + t + f2, t);
    lemma_no_newline_concat(f0 + t + e.1 + t + f2 + t, f3);
    lemma_no_newline_concat(f0 + t + e.1 + t + f2 + t + f3, t);
    lemma_no_newline_concat(f0 + t + e.1 + t + f2 + t + f3 + t, f4);
    lemma_no_newline_concat(f0 + t + e.1 + t + f2 + t + f3 + t + f4, t);
    lemma_no_newline_concat(f0 + t + e.1 + t + f2 + t + f3 + t + f4 + t, f5);
    lemma_no_newline_concat(f0 + t + e.1 + t + f2 + t + f3 + t + f4 + t + f5, t);
    lemma_no_newline_concat(f0 + t + e.1 + t + f2 + t + f3 + t + f4 + t + f5 + t, f6);
    assert(entry_line(e).last() == f6.last());
}

proof fn lemma_cache_body_push(
    es: Seq<(Seq<char>, Seq<char>, i32, i32, i32, i32, bool)>,
    e: (Seq<char>, Seq<char>, i32, i32, i32, i32, bool),
)
    ensures
        cache_body(es.push(e)) == cache_body(es) + entry_line(e).push('\n'),
    decreases es.len(),
{
    if es.len() == 0 {
        assert(es.push(e).drop_first() =~= Seq::<(Seq<char>, Seq<char>, i32, i32, i32, i32, bool)>::empty());
        assert(cache_body(es.push(e).drop_first()) == Seq::<char>::empty());
        assert(cache_body(es) == Seq::<char>::empty());
        assert(es.push(e)[0] == e);
        assert(cache_body(es.push(e)) =~= entry_line(e).push('\n'));
    } else {
        assert(es.push(e).drop_first() =~= es.drop_first().push(e));
        lemma_cache_body_push(es.drop_first(), e);
        assert(cache_body(es.push(e)) =~= cache_body(es) + entry_line(e).push('\n'));
    }
}

fn header_chars(tier: OcrModelTier, size: u64, modified: u64) -> (r: Vec<char>)
    ensures
        r@ == cache_header(tier, size, modified),
{
    let mut out = chars_of("v2");
    out.push('\t');
    let name = chars_of(tier.as_str());
    append_chars(&mut out, &name);
    out.push('\t');
    let s = u64_decimal(size);
    append_chars(&mut out, &s);
    out.push('\t');
    let m = u64_decimal(modified);
    append_chars(&mut out, &m);
    assert(out@ =~= cache_header(tier, size, modified));
    out
}

/// The cache file for the blocks recognized in an image of the given tier, size and
/// modification time (see `cache_text`).
pub fn render_ocr_cache(
    tier: OcrModelTier,
    image_size: u64,
    image_modified: u64,
    blocks: &[OcrTextBlock<String>],
) -> (r: String)
    ensures
        r@ == cache_text(tier, image_size, image_modified, blocks@.map_values(|b: OcrTextBlock<String>| entry(b))),
{
    let ghost es = blocks@.map_values(|b: OcrTextBlock<String>| entry(b));
    let mut out = header_chars(tier, image_size, image_modified);
    out.push('\n');
    let ghost head = out@;
    let mut k: usize = 0;
    assert(es.take(0) =~= Seq::<(Seq<char>, Seq<char>, i32, i32, i32, i32, bool)>::empty());
    assert(out@ =~= head + cache_body(es.take(0)));
    while k < blocks.len()
        invariant
            k <= blocks.len(),
            es == blocks@.map_values(|b: OcrTextBlock<String>| entry(b)),
            head == cache_header(tier, image_size, image_modified).push('\n'),
            out@ == head + cache_body(es.take(k as int)),
        decreases blocks.len() - k,
    {
        let b = &blocks[k];
        let ghost before = out@;
        let text = chars_of(b.text.as_str());
        let escaped = escape_chars(&text);
        append_chars(&mut out, &escaped);
        out.push('\t');
        let conf = chars_of(b.confidence.as_str());
        append_chars(&mut out, &conf);
        out.push('\t');
        let left = i32_decimal(b.left);
        append_chars(&mut out, &left);
        out.push('\t');
        let top = i32_decimal(b.top);
        append_chars(&mut out, &top);
        out.push('\t');
        let width = i32_decimal(b.width);
        append_chars(&mut out, &width);
        out.push('\t');
        let height = i32_decimal(b.height);
        append_chars(&mut out, &height);
        out.push('\t');
        out.push(if b.is_special { '1' } else { '0' });
        out.push('\n');
        proof {
            let e = es[k as int];
            assert(e == entry(*b));
            assert(out@ =~= before + entry_line(e).push('\n'));
            assert(es.take(k + 1) =~= es.take(k as int).push(e));
            lemma_cache_body_push(es.take(k as int), e);
        }
        k = k + 1;
    }
    assert(es.take(blocks.len() as int) =~= es);
    string_of(&out)
}

fn field_i32_exec(f: &[char]) -> (r: i32)
    ensures
        r == field_i32(f@),
{
    match parse_i32(f) {
        Some(v) => v,
        None => 0,
    }
}

/// The blocks that a cache file holds for an image of the given tier, size and
/// modification time (see `cached_entries`); the confidence of each block is the text
/// written in the file.
pub fn parse_ocr_cache(
    cache: &str,
    tier: OcrModelTier,
    image_size: u64,
    image_modified: u64,
) -> (r: Option<Vec<OcrTextBlock<String>>>)
    ensures
        r matches Some(bs) ==> cached_entries(cache@, tier, image_size, image_modified)
            == Some(bs@.map_values(|b: OcrTextBlock<String>| entry(b))),
        r is None ==> cached_entries(cache@, tier, image_size, image_modified) is None,
{
    let s = chars_of(cache);
    let ls = lines_exec(&s);
    let ghost lv = ls@.map_values(|l: Vec<char>| l@);
    if ls.len() == 0 {
        return None;
    }
    let header = header_chars(tier, image_size, image_modified);
    if !chars_eq(&ls[0], &header) {
        assert(lv[0] == ls@[0]@);
        return None;
    }
    assert(lv[0] == ls@[0]@);
    let ghost body = lv.drop_first();
    let mut out: Vec<OcrTextBlock<String>> = Vec::new();
    let mut k: usize = 1;
    assert(lv.skip(1) =~= body);
    while k < ls.len()
        invariant
            1 <= k <= ls.len(),
            lv == ls@.map_values(|l: Vec<char>| l@),
            lv == lines(cache@),
            lv.len() > 0,
            lv[0] == cache_header(tier, image_size, image_modified),
            body == lv.drop_first(),
            line_entries(body) == match line_entries(lv.skip(k as int)) {
                Some(rest) => Some(out@.map_values(|b: OcrTextBlock<String>| entry(b)) + rest),
                None => None,
            },
        decreases ls.len() - k,
    {
        let fields = split_tabs_exec(&ls[k]);
        assert(lv[k as int] == ls@[k as int]@);
        assert(lv.skip(k as int).drop_first() =~= lv.skip(k + 1));
        assert(lv.skip(k as int)[0] == lv[k as int]);
        if fields.len() != 7 {
            assert(line_entry(lv[k as int]) is None);
            assert(line_entries(lv.skip(k as int)) is None);
            return None;
        }
        let ghost fv = fields@.map_values(|l: Vec<char>| l@);
        assert(fv[0] == fields@[0]@ && fv[1] == fields@[1]@ && fv[2] == fields@[2]@ && fv[3] == fields@[3]@);
        assert(fv[4] == fields@[4]@ && fv[5] == fields@[5]@ && fv[6] == fields@[6]@);
        let text = unescape_chars(&fields[0]);
        let one: Vec<char> = chars_of("1");
        proof {
            reveal_strlit("1");
            assert(one@ =~= seq!['1']);
        }
        let block = OcrTextBlock {
            text: string_of(&text),
            confidence: string_of(&fields[1]),
            left: field_i32_exec(&fields[2]),
            top: field_i32_exec(&fields[3]),
            width: field_i32_exec(&fields[4]),
            height: field_i32_exec(&fields[5]),
            is_special: chars_eq(&fields[6], &one),
        };
        assert(line_entry(lv[k as int]) == Some(entry(block)));
        let ghost prev = out@;
        out.push(block);
        assert(out@.map_values(|b: OcrTextBlock<String>| entry(b)) =~= prev.map_values(|b: OcrTextBlock<String>| entry(b)) + seq![entry(block)]);
        k = k + 1;
    }
    assert(lv.skip(ls.len() as int) =~= Seq::<Seq<char>>::empty());
    assert(out@.map_values(|b: OcrTextBlock<String>| entry(b)) + Seq::<(Seq<char>, Seq<char>, i32, i32, i32, i32, bool)>::empty()
        =~= out@.map_values(|b: OcrTextBlock<String>| entry(b)));
    Some(out)
}

proof fn lemma_body_lines(es: Seq<(Seq<char>, Seq<char>, i32, i32, i32, i32, bool)>)
    requires
        forall|k: int| 0 <= k < es.len() ==> plain_field(#[trigger] es[k].1),
    ensures
        lines(cache_body(es)) == es.map_values(|e: (Seq<char>, Seq<char>, i32, i32, i32, i32, bool)| entry_line(e)),
        line_entries(es.map_values(|e: (Seq<char>, Seq<char>, i32, i32, i32, i32, bool)| entry_line(e))) == Some(es),
    decreases es.len(),
{
    let ls = es.map_values(|e: (Seq<char>, Seq<char>, i32, i32, i32, i32, bool)| entry_line(e));
    if es.len() == 0 {
        assert(cache_body(es) == Seq::<char>::empty());
        assert(ls =~= Seq::<Seq<char>>::empty());
        assert(lines(Seq::<char>::empty()) == Seq::<Seq<char>>::empty());
    } else {
        let rest = es.drop_first();
        assert(plain_field(es[0].1));
        assert forall|k: int| 0 <= k < rest.len() implies plain_field(#[trigger] rest[k].1) by {
            assert(rest[k] == es[k + 1]);
        }
        lemma_body_lines(rest);
        lemma_line_entry(es[0]);
        lemma_lines_cons(entry_line(es[0]), cache_body(rest));
        let rls = rest.map_values(|e: (Seq<char>, Seq<char>, i32, i32, i32, i32, bool)| entry_line(e));
        assert(ls =~= seq![entry_line(es[0])] + rls);
        assert(ls.drop_first() =~= rls);
        assert(ls[0] == entry_line(es[0]));
        assert(seq![es[0]] + rest =~= es);
    }
}

proof fn lemma_header_fields(tier: OcrModelTier, size: u64, modified: u64)
    ensures
        split_tabs(cache_header(tier, size, modified))
            == seq!["v2"@, tier_name(tier), decimal(size as nat), decimal(modified as nat)],
        no_newline(cache_header(tier, size, modified)),
        cache_header(tier, size, modified).len() > 0,
        cache_header(tier, size, modified).last() != '\r',
{
    reveal_strlit("v2");
    reveal_strlit("tiny");
    reveal_strlit("small");
    reveal_strlit("medium");
    let v = "v2"@;
    let t = tier_name(tier);
    let ds = decimal(size as nat);
    let dm = decimal(modified as nat);
    lemma_decimal_plain(size as nat);
    lemma_decimal_plain(modified as nat);
    assert(plain_field(v));
    assert(plain_field(t));
    let r2 = ds + seq!['\t'] + dm;
    let r1 = t + seq!['\t'] + r2;
    let h = cache_header(tier, size, modified);
    assert(h =~= v + seq!['\t'] + r1);
    lemma_split_cons(v, r1);
    lemma_split_cons(t, r2);
    lemma_split_cons(ds, dm);
    lemma_split_single(dm);
    assert(split_tabs(h) =~= seq![v, t, ds, dm]);
    assert forall|i: int| 0 <= i < h.len() implies (#[trigger] h[i]) != '\n' by {
        if i < v.len() {
            assert(h[i] == v[i]);
        } else if i == v.len() {
        } else if i < v.len() + 1 + t.len() {
            assert(h[i] == t[i - v.len() - 1]);
        } else if i == v.len() + 1 + t.len() {
        } else if i < v.len() + 2 + t.len() + ds.len() {
            assert(h[i] == ds[i - v.len() - 2 - t.len()]);
        } else if i == v.len() + 2 + t.len() + ds.len() {
        } else {
            assert(h[i] == dm[i - v.len() - 3 - t.len() - ds.len()]);
        }
    }
    assert(h.last() == dm.last());
}

/// A cache file that the library writes reads back as the blocks it was written from,
/// for the same tier, image size and modification time, as long as each confidence text
/// has no tab or line break (a printed number has none).
pub proof fn lemma_cache_roundtrip(
    tier: OcrModelTier,
    size: u64,
    modified: u64,
    es: Seq<(Seq<char>, Seq<char>, i32, i32, i32, i32, bool)>,
)
    requires
        forall|k: int| 0 <= k < es.len() ==> plain_field(#[trigger] es[k].1),
    ensures
        cached_entries(cache_text(tier, size, modified, es), tier, size, modified) == Some(es),
{
    let h = cache_header(tier, size, modified);
    lemma_header_fields(tier, size, modified);
    lemma_lines_cons(h, cache_body(es));
    lemma_body_lines(es);
    let ls = lines(cache_text(tier, size, modified, es));
    assert(ls.drop_first() =~= es.map_values(|e: (Seq<char>, Seq<char>, i32, i32, i32, i32, bool)| entry_line(e)));
}

/// A cache file is never read for another tier, or for an image whose size or
/// modification time has changed since the file was written.
pub proof fn lemma_stale_cache_ignored(
    tier: OcrModelTier,
    size: u64,
    modified: u64,
    es: Seq<(Seq<char>, Seq<char>, i32, i32, i32, i32, bool)>,
    other_tier: OcrModelTier,
    other_size: u64,
    other_modified: u64,
)
    requires
        tier != other_tier || size != other_size || modified != other_modified,
    ensures
        cached_entries(cache_text(tier, size, modified, es), other_tier, other_size, other_modified) is None,
{
    let h = cache_header(tier, size, modified);
    let h2 = cache_header(other_tier, other_size, other_modified);
    lemma_header_fields(tier, size, modified);
    lemma_header_fields(other_tier, other_size, other_modified);
    lemma_lines_cons(h, cache_body(es));
    if h == h2 {
        let f = split_tabs(h);
        assert(f[1] == tier_name(tier) && f[1] == tier_name(other_tier));
        crate::tier::lemma_tier_names(tier, other_tier);
        assert(f[2] == decimal(size as nat) && f[2] == decimal(other_size as nat));
        crate::numbers::lemma_parse_u64_decimal(size);
        crate::numbers::lemma_parse_u64_decimal(other_size);
        assert(f[3] == decimal(modified as nat) && f[3] == decimal(other_modified as nat));
        crate::numbers::lemma_parse_u64_decimal(modified);
        crate::numbers::lemma_parse_u64_decimal(other_modified);
    }
}

} // verus!
