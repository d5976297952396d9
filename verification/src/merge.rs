use vstd::prelude::*;
use vstd::multiset::Multiset;
use vstd::relations::{sorted_by, strongly_connected, transitive};
use crate::block::{abs, max, min, OcrTextBlock};
use crate::metric::{metric_value_chars, metric_value_text};
use crate::ocr::{normalize_chars, normalized};
use crate::sort::{insert_pos, insertion_sort, lemma_stable_sort_map, stable_sort};
use crate::text::{append_chars, chars_of, string_of};

verus! {

/// A recognized region of text with its box, given by its edges (inclusive).
/// `confidence` is the recognizer's figure, which the library only hands to the
/// caller's rule for combining it.
#[derive(Clone, Debug)]
pub struct MergedOcrResult<C> {
    pub text: String,
    pub confidence: C,
    pub left: i32,
    pub top: i32,
    pub right: i32,
    pub bottom: i32,
    /// The region is a label joined with the value to its right.
    pub is_special: bool,
}

/// A region as values: text, confidence, left, top, right, bottom, joined flag.
pub open spec fn region<C>(m: MergedOcrResult<C>) -> (Seq<char>, C, i32, i32, i32, i32, bool) {
    (m.text@, m.confidence, m.left, m.top, m.right, m.bottom, m.is_special)
}

pub open spec fn regions<C>(s: Seq<MergedOcrResult<C>>) -> Seq<(Seq<char>, C, i32, i32, i32, i32, bool)> {
    s.map_values(|m: MergedOcrResult<C>| region(m))
}

pub open spec fn r_width<C>(r: (Seq<char>, C, i32, i32, i32, i32, bool)) -> int {
    r.4 - r.2 + 1
}

pub open spec fn r_height<C>(r: (Seq<char>, C, i32, i32, i32, i32, bool)) -> int {
    r.5 - r.3 + 1
}

/// Twice the vertical center.
pub open spec fn r_center2<C>(r: (Seq<char>, C, i32, i32, i32, i32, bool)) -> int {
    r.3 + r.5
}

pub open spec fn r_area<C>(r: (Seq<char>, C, i32, i32, i32, i32, bool)) -> int {
    r_width(r) * r_height(r)
}

/// `part / whole` reaches `num / den`, as a division of the two lengths gives it: an
/// empty whole is reached by any nonempty part, a negative one by none.
pub open spec fn ratio_at_least(part: int, whole: int, num: int, den: int) -> bool {
    if whole > 0 {
        den * part >= num * whole
    } else if whole == 0 {
        part > 0
    } else {
        false
    }
}

/// How many pixel columns two regions share.
pub open spec fn x_overlap<C>(a: (Seq<char>, C, i32, i32, i32, i32, bool), b: (Seq<char>, C, i32, i32, i32, i32, bool)) -> int {
    max(min(a.4 as int, b.4 as int) - max(a.2 as int, b.2 as int) + 1, 0)
}

/// How many pixel rows two regions share.
pub open spec fn y_overlap<C>(a: (Seq<char>, C, i32, i32, i32, i32, bool), b: (Seq<char>, C, i32, i32, i32, i32, bool)) -> int {
    max(min(a.5 as int, b.5 as int) - max(a.3 as int, b.3 as int) + 1, 0)
}

/// `next` continues the text of `current` on its line: it starts at most 24 pixels to
/// the right of it, their centers are at most 45% of the taller height apart, and they
/// share at least 55% of the lower height.
pub open spec fn merge_horizontal_ok<C>(current: (Seq<char>, C, i32, i32, i32, i32, bool), next: (Seq<char>, C, i32, i32, i32, i32, bool)) -> bool {
    let gap = next.2 - current.4 - 1;
    &&& 0 <= gap <= 24
    &&& 10 * abs(r_center2(current) - r_center2(next)) <= 9 * max(r_height(current), r_height(next))
    &&& ratio_at_least(y_overlap(current, next), min(r_height(current), r_height(next)), 11, 20)
}

/// `top_delta` exceeds 105% of `height`, as the recognizer's single-precision factor
/// 1.05 (slightly below 1.05) gives it for the distances that matter (0 to 72): the
/// one case where the two differ is 63 below a height of 60.
pub open spec fn exceeds_105(top_delta: int, height: int) -> bool {
    20 * top_delta > 21 * height || (top_delta == 63 && height == 60)
}

/// `value` is the metric value under `label`: a metric value text, at most 72 pixels
/// and at most 105% of the taller height lower, in the label's column (left edges at
/// most 36 pixels apart, or sharing at least 45% of the narrower width).
pub open spec fn merge_metric_ok<C>(label: (Seq<char>, C, i32, i32, i32, i32, bool), value: (Seq<char>, C, i32, i32, i32, i32, bool)) -> bool {
    let top_delta = value.3 - label.3;
    &&& metric_value_text(value.0)
    &&& 0 <= top_delta <= 72
    &&& !exceeds_105(top_delta, max(r_height(label), r_height(value)))
    &&& (abs(label.2 - value.2) <= 36 || ratio_at_least(x_overlap(label, value), min(r_width(label), r_width(value)), 9, 20))
}

/// `value` is the metric value to the right of `label`: neither is joined yet, the label
/// is no metric value and the value is one, it starts at most 180 pixels to the right,
/// and their centers are at most 35% of the taller height apart.
pub open spec fn merge_special_ok<C>(label: (Seq<char>, C, i32, i32, i32, i32, bool), value: (Seq<char>, C, i32, i32, i32, i32, bool)) -> bool {
    let gap = value.2 - label.4 - 1;
    &&& !label.6
    &&& !value.6
    &&& !metric_value_text(label.0)
    &&& metric_value_text(value.0)
    &&& 0 <= gap <= 180
    &&& 10 * abs(r_center2(label) - r_center2(value)) <= 7 * max(r_height(label), r_height(value))
}

/// `combine` is a function of its arguments that accepts any.
pub open spec fn combines<C, F: Fn(C, i128, C, i128) -> C>(combine: F) -> bool {
    &&& forall|a: C, x: i128, b: C, y: i128| #[trigger] combine.requires((a, x, b, y))
    &&& forall|a: C, x: i128, b: C, y: i128, c1: C, c2: C|
        #[trigger] combine.ensures((a, x, b, y), c1) && #[trigger] combine.ensures((a, x, b, y), c2) ==> c1 == c2
}

/// What `combine` gives for two confidences and the areas of their regions.
pub open spec fn combined<C, F: Fn(C, i128, C, i128) -> C>(combine: F, a: C, x: i128, b: C, y: i128) -> C {
    choose|c: C| combine.ensures((a, x, b, y), c)
}

/// Two regions made one: the texts joined and tidied, the confidences combined by the
/// areas, and the box covering both. The result keeps the joined flag of `a`.
pub open spec fn merged_region<C, F: Fn(C, i128, C, i128) -> C>(
    a: (Seq<char>, C, i32, i32, i32, i32, bool),
    b: (Seq<char>, C, i32, i32, i32, i32, bool),
    combine: F,
) -> (Seq<char>, C, i32, i32, i32, i32, bool) {
    (
        normalized(a.0 + b.0),
        combined(combine, a.1, r_area(a) as i128, b.1, r_area(b) as i128),
        min(a.2 as int, b.2 as int) as i32,
        min(a.3 as int, b.3 as int) as i32,
        max(a.4 as int, b.4 as int) as i32,
        max(a.5 as int, b.5 as int) as i32,
        a.6,
    )
}

impl<C: Copy> MergedOcrResult<C> {
    /// A region as the recognizer reports it, with its text tidied and not joined.
    pub fn new(text: &str, confidence: C, left: i32, top: i32, right: i32, bottom: i32) -> (r: MergedOcrResult<C>)
        ensures
            region(r) == (normalized(text@), confidence, left, top, right, bottom, false),
    {
        let t = chars_of(text);
        let n = normalize_chars(&t);
        MergedOcrResult { text: string_of(&n), confidence, left, top, right, bottom, is_special: false }
    }

    /// The width in pixels, edges included.
    pub fn width(&self) -> (r: i64)
        ensures
            r == r_width(region(*self)),
            -0x1_0000_0000 <= r <= 0x1_0000_0001,
    {
        self.right as i64 - self.left as i64 + 1
    }

    /// The height in pixels, edges included.
    pub fn height(&self) -> (r: i64)
        ensures
            r == r_height(region(*self)),
            -0x1_0000_0000 <= r <= 0x1_0000_0001,
    {
        self.bottom as i64 - self.top as i64 + 1
    }

    /// A copy of the region.
    pub fn duplicate(&self) -> (r: MergedOcrResult<C>)
        ensures
            region(r) == region(*self),
    {
        MergedOcrResult {
            text: self.text.clone(),
            confidence: self.confidence,
            left: self.left,
            top: self.top,
            right: self.right,
            bottom: self.bottom,
            is_special: self.is_special,
        }
    }
}

fn abs_i64(x: i64) -> (r: i64)
    requires
        x > i64::MIN,
    ensures
        r == abs(x as int),
{
    if x < 0 { -x } else { x }
}

fn ratio_at_least_exec(part: i64, whole: i64, num: i64, den: i64) -> (r: bool)
    requires
        0 <= part < 0x1_0000_0000_0,
        -0x1_0000_0000_0 < whole < 0x1_0000_0000_0,
        0 < num < 100,
        0 < den < 100,
    ensures
        r == ratio_at_least(part as int, whole as int, num as int, den as int),
{
    if whole > 0 {
        assert(den * part < 100 * 0x1_0000_0000_0) by (nonlinear_arith)
            requires
                0 < den < 100,
                0 <= part < 0x1_0000_0000_0;
        assert(num * whole < 100 * 0x1_0000_0000_0) by (nonlinear_arith)
            requires
                0 < num < 100,
                0 < whole < 0x1_0000_0000_0;
        assert(den * part >= 0) by (nonlinear_arith)
            requires
                0 < den,
                0 <= part;
        assert(num * whole >= 0) by (nonlinear_arith)
            requires
                0 < num,
                0 < whole;
        den * part >= num * whole
    } else if whole == 0 {
        part > 0
    } else {
        false
    }
}

fn overlap_exec(a_lo: i32, a_hi: i32, b_lo: i32, b_hi: i32) -> (r: i64)
    ensures
        r == max(min(a_hi as int, b_hi as int) - max(a_lo as int, b_lo as int) + 1, 0),
        0 <= r < 0x1_0000_0000_0,
{
    let hi = if a_hi <= b_hi { a_hi as i64 } else { b_hi as i64 };
    let lo = if a_lo >= b_lo { a_lo as i64 } else { b_lo as i64 };
    let raw = hi - lo + 1;
    if raw >= 0 { raw } else { 0 }
}

/// Whether `next` continues the text of `current` on its line (see `merge_horizontal_ok`).
pub fn should_merge_horizontal<C: Copy>(current: &MergedOcrResult<C>, next: &MergedOcrResult<C>) -> (r: bool)
    ensures
        r == merge_horizontal_ok(region(*current), region(*next)),
{
    let gap = next.left as i64 - current.right as i64 - 1;
    if !(0 <= gap && gap <= 24) {
        return false;
    }
    let hc = current.height();
    let hn = next.height();
    let taller = if hc >= hn { hc } else { hn };
    let lower = if hc <= hn { hc } else { hn };
    let delta = abs_i64((current.top as i64 + current.bottom as i64) - (next.top as i64 + next.bottom as i64));
    if 10 * delta > 9 * taller {
        return false;
    }
    let overlap = overlap_exec(current.top, current.bottom, next.top, next.bottom);
    ratio_at_least_exec(overlap, lower, 11, 20)
}

fn is_metric_text(s: &String) -> (r: bool)
    ensures
        r == metric_value_text(s@),
{
    let c = chars_of(s.as_str());
    metric_value_chars(&c)
}

/// Whether `value` is the metric value under `label` (see `merge_metric_ok`).
pub fn should_merge_metric_value<C: Copy>(label: &MergedOcrResult<C>, value: &MergedOcrResult<C>) -> (r: bool)
    ensures
        r == merge_metric_ok(region(*label), region(*value)),
{
    if !is_metric_text(&value.text) {
        return false;
    }
    let top_delta = value.top as i64 - label.top as i64;
    if !(0 <= top_delta && top_delta <= 72) {
        return false;
    }
    let hl = label.height();
    let hv = value.height();
    let taller = if hl >= hv { hl } else { hv };
    if 20 * top_delta > 21 * taller || (top_delta == 63 && taller == 60) {
        return false;
    }
    if abs_i64(label.left as i64 - value.left as i64) <= 36 {
        return true;
    }
    let wl = label.width();
    let wv = value.width();
    let narrower = if wl <= wv { wl } else { wv };
    let overlap = overlap_exec(label.left, label.right, value.left, value.right);
    ratio_at_least_exec(overlap, narrower, 9, 20)
}

/// Whether `value` is the metric value to the right of `label` (see `merge_special_ok`).
pub fn should_merge_special_horizontal<C: Copy>(label: &MergedOcrResult<C>, value: &MergedOcrResult<C>) -> (r: bool)
    ensures
        r == merge_special_ok(region(*label), region(*value)),
{
    if label.is_special || value.is_special || is_metric_text(&label.text) {
        return false;
    }
    if !is_metric_text(&value.text) {
        return false;
    }
    let gap = value.left as i64 - label.right as i64 - 1;
    if !(0 <= gap && gap <= 180) {
        return false;
    }
    let hl = label.height();
    let hv = value.height();
    let taller = if hl >= hv { hl } else { hv };
    let delta = abs_i64((label.top as i64 + label.bottom as i64) - (value.top as i64 + value.bottom as i64));
    10 * delta <= 7 * taller
}

proof fn lemma_area_bounds(w: int, h: int)
    requires
        -0x1_0000_0000 <= w <= 0x1_0000_0001,
        -0x1_0000_0000 <= h <= 0x1_0000_0001,
    ensures
        -0x1_0000_0000_0000_0000_0 <= w * h <= 0x1_0000_0000_0000_0000_0,
{
    assert(-0x1_0000_0000_0000_0000_0 <= w * h <= 0x1_0000_0000_0000_0000_0) by (nonlinear_arith)
        requires
            -0x1_0000_0000 <= w <= 0x1_0000_0001,
            -0x1_0000_0000 <= h <= 0x1_0000_0001;
}

/// Makes `a` and `b` one region (see `merged_region`).
pub fn merge_regions<C: Copy, F: Fn(C, i128, C, i128) -> C>(
    a: &MergedOcrResult<C>,
    b: &MergedOcrResult<C>,
    combine: &F,
) -> (r: MergedOcrResult<C>)
    requires
        combines(*combine),
    ensures
        region(r) == merged_region(region(*a), region(*b), *combine),
{
    let mut t = chars_of(a.text.as_str());
    let tb = chars_of(b.text.as_str());
    append_chars(&mut t, &tb);
    let n = normalize_chars(&t);
    let wa = a.width() as i128;
    let ha = a.height() as i128;
    let wb = b.width() as i128;
    let hb = b.height() as i128;
    proof {
        lemma_area_bounds(wa as int, ha as int);
        lemma_area_bounds(wb as int, hb as int);
    }
    let area_a: i128 = wa * ha;
    let area_b: i128 = wb * hb;
    let confidence = combine(a.confidence, area_a, b.confidence, area_b);
    proof {
        let c = combined(*combine, a.confidence, area_a, b.confidence, area_b);
        assert(combine.ensures((a.confidence, area_a, b.confidence, area_b), c));
    }
    MergedOcrResult {
        text: string_of(&n),
        confidence,
        left: if a.left <= b.left { a.left } else { b.left },
        top: if a.top <= b.top { a.top } else { b.top },
        right: if a.right >= b.right { a.right } else { b.right },
        bottom: if a.bottom >= b.bottom { a.bottom } else { b.bottom },
        is_special: a.is_special,
    }
}

/// Regions in reading order with each one that continues the text before it on its
/// line joined to it.
pub open spec fn horizontal_merged<C, F: Fn(C, i128, C, i128) -> C>(
    s: Seq<(Seq<char>, C, i32, i32, i32, i32, bool)>,
    combine: F,
) -> Seq<(Seq<char>, C, i32, i32, i32, i32, bool)>
    decreases s.len(),
{
    if s.len() == 0 {
        Seq::empty()
    } else {
        let acc = horizontal_merged(s.drop_last(), combine);
        let x = s.last();
        if acc.len() > 0 && merge_horizontal_ok(acc.last(), x) {
            acc.update(acc.len() - 1, merged_region(acc.last(), x, combine))
        } else {
            acc.push(x)
        }
    }
}

/// Joins each region, taken in the given order, to the one before it when it continues
/// that one's text on its line (see `horizontal_merged`).
pub fn merge_horizontal_in_order<C: Copy, F: Fn(C, i128, C, i128) -> C>(
    items: Vec<MergedOcrResult<C>>,
    combine: &F,
) -> (r: Vec<MergedOcrResult<C>>)
    requires
        combines(*combine),
    ensures
        regions(r@) == horizontal_merged(regions(items@), *combine),
{
    let ghost all = regions(items@);
    let mut merged: Vec<MergedOcrResult<C>> = Vec::new();
    let mut k: usize = 0;
    assert(all.take(0) =~= Seq::<(Seq<char>, C, i32, i32, i32, i32, bool)>::empty());
    assert(regions(merged@) =~= Seq::<(Seq<char>, C, i32, i32, i32, i32, bool)>::empty());
    while k < items.len()
        invariant
            k <= items.len(),
            all == regions(items@),
            combines(*combine),
            regions(merged@) == horizontal_merged(all.take(k as int), *combine),
        decreases items.len() - k,
    {
        let item = &items[k];
        assert(all[k as int] == region(*item));
        assert(all.take(k + 1).drop_last() =~= all.take(k as int));
        assert(all.take(k + 1).last() == region(*item));
        let n = merged.len();
        if n > 0 && should_merge_horizontal(&merged[n - 1], item) {
            assert(regions(merged@).last() == region(merged@[n - 1]));
            let m = merge_regions(&merged[n - 1], item, combine);
            let ghost before = merged@;
            merged.set(n - 1, m);
            assert(regions(merged@) =~= regions(before).update(n - 1, region(m)));
        } else {
            proof {
                if n > 0 {
                    assert(regions(merged@).last() == region(merged@[n - 1]));
                }
            }
            let c = item.duplicate();
            let ghost before = merged@;
            merged.push(c);
            assert(regions(merged@) =~= regions(before).push(region(c)));
        }
        k = k + 1;
    }
    assert(all.take(items.len() as int) =~= all);
    merged
}

/// Regions in order of their top edge, then their left edge.
pub open spec fn top_left_le<C>(a: (Seq<char>, C, i32, i32, i32, i32, bool), b: (Seq<char>, C, i32, i32, i32, i32, bool)) -> bool {
    a.3 < b.3 || (a.3 == b.3 && a.2 <= b.2)
}

pub open spec fn pair_lt(a: (int, int), b: (int, int)) -> bool {
    a.0 < b.0 || (a.0 == b.0 && a.1 < b.1)
}

pub open spec fn pair_le(a: (int, int), b: (int, int)) -> bool {
    pair_lt(a, b) || a == b
}

/// `items[j]`, not yet used, may be the metric value under `items[i]`.
pub open spec fn nearby_candidate<C>(items: Seq<(Seq<char>, C, i32, i32, i32, i32, bool)>, used: Seq<bool>, i: int, j: int) -> bool {
    &&& 0 <= i < j < items.len()
    &&& j < used.len()
    &&& !used[j]
    &&& merge_metric_ok(items[i], items[j])
}

/// How close a value is under a label: vertical distance, then horizontal distance.
pub open spec fn nearby_key<C>(items: Seq<(Seq<char>, C, i32, i32, i32, i32, bool)>, i: int, j: int) -> (int, int) {
    (items[j].3 - items[i].3, abs(items[j].2 - items[i].2))
}

/// `items[j]` is the first of the closest values under `items[i]`.
pub open spec fn is_best_nearby<C>(items: Seq<(Seq<char>, C, i32, i32, i32, i32, bool)>, used: Seq<bool>, i: int, j: int) -> bool {
    &&& nearby_candidate(items, used, i, j)
    &&& forall|k: int| #[trigger] nearby_candidate(items, used, i, k) ==> {
        &&& pair_le(nearby_key(items, i, j), nearby_key(items, i, k))
        &&& (k < j ==> pair_lt(nearby_key(items, i, j), nearby_key(items, i, k)))
    }
}

pub open spec fn best_nearby<C>(items: Seq<(Seq<char>, C, i32, i32, i32, i32, bool)>, used: Seq<bool>, i: int) -> Option<int> {
    if exists|j: int| is_best_nearby(items, used, i, j) {
        Some(choose|j: int| is_best_nearby(items, used, i, j))
    } else {
        None
    }
}

/// The metric merging of `items` (sorted by top, then left) from index `i` on, given
/// which are used and what was produced so far: each unused region that is no metric
/// value takes the closest unused value under it; every unused region is produced once.
pub open spec fn nearby_from<C, F: Fn(C, i128, C, i128) -> C>(
    items: Seq<(Seq<char>, C, i32, i32, i32, i32, bool)>,
    i: int,
    used: Seq<bool>,
    out: Seq<(Seq<char>, C, i32, i32, i32, i32, bool)>,
    combine: F,
) -> Seq<(Seq<char>, C, i32, i32, i32, i32, bool)>
    decreases items.len() - i,
{
    if i < 0 || i >= items.len() || used.len() != items.len() {
        out
    } else if used[i] {
        nearby_from(items, i + 1, used, out, combine)
    } else if !metric_value_text(items[i].0) && best_nearby(items, used, i) is Some {
        let j = best_nearby(items, used, i)->0;
        nearby_from(items, i + 1, used.update(j, true).update(i, true), out.push(merged_region(items[i], items[j], combine)), combine)
    } else {
        nearby_from(items, i + 1, used.update(i, true), out.push(items[i]), combine)
    }
}

/// Regions with each label joined to the metric value under it.
pub open spec fn metric_merged<C, F: Fn(C, i128, C, i128) -> C>(
    s: Seq<(Seq<char>, C, i32, i32, i32, i32, bool)>,
    combine: F,
) -> Seq<(Seq<char>, C, i32, i32, i32, i32, bool)> {
    let t = stable_sort(s, |a: (Seq<char>, C, i32, i32, i32, i32, bool), b: (Seq<char>, C, i32, i32, i32, i32, bool)| top_left_le(a, b));
    nearby_from(t, 0, Seq::new(t.len(), |k: int| false), Seq::empty(), combine)
}

proof fn lemma_pair_order(a: (int, int), b: (int, int))
    ensures
        !(pair_lt(a, b) && pair_le(b, a)),
        pair_le(a, b) || pair_lt(b, a),
{
}

fn pair_lt_exec(a: (i64, i64), b: (i64, i64)) -> (r: bool)
    ensures
        r == pair_lt((a.0 as int, a.1 as int), (b.0 as int, b.1 as int)),
{
    a.0 < b.0 || (a.0 == b.0 && a.1 < b.1)
}

fn best_nearby_exec<C: Copy>(items: &Vec<MergedOcrResult<C>>, used: &Vec<bool>, i: usize) -> (r: Option<usize>)
    requires
        i < items.len(),
        used.len() == items.len(),
    ensures
        r matches Some(j) ==> best_nearby(regions(items@), used@, i as int) == Some(j as int) && i < j < items.len(),
        r is None ==> best_nearby(regions(items@), used@, i as int) is None,
{
    let ghost rs = regions(items@);
    let mut best: Option<usize> = None;
    let mut best_key: (i64, i64) = (0, 0);
    let mut j: usize = i + 1;
    while j < items.len()
        invariant
            i < j <= items.len(),
            used.len() == items.len(),
            rs == regions(items@),
            best matches Some(b) ==> {
                &&& i < b < j
                &&& nearby_candidate(rs, used@, i as int, b as int)
                &&& nearby_key(rs, i as int, b as int) == (best_key.0 as int, best_key.1 as int)
                &&& forall|m: int| 0 <= m < j && #[trigger] nearby_candidate(rs, used@, i as int, m) ==> {
                    &&& pair_le(nearby_key(rs, i as int, b as int), nearby_key(rs, i as int, m))
                    &&& (m < b ==> pair_lt(nearby_key(rs, i as int, b as int), nearby_key(rs, i as int, m)))
                }
            },
            best is None ==> forall|m: int| 0 <= m < j ==> !#[trigger] nearby_candidate(rs, used@, i as int, m),
        decreases items.len() - j,
    {
        assert(rs[i as int] == region(items@[i as int]) && rs[j as int] == region(items@[j as int]));
        if !used[j] && should_merge_metric_value(&items[i], &items[j]) {
            let key = (items[j].top as i64 - items[i].top as i64, abs_i64(items[j].left as i64 - items[i].left as i64));
            assert(nearby_candidate(rs, used@, i as int, j as int));
            match best {
                None => {
                    best = Some(j);
                    best_key = key;
                },
                Some(b) => {
                    if pair_lt_exec(key, best_key) {
                        proof {
                            assert forall|m: int| 0 <= m < j + 1 && #[trigger] nearby_candidate(rs, used@, i as int, m) implies {
                                &&& pair_le(nearby_key(rs, i as int, j as int), nearby_key(rs, i as int, m))
                                &&& (m < j ==> pair_lt(nearby_key(rs, i as int, j as int), nearby_key(rs, i as int, m)))
                            } by {
                                if m < j {
                                    assert(pair_le(nearby_key(rs, i as int, b as int), nearby_key(rs, i as int, m)));
                                }
                            }
                        }
                        best = Some(j);
                        best_key = key;
                    }
                },
            }
        } else {
            assert(!nearby_candidate(rs, used@, i as int, j as int));
        }
        j = j + 1;
    }
    match best {
        Some(b) => {
            proof {
                assert(is_best_nearby(rs, used@, i as int, b as int));
                let c = choose|x: int| is_best_nearby(rs, used@, i as int, x);
                if c != b as int {
                    if c < b {
                        lemma_pair_order(nearby_key(rs, i as int, b as int), nearby_key(rs, i as int, c));
                    } else {
                        lemma_pair_order(nearby_key(rs, i as int, c), nearby_key(rs, i as int, b as int));
                    }
                }
            }
            Some(b)
        },
        None => {
            proof {
                if exists|x: int| is_best_nearby(rs, used@, i as int, x) {
                    let c = choose|x: int| is_best_nearby(rs, used@, i as int, x);
                    assert(nearby_candidate(rs, used@, i as int, c));
                }
            }
            None
        },
    }
}

/// Joins each label to the closest metric value under it (see `metric_merged`); the
/// result is in order of top, then left.
pub fn merge_metric_values_by_top<C: Copy, F: Fn(C, i128, C, i128) -> C>(
    items: Vec<MergedOcrResult<C>>,
    combine: &F,
) -> (r: Vec<MergedOcrResult<C>>)
    requires
        combines(*combine),
    ensures
        regions(r@) == metric_merged(regions(items@), *combine),
{
    let le_exec = |a: &MergedOcrResult<C>, b: &MergedOcrResult<C>| -> (r: bool)
        ensures
            r == top_left_le(region(*a), region(*b)),
        { a.top < b.top || (a.top == b.top && a.left <= b.left) };
    let ghost le = |a: MergedOcrResult<C>, b: MergedOcrResult<C>| top_left_le(region(a), region(b));
    let ghost rle = |a: (Seq<char>, C, i32, i32, i32, i32, bool), b: (Seq<char>, C, i32, i32, i32, i32, bool)| top_left_le(a, b);
    let ghost input = items@;
    let sorted = insertion_sort(items, &le_exec, Ghost(le));
    proof {
        lemma_stable_sort_map(input, le, |m: MergedOcrResult<C>| region(m), rle);
        crate::sort::lemma_stable_sort_permutes(input, le);
    }
    let ghost sv = regions(sorted@);
    assert(sv == stable_sort(regions(input), rle));
    let n = sorted.len();
    let mut used: Vec<bool> = Vec::new();
    while used.len() < n
        invariant
            used.len() <= n,
            forall|k: int| 0 <= k < used.len() ==> !used@[k],
        decreases n - used.len(),
    {
        used.push(false);
    }
    assert(used@ =~= Seq::new(sv.len(), |k: int| false));
    let mut out: Vec<MergedOcrResult<C>> = Vec::new();
    let mut index: usize = 0;
    assert(regions(out@) =~= Seq::<(Seq<char>, C, i32, i32, i32, i32, bool)>::empty());
    while index < n
        invariant
            index <= n,
            n == sorted.len(),
            used.len() == n,
            sv == regions(sorted@),
            combines(*combine),
            metric_merged(regions(input), *combine) == nearby_from(sv, index as int, used@, regions(out@), *combine),
        decreases n - index,
    {
        assert(sv[index as int] == region(sorted@[index as int]));
        if used[index] {
            index = index + 1;
            continue;
        }
        let ghost before = out@;
        if !is_metric_text(&sorted[index].text) {
            match best_nearby_exec(&sorted, &used, index) {
                Some(j) => {
                    assert(sv[j as int] == region(sorted@[j as int]));
                    let m = merge_regions(&sorted[index], &sorted[j], combine);
                    used.set(j, true);
                    used.set(index, true);
                    out.push(m);
                    assert(regions(out@) =~= regions(before).push(region(m)));
                    index = index + 1;
                    continue;
                },
                None => {},
            }
        }
        let c = sorted[index].duplicate();
        used.set(index, true);
        out.push(c);
        assert(regions(out@) =~= regions(before).push(region(c)));
        index = index + 1;
    }
    out
}

/// A label and its value made one joined region.
pub open spec fn joined_region<C, F: Fn(C, i128, C, i128) -> C>(
    a: (Seq<char>, C, i32, i32, i32, i32, bool),
    b: (Seq<char>, C, i32, i32, i32, i32, bool),
    combine: F,
) -> (Seq<char>, C, i32, i32, i32, i32, bool) {
    let m = merged_region(a, b, combine);
    (m.0, m.1, m.2, m.3, m.4, m.5, true)
}

/// `items[j]`, not yet used, may be the value to the right of `items[i]`.
pub open spec fn special_candidate<C>(items: Seq<(Seq<char>, C, i32, i32, i32, i32, bool)>, used: Seq<bool>, i: int, j: int) -> bool {
    &&& 0 <= i < j < items.len()
    &&& j < used.len()
    &&& !used[j]
    &&& merge_special_ok(items[i], items[j])
}

/// How close a value is to the right of a label: distance of the vertical centers
/// (whole pixels), then the horizontal gap.
pub open spec fn special_key<C>(items: Seq<(Seq<char>, C, i32, i32, i32, i32, bool)>, i: int, j: int) -> (int, int) {
    (abs(r_center2(items[j]) - r_center2(items[i])) / 2, items[j].2 - items[i].4)
}

/// `items[j]` is the first of the closest values to the right of `items[i]`.
pub open spec fn is_best_special<C>(items: Seq<(Seq<char>, C, i32, i32, i32, i32, bool)>, used: Seq<bool>, i: int, j: int) -> bool {
    &&& special_candidate(items, used, i, j)
    &&& forall|k: int| #[trigger] special_candidate(items, used, i, k) ==> {
        &&& pair_le(special_key(items, i, j), special_key(items, i, k))
        &&& (k < j ==> pair_lt(special_key(items, i, j), special_key(items, i, k)))
    }
}

pub open spec fn best_special<C>(items: Seq<(Seq<char>, C, i32, i32, i32, i32, bool)>, used: Seq<bool>, i: int) -> Option<int> {
    if exists|j: int| is_best_special(items, used, i, j) {
        Some(choose|j: int| is_best_special(items, used, i, j))
    } else {
        None
    }
}

/// The joining of `items` (sorted by top, then left) from index `i` on, given which are
/// used and what was produced so far: each unused region takes the closest unused value
/// to its right and becomes a joined region; every unused region is produced once.
pub open spec fn special_from<C, F: Fn(C, i128, C, i128) -> C>(
    items: Seq<(Seq<char>, C, i32, i32, i32, i32, bool)>,
    i: int,
    used: Seq<bool>,
    out: Seq<(Seq<char>, C, i32, i32, i32, i32, bool)>,
    combine: F,
) -> Seq<(Seq<char>, C, i32, i32, i32, i32, bool)>
    decreases items.len() - i,
{
    if i < 0 || i >= items.len() || used.len() != items.len() {
        out
    } else if used[i] {
        special_from(items, i + 1, used, out, combine)
    } else if best_special(items, used, i) is Some {
        let j = best_special(items, used, i)->0;
        special_from(items, i + 1, used.update(j, true).update(i, true), out.push(joined_region(items[i], items[j], combine)), combine)
    } else {
        special_from(items, i + 1, used.update(i, true), out.push(items[i]), combine)
    }
}

/// Regions with each label joined to the metric value to its right.
pub open spec fn special_merged<C, F: Fn(C, i128, C, i128) -> C>(
    s: Seq<(Seq<char>, C, i32, i32, i32, i32, bool)>,
    combine: F,
) -> Seq<(Seq<char>, C, i32, i32, i32, i32, bool)> {
    let t = stable_sort(s, |a: (Seq<char>, C, i32, i32, i32, i32, bool), b: (Seq<char>, C, i32, i32, i32, i32, bool)| top_left_le(a, b));
    special_from(t, 0, Seq::new(t.len(), |k: int| false), Seq::empty(), combine)
}

fn best_special_exec<C: Copy>(items: &Vec<MergedOcrResult<C>>, used: &Vec<bool>, i: usize) -> (r: Option<usize>)
    requires
        i < items.len(),
        used.len() == items.len(),
    ensures
        r matches Some(j) ==> best_special(regions(items@), used@, i as int) == Some(j as int) && i < j < items.len(),
        r is None ==> best_special(regions(items@), used@, i as int) is None,
{
    let ghost rs = regions(items@);
    let mut best: Option<usize> = None;
    let mut best_key: (i64, i64) = (0, 0);
    let mut j: usize = i + 1;
    while j < items.len()
        invariant
            i < j <= items.len(),
            used.len() == items.len(),
            rs == regions(items@),
            best matches Some(b) ==> {
                &&& i < b < j
                &&& special_candidate(rs, used@, i as int, b as int)
                &&& special_key(rs, i as int, b as int) == (best_key.0 as int, best_key.1 as int)
                &&& forall|m: int| 0 <= m < j && #[trigger] special_candidate(rs, used@, i as int, m) ==> {
                    &&& pair_le(special_key(rs, i as int, b as int), special_key(rs, i as int, m))
                    &&& (m < b ==> pair_lt(special_key(rs, i as int, b as int), special_key(rs, i as int, m)))
                }
            },
            best is None ==> forall|m: int| 0 <= m < j ==> !#[trigger] special_candidate(rs, used@, i as int, m),
        decreases items.len() - j,
    {
        assert(rs[i as int] == region(items@[i as int]) && rs[j as int] == region(items@[j as int]));
        if !used[j] && should_merge_special_horizontal(&items[i], &items[j]) {
            let key = (
                abs_i64((items[j].top as i64 + items[j].bottom as i64) - (items[i].top as i64 + items[i].bottom as i64)) / 2,
                items[j].left as i64 - items[i].right as i64,
            );
            assert(special_candidate(rs, used@, i as int, j as int));
            match best {
                None => {
                    best = Some(j);
                    best_key = key;
                },
                Some(b) => {
                    if pair_lt_exec(key, best_key) {
                        proof {
                            assert forall|m: int| 0 <= m < j + 1 && #[trigger] special_candidate(rs, used@, i as int, m) implies {
                                &&& pair_le(special_key(rs, i as int, j as int), special_key(rs, i as int, m))
                                &&& (m < j ==> pair_lt(special_key(rs, i as int, j as int), special_key(rs, i as int, m)))
                            } by {
                                if m < j {
                                    assert(pair_le(special_key(rs, i as int, b as int), special_key(rs, i as int, m)));
                                }
                            }
                        }
                        best = Some(j);
                        best_key = key;
                    }
                },
            }
        } else {
            assert(!special_candidate(rs, used@, i as int, j as int));
        }
        j = j + 1;
    }
    match best {
        Some(b) => {
            proof {
                assert(is_best_special(rs, used@, i as int, b as int));
                let c = choose|x: int| is_best_special(rs, used@, i as int, x);
                if c != b as int {
                    if c < b {
                        lemma_pair_order(special_key(rs, i as int, b as int), special_key(rs, i as int, c));
                    } else {
                        lemma_pair_order(special_key(rs, i as int, c), special_key(rs, i as int, b as int));
                    }
                }
            }
            Some(b)
        },
        None => {
            proof {
                if exists|x: int| is_best_special(rs, used@, i as int, x) {
                    let c = choose|x: int| is_best_special(rs, used@, i as int, x);
                    assert(special_candidate(rs, used@, i as int, c));
                }
            }
            None
        },
    }
}

/// Joins each label to the closest metric value to its right, marking the result as
/// joined (see `special_merged`); the result is in order of top, then left.
pub fn merge_special_values_by_top<C: Copy, F: Fn(C, i128, C, i128) -> C>(
    items: Vec<MergedOcrResult<C>>,
    combine: &F,
) -> (r: Vec<MergedOcrResult<C>>)
    requires
        combines(*combine),
    ensures
        regions(r@) == special_merged(regions(items@), *combine),
{
    let le_exec = |a: &MergedOcrResult<C>, b: &MergedOcrResult<C>| -> (r: bool)
        ensures
            r == top_left_le(region(*a), region(*b)),
        { a.top < b.top || (a.top == b.top && a.left <= b.left) };
    let ghost le = |a: MergedOcrResult<C>, b: MergedOcrResult<C>| top_left_le(region(a), region(b));
    let ghost rle = |a: (Seq<char>, C, i32, i32, i32, i32, bool), b: (Seq<char>, C, i32, i32, i32, i32, bool)| top_left_le(a, b);
    let ghost input = items@;
    let sorted = insertion_sort(items, &le_exec, Ghost(le));
    proof {
        lemma_stable_sort_map(input, le, |m: MergedOcrResult<C>| region(m), rle);
        crate::sort::lemma_stable_sort_permutes(input, le);
    }
    let ghost sv = regions(sorted@);
    assert(sv == stable_sort(regions(input), rle));
    let n = sorted.len();
    let mut used: Vec<bool> = Vec::new();
    while used.len() < n
        invariant
            used.len() <= n,
            forall|k: int| 0 <= k < used.len() ==> !used@[k],
        decreases n - used.len(),
    {
        used.push(false);
    }
    assert(used@ =~= Seq::new(sv.len(), |k: int| false));
    let mut out: Vec<MergedOcrResult<C>> = Vec::new();
    let mut index: usize = 0;
    assert(regions(out@) =~= Seq::<(Seq<char>, C, i32, i32, i32, i32, bool)>::empty());
    while index < n
        invariant
            index <= n,
            n == sorted.len(),
            used.len() == n,
            sv == regions(sorted@),
            combines(*combine),
            special_merged(regions(input), *combine) == special_from(sv, index as int, used@, regions(out@), *combine),
        decreases n - index,
    {
        assert(sv[index as int] == region(sorted@[index as int]));
        if used[index] {
            index = index + 1;
            continue;
        }
        let ghost before = out@;
        match best_special_exec(&sorted, &used, index) {
            Some(j) => {
                assert(sv[j as int] == region(sorted@[j as int]));
                let mut m = merge_regions(&sorted[index], &sorted[j], combine);
                m.is_special = true;
                used.set(j, true);
                used.set(index, true);
                out.push(m);
                assert(regions(out@) =~= regions(before).push(region(m)));
                index = index + 1;
                continue;
            },
            None => {},
        }
        let c = sorted[index].duplicate();
        used.set(index, true);
        out.push(c);
        assert(regions(out@) =~= regions(before).push(region(c)));
        index = index + 1;
    }
    out
}

/// Four keys in lexicographic order.
pub open spec fn lex4_le(a: (int, int, int, int), b: (int, int, int, int)) -> bool {
    a.0 < b.0 || (a.0 == b.0 && (a.1 < b.1 || (a.1 == b.1 && (a.2 < b.2 || (a.2 == b.2 && a.3 <= b.3)))))
}

/// The page order of regions: by top, left, bottom, then right.
pub open spec fn page_le<C>(a: (Seq<char>, C, i32, i32, i32, i32, bool), b: (Seq<char>, C, i32, i32, i32, i32, bool)) -> bool {
    lex4_le((a.3 as int, a.2 as int, a.5 as int, a.4 as int), (b.3 as int, b.2 as int, b.5 as int, b.4 as int))
}

/// The order within a line: by left, top, right, then bottom.
pub open spec fn line_le<C>(a: (Seq<char>, C, i32, i32, i32, i32, bool), b: (Seq<char>, C, i32, i32, i32, i32, bool)) -> bool {
    lex4_le((a.2 as int, a.3 as int, a.4 as int, a.5 as int), (b.2 as int, b.3 as int, b.4 as int, b.5 as int))
}

/// `same_line` answers the same for rows and regions that are the same as values, and
/// accepts any.
pub open spec fn decides_lines<C, G: Fn(&Vec<MergedOcrResult<C>>, &MergedOcrResult<C>) -> bool>(same_line: G) -> bool {
    &&& forall|v: &Vec<MergedOcrResult<C>>, x: &MergedOcrResult<C>| #[trigger] same_line.requires((v, x))
    &&& forall|v1: &Vec<MergedOcrResult<C>>, x1: &MergedOcrResult<C>, v2: &Vec<MergedOcrResult<C>>, x2: &MergedOcrResult<C>, b1: bool, b2: bool|
        #[trigger] same_line.ensures((v1, x1), b1) && #[trigger] same_line.ensures((v2, x2), b2)
            && regions(v1@) == regions(v2@) && region(*x1) == region(*x2) ==> b1 == b2
}

/// `same_line` puts region `x` on the line that holds `row`.
pub open spec fn joins_line<C, G: Fn(&Vec<MergedOcrResult<C>>, &MergedOcrResult<C>) -> bool>(
    same_line: G,
    row: Seq<(Seq<char>, C, i32, i32, i32, i32, bool)>,
    x: (Seq<char>, C, i32, i32, i32, i32, bool),
) -> bool {
    exists|v: &Vec<MergedOcrResult<C>>, y: &MergedOcrResult<C>|
        regions(v@) == row && region(*y) == x && #[trigger] same_line.ensures((v, y), true)
}

/// Regions in page order gathered into lines: each joins the line before it when
/// `same_line` says so, and starts a new one otherwise.
pub open spec fn lines_of<C, G: Fn(&Vec<MergedOcrResult<C>>, &MergedOcrResult<C>) -> bool>(
    s: Seq<(Seq<char>, C, i32, i32, i32, i32, bool)>,
    same_line: G,
) -> Seq<Seq<(Seq<char>, C, i32, i32, i32, i32, bool)>>
    decreases s.len(),
{
    if s.len() == 0 {
        Seq::empty()
    } else {
        let rows = lines_of(s.drop_last(), same_line);
        let x = s.last();
        if rows.len() > 0 && joins_line(same_line, rows.last(), x) {
            rows.update(rows.len() - 1, rows.last().push(x))
        } else {
            rows.push(seq![x])
        }
    }
}

/// Lines one after another, each in line order.
pub open spec fn flatten_lines<C>(rows: Seq<Seq<(Seq<char>, C, i32, i32, i32, i32, bool)>>) -> Seq<(Seq<char>, C, i32, i32, i32, i32, bool)>
    decreases rows.len(),
{
    if rows.len() == 0 {
        Seq::empty()
    } else {
        flatten_lines(rows.drop_last()) + stable_sort(rows.last(), |a: (Seq<char>, C, i32, i32, i32, i32, bool), b: (Seq<char>, C, i32, i32, i32, i32, bool)| line_le(a, b))
    }
}

/// Regions in reading order: sorted in page order, gathered into lines, each line read
/// from left to right.
pub open spec fn reading_order<C, G: Fn(&Vec<MergedOcrResult<C>>, &MergedOcrResult<C>) -> bool>(
    s: Seq<(Seq<char>, C, i32, i32, i32, i32, bool)>,
    same_line: G,
) -> Seq<(Seq<char>, C, i32, i32, i32, i32, bool)> {
    flatten_lines(lines_of(stable_sort(s, |a: (Seq<char>, C, i32, i32, i32, i32, bool), b: (Seq<char>, C, i32, i32, i32, i32, bool)| page_le(a, b)), same_line))
}

fn lex4_le_exec(a: (i32, i32, i32, i32), b: (i32, i32, i32, i32)) -> (r: bool)
    ensures
        r == lex4_le((a.0 as int, a.1 as int, a.2 as int, a.3 as int), (b.0 as int, b.1 as int, b.2 as int, b.3 as int)),
{
    a.0 < b.0 || (a.0 == b.0 && (a.1 < b.1 || (a.1 == b.1 && (a.2 < b.2 || (a.2 == b.2 && a.3 <= b.3)))))
}

fn sort_line<C: Copy>(row: &Vec<MergedOcrResult<C>>) -> (r: Vec<MergedOcrResult<C>>)
    ensures
        regions(r@) == stable_sort(regions(row@), |a: (Seq<char>, C, i32, i32, i32, i32, bool), b: (Seq<char>, C, i32, i32, i32, i32, bool)| line_le(a, b)),
{
    let mut copy: Vec<MergedOcrResult<C>> = Vec::new();
    let mut k: usize = 0;
    while k < row.len()
        invariant
            k <= row.len(),
            regions(copy@) == regions(row@.take(k as int)),
        decreases row.len() - k,
    {
        let c = row[k].duplicate();
        let ghost before = copy@;
        copy.push(c);
        assert(regions(copy@) =~= regions(before).push(region(c)));
        assert(regions(row@.take(k + 1)) =~= regions(row@.take(k as int)).push(region(row@[k as int])));
        k = k + 1;
    }
    assert(row@.take(row.len() as int) =~= row@);
    let le_exec = |a: &MergedOcrResult<C>, b: &MergedOcrResult<C>| -> (r: bool)
        ensures
            r == line_le(region(*a), region(*b)),
        { lex4_le_exec((a.left, a.top, a.right, a.bottom), (b.left, b.top, b.right, b.bottom)) };
    let ghost le = |a: MergedOcrResult<C>, b: MergedOcrResult<C>| line_le(region(a), region(b));
    let ghost rle = |a: (Seq<char>, C, i32, i32, i32, i32, bool), b: (Seq<char>, C, i32, i32, i32, i32, bool)| line_le(a, b);
    let ghost input = copy@;
    let sorted = insertion_sort(copy, &le_exec, Ghost(le));
    proof {
        lemma_stable_sort_map(input, le, |m: MergedOcrResult<C>| region(m), rle);
    }
    sorted
}

proof fn lemma_flatten_lines_push<C>(
    rows: Seq<Seq<(Seq<char>, C, i32, i32, i32, i32, bool)>>,
    row: Seq<(Seq<char>, C, i32, i32, i32, i32, bool)>,
)
    ensures
        flatten_lines(rows.push(row)) == flatten_lines(rows) + stable_sort(row, |a: (Seq<char>, C, i32, i32, i32, i32, bool), b: (Seq<char>, C, i32, i32, i32, i32, bool)| line_le(a, b)),
{
    assert(rows.push(row).drop_last() =~= rows);
}

proof fn lemma_sort_two<C>(a: (Seq<char>, C, i32, i32, i32, i32, bool), b: (Seq<char>, C, i32, i32, i32, i32, bool), le: spec_fn((Seq<char>, C, i32, i32, i32, i32, bool), (Seq<char>, C, i32, i32, i32, i32, bool)) -> bool)
    ensures
        stable_sort(seq![a, b], le) == if le(a, b) { seq![a, b] } else { seq![b, a] },
{
    let s = seq![a, b];
    assert(s.drop_last() =~= seq![a]);
    assert(s.last() == b);
    let one = seq![a];
    assert(one.drop_last() =~= Seq::<(Seq<char>, C, i32, i32, i32, i32, bool)>::empty());
    assert(stable_sort(Seq::<(Seq<char>, C, i32, i32, i32, i32, bool)>::empty(), le) == Seq::<(Seq<char>, C, i32, i32, i32, i32, bool)>::empty());
    assert(stable_sort(one, le) =~= seq![a]);
    assert(one.last() == a);
    assert(insert_pos(Seq::<(Seq<char>, C, i32, i32, i32, i32, bool)>::empty(), b, le) == 0);
    if le(a, b) {
        assert(insert_pos(one, b, le) == 1);
        assert(one.insert(1, b) =~= seq![a, b]);
    } else {
        assert(insert_pos(one, b, le) == 0);
        assert(one.insert(0, b) =~= seq![b, a]);
    }
}

proof fn lemma_metric_pair<C, F: Fn(C, i128, C, i128) -> C>(label: (Seq<char>, C, i32, i32, i32, i32, bool), value: (Seq<char>, C, i32, i32, i32, i32, bool), combine: F)
    requires
        !metric_value_text(label.0),
        merge_metric_ok(label, value),
    ensures
        nearby_from(seq![label, value], 0, Seq::new(2, |k: int| false), Seq::empty(), combine)
            == seq![merged_region(label, value, combine)],
{
    let items = seq![label, value];
    let used = Seq::new(2, |k: int| false);
    assert(nearby_candidate(items, used, 0, 1));
    assert(is_best_nearby(items, used, 0, 1)) by {
        assert forall|k: int| #[trigger] nearby_candidate(items, used, 0, k) implies {
            &&& pair_le(nearby_key(items, 0, 1), nearby_key(items, 0, k))
            &&& (k < 1 ==> pair_lt(nearby_key(items, 0, 1), nearby_key(items, 0, k)))
        } by {
            assert(k == 1);
        }
    }
    let j = choose|j: int| is_best_nearby(items, used, 0, j);
    assert(is_best_nearby(items, used, 0, j));
    assert(j == 1);
    assert(best_nearby(items, used, 0) == Some(1int));
    let used1 = used.update(1, true).update(0, true);
    let out = Seq::<(Seq<char>, C, i32, i32, i32, i32, bool)>::empty().push(merged_region(items[0], items[1], combine));
    assert(used1[1]);
    assert(nearby_from(items, 2, used1, out, combine) == out);
    assert(nearby_from(items, 1, used1, out, combine) == out);
    assert(out =~= seq![merged_region(label, value, combine)]);
}

/// A label that is no metric value takes the metric value under it: when a region is
/// the value under the label by the column rule (see `merge_metric_ok`) and comes
/// after it in page order, lower or level and further right, the two come out as one
/// region, whichever order they were given in.
pub proof fn lemma_label_takes_value_below<C, F: Fn(C, i128, C, i128) -> C>(label: (Seq<char>, C, i32, i32, i32, i32, bool), value: (Seq<char>, C, i32, i32, i32, i32, bool), combine: F)
    requires
        !metric_value_text(label.0),
        merge_metric_ok(label, value),
        label.3 < value.3 || label.2 < value.2,
    ensures
        metric_merged(seq![label, value], combine) == seq![merged_region(label, value, combine)],
        metric_merged(seq![value, label], combine) == seq![merged_region(label, value, combine)],
{
    let le = |a: (Seq<char>, C, i32, i32, i32, i32, bool), b: (Seq<char>, C, i32, i32, i32, i32, bool)| top_left_le(a, b);
    lemma_sort_two(label, value, le);
    lemma_sort_two(value, label, le);
    lemma_metric_pair(label, value, combine);
    assert(stable_sort(seq![label, value], le) == seq![label, value]);
    assert(stable_sort(seq![value, label], le) == seq![label, value]);
}

proof fn lemma_special_pair<C, F: Fn(C, i128, C, i128) -> C>(label: (Seq<char>, C, i32, i32, i32, i32, bool), value: (Seq<char>, C, i32, i32, i32, i32, bool), combine: F)
    requires
        merge_special_ok(label, value),
    ensures
        special_from(seq![label, value], 0, Seq::new(2, |k: int| false), Seq::empty(), combine)
            == seq![joined_region(label, value, combine)],
{
    let items = seq![label, value];
    let used = Seq::new(2, |k: int| false);
    assert(special_candidate(items, used, 0, 1));
    assert(is_best_special(items, used, 0, 1)) by {
        assert forall|k: int| #[trigger] special_candidate(items, used, 0, k) implies {
            &&& pair_le(special_key(items, 0, 1), special_key(items, 0, k))
            &&& (k < 1 ==> pair_lt(special_key(items, 0, 1), special_key(items, 0, k)))
        } by {
            assert(k == 1);
        }
    }
    let j = choose|j: int| is_best_special(items, used, 0, j);
    assert(is_best_special(items, used, 0, j));
    assert(j == 1);
    assert(best_special(items, used, 0) == Some(1int));
    let used1 = used.update(1, true).update(0, true);
    let out = Seq::<(Seq<char>, C, i32, i32, i32, i32, bool)>::empty().push(joined_region(items[0], items[1], combine));
    assert(used1[1]);
    assert(special_from(items, 2, used1, out, combine) == out);
    assert(special_from(items, 1, used1, out, combine) == out);
    assert(out =~= seq![joined_region(label, value, combine)]);
}

/// A label takes the metric value to its right (see `merge_special_ok`) when the value
/// comes after it in page order, lower or level and further right: the two come out as
/// one joined region, whichever order they were given in.
pub proof fn lemma_label_takes_value_right<C, F: Fn(C, i128, C, i128) -> C>(label: (Seq<char>, C, i32, i32, i32, i32, bool), value: (Seq<char>, C, i32, i32, i32, i32, bool), combine: F)
    requires
        merge_special_ok(label, value),
        label.3 < value.3 || (label.3 == value.3 && label.2 < value.2),
    ensures
        special_merged(seq![label, value], combine) == seq![joined_region(label, value, combine)],
        special_merged(seq![value, label], combine) == seq![joined_region(label, value, combine)],
{
    let le = |a: (Seq<char>, C, i32, i32, i32, i32, bool), b: (Seq<char>, C, i32, i32, i32, i32, bool)| top_left_le(a, b);
    lemma_sort_two(label, value, le);
    lemma_sort_two(value, label, le);
    lemma_special_pair(label, value, combine);
    assert(stable_sort(seq![label, value], le) == seq![label, value]);
    assert(stable_sort(seq![value, label], le) == seq![label, value]);
}

/// A metric value that comes before a label in page order, higher or level and further
/// left, is never joined to it: both regions come out unchanged, the value first, in
/// the metric joining and in the joining to the right alike.
pub proof fn lemma_value_before_label_stays<C, F: Fn(C, i128, C, i128) -> C>(label: (Seq<char>, C, i32, i32, i32, i32, bool), value: (Seq<char>, C, i32, i32, i32, i32, bool), combine: F)
    requires
        metric_value_text(value.0),
        value.3 < label.3 || (value.3 == label.3 && value.2 < label.2),
    ensures
        metric_merged(seq![label, value], combine) == seq![value, label],
        special_merged(seq![label, value], combine) == seq![value, label],
{
    let le = |a: (Seq<char>, C, i32, i32, i32, i32, bool), b: (Seq<char>, C, i32, i32, i32, i32, bool)| top_left_le(a, b);
    lemma_sort_two(label, value, le);
    let items = seq![value, label];
    assert(stable_sort(seq![label, value], le) == items);
    let used = Seq::new(2, |k: int| false);
    // the metric joining: the value is no label; the label has nothing after it
    let u0 = used.update(0, true);
    let o1 = Seq::<(Seq<char>, C, i32, i32, i32, i32, bool)>::empty().push(value);
    assert(!u0[1]);
    assert(best_nearby(items, u0, 1) is None) by {
        if exists|j: int| is_best_nearby(items, u0, 1, j) {
            let j = choose|j: int| is_best_nearby(items, u0, 1, j);
            assert(nearby_candidate(items, u0, 1, j));
        }
    }
    let u1 = u0.update(1, true);
    let o2 = o1.push(label);
    assert(nearby_from(items, 2, u1, o2, combine) == o2);
    assert(nearby_from(items, 1, u0, o1, combine) == o2);
    assert(nearby_from(items, 0, used, Seq::empty(), combine) == o2);
    assert(o2 =~= seq![value, label]);
    // the joining to the right: a metric value is no label, and the label has nothing after it
    assert(best_special(items, used, 0) is None) by {
        if exists|j: int| is_best_special(items, used, 0, j) {
            let j = choose|j: int| is_best_special(items, used, 0, j);
            assert(special_candidate(items, used, 0, j));
        }
    }
    assert(best_special(items, u0, 1) is None) by {
        if exists|j: int| is_best_special(items, u0, 1, j) {
            let j = choose|j: int| is_best_special(items, u0, 1, j);
            assert(special_candidate(items, u0, 1, j));
        }
    }
    assert(special_from(items, 2, u1, o2, combine) == o2);
    assert(special_from(items, 1, u0, o1, combine) == o2);
    assert(special_from(items, 0, used, Seq::empty(), combine) == o2);
}

/// Where line `i` of `rows` starts when the lines are put one after another.
pub open spec fn line_offset<C>(rows: Seq<Seq<(Seq<char>, C, i32, i32, i32, i32, bool)>>, i: int) -> int
    decreases i,
{
    if i <= 0 || i > rows.len() {
        0
    } else {
        line_offset(rows, i - 1) + rows[i - 1].len()
    }
}

/// The regions of a page in page order (top, left, bottom, right), gathered into lines.
pub open spec fn page_lines<C, G: Fn(&Vec<MergedOcrResult<C>>, &MergedOcrResult<C>) -> bool>(
    s: Seq<(Seq<char>, C, i32, i32, i32, i32, bool)>,
    same_line: G,
) -> Seq<Seq<(Seq<char>, C, i32, i32, i32, i32, bool)>> {
    lines_of(stable_sort(s, |a: (Seq<char>, C, i32, i32, i32, i32, bool), b: (Seq<char>, C, i32, i32, i32, i32, bool)| page_le(a, b)), same_line)
}

proof fn lemma_line_offset_prefix<C>(rows: Seq<Seq<(Seq<char>, C, i32, i32, i32, i32, bool)>>, i: int)
    requires
        rows.len() > 0,
        0 <= i < rows.len(),
    ensures
        line_offset(rows.drop_last(), i) == line_offset(rows, i),
    decreases i,
{
    if i > 0 {
        lemma_line_offset_prefix(rows, i - 1);
    }
}

proof fn lemma_flatten_segments<C>(rows: Seq<Seq<(Seq<char>, C, i32, i32, i32, i32, bool)>>)
    ensures
        flatten_lines(rows).len() == line_offset(rows, rows.len() as int),
        forall|i: int| #![trigger rows[i]] 0 <= i < rows.len() ==> {
            &&& 0 <= line_offset(rows, i)
            &&& line_offset(rows, i + 1) == line_offset(rows, i) + rows[i].len()
            &&& line_offset(rows, i + 1) <= flatten_lines(rows).len()
            &&& flatten_lines(rows).subrange(line_offset(rows, i), line_offset(rows, i + 1))
                == stable_sort(rows[i], |a: (Seq<char>, C, i32, i32, i32, i32, bool), b: (Seq<char>, C, i32, i32, i32, i32, bool)| line_le(a, b))
        },
    decreases rows.len(),
{
    if rows.len() > 0 {
        let p = rows.drop_last();
        let n = p.len() as int;
        let le = |a: (Seq<char>, C, i32, i32, i32, i32, bool), b: (Seq<char>, C, i32, i32, i32, i32, bool)| line_le(a, b);
        lemma_flatten_segments(p);
        let fp = flatten_lines(p);
        let last = stable_sort(rows.last(), le);
        crate::sort::lemma_stable_sort_permutes(rows.last(), le);
        assert(flatten_lines(rows) == fp + last);
        lemma_line_offset_prefix(rows, n);
        assert forall|i: int| #![trigger rows[i]] 0 <= i < rows.len() implies {
            &&& 0 <= line_offset(rows, i)
            &&& line_offset(rows, i + 1) == line_offset(rows, i) + rows[i].len()
            &&& line_offset(rows, i + 1) <= flatten_lines(rows).len()
            &&& flatten_lines(rows).subrange(line_offset(rows, i), line_offset(rows, i + 1))
                == stable_sort(rows[i], |a: (Seq<char>, C, i32, i32, i32, i32, bool), b: (Seq<char>, C, i32, i32, i32, i32, bool)| line_le(a, b))
        } by {
            if i < n {
                lemma_line_offset_prefix(rows, i);
                if i + 1 < n {
                    lemma_line_offset_prefix(rows, i + 1);
                }
                assert(p[i] == rows[i]);
                assert(fp.subrange(line_offset(p, i), line_offset(p, i + 1)) == stable_sort(p[i], le));
                assert(flatten_lines(rows).subrange(line_offset(rows, i), line_offset(rows, i + 1))
                    =~= fp.subrange(line_offset(p, i), line_offset(p, i + 1)));
            } else {
                assert(flatten_lines(rows).subrange(line_offset(rows, i), line_offset(rows, i + 1)) =~= last);
            }
        }
    }
}

proof fn lemma_line_le_total<C>()
    ensures
        transitive(|a: (Seq<char>, C, i32, i32, i32, i32, bool), b: (Seq<char>, C, i32, i32, i32, i32, bool)| line_le(a, b)),
        strongly_connected(|a: (Seq<char>, C, i32, i32, i32, i32, bool), b: (Seq<char>, C, i32, i32, i32, i32, bool)| line_le(a, b)),
{
}

/// The reading order puts the lines of the page one after another, each line holding
/// exactly the regions gathered into it, read from left to right: within a line no
/// region comes after one whose left edge is larger.
pub proof fn lemma_lines_read_left_to_right<C, G: Fn(&Vec<MergedOcrResult<C>>, &MergedOcrResult<C>) -> bool>(
    s: Seq<(Seq<char>, C, i32, i32, i32, i32, bool)>,
    same_line: G,
)
    ensures
        reading_order(s, same_line).len() == line_offset(page_lines(s, same_line), page_lines(s, same_line).len() as int),
        forall|i: int| 0 <= i < page_lines(s, same_line).len() ==> {
            &&& #[trigger] reading_order(s, same_line).subrange(
                line_offset(page_lines(s, same_line), i),
                line_offset(page_lines(s, same_line), i + 1),
            ).to_multiset() == page_lines(s, same_line)[i].to_multiset()
            &&& forall|j: int, k: int| line_offset(page_lines(s, same_line), i) <= j < k
                < line_offset(page_lines(s, same_line), i + 1)
                ==> (#[trigger] reading_order(s, same_line)[j]).2 <= (#[trigger] reading_order(s, same_line)[k]).2
        },
{
    let rows = page_lines(s, same_line);
    let r = reading_order(s, same_line);
    let le = |a: (Seq<char>, C, i32, i32, i32, i32, bool), b: (Seq<char>, C, i32, i32, i32, i32, bool)| line_le(a, b);
    assert(r == flatten_lines(rows));
    lemma_flatten_segments(rows);
    lemma_line_le_total::<C>();
    assert forall|i: int| 0 <= i < rows.len() implies {
        &&& #[trigger] r.subrange(line_offset(rows, i), line_offset(rows, i + 1)).to_multiset() == rows[i].to_multiset()
        &&& forall|j: int, k: int| line_offset(rows, i) <= j < k < line_offset(rows, i + 1)
            ==> (#[trigger] r[j]).2 <= (#[trigger] r[k]).2
    } by {
        let o = line_offset(rows, i);
        let seg = r.subrange(o, line_offset(rows, i + 1));
        assert(seg == stable_sort(rows[i], le));
        crate::sort::lemma_stable_sort_permutes(rows[i], le);
        crate::sort::lemma_stable_sort_sorted(rows[i], le);
        assert forall|j: int, k: int| o <= j < k < line_offset(rows, i + 1) implies (#[trigger] r[j]).2 <= (#[trigger] r[k]).2 by {
            assert(r[j] == seg[j - o]);
            assert(r[k] == seg[k - o]);
            assert(le(seg[j - o], seg[k - o]));
        }
    }
}

/// All regions of a set of lines, counted with repetition.
pub open spec fn lines_multiset<C>(rows: Seq<Seq<(Seq<char>, C, i32, i32, i32, i32, bool)>>) -> Multiset<(Seq<char>, C, i32, i32, i32, i32, bool)>
    decreases rows.len(),
{
    if rows.len() == 0 {
        Multiset::empty()
    } else {
        lines_multiset(rows.drop_last()).add(rows.last().to_multiset())
    }
}

proof fn lemma_flatten_multiset<C>(rows: Seq<Seq<(Seq<char>, C, i32, i32, i32, i32, bool)>>)
    ensures
        flatten_lines(rows).to_multiset() == lines_multiset(rows),
    decreases rows.len(),
{
    broadcast use vstd::seq_lib::group_to_multiset_ensures;
    if rows.len() == 0 {
        assert(flatten_lines(rows).to_multiset() =~= Multiset::empty());
    } else {
        lemma_flatten_multiset(rows.drop_last());
        let ghost le = |a: (Seq<char>, C, i32, i32, i32, i32, bool), b: (Seq<char>, C, i32, i32, i32, i32, bool)| line_le(a, b);
        crate::sort::lemma_stable_sort_permutes(rows.last(), le);
        vstd::seq_lib::lemma_multiset_commutative(flatten_lines(rows.drop_last()), stable_sort(rows.last(), le));
    }
}

proof fn lemma_lines_multiset<C, G: Fn(&Vec<MergedOcrResult<C>>, &MergedOcrResult<C>) -> bool>(
    s: Seq<(Seq<char>, C, i32, i32, i32, i32, bool)>,
    same_line: G,
)
    ensures
        lines_multiset(lines_of(s, same_line)) == s.to_multiset(),
    decreases s.len(),
{
    broadcast use vstd::seq_lib::group_to_multiset_ensures;
    if s.len() == 0 {
        assert(s.to_multiset() =~= Multiset::empty());
    } else {
        lemma_lines_multiset(s.drop_last(), same_line);
        let rows = lines_of(s.drop_last(), same_line);
        let x = s.last();
        assert(s.drop_last().push(x) =~= s);
        if rows.len() > 0 && joins_line(same_line, rows.last(), x) {
            let next = rows.update(rows.len() - 1, rows.last().push(x));
            assert(next.drop_last() =~= rows.drop_last());
            assert(lines_multiset(next) =~= lines_multiset(rows).insert(x));
        } else {
            let next = rows.push(seq![x]);
            assert(next.drop_last() =~= rows);
            assert(seq![x] =~= Seq::<(Seq<char>, C, i32, i32, i32, i32, bool)>::empty().push(x));
            assert(lines_multiset(next) =~= lines_multiset(rows).insert(x));
        }
    }
}

/// Reading order only moves regions: every region comes out as often as it went in.
pub proof fn lemma_reading_order_permutes<C, G: Fn(&Vec<MergedOcrResult<C>>, &MergedOcrResult<C>) -> bool>(
    s: Seq<(Seq<char>, C, i32, i32, i32, i32, bool)>,
    same_line: G,
)
    ensures
        reading_order(s, same_line).to_multiset() == s.to_multiset(),
        reading_order(s, same_line).len() == s.len(),
{
    broadcast use vstd::seq_lib::group_to_multiset_ensures;
    let ghost le = |a: (Seq<char>, C, i32, i32, i32, i32, bool), b: (Seq<char>, C, i32, i32, i32, i32, bool)| page_le(a, b);
    let t = stable_sort(s, le);
    crate::sort::lemma_stable_sort_permutes(s, le);
    lemma_lines_multiset(t, same_line);
    lemma_flatten_multiset(lines_of(t, same_line));
    let r = reading_order(s, same_line);
    assert(r.len() == r.to_multiset().len());
    assert(s.len() == s.to_multiset().len());
}

/// Puts regions in reading order (see `reading_order`); `same_line` decides whether a
/// region belongs on the line gathered so far.
pub fn sort_reading_order<C: Copy, G: Fn(&Vec<MergedOcrResult<C>>, &MergedOcrResult<C>) -> bool>(
    items: Vec<MergedOcrResult<C>>,
    same_line: &G,
) -> (r: Vec<MergedOcrResult<C>>)
    requires
        decides_lines(*same_line),
    ensures
        regions(r@) == reading_order(regions(items@), *same_line),
{
    let le_exec = |a: &MergedOcrResult<C>, b: &MergedOcrResult<C>| -> (r: bool)
        ensures
            r == page_le(region(*a), region(*b)),
        { lex4_le_exec((a.top, a.left, a.bottom, a.right), (b.top, b.left, b.bottom, b.right)) };
    let ghost le = |a: MergedOcrResult<C>, b: MergedOcrResult<C>| page_le(region(a), region(b));
    let ghost rle = |a: (Seq<char>, C, i32, i32, i32, i32, bool), b: (Seq<char>, C, i32, i32, i32, i32, bool)| page_le(a, b);
    let ghost input = items@;
    let sorted = insertion_sort(items, &le_exec, Ghost(le));
    proof {
        lemma_stable_sort_map(input, le, |m: MergedOcrResult<C>| region(m), rle);
    }
    let ghost sv = regions(sorted@);
    let mut out: Vec<MergedOcrResult<C>> = Vec::new();
    let mut current: Vec<MergedOcrResult<C>> = Vec::new();
    let mut k: usize = 0;
    assert(sv.take(0) =~= Seq::<(Seq<char>, C, i32, i32, i32, i32, bool)>::empty());
    while k < sorted.len()
        invariant
            k <= sorted.len(),
            sv == regions(sorted@),
            decides_lines(*same_line),
            k == 0 ==> current@.len() == 0 && out@.len() == 0,
            k > 0 ==> {
                let rows = lines_of(sv.take(k as int), *same_line);
                &&& rows.len() > 0
                &&& rows.last() == regions(current@)
                &&& regions(out@) == flatten_lines(rows.drop_last())
            },
        decreases sorted.len() - k,
    {
        let item = &sorted[k];
        assert(sv[k as int] == region(*item));
        assert(sv.take(k + 1).drop_last() =~= sv.take(k as int));
        assert(sv.take(k + 1).last() == region(*item));
        let ghost rows = lines_of(sv.take(k as int), *same_line);
        if k > 0 && same_line(&current, item) {
            proof {
                assert(joins_line(*same_line, rows.last(), region(*item)));
            }
            let c = item.duplicate();
            let ghost before = current@;
            current.push(c);
            proof {
                let nrows = lines_of(sv.take(k + 1), *same_line);
                assert(nrows == rows.update(rows.len() - 1, rows.last().push(region(*item))));
                assert(regions(current@) =~= regions(before).push(region(c)));
                assert(nrows.drop_last() =~= rows.drop_last());
            }
        } else {
            proof {
                if k > 0 {
                    if joins_line(*same_line, rows.last(), region(*item)) {
                        let (v, y) = choose|v: &Vec<MergedOcrResult<C>>, y: &MergedOcrResult<C>|
                            regions(v@) == rows.last() && region(*y) == region(*item) && #[trigger] same_line.ensures((v, y), true);
                        assert(same_line.ensures((v, y), true));
                    }
                }
            }
            if k > 0 {
                let line = sort_line(&current);
                let ghost before = out@;
                let mut i: usize = 0;
                while i < line.len()
                    invariant
                        i <= line.len(),
                        regions(out@) == regions(before) + regions(line@.take(i as int)),
                    decreases line.len() - i,
                {
                    let c = line[i].duplicate();
                    let ghost prev = out@;
                    out.push(c);
                    assert(regions(out@) =~= regions(prev).push(region(c)));
                    assert(regions(line@.take(i + 1)) =~= regions(line@.take(i as int)).push(region(line@[i as int])));
                    assert(regions(out@) =~= regions(before) + regions(line@.take(i + 1)));
                    i = i + 1;
                }
                assert(line@.take(line.len() as int) =~= line@);
                proof {
                    lemma_flatten_lines_push(rows.drop_last(), rows.last());
                    assert(rows.drop_last().push(rows.last()) =~= rows);
                }
            }
            let c = item.duplicate();
            current = Vec::new();
            current.push(c);
            proof {
                let nrows = lines_of(sv.take(k + 1), *same_line);
                assert(nrows == rows.push(seq![region(*item)]));
                assert(regions(current@) =~= seq![region(c)]);
                assert(nrows.drop_last() =~= rows);
                if k == 0 {
                    assert(rows =~= Seq::<Seq<(Seq<char>, C, i32, i32, i32, i32, bool)>>::empty());
                    assert(flatten_lines(rows) == Seq::<(Seq<char>, C, i32, i32, i32, i32, bool)>::empty());
                    assert(regions(out@) =~= Seq::<(Seq<char>, C, i32, i32, i32, i32, bool)>::empty());
                }
            }
        }
        k = k + 1;
    }
    assert(sv.take(sorted.len() as int) =~= sv);
    if sorted.len() > 0 {
        let line = sort_line(&current);
        let ghost before = out@;
        let ghost rows = lines_of(sv, *same_line);
        let mut i: usize = 0;
        while i < line.len()
            invariant
                i <= line.len(),
                regions(out@) == regions(before) + regions(line@.take(i as int)),
            decreases line.len() - i,
        {
            let c = line[i].duplicate();
            let ghost prev = out@;
            out.push(c);
            assert(regions(out@) =~= regions(prev).push(region(c)));
            assert(regions(line@.take(i + 1)) =~= regions(line@.take(i as int)).push(region(line@[i as int])));
            assert(regions(out@) =~= regions(before) + regions(line@.take(i + 1)));
            i = i + 1;
        }
        assert(line@.take(line.len() as int) =~= line@);
        proof {
            lemma_flatten_lines_push(rows.drop_last(), rows.last());
            assert(rows.drop_last().push(rows.last()) =~= rows);
        }
    } else {
        assert(sv =~= Seq::<(Seq<char>, C, i32, i32, i32, i32, bool)>::empty());
        assert(regions(out@) =~= Seq::<(Seq<char>, C, i32, i32, i32, i32, bool)>::empty());
    }
    out
}

/// Puts recognized regions in reading order and joins each to the region before it
/// when it continues that one's text on its line.
pub fn merge_close_horizontal_results<
    C: Copy,
    F: Fn(C, i128, C, i128) -> C,
    G: Fn(&Vec<MergedOcrResult<C>>, &MergedOcrResult<C>) -> bool,
>(items: Vec<MergedOcrResult<C>>, combine: &F, same_line: &G) -> (r: Vec<MergedOcrResult<C>>)
    requires
        combines(*combine),
        decides_lines(*same_line),
    ensures
        regions(r@) == horizontal_merged(reading_order(regions(items@), *same_line), *combine),
{
    let ordered = sort_reading_order(items, same_line);
    merge_horizontal_in_order(ordered, combine)
}

/// Joins each label to the closest metric value under it, then puts the regions back
/// in reading order.
pub fn merge_nearby_metric_values<
    C: Copy,
    F: Fn(C, i128, C, i128) -> C,
    G: Fn(&Vec<MergedOcrResult<C>>, &MergedOcrResult<C>) -> bool,
>(items: Vec<MergedOcrResult<C>>, combine: &F, same_line: &G) -> (r: Vec<MergedOcrResult<C>>)
    requires
        combines(*combine),
        decides_lines(*same_line),
    ensures
        regions(r@) == reading_order(metric_merged(regions(items@), *combine), *same_line),
{
    let merged = merge_metric_values_by_top(items, combine);
    sort_reading_order(merged, same_line)
}

/// Joins each label to the closest metric value to its right, then puts the regions
/// back in reading order.
pub fn merge_special_horizontal_values<
    C: Copy,
    F: Fn(C, i128, C, i128) -> C,
    G: Fn(&Vec<MergedOcrResult<C>>, &MergedOcrResult<C>) -> bool,
>(items: Vec<MergedOcrResult<C>>, combine: &F, same_line: &G) -> (r: Vec<MergedOcrResult<C>>)
    requires
        combines(*combine),
        decides_lines(*same_line),
    ensures
        regions(r@) == reading_order(special_merged(regions(items@), *combine), *same_line),
{
    let merged = merge_special_values_by_top(items, combine);
    sort_reading_order(merged, same_line)
}

/// The regions of a page after all joining: words on a line, labels with the values
/// under them, then labels with the values to their right.
pub open spec fn postprocessed<C, F: Fn(C, i128, C, i128) -> C, G: Fn(&Vec<MergedOcrResult<C>>, &MergedOcrResult<C>) -> bool>(
    s: Seq<(Seq<char>, C, i32, i32, i32, i32, bool)>,
    combine: F,
    same_line: G,
) -> Seq<(Seq<char>, C, i32, i32, i32, i32, bool)> {
    let a = horizontal_merged(reading_order(s, same_line), combine);
    let b = reading_order(metric_merged(a, combine), same_line);
    reading_order(special_merged(b, combine), same_line)
}

proof fn lemma_horizontal_len<C, F: Fn(C, i128, C, i128) -> C>(s: Seq<(Seq<char>, C, i32, i32, i32, i32, bool)>, combine: F)
    ensures
        horizontal_merged(s, combine).len() <= s.len(),
        s.len() > 0 ==> horizontal_merged(s, combine).len() > 0,
    decreases s.len(),
{
    if s.len() > 0 {
        lemma_horizontal_len(s.drop_last(), combine);
    }
}

proof fn lemma_nearby_len<C, F: Fn(C, i128, C, i128) -> C>(
    items: Seq<(Seq<char>, C, i32, i32, i32, i32, bool)>,
    i: int,
    used: Seq<bool>,
    out: Seq<(Seq<char>, C, i32, i32, i32, i32, bool)>,
    combine: F,
)
    requires
        0 <= i <= items.len(),
    ensures
        nearby_from(items, i, used, out, combine).len() <= out.len() + items.len() - i,
    decreases items.len() - i,
{
    if i < items.len() && used.len() == items.len() {
        if used[i] {
            lemma_nearby_len(items, i + 1, used, out, combine);
        } else if !metric_value_text(items[i].0) && best_nearby(items, used, i) is Some {
            let j = best_nearby(items, used, i)->0;
            lemma_nearby_len(items, i + 1, used.update(j, true).update(i, true), out.push(merged_region(items[i], items[j], combine)), combine);
        } else {
            lemma_nearby_len(items, i + 1, used.update(i, true), out.push(items[i]), combine);
        }
    }
}

proof fn lemma_special_len<C, F: Fn(C, i128, C, i128) -> C>(
    items: Seq<(Seq<char>, C, i32, i32, i32, i32, bool)>,
    i: int,
    used: Seq<bool>,
    out: Seq<(Seq<char>, C, i32, i32, i32, i32, bool)>,
    combine: F,
)
    requires
        0 <= i <= items.len(),
    ensures
        special_from(items, i, used, out, combine).len() <= out.len() + items.len() - i,
    decreases items.len() - i,
{
    if i < items.len() && used.len() == items.len() {
        if used[i] {
            lemma_special_len(items, i + 1, used, out, combine);
        } else if best_special(items, used, i) is Some {
            let j = best_special(items, used, i)->0;
            lemma_special_len(items, i + 1, used.update(j, true).update(i, true), out.push(joined_region(items[i], items[j], combine)), combine);
        } else {
            lemma_special_len(items, i + 1, used.update(i, true), out.push(items[i]), combine);
        }
    }
}

/// Joining only ever makes one region of two: a page never comes out with more regions
/// than the recognizer found.
pub proof fn lemma_postprocess_never_adds<C, F: Fn(C, i128, C, i128) -> C, G: Fn(&Vec<MergedOcrResult<C>>, &MergedOcrResult<C>) -> bool>(
    s: Seq<(Seq<char>, C, i32, i32, i32, i32, bool)>,
    combine: F,
    same_line: G,
)
    ensures
        postprocessed(s, combine, same_line).len() <= s.len(),
        horizontal_merged(s, combine).len() <= s.len(),
        metric_merged(s, combine).len() <= s.len(),
        special_merged(s, combine).len() <= s.len(),
{
    let ghost tl = |a: (Seq<char>, C, i32, i32, i32, i32, bool), b: (Seq<char>, C, i32, i32, i32, i32, bool)| top_left_le(a, b);
    assert forall|u: Seq<(Seq<char>, C, i32, i32, i32, i32, bool)>|
        #![trigger metric_merged(u, combine)]
        metric_merged(u, combine).len() <= u.len() && special_merged(u, combine).len() <= u.len() by {
        let t = stable_sort(u, tl);
        crate::sort::lemma_stable_sort_permutes(u, tl);
        lemma_nearby_len(t, 0, Seq::new(t.len(), |k: int| false), Seq::empty(), combine);
        lemma_special_len(t, 0, Seq::new(t.len(), |k: int| false), Seq::empty(), combine);
    }
    lemma_horizontal_len(s, combine);
    let a0 = reading_order(s, same_line);
    lemma_reading_order_permutes(s, same_line);
    lemma_horizontal_len(a0, combine);
    let a = horizontal_merged(a0, combine);
    let m = metric_merged(a, combine);
    lemma_reading_order_permutes(m, same_line);
    let b = reading_order(m, same_line);
    let sp = special_merged(b, combine);
    lemma_reading_order_permutes(sp, same_line);
    assert(metric_merged(b, combine).len() <= b.len());
    assert(metric_merged(s, combine).len() <= s.len());
}

/// Joins recognized regions as the export reads them (see `postprocessed`).
pub fn postprocess_results<
    C: Copy,
    F: Fn(C, i128, C, i128) -> C,
    G: Fn(&Vec<MergedOcrResult<C>>, &MergedOcrResult<C>) -> bool,
>(items: Vec<MergedOcrResult<C>>, combine: &F, same_line: &G) -> (r: Vec<MergedOcrResult<C>>)
    requires
        combines(*combine),
        decides_lines(*same_line),
    ensures
        regions(r@) == postprocessed(regions(items@), *combine, *same_line),
{
    let a = merge_close_horizontal_results(items, combine, same_line);
    let b = merge_nearby_metric_values(a, combine, same_line);
    merge_special_horizontal_values(b, combine, same_line)
}

impl<C> OcrTextBlock<C> {
    /// The block of a region: its box given by left, top, width and height.
    pub fn from_merged(result: MergedOcrResult<C>) -> (r: OcrTextBlock<C>)
        ensures
            r.text@ == result.text@,
            r.confidence == result.confidence,
            r.left == result.left,
            r.top == result.top,
            r.width == (result.right - result.left + 1) as i32,
            r.height == (result.bottom - result.top + 1) as i32,
            r.is_special == result.is_special,
    {
        let width = #[verifier::truncate] ((result.right as i64 - result.left as i64 + 1) as i32);
        let height = #[verifier::truncate] ((result.bottom as i64 - result.top as i64 + 1) as i32);
        OcrTextBlock {
            text: result.text,
            confidence: result.confidence,
            left: result.left,
            top: result.top,
            width,
            height,
            is_special: result.is_special,
        }
    }
}

} // verus!
