use vstd::prelude::*;
use crate::metric::{empty_metric_chars, empty_metric_value, metric_value_chars, plain_metric_value};
use crate::text::{chars_of, trim_chars};

verus! {

/// A piece of recognized text with its box on the page. `confidence` is whatever the
/// recognizer reports for it; the library carries it along and reads nothing from it.
#[derive(Clone, Debug)]
pub struct OcrTextBlock<C> {
    pub text: String,
    pub confidence: C,
    pub left: i32,
    pub top: i32,
    pub width: i32,
    pub height: i32,
    /// The block is a label joined with the value to its right.
    pub is_special: bool,
}

/// `|x|`.
pub open spec fn abs(x: int) -> int {
    if x < 0 { -x } else { x }
}

/// Half of `h`, rounded toward zero as integer division does.
pub open spec fn half(h: int) -> int {
    if h >= 0 { h / 2 } else { -((-h) / 2) }
}

/// The rightmost pixel column of a block.
pub open spec fn right_edge<C>(b: OcrTextBlock<C>) -> int {
    b.left + b.width - 1
}

/// The vertical center of a block: its top plus half its height.
pub open spec fn center_y<C>(b: OcrTextBlock<C>) -> int {
    b.top + half(b.height as int)
}

pub open spec fn max(a: int, b: int) -> int {
    if a >= b { a } else { b }
}

pub open spec fn min(a: int, b: int) -> int {
    if a <= b { a } else { b }
}

/// A value block sits in the column of a label: their left edges are at most 48 pixels
/// apart, or their horizontal overlap is at least 35% of the narrower width.
pub open spec fn same_metric_column<C>(label: OcrTextBlock<C>, value: OcrTextBlock<C>) -> bool {
    let overlap = max(min(right_edge(label), right_edge(value)) - max(label.left as int, value.left as int) + 1, 0);
    let min_width = max(min(label.width as int, value.width as int), 1);
    abs(label.left - value.left) <= 48 || 20 * overlap >= 7 * min_width
}

/// A value block sits in the row of a label: their vertical centers are at most 45% of
/// the taller height apart.
pub open spec fn same_metric_row<C>(label: OcrTextBlock<C>, value: OcrTextBlock<C>) -> bool {
    20 * abs(center_y(label) - center_y(value)) <= 9 * max(label.height as int, value.height as int)
}

/// A block that may hold a metric's value: not a joined label, and its text is a plain
/// metric value or a dash.
pub open spec fn value_like<C>(b: OcrTextBlock<C>) -> bool {
    !b.is_special && (plain_metric_value(b.text@) || empty_metric_value(b.text@))
}

/// `blocks[k]` may be the value below `label`: at most 90 pixels lower, in its column.
pub open spec fn below_candidate<C>(blocks: Seq<OcrTextBlock<C>>, label: OcrTextBlock<C>, k: int) -> bool {
    &&& 0 <= k < blocks.len()
    &&& value_like(blocks[k])
    &&& blocks[k].top >= label.top
    &&& blocks[k].top - label.top <= 90
    &&& same_metric_column(label, blocks[k])
}

/// Triples of integers in lexicographic order.
pub open spec fn lex_lt(a: (int, int, int), b: (int, int, int)) -> bool {
    a.0 < b.0 || (a.0 == b.0 && (a.1 < b.1 || (a.1 == b.1 && a.2 < b.2)))
}

pub open spec fn lex_le(a: (int, int, int), b: (int, int, int)) -> bool {
    lex_lt(a, b) || a == b
}

/// How close a candidate below a label is: vertical distance, then horizontal
/// distance of the left edges, then the left edge.
pub open spec fn below_key<C>(label: OcrTextBlock<C>, b: OcrTextBlock<C>) -> (int, int, int) {
    (b.top - label.top, abs(b.left - label.left), b.left as int)
}

/// `blocks[j]` is the first of the closest candidates below `label`.
pub open spec fn is_best_below<C>(blocks: Seq<OcrTextBlock<C>>, label: OcrTextBlock<C>, j: int) -> bool {
    &&& below_candidate(blocks, label, j)
    &&& forall|k: int| below_candidate(blocks, label, k) ==> {
        &&& lex_le(below_key(label, blocks[j]), below_key(label, blocks[k]))
        &&& (k < j ==> lex_lt(below_key(label, blocks[j]), below_key(label, blocks[k])))
    }
}

/// The text of the value below `label`, if any block qualifies.
pub open spec fn value_below<C>(blocks: Seq<OcrTextBlock<C>>, label: OcrTextBlock<C>) -> Option<Seq<char>> {
    if exists|j: int| is_best_below(blocks, label, j) {
        Some(blocks[choose|j: int| is_best_below(blocks, label, j)].text@)
    } else {
        None
    }
}

/// `blocks[k]` may be the value right of `label`: starting after it, at most 260 pixels
/// away, in its row.
pub open spec fn right_candidate<C>(blocks: Seq<OcrTextBlock<C>>, label: OcrTextBlock<C>, k: int) -> bool {
    &&& 0 <= k < blocks.len()
    &&& value_like(blocks[k])
    &&& blocks[k].left > right_edge(label)
    &&& blocks[k].left - right_edge(label) <= 260
    &&& same_metric_row(label, blocks[k])
}

/// How close a candidate right of a label is: distance of the vertical centers, then
/// the horizontal gap, then the top edge.
pub open spec fn right_key<C>(label: OcrTextBlock<C>, b: OcrTextBlock<C>) -> (int, int, int) {
    (abs(center_y(b) - center_y(label)), b.left - right_edge(label), b.top as int)
}

/// `blocks[j]` is the first of the closest candidates right of `label`.
pub open spec fn is_best_right<C>(blocks: Seq<OcrTextBlock<C>>, label: OcrTextBlock<C>, j: int) -> bool {
    &&& right_candidate(blocks, label, j)
    &&& forall|k: int| right_candidate(blocks, label, k) ==> {
        &&& lex_le(right_key(label, blocks[j]), right_key(label, blocks[k]))
        &&& (k < j ==> lex_lt(right_key(label, blocks[j]), right_key(label, blocks[k])))
    }
}

/// The text of the value right of `label`, if any block qualifies.
pub open spec fn value_right<C>(blocks: Seq<OcrTextBlock<C>>, label: OcrTextBlock<C>) -> Option<Seq<char>> {
    if exists|j: int| is_best_right(blocks, label, j) {
        Some(blocks[choose|j: int| is_best_right(blocks, label, j)].text@)
    } else {
        None
    }
}

proof fn lemma_lex_order(a: (int, int, int), b: (int, int, int))
    ensures
        !(lex_lt(a, b) && lex_le(b, a)),
        lex_le(a, b) || lex_lt(b, a),
{
}

proof fn lemma_best_below_unique<C>(blocks: Seq<OcrTextBlock<C>>, label: OcrTextBlock<C>, i: int, j: int)
    requires
        is_best_below(blocks, label, i),
        is_best_below(blocks, label, j),
    ensures
        i == j,
{
    if i < j {
        lemma_lex_order(below_key(label, blocks[j]), below_key(label, blocks[i]));
    } else if j < i {
        lemma_lex_order(below_key(label, blocks[i]), below_key(label, blocks[j]));
    }
}

proof fn lemma_best_right_unique<C>(blocks: Seq<OcrTextBlock<C>>, label: OcrTextBlock<C>, i: int, j: int)
    requires
        is_best_right(blocks, label, i),
        is_best_right(blocks, label, j),
    ensures
        i == j,
{
    if i < j {
        lemma_lex_order(right_key(label, blocks[j]), right_key(label, blocks[i]));
    } else if j < i {
        lemma_lex_order(right_key(label, blocks[i]), right_key(label, blocks[j]));
    }
}

fn abs_exec(x: i64) -> (r: i64)
    requires
        x > i64::MIN,
    ensures
        r == abs(x as int),
{
    if x < 0 { -x } else { x }
}

fn half_exec(h: i64) -> (r: i64)
    requires
        h > i64::MIN,
    ensures
        r == half(h as int),
{
    if h >= 0 { h / 2 } else { -((-h) / 2) }
}

fn center_y_exec<C>(b: &OcrTextBlock<C>) -> (r: i64)
    ensures
        r == center_y(*b),
{
    b.top as i64 + half_exec(b.height as i64)
}

fn value_like_exec<C>(b: &OcrTextBlock<C>) -> (r: bool)
    ensures
        r == value_like(*b),
{
    if b.is_special {
        return false;
    }
    let s = chars_of(b.text.as_str());
    let t = trim_chars(&s);
    (t.len() > 0 && metric_value_chars(&s)) || empty_metric_chars(&s)
}

/// Whether a value block stands in the column of a label block (see `same_metric_column`).
pub fn same_metric_column_exec<C>(label: &OcrTextBlock<C>, value: &OcrTextBlock<C>) -> (r: bool)
    ensures
        r == same_metric_column(*label, *value),
{
    let label_right = label.left as i64 + label.width as i64 - 1;
    let value_right = value.left as i64 + value.width as i64 - 1;
    let overlap_left = if label.left >= value.left { label.left as i64 } else { value.left as i64 };
    let overlap_right = if label_right <= value_right { label_right } else { value_right };
    let raw = overlap_right - overlap_left + 1;
    let overlap = if raw >= 0 { raw } else { 0 };
    let narrower = if label.width <= value.width { label.width as i64 } else { value.width as i64 };
    let min_width = if narrower >= 1 { narrower } else { 1 };
    abs_exec(label.left as i64 - value.left as i64) <= 48 || 20 * overlap >= 7 * min_width
}

/// Whether a value block stands on the row of a label block (see `same_metric_row`).
pub fn same_metric_row_exec<C>(label: &OcrTextBlock<C>, value: &OcrTextBlock<C>) -> (r: bool)
    ensures
        r == same_metric_row(*label, *value),
{
    let taller = if label.height >= value.height { label.height as i64 } else { value.height as i64 };
    20 * abs_exec(center_y_exec(label) - center_y_exec(value)) <= 9 * taller
}

fn lex_lt_exec(a: (i64, i64, i64), b: (i64, i64, i64)) -> (r: bool)
    ensures
        r == lex_lt((a.0 as int, a.1 as int, a.2 as int), (b.0 as int, b.1 as int, b.2 as int)),
{
    a.0 < b.0 || (a.0 == b.0 && (a.1 < b.1 || (a.1 == b.1 && a.2 < b.2)))
}

fn below_candidate_exec<C>(blocks: &[OcrTextBlock<C>], label: &OcrTextBlock<C>, k: usize) -> (r: bool)
    requires
        k < blocks.len(),
    ensures
        r == below_candidate(blocks@, *label, k as int),
{
    let b = &blocks[k];
    value_like_exec(b) && b.top >= label.top && (b.top as i64 - label.top as i64) <= 90
        && same_metric_column_exec(label, b)
}

fn right_candidate_exec<C>(blocks: &[OcrTextBlock<C>], label: &OcrTextBlock<C>, k: usize) -> (r: bool)
    requires
        k < blocks.len(),
    ensures
        r == right_candidate(blocks@, *label, k as int),
{
    let b = &blocks[k];
    let label_right = label.left as i64 + label.width as i64 - 1;
    value_like_exec(b) && (b.left as i64) > label_right && (b.left as i64 - label_right) <= 260
        && same_metric_row_exec(label, b)
}

/// The text of the closest value block below `label` (see `value_below`).
pub fn find_value_below_label<C>(blocks: &[OcrTextBlock<C>], label: &OcrTextBlock<C>) -> (r: Option<String>)
    ensures
        r matches Some(t) ==> value_below(blocks@, *label) == Some(t@),
        r is None ==> value_below(blocks@, *label) is None,
{
    let mut best: Option<usize> = None;
    let mut best_key: (i64, i64, i64) = (0, 0, 0);
    let mut k: usize = 0;
    while k < blocks.len()
        invariant
            k <= blocks.len(),
            best matches Some(j) ==> {
                &&& j < k
                &&& below_candidate(blocks@, *label, j as int)
                &&& below_key(*label, blocks@[j as int]) == (best_key.0 as int, best_key.1 as int, best_key.2 as int)
                &&& forall|m: int| 0 <= m < k && below_candidate(blocks@, *label, m) ==> {
                    &&& lex_le(below_key(*label, blocks@[j as int]), below_key(*label, blocks@[m]))
                    &&& (m < j ==> lex_lt(below_key(*label, blocks@[j as int]), below_key(*label, blocks@[m])))
                }
            },
            best is None ==> forall|m: int| 0 <= m < k ==> !below_candidate(blocks@, *label, m),
        decreases blocks.len() - k,
    {
        if below_candidate_exec(blocks, label, k) {
            let b = &blocks[k];
            let key = (
                b.top as i64 - label.top as i64,
                abs_exec(b.left as i64 - label.left as i64),
                b.left as i64,
            );
            match best {
                None => {
                    best = Some(k);
                    best_key = key;
                },
                Some(j) => {
                    if lex_lt_exec(key, best_key) {
                        proof {
                            assert forall|m: int| 0 <= m < k + 1 && below_candidate(blocks@, *label, m) implies {
                                &&& lex_le(below_key(*label, blocks@[k as int]), below_key(*label, blocks@[m]))
                                &&& (m < k ==> lex_lt(below_key(*label, blocks@[k as int]), below_key(*label, blocks@[m])))
                            } by {
                                if m < k {
                                    assert(lex_le(below_key(*label, blocks@[j as int]), below_key(*label, blocks@[m])));
                                }
                            }
                        }
                        best = Some(k);
                        best_key = key;
                    }
                },
            }
        }
        k = k + 1;
    }
    match best {
        Some(j) => {
            proof {
                assert(is_best_below(blocks@, *label, j as int));
                let c = choose|i: int| is_best_below(blocks@, *label, i);
                lemma_best_below_unique(blocks@, *label, c, j as int);
            }
            Some(blocks[j].text.clone())
        },
        None => None,
    }
}

/// The text of the closest value block right of `label` (see `value_right`).
pub fn find_value_right_of_label<C>(blocks: &[OcrTextBlock<C>], label: &OcrTextBlock<C>) -> (r: Option<String>)
    ensures
        r matches Some(t) ==> value_right(blocks@, *label) == Some(t@),
        r is None ==> value_right(blocks@, *label) is None,
{
    let label_right = label.left as i64 + label.width as i64 - 1;
    let label_center = center_y_exec(label);
    let mut best: Option<usize> = None;
    let mut best_key: (i64, i64, i64) = (0, 0, 0);
    let mut k: usize = 0;
    while k < blocks.len()
        invariant
            k <= blocks.len(),
            label_right == right_edge(*label),
            label_center == center_y(*label),
            best matches Some(j) ==> {
                &&& j < k
                &&& right_candidate(blocks@, *label, j as int)
                &&& right_key(*label, blocks@[j as int]) == (best_key.0 as int, best_key.1 as int, best_key.2 as int)
                &&& forall|m: int| 0 <= m < k && right_candidate(blocks@, *label, m) ==> {
                    &&& lex_le(right_key(*label, blocks@[j as int]), right_key(*label, blocks@[m]))
                    &&& (m < j ==> lex_lt(right_key(*label, blocks@[j as int]), right_key(*label, blocks@[m])))
                }
            },
            best is None ==> forall|m: int| 0 <= m < k ==> !right_candidate(blocks@, *label, m),
        decreases blocks.len() - k,
    {
        if right_candidate_exec(blocks, label, k) {
            let b = &blocks[k];
            let key = (
                abs_exec(center_y_exec(b) - label_center),
                b.left as i64 - label_right,
                b.top as i64,
            );
            match best {
                None => {
                    best = Some(k);
                    best_key = key;
                },
                Some(j) => {
                    if lex_lt_exec(key, best_key) {
                        proof {
                            assert forall|m: int| 0 <= m < k + 1 && right_candidate(blocks@, *label, m) implies {
                                &&& lex_le(right_key(*label, blocks@[k as int]), right_key(*label, blocks@[m]))
                                &&& (m < k ==> lex_lt(right_key(*label, blocks@[k as int]), right_key(*label, blocks@[m])))
                            } by {
                                if m < k {
                                    assert(lex_le(right_key(*label, blocks@[j as int]), right_key(*label, blocks@[m])));
                                }
                            }
                        }
                        best = Some(k);
                        best_key = key;
                    }
                },
            }
        }
        k = k + 1;
    }
    match best {
        Some(j) => {
            proof {
                assert(is_best_right(blocks@, *label, j as int));
                let c = choose|i: int| is_best_right(blocks@, *label, i);
                lemma_best_right_unique(blocks@, *label, c, j as int);
            }
            Some(blocks[j].text.clone())
        },
        None => None,
    }
}

} // verus!
