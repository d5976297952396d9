use vstd::prelude::*;
use crate::block::{
    find_value_below_label, find_value_right_of_label, value_below, value_right, OcrTextBlock,
};
use crate::datetime::{extract_start_time, is_datetime_text, lemma_start_time_format, start_time};
use crate::duration::{extract_duration_seconds, find_duration_seconds, first_duration, text_duration};
use crate::metric::{
    count_text, is_ten_thousands, number_chars, parse_count_to_integer, plain_count, strip_number_text,
    stripped_number,
};
use crate::numbers::{all_digits, decimal, lemma_decimal_digits, u64_decimal};
use crate::text::{
    after_first, chars_of, contains, copy_range, find_exec, is_digit, matches_at, starts_with, starts_with_exec,
    string_of, trim, trim_chars,
};

verus! {

/// The texts of `blocks` joined by single spaces.
pub open spec fn joined<C>(blocks: Seq<OcrTextBlock<C>>) -> Seq<char>
    decreases blocks.len(),
{
    if blocks.len() == 0 {
        Seq::empty()
    } else if blocks.len() == 1 {
        blocks[0].text@
    } else {
        joined(blocks.drop_last()) + seq![' '] + blocks.last().text@
    }
}

/// What follows `label` in `text`, trimmed, when it is not empty.
pub open spec fn inline_value(text: Seq<char>, label: Seq<char>) -> Option<Seq<char>> {
    match after_first(text, label) {
        Some(rest) if trim(rest).len() > 0 => Some(trim(rest)),
        _ => None,
    }
}

/// The first inline value of `label` in the texts of `blocks`, from index `k` on.
pub open spec fn value_from_text_from<C>(blocks: Seq<OcrTextBlock<C>>, label: Seq<char>, k: int) -> Option<Seq<char>>
    decreases blocks.len() - k,
{
    if k < 0 || k >= blocks.len() {
        None
    } else if inline_value(blocks[k].text@, label) is Some {
        inline_value(blocks[k].text@, label)
    } else {
        value_from_text_from(blocks, label, k + 1)
    }
}

/// The value placed below a label block, else the one to its right.
pub open spec fn value_near<C>(blocks: Seq<OcrTextBlock<C>>, label: OcrTextBlock<C>) -> Option<Seq<char>> {
    match value_below(blocks, label) {
        Some(v) => Some(v),
        None => value_right(blocks, label),
    }
}

/// The value near the first block, from index `k` on, whose text holds `label` and
/// that has a value near it.
pub open spec fn value_by_position_from<C>(blocks: Seq<OcrTextBlock<C>>, label: Seq<char>, k: int) -> Option<Seq<char>>
    decreases blocks.len() - k,
{
    if k < 0 || k >= blocks.len() {
        None
    } else if contains(blocks[k].text@, label) && value_near(blocks, blocks[k]) is Some {
        value_near(blocks, blocks[k])
    } else {
        value_by_position_from(blocks, label, k + 1)
    }
}

/// The value of one label: written after it in a block, else placed near it.
pub open spec fn labelled_value<C>(blocks: Seq<OcrTextBlock<C>>, label: Seq<char>) -> Option<Seq<char>> {
    match value_from_text_from(blocks, label, 0) {
        Some(v) => Some(v),
        None => value_by_position_from(blocks, label, 0),
    }
}

/// The value of the first of `labels`, from index `k` on, that has one.
pub open spec fn metric_value_from<C>(blocks: Seq<OcrTextBlock<C>>, labels: Seq<Seq<char>>, k: int) -> Option<Seq<char>>
    decreases labels.len() - k,
{
    if k < 0 || k >= labels.len() {
        None
    } else if labelled_value(blocks, labels[k]) is Some {
        labelled_value(blocks, labels[k])
    } else {
        metric_value_from(blocks, labels, k + 1)
    }
}

/// The value of the first of `labels` that has one.
pub open spec fn metric_value<C>(blocks: Seq<OcrTextBlock<C>>, labels: Seq<Seq<char>>) -> Option<Seq<char>> {
    metric_value_from(blocks, labels, 0)
}

/// What follows `label` in a joined block that starts with it, trimmed, when not empty.
pub open spec fn special_value_of<C>(b: OcrTextBlock<C>, label: Seq<char>) -> Option<Seq<char>> {
    if b.is_special && starts_with(b.text@, label)
        && trim(b.text@.subrange(label.len() as int, b.text@.len() as int)).len() > 0 {
        Some(trim(b.text@.subrange(label.len() as int, b.text@.len() as int)))
    } else {
        None
    }
}

/// The first value of `label` in a joined block, from index `k` on.
pub open spec fn special_value_from<C>(blocks: Seq<OcrTextBlock<C>>, label: Seq<char>, k: int) -> Option<Seq<char>>
    decreases blocks.len() - k,
{
    if k < 0 || k >= blocks.len() {
        None
    } else if special_value_of(blocks[k], label) is Some {
        special_value_of(blocks[k], label)
    } else {
        special_value_from(blocks, label, k + 1)
    }
}

/// The page shows a live stream's data.
pub open spec fn live_page<C>(blocks: Seq<OcrTextBlock<C>>) -> bool {
    let t = joined(blocks);
    contains(t, "开播时间"@) || contains(t, "开播时长"@) || contains(t, "直播时长"@) || contains(t, "单场数据"@)
}

/// The page shows a video's data.
pub open spec fn video_page<C>(blocks: Seq<OcrTextBlock<C>>) -> bool {
    let t = joined(blocks);
    contains(t, "作品数据详情"@) || contains(t, "切换作品"@) || contains(t, "作品诊断"@)
        || exists|k: int| 0 <= k < blocks.len() && (#[trigger] blocks[k]).is_special && starts_with(blocks[k].text@, "播放量"@)
}

/// The text written where a field was not recognized.
pub open spec fn null_text() -> Seq<char> {
    "<NULL>"@
}

pub open spec fn text_or_null(v: Option<Seq<char>>) -> Seq<char> {
    match v {
        Some(s) => s,
        None => null_text(),
    }
}

pub open spec fn count_or_null(v: Option<u64>) -> Seq<char> {
    match v {
        Some(n) => decimal(n as nat),
        None => null_text(),
    }
}

/// The number of a metric value, or `<NULL>` when there is none or it is empty.
pub open spec fn number_or_null(v: Option<Seq<char>>) -> Seq<char> {
    match v {
        Some(s) if stripped_number(s).len() > 0 => stripped_number(s),
        _ => null_text(),
    }
}

/// A live page's duration: from its joined text, else from the value of a duration label.
pub open spec fn live_duration<C>(blocks: Seq<OcrTextBlock<C>>) -> Option<u64> {
    match text_duration(joined(blocks)) {
        Some(d) => Some(d),
        None => match metric_value(blocks, seq!["开播时长"@, "直播时长"@]) {
            Some(v) => first_duration(v),
            None => None,
        },
    }
}

/// The labels of a live page's exposure count.
pub open spec fn pv_labels() -> Seq<Seq<char>> {
    seq!["曝光人数"@, "PV"@]
}

/// The labels of a live page's total viewers.
pub open spec fn viewer_labels() -> Seq<Seq<char>> {
    seq!["进房人数"@, "累计观看人数"@, "累计观看"@]
}

/// The labels of a live page's average online viewers.
pub open spec fn acu_labels() -> Seq<Seq<char>> {
    seq!["平均在线人数"@, "ACU"@]
}

/// `pv` is what the row says of the exposure count `value`: its integer count, where a
/// count in ten thousands is scaled by `scale` from the number before `万`.
pub open spec fn pv_text<F: Fn(String) -> Option<u64>>(value: Option<Seq<char>>, scale: F, pv: Seq<char>) -> bool {
    match value {
        None => pv == null_text(),
        Some(v) => if is_ten_thousands(v) {
            exists|n: String, r: Option<u64>|
                n@ == count_text(v).drop_last() && #[trigger] scale.ensures((n,), r) && pv == count_or_null(r)
        } else {
            pv == count_or_null(plain_count(v))
        },
    }
}

/// One row of the live export.
#[derive(Clone, Debug)]
pub struct LiveRow {
    pub file_name: String,
    pub start_time: String,
    pub duration_seconds: String,
    pub pv: String,
    pub total_viewers: String,
    pub acu: String,
}

/// One row of the video export.
#[derive(Clone, Debug)]
pub struct VideoRow {
    pub file_name: String,
    pub play_count: String,
    pub like_count: String,
    pub comment_count: String,
}

/// The texts of `blocks` joined by single spaces.
pub fn joined_text<C>(blocks: &[OcrTextBlock<C>]) -> (r: String)
    ensures
        r@ == joined(blocks@),
{
    let mut out: Vec<char> = Vec::new();
    let mut k: usize = 0;
    while k < blocks.len()
        invariant
            k <= blocks.len(),
            out@ == joined(blocks@.take(k as int)),
        decreases blocks.len() - k,
    {
        let t = chars_of(blocks[k].text.as_str());
        let ghost before = out@;
        if k > 0 {
            out.push(' ');
        }
        let mut i: usize = 0;
        let ghost start = out@;
        while i < t.len()
            invariant
                i <= t.len(),
                out@ == start + t@.take(i as int),
            decreases t.len() - i,
        {
            out.push(t[i]);
            assert(t@.take(i + 1) == t@.take(i as int).push(t@[i as int]));
            i = i + 1;
        }
        assert(t@.take(t.len() as int) == t@);
        assert(blocks@.take(k + 1).drop_last() == blocks@.take(k as int));
        if k == 0 {
            assert(out@ == joined(blocks@.take(1)));
        }
        k = k + 1;
    }
    assert(blocks@.take(blocks.len() as int) == blocks@);
    string_of(&out)
}

fn inline_value_exec(text: &[char], label: &[char]) -> (r: Option<Vec<char>>)
    ensures
        r matches Some(v) ==> inline_value(text@, label@) == Some(v@),
        r is None ==> inline_value(text@, label@) is None,
{
    match find_exec(text, label) {
        Some(at) => {
            assert(matches_at(text@, label@, at as int));
            assert(at + label@.len() <= text@.len());
            assert(text@.len() == text.len());
            assert(label@.len() == label.len());
            let rest = copy_range(text, at + label.len(), text.len());
            let t = trim_chars(&rest);
            if t.len() > 0 {
                Some(t)
            } else {
                None
            }
        },
        None => None,
    }
}

/// The first value written after `label` in a block's own text.
pub fn extract_metric_value_from_text<C>(blocks: &[OcrTextBlock<C>], label: &str) -> (r: Option<String>)
    ensures
        r matches Some(v) ==> value_from_text_from(blocks@, label@, 0) == Some(v@),
        r is None ==> value_from_text_from(blocks@, label@, 0) is None,
{
    let l = chars_of(label);
    let mut k: usize = 0;
    while k < blocks.len()
        invariant
            k <= blocks.len(),
            l@ == label@,
            value_from_text_from(blocks@, label@, 0) == value_from_text_from(blocks@, label@, k as int),
        decreases blocks.len() - k,
    {
        let t = chars_of(blocks[k].text.as_str());
        match inline_value_exec(&t, &l) {
            Some(v) => {
                return Some(string_of(&v));
            },
            None => {},
        }
        k = k + 1;
    }
    None
}

/// The value near the first block holding `label` that has a value near it.
pub fn extract_metric_value_by_position<C>(blocks: &[OcrTextBlock<C>], label: &str) -> (r: Option<String>)
    ensures
        r matches Some(v) ==> value_by_position_from(blocks@, label@, 0) == Some(v@),
        r is None ==> value_by_position_from(blocks@, label@, 0) is None,
{
    let l = chars_of(label);
    let mut k: usize = 0;
    while k < blocks.len()
        invariant
            k <= blocks.len(),
            l@ == label@,
            value_by_position_from(blocks@, label@, 0) == value_by_position_from(blocks@, label@, k as int),
        decreases blocks.len() - k,
    {
        let t = chars_of(blocks[k].text.as_str());
        if find_exec(&t, &l).is_some() {
            match find_value_below_label(blocks, &blocks[k]) {
                Some(v) => {
                    return Some(v);
                },
                None => {},
            }
            match find_value_right_of_label(blocks, &blocks[k]) {
                Some(v) => {
                    return Some(v);
                },
                None => {},
            }
        }
        k = k + 1;
    }
    None
}

fn labelled_value_exec<C>(blocks: &[OcrTextBlock<C>], label: &str) -> (r: Option<String>)
    ensures
        r matches Some(v) ==> labelled_value(blocks@, label@) == Some(v@),
        r is None ==> labelled_value(blocks@, label@) is None,
{
    match extract_metric_value_from_text(blocks, label) {
        Some(v) => Some(v),
        None => extract_metric_value_by_position(blocks, label),
    }
}

/// The value of the first of `labels` that has one.
pub fn extract_metric_value<C>(blocks: &[OcrTextBlock<C>], labels: &[&str]) -> (r: Option<String>)
    ensures
        r matches Some(v) ==> metric_value(blocks@, labels@.map_values(|l: &str| l@)) == Some(v@),
        r is None ==> metric_value(blocks@, labels@.map_values(|l: &str| l@)) is None,
{
    let ghost ls = labels@.map_values(|l: &str| l@);
    let mut k: usize = 0;
    while k < labels.len()
        invariant
            k <= labels.len(),
            ls == labels@.map_values(|l: &str| l@),
            metric_value(blocks@, ls) == metric_value_from(blocks@, ls, k as int),
        decreases labels.len() - k,
    {
        assert(ls[k as int] == labels@[k as int]@);
        match labelled_value_exec(blocks, labels[k]) {
            Some(v) => {
                return Some(v);
            },
            None => {},
        }
        k = k + 1;
    }
    None
}

/// The first value of `label` in a block that joins the label with its value.
pub fn extract_special_metric_value<C>(blocks: &[OcrTextBlock<C>], label: &str) -> (r: Option<String>)
    ensures
        r matches Some(v) ==> special_value_from(blocks@, label@, 0) == Some(v@),
        r is None ==> special_value_from(blocks@, label@, 0) is None,
{
    let l = chars_of(label);
    let mut k: usize = 0;
    while k < blocks.len()
        invariant
            k <= blocks.len(),
            l@ == label@,
            special_value_from(blocks@, label@, 0) == special_value_from(blocks@, label@, k as int),
        decreases blocks.len() - k,
    {
        if blocks[k].is_special {
            let t = chars_of(blocks[k].text.as_str());
            if starts_with_exec(&t, &l) {
                let rest = copy_range(&t, l.len(), t.len());
                let v = trim_chars(&rest);
                if v.len() > 0 {
                    return Some(string_of(&v));
                }
            }
        }
        k = k + 1;
    }
    None
}

fn contains_exec(s: &[char], pat: &str) -> (r: bool)
    ensures
        r == contains(s@, pat@),
{
    let p = chars_of(pat);
    find_exec(s, &p).is_some()
}

/// The page shows a live stream's data.
pub fn is_live_page<C>(blocks: &[OcrTextBlock<C>]) -> (r: bool)
    ensures
        r == live_page(blocks@),
{
    let text = joined_text(blocks);
    let t = chars_of(text.as_str());
    contains_exec(&t, "开播时间") || contains_exec(&t, "开播时长") || contains_exec(&t, "直播时长")
        || contains_exec(&t, "单场数据")
}

/// The page shows a video's data.
pub fn is_video_page<C>(blocks: &[OcrTextBlock<C>]) -> (r: bool)
    ensures
        r == video_page(blocks@),
{
    let text = joined_text(blocks);
    let t = chars_of(text.as_str());
    if contains_exec(&t, "作品数据详情") || contains_exec(&t, "切换作品") || contains_exec(&t, "作品诊断") {
        return true;
    }
    let play = chars_of("播放量");
    let mut k: usize = 0;
    while k < blocks.len()
        invariant
            k <= blocks.len(),
            play@ == "播放量"@,
            forall|m: int| 0 <= m < k ==> !((#[trigger] blocks@[m]).is_special && starts_with(blocks@[m].text@, "播放量"@)),
        decreases blocks.len() - k,
    {
        if blocks[k].is_special {
            let bt = chars_of(blocks[k].text.as_str());
            if starts_with_exec(&bt, &play) {
                assert(blocks@[k as int].is_special && starts_with(blocks@[k as int].text@, "播放量"@));
                return true;
            }
        }
        k = k + 1;
    }
    false
}

/// The text written where a field was not recognized.
pub fn null_value() -> (r: String)
    ensures
        r@ == null_text(),
{
    String::from_str("<NULL>")
}

fn count_or_null_exec(v: Option<u64>) -> (r: String)
    ensures
        r@ == count_or_null(v),
{
    match v {
        Some(n) => {
            let d = u64_decimal(n);
            string_of(&d)
        },
        None => null_value(),
    }
}

fn number_or_null_exec(v: Option<String>) -> (r: String)
    ensures
        r@ == number_or_null(match v { Some(s) => Some(s@), None => None }),
{
    match v {
        Some(s) => {
            let n = strip_number_text(s.as_str());
            if !n.as_str().is_empty() {
                n
            } else {
                null_value()
            }
        },
        None => null_value(),
    }
}

/// `row` is the row of a live page named `file_name` with `blocks`: its start time,
/// duration in seconds, exposure count, total viewers and average online viewers,
/// each `<NULL>` when not recognized.
pub open spec fn is_live_row<C, F: Fn(String) -> Option<u64>>(
    row: LiveRow,
    file_name: Seq<char>,
    blocks: Seq<OcrTextBlock<C>>,
    scale: F,
) -> bool {
    &&& row.file_name@ == file_name
    &&& row.start_time@ == text_or_null(start_time(joined(blocks)))
    &&& row.duration_seconds@ == count_or_null(live_duration(blocks))
    &&& pv_text(metric_value(blocks, pv_labels()), scale, row.pv@)
    &&& row.total_viewers@ == number_or_null(metric_value(blocks, viewer_labels()))
    &&& row.acu@ == number_or_null(metric_value(blocks, acu_labels()))
}

/// The row that a live page gives (see `is_live_row`).
pub fn extract_live_row<C, F: Fn(String) -> Option<u64>>(
    file_name: &str,
    blocks: &[OcrTextBlock<C>],
    scale: &F,
) -> (row: LiveRow)
    requires
        forall|n: String| scale.requires((n,)),
    ensures
        is_live_row(row, file_name@, blocks@, *scale),
{
    let text = joined_text(blocks);
    let start_time = match extract_start_time(text.as_str()) {
        Some(t) => t,
        None => null_value(),
    };
    let duration_labels: [&str; 2] = ["开播时长", "直播时长"];
    assert(duration_labels@.map_values(|l: &str| l@) =~= seq!["开播时长"@, "直播时长"@]);
    let duration = match extract_duration_seconds(text.as_str()) {
        Some(d) => Some(d),
        None => match extract_metric_value(blocks, &duration_labels) {
            Some(v) => find_duration_seconds(v.as_str()),
            None => None,
        },
    };
    let pv_names: [&str; 2] = ["曝光人数", "PV"];
    assert(pv_names@.map_values(|l: &str| l@) =~= pv_labels());
    let pv = match extract_metric_value(blocks, &pv_names) {
        Some(v) => {
            let count = parse_count_to_integer(v.as_str(), scale);
            count_or_null_exec(count)
        },
        None => null_value(),
    };
    let viewer_names: [&str; 3] = ["进房人数", "累计观看人数", "累计观看"];
    assert(viewer_names@.map_values(|l: &str| l@) =~= viewer_labels());
    let total_viewers = number_or_null_exec(extract_metric_value(blocks, &viewer_names));
    let acu_names: [&str; 2] = ["平均在线人数", "ACU"];
    assert(acu_names@.map_values(|l: &str| l@) =~= acu_labels());
    let acu = number_or_null_exec(extract_metric_value(blocks, &acu_names));
    LiveRow {
        file_name: String::from_str(file_name),
        start_time,
        duration_seconds: count_or_null_exec(duration),
        pv,
        total_viewers,
        acu,
    }
}

/// The play count of a video page: from a block joining `播放量` with its value, else
/// from the value of the `播放量` label.
pub open spec fn play_count_value<C>(blocks: Seq<OcrTextBlock<C>>) -> Option<Seq<char>> {
    match special_value_from(blocks, "播放量"@, 0) {
        Some(v) => Some(v),
        None => metric_value(blocks, seq!["播放量"@]),
    }
}

/// `row` is the row of a video page named `file_name` with `blocks`: its play, like and
/// comment counts, each `<NULL>` when not recognized.
pub open spec fn is_video_row<C>(row: VideoRow, file_name: Seq<char>, blocks: Seq<OcrTextBlock<C>>) -> bool {
    &&& row.file_name@ == file_name
    &&& row.play_count@ == number_or_null(play_count_value(blocks))
    &&& row.like_count@ == number_or_null(metric_value(blocks, seq!["点赞量"@]))
    &&& row.comment_count@ == number_or_null(metric_value(blocks, seq!["评论量"@]))
}

/// The row that a video page gives (see `is_video_row`).
pub fn extract_video_row<C>(file_name: &str, blocks: &[OcrTextBlock<C>]) -> (row: VideoRow)
    ensures
        is_video_row(row, file_name@, blocks@),
{
    let play_labels: [&str; 1] = ["播放量"];
    assert(play_labels@.map_values(|l: &str| l@) =~= seq!["播放量"@]);
    let play = match extract_special_metric_value(blocks, "播放量") {
        Some(v) => Some(v),
        None => extract_metric_value(blocks, &play_labels),
    };
    let like_labels: [&str; 1] = ["点赞量"];
    assert(like_labels@.map_values(|l: &str| l@) =~= seq!["点赞量"@]);
    let comment_labels: [&str; 1] = ["评论量"];
    assert(comment_labels@.map_values(|l: &str| l@) =~= seq!["评论量"@]);
    VideoRow {
        file_name: String::from_str(file_name),
        play_count: number_or_null_exec(play),
        like_count: number_or_null_exec(extract_metric_value(blocks, &like_labels)),
        comment_count: number_or_null_exec(extract_metric_value(blocks, &comment_labels)),
    }
}

/// A whole number as a row shows it: decimal digits.
pub open spec fn is_count_text(t: Seq<char>) -> bool {
    t.len() > 0 && all_digits(t)
}

/// A number as a row shows it: digits and decimal points, or `-` for a value shown as
/// empty.
pub open spec fn is_number_text(t: Seq<char>) -> bool {
    t == "-"@ || (t.len() > 0 && forall|i: int| 0 <= i < t.len() ==> is_digit(#[trigger] t[i]) || t[i] == '.')
}

proof fn lemma_number_chars(s: Seq<char>)
    ensures
        forall|i: int| 0 <= i < number_chars(s).len() ==> is_digit(#[trigger] number_chars(s)[i]) || number_chars(s)[i] == '.',
    decreases s.len(),
{
    if s.len() > 0 {
        lemma_number_chars(s.drop_last());
        let p = number_chars(s.drop_last());
        let n = number_chars(s);
        assert forall|i: int| 0 <= i < n.len() implies is_digit(#[trigger] n[i]) || n[i] == '.' by {
            if i < p.len() {
                assert(n[i] == p[i]);
            }
        }
    }
}

proof fn lemma_number_or_null(v: Option<Seq<char>>)
    ensures
        number_or_null(v) == null_text() || is_number_text(number_or_null(v)),
{
    if let Some(s) = v {
        lemma_number_chars(s);
    }
}

proof fn lemma_count_or_null(v: Option<u64>)
    ensures
        count_or_null(v) == null_text() || is_count_text(count_or_null(v)),
{
    if let Some(n) = v {
        lemma_decimal_digits(n as nat);
    }
}

/// Every field of a live row is filled: with `<NULL>` where nothing was recognized, else
/// with a start time `YYYY-MM-DD HH:MM:SS`, a whole number of seconds or people, or a
/// number.
pub proof fn lemma_live_row_fields<C, F: Fn(String) -> Option<u64>>(
    row: LiveRow,
    file_name: Seq<char>,
    blocks: Seq<OcrTextBlock<C>>,
    scale: F,
)
    requires
        is_live_row(row, file_name, blocks, scale),
    ensures
        row.start_time@ == null_text() || is_datetime_text(row.start_time@),
        row.duration_seconds@ == null_text() || is_count_text(row.duration_seconds@),
        row.pv@ == null_text() || is_count_text(row.pv@),
        row.total_viewers@ == null_text() || is_number_text(row.total_viewers@),
        row.acu@ == null_text() || is_number_text(row.acu@),
{
    lemma_start_time_format(joined(blocks));
    lemma_count_or_null(live_duration(blocks));
    match metric_value(blocks, pv_labels()) {
        None => {},
        Some(v) => {
            if is_ten_thousands(v) {
                let (n, r) = choose|n: String, r: Option<u64>|
                    n@ == count_text(v).drop_last() && #[trigger] scale.ensures((n,), r) && row.pv@ == count_or_null(r);
                lemma_count_or_null(r);
            } else {
                lemma_count_or_null(plain_count(v));
            }
        },
    }
    lemma_number_or_null(metric_value(blocks, viewer_labels()));
    lemma_number_or_null(metric_value(blocks, acu_labels()));
}

/// Every field of a video row is filled: with `<NULL>` where nothing was recognized,
/// else with a number.
pub proof fn lemma_video_row_fields<C>(row: VideoRow, file_name: Seq<char>, blocks: Seq<OcrTextBlock<C>>)
    requires
        is_video_row(row, file_name, blocks),
    ensures
        row.play_count@ == null_text() || is_number_text(row.play_count@),
        row.like_count@ == null_text() || is_number_text(row.like_count@),
        row.comment_count@ == null_text() || is_number_text(row.comment_count@),
{
    lemma_number_or_null(play_count_value(blocks));
    lemma_number_or_null(metric_value(blocks, seq!["点赞量"@]));
    lemma_number_or_null(metric_value(blocks, seq!["评论量"@]));
}

/// A page whose text mentions `开播时间`, `开播时长`, `直播时长` or `单场数据` is a live
/// page, and no other page is.
pub proof fn lemma_live_page_words<C>(blocks: Seq<OcrTextBlock<C>>)
    ensures
        contains(joined(blocks), "开播时间"@) ==> live_page(blocks),
        contains(joined(blocks), "开播时长"@) ==> live_page(blocks),
        contains(joined(blocks), "直播时长"@) ==> live_page(blocks),
        contains(joined(blocks), "单场数据"@) ==> live_page(blocks),
        live_page(blocks) ==> contains(joined(blocks), "开播时间"@) || contains(joined(blocks), "开播时长"@)
            || contains(joined(blocks), "直播时长"@) || contains(joined(blocks), "单场数据"@),
{
}

/// The text after `播放量` in a joined block that starts with it, trimmed.
pub open spec fn joined_play_text(text: Seq<char>) -> Seq<char> {
    trim(text.subrange("播放量"@.len() as int, text.len() as int))
}

/// A joined block that starts with `播放量` and shows a value after it.
pub open spec fn is_joined_play_block<C>(b: OcrTextBlock<C>) -> bool {
    b.is_special && starts_with(b.text@, "播放量"@) && joined_play_text(b.text@).len() > 0
}

proof fn lemma_special_value_first<C>(blocks: Seq<OcrTextBlock<C>>, j: int, k: int)
    requires
        0 <= j <= k < blocks.len(),
        is_joined_play_block(blocks[k]),
        forall|m: int| j <= m < k ==> !is_joined_play_block(#[trigger] blocks[m]),
    ensures
        special_value_from(blocks, "播放量"@, j) == Some(joined_play_text(blocks[k].text@)),
    decreases k - j,
{
    if j < k {
        assert(!is_joined_play_block(blocks[j]));
        lemma_special_value_first(blocks, j + 1, k);
    }
}

/// On a video page the first joined block `播放量…` with a value gives the play count,
/// whatever other blocks mention `播放量`: the row shows that value's number.
pub proof fn lemma_joined_play_count<C>(row: VideoRow, file_name: Seq<char>, blocks: Seq<OcrTextBlock<C>>, k: int)
    requires
        is_video_row(row, file_name, blocks),
        0 <= k < blocks.len(),
        is_joined_play_block(blocks[k]),
        forall|m: int| 0 <= m < k ==> !is_joined_play_block(#[trigger] blocks[m]),
    ensures
        row.play_count@ == number_or_null(Some(joined_play_text(blocks[k].text@))),
{
    lemma_special_value_first(blocks, 0, k);
}

} // verus!
