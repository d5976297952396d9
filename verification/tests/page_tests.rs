use whwjm_ocr::block::{find_value_below_label, find_value_right_of_label};
use whwjm_ocr::csv::{escape_csv_field, push_csv_row, render_live_csv, render_video_csv};
use whwjm_ocr::extract::{
    extract_live_row, extract_metric_value, extract_metric_value_by_position,
    extract_metric_value_from_text, extract_special_metric_value, extract_video_row, is_live_page,
    is_video_page, joined_text, null_value,
};
use whwjm_ocr::{ExportRun, OcrTextBlock};

fn scale(number: String) -> Option<u64> {
    number.parse::<f64>().ok().map(|parsed| (parsed * 10_000.0).round() as u64)
}

fn block(text: &str, left: i32, top: i32, width: i32, height: i32) -> OcrTextBlock<f32> {
    OcrTextBlock { text: text.to_string(), confidence: 0.9, left, top, width, height, is_special: false }
}

fn special(text: &str, left: i32, top: i32, width: i32, height: i32) -> OcrTextBlock<f32> {
    OcrTextBlock { is_special: true, ..block(text, left, top, width, height) }
}

fn live_page() -> Vec<OcrTextBlock<f32>> {
    vec![
        block("开播时间：2024-05-01 20:00:00", 10, 10, 400, 30),
        block("直播时长", 10, 60, 80, 30),
        block("2小时3分钟", 10, 95, 100, 30),
        block("曝光人数", 10, 150, 80, 30),
        block("1.2万", 10, 185, 60, 30),
        block("进房人数", 200, 150, 80, 30),
        block("3,456", 200, 185, 60, 30),
        block("平均在线人数", 400, 150, 100, 30),
        block("78", 400, 185, 30, 30),
    ]
}

fn video_page() -> Vec<OcrTextBlock<f32>> {
    vec![
        block("作品数据详情", 10, 10, 200, 30),
        special("播放量12,345", 10, 60, 200, 30),
        block("点赞量", 10, 120, 80, 30),
        block("1024", 10, 155, 50, 30),
        block("评论量", 200, 120, 80, 30),
        block("-", 200, 155, 20, 30),
    ]
}

#[test]
fn joined_text_uses_single_spaces() {
    let blocks = vec![block("a", 0, 0, 1, 1), block("", 0, 0, 1, 1), block("b c", 0, 0, 1, 1)];
    assert_eq!(joined_text(&blocks), "a  b c");
    assert_eq!(joined_text::<f32>(&[]), "");
}

#[test]
fn pages_are_told_apart() {
    assert!(is_live_page(&live_page()));
    assert!(!is_video_page(&live_page()));
    assert!(is_video_page(&video_page()));
    assert!(!is_live_page(&video_page()));
    assert!(is_video_page(&[special("播放量 9", 0, 0, 10, 10)]));
    assert!(!is_video_page(&[block("播放量 9", 0, 0, 10, 10)]));
    assert!(is_live_page(&[block("单场数据", 0, 0, 10, 10)]));
}

#[test]
fn live_page_row() {
    let row = extract_live_row("191", &live_page(), &scale);
    assert_eq!(row.file_name, "191");
    assert_eq!(row.start_time, "2024-05-01 20:00:00");
    assert_eq!(row.duration_seconds, "7380");
    assert_eq!(row.pv, "12000");
    assert_eq!(row.total_viewers, "3456");
    assert_eq!(row.acu, "78");
}

#[test]
fn missing_live_fields_are_null() {
    let row = extract_live_row("5", &[block("单场数据", 0, 0, 10, 10)], &scale);
    assert_eq!(row.start_time, "<NULL>");
    assert_eq!(row.duration_seconds, "<NULL>");
    assert_eq!(row.pv, "<NULL>");
    assert_eq!(row.total_viewers, "<NULL>");
    assert_eq!(row.acu, "<NULL>");
    assert_eq!(null_value(), "<NULL>");
}

#[test]
fn live_duration_after_label() {
    let blocks = vec![block("开播时长", 10, 10, 80, 30), block("45分钟", 10, 45, 60, 30)];
    let row = extract_live_row("7", &blocks, &scale);
    assert_eq!(row.duration_seconds, "2700");
}

#[test]
fn video_page_row() {
    let row = extract_video_row("12", &video_page());
    assert_eq!(row.file_name, "12");
    assert_eq!(row.play_count, "12345");
    assert_eq!(row.like_count, "1024");
    assert_eq!(row.comment_count, "-");
}

#[test]
fn metric_value_from_text_after_label() {
    let blocks = vec![block("点赞量 88", 0, 0, 10, 10), block("点赞量", 0, 0, 10, 10)];
    assert_eq!(extract_metric_value_from_text(&blocks, "点赞量"), Some("88".to_string()));
    assert_eq!(extract_metric_value_from_text(&blocks, "评论量"), None);
    assert_eq!(extract_metric_value(&blocks, &["评论量", "点赞量"]), Some("88".to_string()));
}

#[test]
fn metric_value_by_position_below_then_right() {
    let below = vec![block("点赞量", 10, 10, 80, 30), block("5", 20, 50, 20, 30), block("9", 10, 60, 20, 30)];
    assert_eq!(extract_metric_value_by_position(&below, "点赞量"), Some("5".to_string()));
    let right = vec![block("点赞量", 10, 10, 80, 30), block("77", 150, 12, 30, 30)];
    assert_eq!(extract_metric_value_by_position(&right, "点赞量"), Some("77".to_string()));
    let far = vec![block("点赞量", 10, 10, 80, 30), block("77", 400, 12, 30, 30)];
    assert_eq!(extract_metric_value_by_position(&far, "点赞量"), None);
}

#[test]
fn value_below_prefers_nearest_row() {
    let label = block("曝光人数", 100, 100, 80, 30);
    let blocks = vec![
        label.clone(),
        block("1", 100, 180, 20, 30),
        block("2", 110, 140, 20, 30),
        block("3", 100, 140, 20, 30),
        block("4", 100, 95, 20, 30),
        block("5", 100, 191, 20, 30),
    ];
    assert_eq!(find_value_below_label(&blocks, &label), Some("3".to_string()));
}

#[test]
fn value_right_needs_same_row() {
    let label = block("评论量", 0, 100, 60, 40);
    let low = vec![block("8", 100, 130, 20, 40)];
    assert_eq!(find_value_right_of_label(&low, &label), None);
    let level = vec![block("8", 100, 110, 20, 40), block("9", 80, 100, 20, 40)];
    assert_eq!(find_value_right_of_label(&level, &label), Some("9".to_string()));
}

#[test]
fn special_value_needs_joined_block() {
    let blocks = vec![block("播放量 5", 0, 0, 1, 1), special("播放量", 0, 0, 1, 1), special("播放量 6 ", 0, 0, 1, 1)];
    assert_eq!(extract_special_metric_value(&blocks, "播放量"), Some("6".to_string()));
}

#[test]
fn csv_fields_are_quoted_when_needed() {
    assert_eq!(escape_csv_field("plain"), "plain");
    assert_eq!(escape_csv_field("a,b"), "\"a,b\"");
    assert_eq!(escape_csv_field("say \"hi\""), "\"say \"\"hi\"\"\"");
    assert_eq!(escape_csv_field("x\ny"), "\"x\ny\"");
    let mut csv = String::from("h\n");
    push_csv_row(&mut csv, &["1", "a,b", ""]);
    assert_eq!(csv, "h\n1,\"a,b\",\n");
}

#[test]
fn export_run_writes_both_files() {
    let mut run = ExportRun::new();
    run.record_page("191", &live_page(), &scale);
    run.record_page("12", &video_page(), &scale);
    run.record_page("3", &[block("其他", 0, 0, 1, 1)], &scale);
    assert_eq!(
        run.live_csv(),
        "文件名,开播时间,直播时长,PV,累计观看人数,ACU\n191,2024-05-01 20:00:00,7380,12000,3456,78\n"
    );
    assert_eq!(run.video_csv(), "文件名,播放量,点赞量,评论量\n12,12345,1024,-\n");
    assert_eq!(render_live_csv(&run.live_rows), run.live_csv());
    assert_eq!(render_video_csv(&run.video_rows), run.video_csv());
    let summary = run.summary(3, "/d/直播.csv".to_string(), "/d/视频.csv".to_string());
    assert_eq!(summary.image_count, 3);
    assert_eq!(summary.live_row_count, 1);
    assert_eq!(summary.video_row_count, 1);
    assert_eq!(summary.live_csv_path, "/d/直播.csv");
}

#[test]
fn empty_run_writes_headers_only() {
    let run = ExportRun::new();
    assert_eq!(run.live_csv(), "文件名,开播时间,直播时长,PV,累计观看人数,ACU\n");
    assert_eq!(run.video_csv(), "文件名,播放量,点赞量,评论量\n");
}

fn is_number(t: &str) -> bool {
    t == "-" || (!t.is_empty() && t.chars().all(|c| c.is_ascii_digit() || c == '.'))
}

#[test]
fn row_fields_are_null_or_well_formed() {
    let pages = vec![
        live_page(),
        video_page(),
        vec![block("开播时间 2024-5-1 1:2:3", 0, 0, 10, 10), block("PV", 0, 20, 10, 10), block("一", 0, 40, 10, 10)],
        vec![block("开播时间：2023-01-02 3:04:05 累计观看 1.5", 0, 0, 10, 10), block("ACU 9.", 0, 20, 10, 10)],
    ];
    for blocks in &pages {
        let live = extract_live_row("1", blocks, &scale);
        assert!(live.start_time == "<NULL>" || {
            let c: Vec<char> = live.start_time.chars().collect();
            c.len() == 19 && c[4] == '-' && c[7] == '-' && c[10] == ' ' && c[13] == ':' && c[16] == ':'
        });
        for count in [&live.duration_seconds, &live.pv] {
            assert!(count == "<NULL>" || (!count.is_empty() && count.chars().all(|c| c.is_ascii_digit())));
        }
        for number in [&live.total_viewers, &live.acu] {
            assert!(number == "<NULL>" || is_number(number));
        }
        let video = extract_video_row("1", blocks);
        for number in [&video.play_count, &video.like_count, &video.comment_count] {
            assert!(number == "<NULL>" || is_number(number));
        }
    }
    let odd = extract_live_row("1", &pages[3], &scale);
    assert_eq!(odd.start_time, "2023-01-02 03:04:05");
    assert_eq!(odd.total_viewers, "1.5");
    assert_eq!(odd.acu, "9.");
}
