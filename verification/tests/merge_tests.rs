use whwjm_ocr::merge::{
    merge_close_horizontal_results, merge_horizontal_in_order, merge_nearby_metric_values, merge_regions,
    merge_special_horizontal_values, postprocess_results, should_merge_horizontal, should_merge_metric_value,
    should_merge_special_horizontal, sort_reading_order,
};
use whwjm_ocr::ocr::normalize_joined_text;
use whwjm_ocr::{MergedOcrResult, OcrTextBlock};

fn combine(a: f32, area_a: i128, b: f32, area_b: i128) -> f32 {
    let sa = area_a as f32;
    let sb = area_b as f32;
    (a * sa + b * sb) / (sa + sb)
}

fn center_y(m: &MergedOcrResult<f32>) -> f32 {
    (m.top + m.bottom) as f32 / 2.0
}

fn same_line(row: &Vec<MergedOcrResult<f32>>, item: &MergedOcrResult<f32>) -> bool {
    let row_center_y = row.iter().map(center_y).sum::<f32>() / row.len() as f32;
    let row_height = row.iter().map(|m| m.height()).max().unwrap_or(1);
    let max_delta = row_height.max(item.height()) as f32 * 0.45;
    (center_y(item) - row_center_y).abs() <= max_delta
}

fn region(text: &str, left: i32, top: i32, right: i32, bottom: i32) -> MergedOcrResult<f32> {
    MergedOcrResult::new(text, 0.8, left, top, right, bottom)
}

fn texts(v: &[MergedOcrResult<f32>]) -> Vec<String> {
    v.iter().map(|m| m.text.clone()).collect()
}

#[test]
fn new_region_is_tidied() {
    let m = region("  1 + 2 ", 0, 0, 9, 9);
    assert_eq!(m.text, "1+2");
    assert_eq!(m.text, normalize_joined_text("  1 + 2 "));
    assert_eq!((m.width(), m.height()), (10, 10));
    assert!(!m.is_special);
}

#[test]
fn horizontal_merge_rules() {
    let a = region("直播", 0, 0, 49, 29);
    assert!(should_merge_horizontal(&a, &region("时长", 60, 2, 99, 31)));
    assert!(should_merge_horizontal(&a, &region("时长", 74, 2, 99, 31)));
    assert!(!should_merge_horizontal(&a, &region("时长", 75, 2, 99, 31)));
    assert!(!should_merge_horizontal(&a, &region("时长", 40, 2, 99, 31)));
    assert!(!should_merge_horizontal(&a, &region("时长", 60, 20, 99, 49)));
}

#[test]
fn merged_regions_cover_both_and_weigh_confidence() {
    let a = MergedOcrResult::new("直播", 1.0, 0, 0, 9, 9);
    let b = MergedOcrResult::new("时长", 0.0, 10, 0, 39, 9);
    let m = merge_regions(&a, &b, &combine);
    assert_eq!(m.text, "直播时长");
    assert_eq!((m.left, m.top, m.right, m.bottom), (0, 0, 39, 9));
    assert!((m.confidence - 0.25).abs() < 1e-6);
}

#[test]
fn words_on_a_line_are_joined() {
    let items = vec![region("时长", 60, 2, 99, 31), region("直播", 0, 0, 49, 29), region("2小时", 0, 50, 59, 79)];
    let merged = merge_close_horizontal_results(items, &combine, &same_line);
    assert_eq!(texts(&merged), vec!["直播时长", "2小时"]);
    let in_order = merge_horizontal_in_order(vec![region("a", 0, 0, 9, 9), region("b", 10, 0, 19, 9), region("c", 20, 0, 29, 9)], &combine);
    assert_eq!(texts(&in_order), vec!["abc"]);
}

#[test]
fn reading_order_goes_by_lines() {
    let items = vec![
        region("右", 100, 4, 139, 33),
        region("下", 0, 60, 39, 89),
        region("左", 0, 0, 39, 29),
    ];
    let ordered = sort_reading_order(items, &same_line);
    assert_eq!(texts(&ordered), vec!["左", "右", "下"]);
    let mut before = vec!["右", "下", "左"];
    let mut after: Vec<&str> = ordered.iter().map(|m| m.text.as_str()).collect();
    before.sort();
    after.sort();
    assert_eq!(before, after);
}

#[test]
fn label_takes_value_below() {
    let label = region("曝光人数", 10, 0, 89, 29);
    let value = region("1.2万", 10, 32, 69, 71);
    assert!(should_merge_metric_value(&label, &value));
    assert!(!should_merge_metric_value(&value, &label));
    let short = region("1.2万", 10, 32, 69, 61);
    assert!(!should_merge_metric_value(&label, &short));
    let merged = merge_nearby_metric_values(vec![value, label], &combine, &same_line);
    assert_eq!(texts(&merged), vec!["曝光人数1.2万"]);
    assert_eq!((merged[0].left, merged[0].top, merged[0].right, merged[0].bottom), (10, 0, 89, 71));
}

#[test]
fn label_takes_value_to_its_right() {
    let label = region("播放量", 10, 100, 69, 129);
    let value = region("12,345", 109, 102, 170, 131);
    assert!(should_merge_special_horizontal(&label, &value));
    assert!(should_merge_special_horizontal(&label, &region("12,345", 250, 102, 311, 131)));
    let far = region("12,345", 251, 102, 312, 131);
    assert!(!should_merge_special_horizontal(&label, &far));
    let merged = merge_special_horizontal_values(vec![value, label], &combine, &same_line);
    assert_eq!(texts(&merged), vec!["播放量12,345"]);
    assert!(merged[0].is_special);
}

#[test]
fn page_is_postprocessed_into_blocks() {
    let items = vec![
        region("曝光", 10, 0, 49, 29),
        region("人数", 55, 0, 89, 29),
        region("1.2万", 10, 32, 69, 71),
        region("播放量", 10, 100, 69, 129),
        region("12,345", 109, 102, 170, 131),
    ];
    let count = items.len();
    let merged = postprocess_results(items, &combine, &same_line);
    assert_eq!(texts(&merged), vec!["曝光人数1.2万", "播放量12,345"]);
    assert!(merged.len() <= count);
    let blocks: Vec<OcrTextBlock<f32>> = merged.into_iter().map(OcrTextBlock::from_merged).collect();
    assert_eq!((blocks[0].left, blocks[0].top, blocks[0].width, blocks[0].height), (10, 0, 80, 72));
    assert!(!blocks[0].is_special);
    assert_eq!((blocks[1].left, blocks[1].top, blocks[1].width, blocks[1].height), (10, 100, 161, 32));
    assert!(blocks[1].is_special);
}
