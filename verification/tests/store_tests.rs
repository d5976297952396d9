use std::sync::Arc;
use whwjm_ocr::cache::{lines_exec, parse_ocr_cache, render_ocr_cache, split_tabs_exec};
use whwjm_ocr::export::{
    append_progress_text, download_temp_extension, image_progress, image_progress_line, model_download_url,
    parse_content_length, resume_decision, DownloadTracker, DOWNLOAD_REPORT_INTERVAL_NANOS,
    MODEL_DOWNLOAD_LIMIT_BYTES,
};
use whwjm_ocr::files::{
    cache_file_name, file_stem_number, is_numeric_image_name, is_supported_image, numeric_name_le,
    select_numeric_images,
};
use whwjm_ocr::tier::parse_model_tier;
use whwjm_ocr::{
    ExportControl, ExportOptions, OcrModelTier, OcrTextBlock, ResumeDecision, DEFAULT_CHARSET_PATH,
    DEFAULT_DET_MODEL_PATH, DEFAULT_MODEL_CDN_BASE_URL, DEFAULT_REC_MODEL_PATH,
};

fn cached(text: &str, confidence: &str, left: i32, top: i32, width: i32, height: i32, is_special: bool) -> OcrTextBlock<String> {
    OcrTextBlock { text: text.to_string(), confidence: confidence.to_string(), left, top, width, height, is_special }
}

fn chars(s: &str) -> Vec<char> {
    s.chars().collect()
}

fn texts(v: Vec<Vec<char>>) -> Vec<String> {
    v.into_iter().map(|l| l.into_iter().collect()).collect()
}

#[test]
fn cache_file_layout() {
    let blocks = vec![cached("曝光人数\t1", "0.95", -3, 10, 100, 20, true), cached("a\\b", "1", 0, 0, 5, 6, false)];
    let text = render_ocr_cache(OcrModelTier::Small, 1234, 5678, &blocks);
    assert_eq!(text, "v2\tsmall\t1234\t5678\n曝光人数\\t1\t0.95\t-3\t10\t100\t20\t1\na\\\\b\t1\t0\t0\t5\t6\t0\n");
}

#[test]
fn cache_reads_back_what_was_written() {
    let blocks = vec![
        cached("多\n行\r文本", "0.5", i32::MIN, i32::MAX, 0, -1, false),
        cached("", "", 1, 2, 3, 4, true),
    ];
    let text = render_ocr_cache(OcrModelTier::Medium, u64::MAX, 0, &blocks);
    let back = parse_ocr_cache(&text, OcrModelTier::Medium, u64::MAX, 0).expect("cache should be read");
    assert_eq!(back.len(), 2);
    for (a, b) in back.iter().zip(blocks.iter()) {
        assert_eq!(a.text, b.text);
        assert_eq!(a.confidence, b.confidence);
        assert_eq!((a.left, a.top, a.width, a.height, a.is_special), (b.left, b.top, b.width, b.height, b.is_special));
    }
}

#[test]
fn cache_with_other_header_is_ignored() {
    let text = render_ocr_cache(OcrModelTier::Tiny, 1, 2, &[cached("x", "1", 0, 0, 1, 1, false)]);
    assert!(parse_ocr_cache(&text, OcrModelTier::Small, 1, 2).is_none());
    assert!(parse_ocr_cache(&text, OcrModelTier::Tiny, 9, 2).is_none());
    assert!(parse_ocr_cache(&text, OcrModelTier::Tiny, 1, 9).is_none());
    assert!(parse_ocr_cache("", OcrModelTier::Tiny, 1, 2).is_none());
}

#[test]
fn cache_line_with_wrong_field_count_is_ignored() {
    let text = "v2\ttiny\t1\t2\nx\t1\t0\t0\t1\t1\n";
    assert!(parse_ocr_cache(text, OcrModelTier::Tiny, 1, 2).is_none());
    let text = "v2\ttiny\t1\t2\nx\t1\t0\t0\t1\t1\t0\t9\n";
    assert!(parse_ocr_cache(text, OcrModelTier::Tiny, 1, 2).is_none());
}

#[test]
fn cache_header_alone_has_no_blocks() {
    let blocks = parse_ocr_cache("v2\tmedium\t10\t20", OcrModelTier::Medium, 10, 20).expect("header is enough");
    assert!(blocks.is_empty());
}

#[test]
fn cache_unreadable_numbers_become_zero() {
    let text = "v2\ttiny\t1\t2\r\nx\tbad\tL\t+7\t99999999999\t-0\tyes\n";
    let blocks = parse_ocr_cache(text, OcrModelTier::Tiny, 1, 2).expect("cache should be read");
    assert_eq!(blocks.len(), 1);
    let b = &blocks[0];
    assert_eq!(b.confidence, "bad");
    assert_eq!((b.left, b.top, b.width, b.height, b.is_special), (0, 7, 0, 0, false));
}

#[test]
fn lines_and_tabs_split_like_std() {
    assert_eq!(texts(lines_exec(&chars("a\nb\r\n\nc"))), vec!["a", "b", "", "c"]);
    assert_eq!(texts(lines_exec(&chars("a\n"))), vec!["a"]);
    assert!(lines_exec(&chars("")).is_empty());
    assert_eq!(texts(lines_exec(&chars("x\r"))), vec!["x\r"]);
    assert_eq!(texts(split_tabs_exec(&chars("a\t\tb"))), vec!["a", "", "b"]);
    assert_eq!(texts(split_tabs_exec(&chars(""))), vec![""]);
}

#[test]
fn numeric_images_sorted_by_number_then_name() {
    let names = ["10.png", "2.JPG", "a.png", "02.png", "5.jpeg", "9.jpg", "11.bmp", "3.txt", "12", ".png", "7.webp.bak"]
        .iter()
        .map(|s| s.to_string())
        .collect();
    assert_eq!(select_numeric_images(names), vec!["02.png", "2.JPG", "5.jpeg", "9.jpg", "10.png", "11.bmp"]);
}

#[test]
fn unreadable_numbers_sort_last() {
    assert_eq!(file_stem_number("99999999999999999999.png"), u64::MAX);
    assert_eq!(file_stem_number("0042.webp"), 42);
    let names = vec!["99999999999999999999.png".to_string(), "5.png".to_string()];
    assert_eq!(select_numeric_images(names), vec!["5.png", "99999999999999999999.png"]);
    assert!(numeric_name_le("5.png", "5.png"));
    assert!(!numeric_name_le("6.png", "5.png"));
}

#[test]
fn supported_image_extensions() {
    assert!(is_supported_image("1.PNG"));
    assert!(is_supported_image("x.WebP"));
    assert!(!is_supported_image("1.gif"));
    assert!(!is_supported_image("png"));
    assert!(!is_supported_image(".png"));
    assert!(is_numeric_image_name("123.bmp"));
    assert!(!is_numeric_image_name("12a.bmp"));
    assert!(!is_numeric_image_name("1.2.png"));
    assert_eq!(cache_file_name("1.png"), "1.png.tsv");
}

#[test]
fn tier_names_and_files() {
    assert_eq!(OcrModelTier::Tiny.as_str(), "tiny");
    assert_eq!(OcrModelTier::Small.as_str(), "small");
    assert_eq!(OcrModelTier::Medium.as_str(), "medium");
    assert_eq!(OcrModelTier::from_index(0), OcrModelTier::Tiny);
    assert_eq!(OcrModelTier::from_index(1), OcrModelTier::Small);
    assert_eq!(OcrModelTier::from_index(2), OcrModelTier::Medium);
    assert_eq!(OcrModelTier::from_index(-1), OcrModelTier::Medium);
    assert_eq!(OcrModelTier::default(), OcrModelTier::Medium);
    assert_eq!(OcrModelTier::Small.det_file_name(), "PP-OCRv6_small_det.mnn");
    assert_eq!(OcrModelTier::Tiny.rec_file_name(), "PP-OCRv6_tiny_rec.mnn");
    assert_eq!(OcrModelTier::Medium.charset_file_name(), "ppocr_keys_v6_medium.txt");
    assert_eq!(DEFAULT_DET_MODEL_PATH, format!("models/{}", OcrModelTier::Medium.det_file_name()));
    assert_eq!(DEFAULT_REC_MODEL_PATH, format!("models/{}", OcrModelTier::Medium.rec_file_name()));
    assert_eq!(DEFAULT_CHARSET_PATH, format!("models/{}", OcrModelTier::Medium.charset_file_name()));
}

#[test]
fn tier_names_parse_back() {
    for tier in [OcrModelTier::Tiny, OcrModelTier::Small, OcrModelTier::Medium] {
        assert_eq!(parse_model_tier(tier.as_str()), Ok(tier));
    }
    assert_eq!(parse_model_tier("large"), Err("未知模型档位：large".to_string()));
    assert_eq!(parse_model_tier("Tiny"), Err("未知模型档位：Tiny".to_string()));
}

#[test]
fn export_options_defaults_and_builders() {
    let options = ExportOptions::new("images".to_string());
    assert_eq!(options.image_dir, "images");
    assert_eq!(options.model_dir, "models");
    assert_eq!(options.model_tier, OcrModelTier::Medium);
    assert_eq!(options.model_cdn_base_url, DEFAULT_MODEL_CDN_BASE_URL);
    assert!(options.download_missing_models);
    assert!(options.control.is_none());
    let control = Arc::new(ExportControl::new());
    let options = options
        .with_model_dir("/data/models".to_string())
        .with_model_tier(OcrModelTier::Tiny)
        .with_control(control.clone());
    assert_eq!(options.model_dir, "/data/models");
    assert_eq!(options.model_tier, OcrModelTier::Tiny);
    assert_eq!(options.image_dir, "images");
    assert!(Arc::ptr_eq(options.control.as_ref().unwrap(), &control));
}

#[test]
fn export_control_requests() {
    let control = ExportControl::new();
    assert!(!control.is_paused() && !control.is_stopped());
    control.request_pause();
    assert!(control.is_paused());
    control.resume();
    assert!(!control.is_paused());
    control.request_pause();
    control.request_stop();
    assert!(control.is_stopped());
    assert!(!control.is_paused());
    control.request_pause();
    control.reset();
    assert!(!control.is_paused() && !control.is_stopped());
}

#[test]
fn resume_decisions() {
    assert_eq!(resume_decision(false, false), ResumeDecision::Continue);
    assert_eq!(resume_decision(true, false), ResumeDecision::Wait);
    assert_eq!(resume_decision(true, true), ResumeDecision::Abort);
    assert_eq!(resume_decision(false, true), ResumeDecision::Abort);
}

#[test]
fn model_urls() {
    assert_eq!(
        model_download_url(DEFAULT_MODEL_CDN_BASE_URL, "PP-OCRv6_medium_det.mnn"),
        "https://assets.checkpoint321.com/wjm/models/PP-OCRv6_medium_det.mnn"
    );
    assert_eq!(model_download_url("http://h/m///", "a.txt"), "http://h/m/a.txt");
    assert_eq!(model_download_url("http://h/m", "a.txt"), "http://h/m/a.txt");
    assert_eq!(model_download_url("", "a.txt"), "/a.txt");
}

#[test]
fn download_helpers() {
    assert_eq!(download_temp_extension(Some("mnn")), "mnn.tmp");
    assert_eq!(download_temp_extension(None), "download.tmp");
    assert_eq!(parse_content_length("1024"), Some(1024));
    assert_eq!(parse_content_length(" 1"), None);
    assert_eq!(parse_content_length(""), None);
    let p = image_progress(0, 3, "/d/1.png".to_string(), true);
    assert_eq!((p.current, p.total, p.cache_hit), (1, 3, true));
    assert_eq!(p.image_path, "/d/1.png");
}

#[test]
fn progress_log_lines() {
    let mut log = String::new();
    append_progress_text(&mut log, "1/2 1.png");
    assert_eq!(log, "1/2 1.png");
    append_progress_text(&mut log, "2/2 2.png (cache hit)");
    assert_eq!(log, "1/2 1.png\n2/2 2.png (cache hit)");
    append_progress_text(&mut log, "");
    assert_eq!(log, "1/2 1.png\n2/2 2.png (cache hit)\n");
}

#[test]
fn image_progress_lines() {
    let p = image_progress(9, 12, "/d/10.png".to_string(), true);
    assert_eq!(image_progress_line(&p, Some("10.png")), "10/12 10.png (cache hit)");
    let p = image_progress(0, 1, "/".to_string(), false);
    assert_eq!(image_progress_line(&p, None), "1/1 <unknown>");
}

#[test]
fn download_reports_every_interval() {
    assert_eq!(MODEL_DOWNLOAD_LIMIT_BYTES, 512 * 1024 * 1024);
    assert_eq!(DOWNLOAD_REPORT_INTERVAL_NANOS, 200_000_000);
    let mut t = DownloadTracker::new();
    assert_eq!(t.finish("http://h/a").unwrap_err(), "downloaded file is empty: http://h/a");
    assert!(!t.record_chunk(10, 199_999_999));
    assert!(t.record_chunk(10, 200_000_000));
    assert!(!t.record_chunk(10, 300_000_000));
    assert!(!t.record_chunk(10, 100));
    assert!(t.record_chunk(10, 400_000_000));
    assert_eq!(t.downloaded_bytes, 50);
    assert_eq!(t.last_reported_nanos, 400_000_000);
    assert_eq!(t.finish("http://h/a"), Ok(50));
}
