use whwjm_ocr::datetime::{extract_start_time, find_datetime};
use whwjm_ocr::duration::{extract_duration_seconds, find_duration_seconds, parse_duration_seconds};
use whwjm_ocr::escape::{escape_cache_field, unescape_cache_field};
use whwjm_ocr::metric::{
    is_empty_metric_value, is_metric_value_text, is_plain_metric_value, parse_count_to_integer,
    strip_number_text,
};
use whwjm_ocr::numbers::{i32_decimal, parse_i32, parse_u64, u64_decimal};
use whwjm_ocr::ocr::normalize_joined_text;

fn scale(number: String) -> Option<u64> {
    number.parse::<f64>().ok().map(|parsed| (parsed * 10_000.0).round() as u64)
}

fn chars(s: &str) -> Vec<char> {
    s.chars().collect()
}

#[test]
fn duration_with_hours_minutes_and_seconds() {
    assert_eq!(parse_duration_seconds("1小时2分钟3秒"), Some(3723));
    assert_eq!(parse_duration_seconds(" 45分钟 "), Some(2700));
    assert_eq!(parse_duration_seconds("30秒"), Some(30));
}

#[test]
fn duration_needs_a_unit() {
    assert_eq!(parse_duration_seconds("12"), None);
    assert_eq!(parse_duration_seconds("abc"), None);
    assert_eq!(parse_duration_seconds("1 小时"), None);
}

#[test]
fn duration_stops_after_unit_at_other_text() {
    assert_eq!(parse_duration_seconds("2小时 同级主播 5分钟"), Some(7200));
    assert_eq!(parse_duration_seconds("3分钟20%"), Some(180));
}

#[test]
fn duration_number_too_large_fails() {
    assert_eq!(parse_duration_seconds("99999999999999999999999小时"), None);
}

#[test]
fn duration_wraps_like_release_arithmetic() {
    let big = "18446744073709551615秒1秒";
    assert_eq!(parse_duration_seconds(big), Some(0));
}

#[test]
fn find_duration_from_first_readable_digit() {
    assert_eq!(find_duration_seconds("时长：1小时30分钟"), Some(5400));
    assert_eq!(find_duration_seconds("第3场 2分钟"), Some(120));
    assert_eq!(find_duration_seconds("没有数字"), None);
}

#[test]
fn extract_duration_after_label() {
    assert_eq!(extract_duration_seconds("开播时长：2小时 开播时间 2024-01-01"), Some(7200));
    assert_eq!(extract_duration_seconds("直播时长:5分钟"), Some(300));
    assert_eq!(extract_duration_seconds("10分钟 其他"), Some(600));
    assert_eq!(extract_duration_seconds("无"), None);
}

#[test]
fn datetime_pads_one_digit_hour() {
    assert_eq!(find_datetime("开播时间：2024-05-01 9:05:07 结束"), Some("2024-05-01 09:05:07".to_string()));
    assert_eq!(find_datetime("2024-05-01  12:30:45"), Some("2024-05-01 12:30:45".to_string()));
}

#[test]
fn datetime_rejects_malformed() {
    assert_eq!(find_datetime("2024-05-01 123:30:45"), None);
    assert_eq!(find_datetime("日期2024-5-1 10:00:00"), None);
    assert_eq!(find_datetime("2024-05-01 10:0:00"), None);
}

#[test]
fn start_time_after_label_first() {
    assert_eq!(
        extract_start_time("2022-01-01 01:01:01 开播时间2023-12-31 23:59:59"),
        Some("2023-12-31 23:59:59".to_string())
    );
    assert_eq!(extract_start_time("见 2024-01-01 00:00:00"), Some("2024-01-01 00:00:00".to_string()));
    assert_eq!(extract_start_time("开播时间：未知"), None);
}

#[test]
fn strip_number_keeps_digits_and_points() {
    assert_eq!(strip_number_text("1,234"), "1234");
    assert_eq!(strip_number_text("12.5%"), "12.5");
    assert_eq!(strip_number_text("-"), "-");
    assert_eq!(strip_number_text(" 一 "), "-");
    assert_eq!(strip_number_text("abc"), "");
}

#[test]
fn metric_value_texts() {
    assert!(is_plain_metric_value("12.3%"));
    assert!(is_plain_metric_value("1.2万"));
    assert!(!is_plain_metric_value("较近7天 +12%"));
    assert!(!is_plain_metric_value("-"));
    assert!(!is_plain_metric_value("abc1"));
    assert!(is_metric_value_text(" 3分钟 "));
    assert!(!is_metric_value_text(""));
}

#[test]
fn metric_value_readings_agree() {
    for text in ["12", "", "-", "较近1", "1.2万", "a1", " 5 % "] {
        assert_eq!(is_plain_metric_value(text), is_metric_value_text(text));
    }
}

#[test]
fn empty_metric_values() {
    assert!(is_empty_metric_value("一"));
    assert!(is_empty_metric_value(" - "));
    assert!(!is_empty_metric_value("--"));
}

#[test]
fn counts_in_ten_thousands_are_scaled() {
    assert_eq!(parse_count_to_integer("1.2万", &scale), Some(12000));
    assert_eq!(parse_count_to_integer("3,4万", &scale), Some(340000));
    assert_eq!(parse_count_to_integer("abc万", &scale), None);
}

#[test]
fn plain_counts_are_read_from_digits() {
    assert_eq!(parse_count_to_integer(" 12,345 ", &scale), Some(12345));
    assert_eq!(parse_count_to_integer("1.5", &scale), None);
    assert_eq!(parse_count_to_integer("人数 88", &scale), Some(88));
}

#[test]
fn normalize_collapses_and_drops_space_around_signs() {
    assert_eq!(normalize_joined_text("  a   b  + 3 % "), "a b +3%");
    assert_eq!(normalize_joined_text("较近 7 天 - 12 ％"), "较近 7 天-12％");
    assert_eq!(normalize_joined_text("   "), "");
}

#[test]
fn cache_fields_round_trip() {
    let text = "a\tb\\c\nd\re";
    let escaped = escape_cache_field(text);
    assert_eq!(escaped, "a\\tb\\\\c\\nd\\re");
    assert_eq!(unescape_cache_field(&escaped), text);
}

#[test]
fn unescape_keeps_unknown_and_trailing_backslash() {
    assert_eq!(unescape_cache_field("x\\q"), "x\\q");
    assert_eq!(unescape_cache_field("end\\"), "end\\");
}

#[test]
fn numbers_parse_like_std() {
    assert_eq!(parse_u64(&chars("+42")), Some(42));
    assert_eq!(parse_u64(&chars("18446744073709551615")), Some(u64::MAX));
    assert_eq!(parse_u64(&chars("18446744073709551616")), None);
    assert_eq!(parse_u64(&chars("-1")), None);
    assert_eq!(parse_u64(&chars("")), None);
    assert_eq!(parse_i32(&chars("-2147483648")), Some(i32::MIN));
    assert_eq!(parse_i32(&chars("2147483648")), None);
    assert_eq!(parse_i32(&chars("-")), None);
}

#[test]
fn numbers_print_and_read_back() {
    for n in [0u64, 7, 10, 1234567890, u64::MAX] {
        let d: String = u64_decimal(n).into_iter().collect();
        assert_eq!(d, n.to_string());
        assert_eq!(parse_u64(&chars(&d)), Some(n));
    }
    for n in [0i32, -1, 42, i32::MIN, i32::MAX] {
        let d: String = i32_decimal(n).into_iter().collect();
        assert_eq!(d, n.to_string());
        assert_eq!(parse_i32(&chars(&d)), Some(n));
    }
}

#[test]
fn normalized_text_has_single_spaces_only() {
    for text in ["a \t\n b", "\u{3000}x\u{a0}\u{a0}y\r", "1 + 2", " - 3 %", "a  +  b  -  c"] {
        let out: Vec<char> = normalize_joined_text(text).chars().collect();
        for (k, ch) in out.iter().enumerate() {
            if ch.is_whitespace() {
                assert_eq!(*ch, ' ');
                assert!(k > 0 && k + 1 < out.len());
                assert!(!out[k - 1].is_whitespace() && !out[k + 1].is_whitespace());
            }
        }
    }
    assert_eq!(normalize_joined_text("a \t\n b"), "a b");
    assert_eq!(normalize_joined_text("\u{3000}x\u{a0}\u{a0}y\r"), "x y");
}
