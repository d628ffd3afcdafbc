use camtrap::codec::{fmt_i64, fmt_u64, parse_quoted, quote_field, scan_i64, scan_u64, split_semi};
use camtrap::media::plan_video_frames;
use camtrap::text::{contains_str, str_eq};
use camtrap::utils::FileItem;

#[test]
fn decimal_round_trips_at_the_edges() {
    assert_eq!(fmt_u64(0), "0");
    assert_eq!(fmt_u64(18_446_744_073_709_551_615), "18446744073709551615");
    assert_eq!(scan_u64("18446744073709551615", 0), Some((18_446_744_073_709_551_615, 20)));
    // One past the largest value is rejected rather than wrapped.
    assert_eq!(scan_u64("18446744073709551616", 0), None);
    assert_eq!(scan_u64("007x", 0), Some((7, 3)));
    assert_eq!(scan_u64("x7", 0), None);
}

#[test]
fn signed_decimals_parse_back() {
    assert_eq!(fmt_i64(-12345), "-12345");
    assert_eq!(scan_i64("-12345", 0), Some((-12345, 6)));
    assert_eq!(fmt_i64(i64::MIN), "-9223372036854775808");
    assert_eq!(scan_i64("-9223372036854775808", 0), Some((i64::MIN, 20)));
    assert_eq!(scan_i64("-9223372036854775809", 0), None);
}

#[test]
fn quoted_fields_double_their_quotes() {
    let q = quote_field("say \"hi\", now");
    assert_eq!(q, "\"say \"\"hi\"\", now\"");
    let text = format!("{},rest", q);
    let (content, end) = parse_quoted(&text, 0).expect("own quoting must parse");
    assert_eq!(content, "say \"hi\", now");
    assert_eq!(&text[end..], ",rest");
}

#[test]
fn unterminated_fields_are_rejected() {
    assert_eq!(parse_quoted("\"abc", 0), None);
    assert_eq!(parse_quoted("abc", 0), None);
    // A closing quote must be followed by a separator or the end.
    assert_eq!(parse_quoted("\"a\"b", 0), None);
}

#[test]
fn semicolon_split() {
    let parts = split_semi("Animal;Person", 0);
    assert_eq!(parts, vec!["Animal".to_string(), "Person".to_string()]);
    let one = split_semi("Blank", 0);
    assert_eq!(one, vec!["Blank".to_string()]);
}

#[test]
fn substring_search() {
    assert!(contains_str("rtdetr-v2", "rtdetr"));
    assert!(contains_str("x", ""));
    assert!(!contains_str("rt-detr", "rtdetr"));
    assert!(str_eq("abc", "abc"));
    assert!(!str_eq("abc", "abd"));
}

#[test]
fn video_letterbox_parameters_follow_the_width() {
    let f = FileItem::new(1, 0, "clip.mp4".to_string(), None);
    let nums: Vec<usize> = (0..4).collect();
    let metas = match plan_video_frames(&f, &nums, 1920, 1080, 640, true, None, None, String::new())
    {
        Ok(m) => m,
        Err(_) => panic!("planning must succeed on a nonempty decode"),
    };
    assert_eq!(metas.len(), 4);
    // ratio = 1920 * 10000 / 640; padding = (1920 - 1080) * 640 / (2 * 1920).
    assert_eq!(metas[0].ratio, 30000);
    assert_eq!(metas[0].padding, (0, 140));
    assert!(metas[0].iframe);
}
