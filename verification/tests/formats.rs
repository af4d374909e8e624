//! File names, lines, settings and points in time.

use chrono::{DateTime, Utc};
use linexus_logger::config::env_usize;
use linexus_logger::lines::{count_lines, ends_whole, frame_line, record_lines, split_lines};
use linexus_logger::segments::{list_segments, segment_id, segment_path, sorted_segments};
use linexus_logger::text::non_empty;
use linexus_logger::timestamp::{
    current_cutoff, retention_cutoff, Timestamp, FIRST_SECOND, LAST_SECOND,
};

#[test]
fn segment_names_have_six_digits_or_more() {
    assert_eq!(segment_path(0), "segment-000000.jsonl");
    assert_eq!(segment_path(7), "segment-000007.jsonl");
    assert_eq!(segment_path(42), "segment-000042.jsonl");
    assert_eq!(segment_path(123), "segment-000123.jsonl");
    assert_eq!(segment_path(4567), "segment-004567.jsonl");
    assert_eq!(segment_path(99_999), "segment-099999.jsonl");
    assert_eq!(segment_path(100_000), "segment-100000.jsonl");
    assert_eq!(segment_path(1_234_567), "segment-1234567.jsonl");
    assert_eq!(segment_path(u64::MAX), "segment-18446744073709551615.jsonl");
}

#[test]
fn segment_names_are_recognized() {
    for id in [0, 1, 9, 10, 99, 100, 999_999, 1_000_000, u64::MAX] {
        assert_eq!(segment_id(&segment_path(id)), Some(id));
        assert_eq!(segment_path(id), format!("segment-{id:06}.jsonl"));
    }
    assert_eq!(segment_id("segment-5.jsonl"), Some(5));
    assert_eq!(segment_id("segment-+5.jsonl"), Some(5));
    assert_eq!(segment_id("segment-.jsonl"), None);
    assert_eq!(segment_id("segment-+.jsonl"), None);
    assert_eq!(segment_id("segment--5.jsonl"), None);
    assert_eq!(segment_id("segment-5x.jsonl"), None);
    assert_eq!(segment_id("segment-5.json"), None);
    assert_eq!(segment_id("segmnt-5.jsonl"), None);
    assert_eq!(segment_id("segment-18446744073709551615.jsonl"), Some(u64::MAX));
    assert_eq!(segment_id("segment-18446744073709551616.jsonl"), None);
    assert_eq!(segment_id("segment-99999999999999999999999.jsonl"), None);
    assert_eq!(segment_id(""), None);
}

#[test]
fn listing_keeps_order_and_sorting_sorts() {
    let names: Vec<String> = ["segment-000010.jsonl", "x", "segment-000002.jsonl", "segment-2.jsonl"]
        .iter()
        .map(|s| s.to_string())
        .collect();
    assert_eq!(list_segments(&names), vec![10, 2, 2]);
    assert_eq!(sorted_segments(&names), vec![2, 2, 10]);
    assert_eq!(sorted_segments(&vec![]), Vec::<u64>::new());
}

#[test]
fn lines_end_with_a_newline_or_the_file() {
    assert_eq!(split_lines(b""), Vec::<Vec<u8>>::new());
    assert_eq!(split_lines(b"a\nb"), vec![b"a".to_vec(), b"b".to_vec()]);
    assert_eq!(split_lines(b"a\r\nb\r"), vec![b"a".to_vec(), b"b\r".to_vec()]);
    assert_eq!(split_lines(b"\r\r\n\n"), vec![b"\r".to_vec(), b"".to_vec()]);
    assert_eq!(count_lines(b""), 0);
    assert_eq!(count_lines(b"\n"), 1);
    assert_eq!(count_lines(b"a\n\xff\nc"), 3);
}

#[test]
fn blank_lines_hold_no_record() {
    let lines = record_lines("a\n  \t\n\u{3000}\n b \r\n\n{}".as_bytes());
    assert_eq!(lines, vec!["a", " b ", "{}"]);
    assert_eq!(record_lines(b""), Vec::<String>::new());
}

#[test]
fn a_line_that_is_not_utf8_is_passed_over() {
    assert_eq!(record_lines(b"good\n\xff\xfe\nalso good\n"), vec!["good", "also good"]);
    assert_eq!(record_lines(b"\xc3\xa9\n\xc3"), vec!["\u{e9}"]);
}

#[test]
fn a_written_record_is_read_back() {
    let mut file = b"first\n".to_vec();
    let line = frame_line("{\"m\":\"\u{e9}\u{1f600}\"}".to_string(), true);
    assert_eq!(line, "{\"m\":\"\u{e9}\u{1f600}\"}\n");
    file.extend_from_slice(line.as_bytes());
    assert_eq!(record_lines(&file), vec!["first", "{\"m\":\"\u{e9}\u{1f600}\"}"]);
    assert!(ends_whole(&file));
    file.extend_from_slice(b"torn");
    assert_eq!(count_lines(&file), 3);
    assert_eq!(record_lines(&file)[0], "first");
    assert!(!ends_whole(&file));
    let line = frame_line("next".to_string(), ends_whole(&file));
    assert_eq!(line, "\nnext\n");
    file.extend_from_slice(line.as_bytes());
    assert_eq!(count_lines(&file), 4);
    assert_eq!(record_lines(&file)[2..], ["torn".to_string(), "next".to_string()]);
    assert!(ends_whole(&file) && ends_whole(b""));
}

#[test]
fn settings_are_positive_numbers() {
    assert_eq!(env_usize(None, 30), 30);
    assert_eq!(env_usize(Some("7"), 30), 7);
    assert_eq!(env_usize(Some("+7"), 30), 7);
    assert_eq!(env_usize(Some("0"), 30), 30);
    assert_eq!(env_usize(Some(""), 30), 30);
    assert_eq!(env_usize(Some(" 7"), 30), 30);
    assert_eq!(env_usize(Some("-7"), 30), 30);
    assert_eq!(env_usize(Some("7d"), 30), 30);
    assert_eq!(env_usize(Some("0010000"), 30), 10_000);
    assert_eq!(env_usize(Some(&usize::MAX.to_string()), 30), usize::MAX);
    assert_eq!(env_usize(Some("340282366920938463463374607431768211456"), 30), 30);
}

#[test]
fn an_empty_text_counts_as_absent() {
    assert_eq!(non_empty(None), None);
    assert_eq!(non_empty(Some(String::new())), None);
    assert_eq!(non_empty(Some(" ".into())), Some(" ".to_string()));
}

#[test]
fn times_are_ordered_by_second_and_nanosecond() {
    let a = Timestamp { secs: -1, nanos: 999_999_999 };
    let b = Timestamp { secs: 0, nanos: 0 };
    let c = Timestamp { secs: 0, nanos: 1 };
    assert!(a.is_before(&b) && b.is_before(&c) && a.is_before(&c));
    assert!(!b.is_before(&b) && !c.is_before(&b));
}

#[test]
fn the_calendar_ends_where_chrono_ends() {
    assert_eq!(FIRST_SECOND, DateTime::<Utc>::MIN_UTC.timestamp());
    assert_eq!(LAST_SECOND, DateTime::<Utc>::MAX_UTC.timestamp());
}

#[test]
fn the_cutoff_lies_whole_days_back() {
    let now = Timestamp { secs: 1_700_000_000, nanos: 123 };
    let cutoff = retention_cutoff(now, 30).unwrap();
    assert_eq!(cutoff, Timestamp { secs: 1_700_000_000 - 2_592_000, nanos: 123 });
    assert_eq!(retention_cutoff(now, 0), Some(now));
    let first = (1_700_000_000 - FIRST_SECOND) / 86400;
    let earliest = retention_cutoff(now, first as usize).unwrap();
    assert_eq!(earliest.secs, 1_700_000_000 - first * 86400);
    assert_eq!(retention_cutoff(now, first as usize + 1), None);
    assert_eq!(retention_cutoff(now, i64::MAX as usize), None);
    let later = retention_cutoff(now, usize::MAX).unwrap();
    assert_eq!(later.secs, 1_700_000_000 + 86400);
    let late = Timestamp { secs: LAST_SECOND + 1, nanos: 0 };
    assert_eq!(retention_cutoff(late, 1), None);
    assert!(retention_cutoff(now, 31).unwrap().is_before(&cutoff) && cutoff.is_before(&now));
}

#[test]
fn the_current_cutoff_follows_the_clock() {
    let before = Utc::now().timestamp();
    let cutoff = current_cutoff(2).unwrap();
    let after = Utc::now().timestamp();
    assert!(before - 172_800 <= cutoff.secs && cutoff.secs <= after - 172_800);
}
