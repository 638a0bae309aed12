use tailsync::rsync::{
    parse_eta, parse_progress_line, progress_line_fits, split_records, ProgressFields, RateParts,
};

fn percent(p: &ProgressFields) -> Option<f32> {
    p.percent_text.as_ref().and_then(|t| t.parse::<f32>().ok())
}

fn rate_bps(p: &ProgressFields) -> Option<u64> {
    let r = p.rate.as_ref()?;
    let n: f64 = r.number.parse().ok()?;
    Some((n * r.multiplier as f64) as u64)
}

#[test]
fn parses_basic_progress() {
    let line = "    1,048,576  50%    1.23MB/s    0:00:02";
    let p = parse_progress_line(line).unwrap();
    assert_eq!(p.bytes_transferred, 1_048_576);
    assert_eq!(percent(&p), Some(50.0));
    assert!(rate_bps(&p).unwrap() > 1_000_000);
    assert_eq!(p.eta_seconds, Some(2));
    assert!(p.current_file.is_none());
}

#[test]
fn parses_progress_with_kb_rate() {
    let line = "       32,768   0%    512kB/s    0:00:10";
    let p = parse_progress_line(line).unwrap();
    assert_eq!(p.bytes_transferred, 32_768);
    assert_eq!(rate_bps(&p), Some(512 * 1024));
    assert_eq!(p.eta_seconds, Some(10));
}

#[test]
fn returns_filename_for_non_numeric_line() {
    let p = parse_progress_line("Documents/notes/abc.md").unwrap();
    assert_eq!(p.current_file.as_deref(), Some("Documents/notes/abc.md"));
}

#[test]
fn returns_none_for_empty_line() {
    assert!(parse_progress_line("").is_none());
    assert!(parse_progress_line("\r\n").is_none());
}

#[test]
fn progress_fields_exact() {
    let p = parse_progress_line("  1,048,576  50%  1.23MB/s  0:00:02 (xfr#1, to-chk=2/4)\r").unwrap();
    assert_eq!(
        p,
        ProgressFields {
            bytes_transferred: 1048576,
            percent_text: Some("50".to_string()),
            rate: Some(RateParts { number: "1.23".to_string(), multiplier: 1048576 }),
            eta_seconds: Some(2),
            current_file: None,
        }
    );
}

#[test]
fn unknown_rate_unit_and_bad_eta_give_none() {
    let p = parse_progress_line("10 1% 3.5TB/s 1:2").unwrap();
    assert_eq!(p.rate, None);
    assert_eq!(p.eta_seconds, None);
    let q = parse_progress_line("10 1% 7GB/s/s 1:02:03").unwrap();
    assert_eq!(q.rate, Some(RateParts { number: "7".to_string(), multiplier: 1073741824 }));
    assert_eq!(q.eta_seconds, Some(3723));
    let r = parse_progress_line("10 1% 5B/s 0:0:1").unwrap();
    assert_eq!(r.rate, Some(RateParts { number: "5".to_string(), multiplier: 1 }));
    let k = parse_progress_line("10 1% 5KB/s 0:0:1").unwrap();
    assert_eq!(k.rate, Some(RateParts { number: "5".to_string(), multiplier: 1024 }));
}

#[test]
fn short_or_unparsable_progress_lines_give_none() {
    assert!(parse_progress_line("  12 34% 1MB/s").is_none());
    assert!(parse_progress_line("  1x2 34% 1MB/s 0:00:01").is_none());
    assert!(parse_progress_line("   \t ").is_none());
}

#[test]
fn filename_line_keeps_leading_spaces() {
    let p = parse_progress_line("  notes/a b.md\n").unwrap();
    assert_eq!(p.current_file.as_deref(), Some("  notes/a b.md"));
    assert_eq!(p.bytes_transferred, 0);
}

#[test]
fn eta_parts() {
    assert_eq!(parse_eta("0:01:23"), Some(83));
    assert_eq!(parse_eta("1:00:00"), Some(3600));
    assert_eq!(parse_eta("+1:00:00"), Some(3600));
    assert_eq!(parse_eta("1:00"), None);
    assert_eq!(parse_eta("1:00:00:00"), None);
    assert_eq!(parse_eta("a:00:00"), None);
    assert_eq!(parse_eta("::"), None);
}

#[test]
fn eta_overflow_is_detected() {
    assert!(progress_line_fits("5 1% 1MB/s 0:00:01"));
    assert!(!progress_line_fits("5 1% 1MB/s 18446744073709551615:00:00"));
    assert!(progress_line_fits("abc"));
}

#[test]
fn output_splits_into_records_at_newline_or_carriage_return() {
    let data = b"  1,024  10%  1.00kB/s  0:00:01\r  2,048  20%";
    let (records, rest) = split_records(data);
    assert_eq!(records, vec![b"  1,024  10%  1.00kB/s  0:00:01\r".to_vec()]);
    assert_eq!(rest, b"  2,048  20%".to_vec());
    let (records, rest) = split_records(b"name\n\nnext\r");
    assert_eq!(records, vec![b"name\n".to_vec(), b"\n".to_vec(), b"next\r".to_vec()]);
    assert!(rest.is_empty());
    let (records, rest) = split_records(b"");
    assert!(records.is_empty() && rest.is_empty());
}

#[test]
fn chunked_reading_gives_the_same_records() {
    let whole = b"a\rbb\ncc\rd".to_vec();
    let (first, rest) = split_records(&whole[..4]);
    let mut joined = rest.clone();
    joined.extend_from_slice(&whole[4..]);
    let (second, last) = split_records(&joined);
    let (all, all_rest) = split_records(&whole);
    assert_eq!([first, second].concat(), all);
    assert_eq!(last, all_rest);
}
