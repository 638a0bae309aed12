use tailsync::pairs::{SyncDirection, SyncStatus};
use tailsync::rsync::RsyncConfig;
use tailsync::sync::{
    append_capped, dry_run_config, dry_run_outcome, parse_dry_run_output, sync_outcome,
    tail_cut_fits, ExitInfo,
};

#[test]
fn parses_dry_run_summary() {
    let sample = r#"
sending incremental file list
>f+++++++++ a.txt
>f.st...... b.txt
*deleting old.txt

Number of files: 3 (reg: 3)
Number of created files: 1 (reg: 1)
Number of deleted files: 1
Number of regular files transferred: 2
Total file size: 4,096 bytes
Total transferred file size: 4,096 bytes
"#;
    let s = parse_dry_run_output(sample);
    assert_eq!(s.files_to_copy, 1);
    assert_eq!(s.files_to_update, 1);
    assert_eq!(s.files_to_delete, 1);
    assert_eq!(s.total_bytes, 4096);
    assert_eq!(s.file_list.len(), 3);
}

#[test]
fn dry_run_file_list_entries() {
    let s = parse_dry_run_output(">f+++++++++ a.txt\r\n>f.st...... b.txt\n*deleting old.txt  \n*deleting\n");
    assert_eq!(s.file_list, vec!["+ a.txt", "M b.txt", "D old.txt"]);
    assert_eq!(s.files_to_delete, 2);
}

#[test]
fn dry_run_total_without_digits_is_zero() {
    let s = parse_dry_run_output("Total transferred file size: 12 bytes\nTotal transferred file size: none");
    assert_eq!(s.total_bytes, 0);
    let t = parse_dry_run_output("Total transferred file size: 99999999999999999999999 bytes");
    assert_eq!(t.total_bytes, 0);
}

#[test]
fn dry_run_outcome_reports_failure_text() {
    let e = dry_run_outcome(false, ">f+++++++++ a", "boom").unwrap_err();
    assert_eq!(e, "rsync dry-run failed: boom");
    let ok = dry_run_outcome(true, ">f+++++++++ a", "").unwrap();
    assert_eq!(ok.files_to_copy, 1);
}

#[test]
fn dry_run_config_only_sets_flag() {
    let cfg = RsyncConfig { source: "/a/".into(), mirror_mode: true, ..Default::default() };
    let d = dry_run_config(&cfg);
    assert!(d.dry_run);
    assert_eq!(d.source, "/a/");
    assert!(d.mirror_mode);
}

#[test]
fn outcome_of_successful_run() {
    let (r, last) = sync_outcome(
        Some(ExitInfo { code: Some(0), success: true }),
        String::new(),
        SyncDirection::Push,
        1715000000,
    );
    assert_eq!(r.exit_code, 0);
    assert_eq!(r.message, "完成");
    assert_eq!(last.status, SyncStatus::Success);
    assert_eq!(last.direction, SyncDirection::Push);
    assert_eq!(last.timestamp, 1715000000);
    assert_eq!(last.message, "完成 (exit 0)");
}

#[test]
fn outcome_of_failed_and_interrupted_runs() {
    let (r, last) = sync_outcome(
        Some(ExitInfo { code: Some(23), success: false }),
        "err".to_string(),
        SyncDirection::Pull,
        5,
    );
    assert_eq!(r.exit_code, 23);
    assert_eq!(r.message, "失败");
    assert_eq!(r.stderr_tail, "err");
    assert_eq!(last.status, SyncStatus::Failed);
    assert_eq!(last.message, "失败 (exit 23): err");
    let (r2, last2) = sync_outcome(None, String::new(), SyncDirection::Pull, 5);
    assert_eq!(r2.exit_code, -1);
    assert_eq!(last2.status, SyncStatus::Interrupted);
    assert_eq!(last2.message, "失败 (exit -1)");
    let (r3, last3) = sync_outcome(
        Some(ExitInfo { code: None, success: false }),
        String::new(),
        SyncDirection::Pull,
        5,
    );
    assert_eq!(r3.exit_code, -1);
    assert_eq!(last3.status, SyncStatus::Failed);
}

#[test]
fn stderr_tail_keeps_last_bytes() {
    let mut buf = String::new();
    append_capped(&mut buf, "hello\n");
    assert_eq!(buf, "hello\n");
    let big = "x".repeat(20000);
    assert!(tail_cut_fits(&buf, &big));
    append_capped(&mut buf, &big);
    assert_eq!(buf.len(), 16384);
    assert!(buf.chars().all(|c| c == 'x'));
    let mut b2 = "é".repeat(8192);
    assert_eq!(b2.len(), 16384);
    assert!(!tail_cut_fits(&b2, "a"));
    assert!(tail_cut_fits(&b2, "ab"));
    append_capped(&mut b2, "ab");
    assert_eq!(b2.len(), 16384);
    assert!(b2.ends_with("ab"));
}

#[test]
fn last_sync_message_holds_code_and_last_error_line() {
    let stderr = "rsync: connection unexpectedly closed\nrsync error: error in rsync protocol data stream (code 12) at io.c(228)  \r\n\n  \n";
    let (_, last) = sync_outcome(
        Some(ExitInfo { code: Some(12), success: false }),
        stderr.to_string(),
        SyncDirection::Push,
        1,
    );
    assert_eq!(
        last.message,
        "失败 (exit 12): rsync error: error in rsync protocol data stream (code 12) at io.c(228)"
    );
    assert_eq!(tailsync::sync::stderr_summary_text("only\n"), "only");
    assert_eq!(tailsync::sync::signed_decimal_string(i32::MIN), "-2147483648");
}

#[test]
fn kept_error_output_is_tail_of_all_lines() {
    let mut buf = String::new();
    let mut all = String::new();
    for i in 0..3000 {
        let line = format!("rsync: line {i} of error output\n");
        assert!(tail_cut_fits(&buf, &line));
        append_capped(&mut buf, &line);
        all.push_str(&line);
        assert!(buf.len() <= 16384);
        let keep = all.len().min(16384);
        assert_eq!(buf, all[all.len() - keep..]);
    }
}
