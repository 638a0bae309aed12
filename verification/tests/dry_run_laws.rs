use tailsync::dry_run::dry_run_counts_fit;
use tailsync::sync::parse_dry_run_output;

#[test]
fn counts_follow_line_kinds() {
    let out = "*deleting a\n>f+++++++++ b\n>f+++++++++ c\n>f..t...... d\ncd+++++++++ dir/\nTotal file size: 7 bytes\n";
    let s = parse_dry_run_output(out);
    assert_eq!(s.files_to_delete, 1);
    assert_eq!(s.files_to_copy, 2);
    assert_eq!(s.files_to_update, 1);
    assert_eq!(s.total_bytes, 0);
    assert_eq!(s.file_list, vec!["D a", "+ b", "+ c", "M d"]);
}

#[test]
fn last_total_line_wins() {
    let out = "Total transferred file size: 10 bytes\nTotal file size: 99 bytes\nTotal transferred file size: 1,234,567 bytes\n";
    assert_eq!(parse_dry_run_output(out).total_bytes, 1_234_567);
}

#[test]
fn joined_outputs_add_up() {
    let a = ">f+++++++++ one\nTotal transferred file size: 5 bytes\n";
    let b = "*deleting two\n>f.s....... three\n";
    let joined = format!("{a}{b}");
    let x = parse_dry_run_output(a);
    let y = parse_dry_run_output(b);
    let z = parse_dry_run_output(&joined);
    assert_eq!(z.files_to_copy, x.files_to_copy + y.files_to_copy);
    assert_eq!(z.files_to_delete, x.files_to_delete + y.files_to_delete);
    assert_eq!(z.files_to_update, x.files_to_update + y.files_to_update);
    assert_eq!(z.file_list, [x.file_list.clone(), y.file_list.clone()].concat());
    assert_eq!(z.total_bytes, 5);
}

#[test]
fn ordinary_output_counts_fit() {
    assert!(dry_run_counts_fit(""));
    assert!(dry_run_counts_fit(">f+++++++++ a\n*deleting b\n"));
}
