use tailsync::excludes::{excludes_file_text, merged_excludes, DEFAULT_EXCLUDES};

#[test]
fn defaults_always_present() {
    let merged = merged_excludes(&[]);
    assert!(merged.contains(&".DS_Store".to_string()));
    assert!(merged.contains(&"._*".to_string()));
    assert_eq!(merged.len(), DEFAULT_EXCLUDES.len());
}

#[test]
fn user_excludes_appended() {
    let merged = merged_excludes(&["node_modules/".to_string(), "*.tmp".to_string()]);
    assert!(merged.contains(&"node_modules/".to_string()));
    assert!(merged.contains(&"*.tmp".to_string()));
}

#[test]
fn duplicates_dropped() {
    let merged = merged_excludes(&[".DS_Store".to_string()]);
    let count = merged.iter().filter(|x| *x == ".DS_Store").count();
    assert_eq!(count, 1);
}

#[test]
fn merged_keeps_defaults_first_then_pair_order() {
    let merged = merged_excludes(&[
        "b".to_string(),
        "._*".to_string(),
        "a".to_string(),
        "b".to_string(),
    ]);
    let expected: Vec<String> = DEFAULT_EXCLUDES
        .iter()
        .map(|s| s.to_string())
        .chain(["b".to_string(), "a".to_string()])
        .collect();
    assert_eq!(merged, expected);
}

#[test]
fn merging_merged_list_changes_nothing() {
    let once = merged_excludes(&["x/".to_string(), "*.log".to_string()]);
    let twice = merged_excludes(&once);
    assert_eq!(once, twice);
}

#[test]
fn exclude_file_has_one_pattern_per_line() {
    let text = excludes_file_text(&["*.tmp".to_string()]);
    assert_eq!(
        text,
        ".DS_Store\n.Spotlight-V100\n.Trashes\n.fseventsd\n.TemporaryItems\n._*\n.rsync-partial/\n*.tmp\n"
    );
    let lines: Vec<&str> = text.lines().collect();
    assert_eq!(lines.len(), 8);
}

#[test]
fn merged_is_defaults_then_first_new_patterns() {
    let per_pair = vec![
        "node_modules".to_string(),
        ".DS_Store".to_string(),
        "*.log".to_string(),
        "node_modules".to_string(),
    ];
    let merged = merged_excludes(&per_pair);
    let mut expected: Vec<String> = DEFAULT_EXCLUDES.iter().map(|s| s.to_string()).collect();
    expected.push("node_modules".to_string());
    expected.push("*.log".to_string());
    assert_eq!(merged, expected);
}
