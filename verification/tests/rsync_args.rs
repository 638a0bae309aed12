use tailsync::rsync::{
    build_rsync_args, is_modern_rsync, join_path, rsync_binary, rsync_candidates, RsyncConfig,
};

#[test]
fn baseline_args_present() {
    let cfg = RsyncConfig {
        source: "/a/".into(),
        destination: "u@h:/b/".into(),
        ..Default::default()
    };
    let a = build_rsync_args(&cfg);
    assert!(a.contains(&"-az".into()));
    assert!(a.contains(&"--partial".into()));
    assert!(a.contains(&"--partial-dir=.rsync-partial".into()));
    assert!(a.contains(&"--info=progress2".into()));
    assert!(a.contains(&"--stats".into()));
    assert!(a.contains(&"--timeout=300".into()));
    assert!(!a.iter().any(|x| x == "--delete"));
    assert!(!a.iter().any(|x| x.starts_with("--bwlimit")));
    assert!(!a.iter().any(|x| x == "--dry-run"));
    assert_eq!(a.last(), Some(&"u@h:/b/".to_string()));
    assert_eq!(a[a.len() - 2], "/a/");
}

#[test]
fn mirror_mode_adds_delete() {
    let cfg = RsyncConfig { mirror_mode: true, ..Default::default() };
    let a = build_rsync_args(&cfg);
    assert!(a.contains(&"--delete".into()));
}

#[test]
fn bwlimit_added_when_set_nonzero() {
    let cfg = RsyncConfig { bandwidth_limit_kbps: Some(2048), ..Default::default() };
    let a = build_rsync_args(&cfg);
    assert!(a.contains(&"--bwlimit=2048".into()));
}

#[test]
fn bwlimit_skipped_when_zero() {
    let cfg = RsyncConfig { bandwidth_limit_kbps: Some(0), ..Default::default() };
    let a = build_rsync_args(&cfg);
    assert!(!a.iter().any(|x| x.starts_with("--bwlimit")));
}

#[test]
fn dry_run_adds_flag() {
    let cfg = RsyncConfig { dry_run: true, ..Default::default() };
    let a = build_rsync_args(&cfg);
    assert!(a.contains(&"--dry-run".into()));
    assert!(a.contains(&"-i".into()));
}

#[test]
fn excludes_file_added_when_present() {
    let cfg = RsyncConfig { excludes_file: Some("/tmp/ex".into()), ..Default::default() };
    let a = build_rsync_args(&cfg);
    assert!(a.contains(&"--exclude-from=/tmp/ex".into()));
}

#[test]
fn full_argument_list_in_order() {
    let cfg = RsyncConfig {
        source: "/src/".into(),
        destination: "me@mini:/dst/".into(),
        excludes_file: Some("/tmp/x.txt".into()),
        bandwidth_limit_kbps: Some(5000),
        mirror_mode: true,
        dry_run: true,
        timeout_seconds: 45,
    };
    let a = build_rsync_args(&cfg);
    let expected: Vec<String> = [
        "-az",
        "--partial",
        "--partial-dir=.rsync-partial",
        "--info=progress2",
        "--stats",
        "--timeout=45",
        "--exclude-from=/tmp/x.txt",
        "--delete",
        "--bwlimit=5000",
        "-i",
        "--dry-run",
        "/src/",
        "me@mini:/dst/",
    ]
    .iter()
    .map(|s| s.to_string())
    .collect();
    assert_eq!(a, expected);
}

#[test]
fn dry_run_differs_only_by_two_flags() {
    let wet = RsyncConfig {
        source: "/s/".into(),
        destination: "/d/".into(),
        mirror_mode: true,
        ..Default::default()
    };
    let mut dry = wet.clone();
    dry.dry_run = true;
    let a = build_rsync_args(&wet);
    let b = build_rsync_args(&dry);
    assert_eq!(b.len(), a.len() + 2);
    assert_eq!(&b[..a.len() - 2], &a[..a.len() - 2]);
    assert_eq!(&b[a.len() - 2..a.len()], &["-i".to_string(), "--dry-run".to_string()]);
    assert_eq!(&b[a.len()..], &a[a.len() - 2..]);
}

#[test]
fn default_config_has_five_minute_timeout() {
    let cfg = RsyncConfig::default();
    assert_eq!(cfg.timeout_seconds, 300);
    assert!(cfg.source.is_empty() && cfg.destination.is_empty());
    assert!(cfg.excludes_file.is_none() && cfg.bandwidth_limit_kbps.is_none());
    assert!(!cfg.mirror_mode && !cfg.dry_run);
}

#[test]
fn modern_rsync_recognised_by_first_line() {
    assert!(is_modern_rsync("rsync  version 3.2.7  protocol version 31\nCopyright"));
    assert!(!is_modern_rsync("openrsync: protocol version 29\nrsync version 2.6.9 compatible"));
    assert!(!is_modern_rsync("rsync  version 2.6.9  protocol version 29\n"));
    assert!(is_modern_rsync("rsync version 3.0\r\nversion 2. later"));
    assert!(is_modern_rsync(""));
}

#[test]
fn rsync_binary_takes_first_modern_candidate() {
    let paths = rsync_candidates(&vec![]);
    assert_eq!(paths, vec!["/opt/homebrew/bin/rsync", "/usr/local/bin/rsync", "/usr/bin/rsync"]);
    let probes = vec![
        (paths[0].clone(), None),
        (paths[1].clone(), Some("rsync  version 3.2.7  protocol version 31".to_string())),
        (paths[2].clone(), Some("openrsync: protocol version 29".to_string())),
    ];
    assert_eq!(rsync_binary(&probes), Some("/usr/local/bin/rsync".to_string()));
    let none = vec![(paths[2].clone(), Some("openrsync: protocol version 29".to_string()))];
    assert_eq!(rsync_binary(&none), None);
}

#[test]
fn path_directories_are_tried_before_fixed_places() {
    let dirs = vec!["/home/me/bin".to_string(), "/usr/local/sbin/".to_string(), String::new()];
    let paths = rsync_candidates(&dirs);
    assert_eq!(
        paths,
        vec![
            "/home/me/bin/rsync",
            "/usr/local/sbin/rsync",
            "rsync",
            "/opt/homebrew/bin/rsync",
            "/usr/local/bin/rsync",
            "/usr/bin/rsync"
        ]
    );
    let probes: Vec<(String, Option<String>)> = paths
        .iter()
        .map(|p| {
            let out = if p == "/home/me/bin/rsync" || p == "/usr/bin/rsync" {
                Some("rsync  version 3.3.0  protocol version 31".to_string())
            } else {
                None
            };
            (p.clone(), out)
        })
        .collect();
    assert_eq!(rsync_binary(&probes), Some("/home/me/bin/rsync".to_string()));
    assert_eq!(join_path("/a", "b"), "/a/b");
}
