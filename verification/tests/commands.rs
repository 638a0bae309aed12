use tailsync::commands::{
    add_pair, add_pair_with_id, build_config_for, delete_pair, ensure_trailing_slash,
    excludes_file_name, find_pair, list_pairs, new_task_id, record_last_sync, sync_direction,
    update_pair, Direction,
};
use tailsync::env_check::check_environment;
use tailsync::errors::AppError;
use tailsync::pairs::{DirectoryPair, LastSync, SyncDirection, SyncStatus};
use tailsync::tailscale::TailnetDevice;

fn pair(id: &str, name: &str) -> DirectoryPair {
    DirectoryPair {
        id: id.to_string(),
        name: name.to_string(),
        local_path: "/Users/me/Documents/notes".to_string(),
        remote_host: "mac-mini".to_string(),
        remote_user: "me".to_string(),
        remote_path: "/Users/me/sync/notes".to_string(),
        excludes: vec!["*.tmp".to_string()],
        bandwidth_limit_kbps: Some(5000),
        mirror_mode: true,
        last_sync: None,
    }
}

fn is_uuid(s: &str) -> bool {
    s.len() == 36
        && s.chars().enumerate().all(|(i, c)| {
            if [8, 13, 18, 23].contains(&i) {
                c == '-'
            } else {
                c.is_ascii_digit() || ('a'..='f').contains(&c)
            }
        })
        && s.as_bytes()[14] == b'4'
        && b"89ab".contains(&s.as_bytes()[19])
}

#[test]
fn trailing_slash_added_once() {
    assert_eq!(ensure_trailing_slash("/a"), "/a/");
    assert_eq!(ensure_trailing_slash("/a/"), "/a/");
    assert_eq!(ensure_trailing_slash(""), "/");
}

#[test]
fn push_and_pull_configs_mirror() {
    let p = pair("x", "n");
    let push = build_config_for(&p, Direction::Push, true, "/tmp/e.txt".to_string());
    assert_eq!(push.source, "/Users/me/Documents/notes/");
    assert_eq!(push.destination, "me@mac-mini:/Users/me/sync/notes/");
    assert_eq!(push.excludes_file.as_deref(), Some("/tmp/e.txt"));
    assert_eq!(push.bandwidth_limit_kbps, Some(5000));
    assert!(push.mirror_mode && push.dry_run);
    assert_eq!(push.timeout_seconds, 300);
    let pull = build_config_for(&p, Direction::Pull, false, "/tmp/e.txt".to_string());
    assert_eq!(pull.source, push.destination);
    assert_eq!(pull.destination, push.source);
    assert!(!pull.dry_run);
}

#[test]
fn excludes_file_named_by_id() {
    assert_eq!(excludes_file_name("abc"), "tailsync-excludes-abc.txt");
}

#[test]
fn added_pair_without_id_gets_uuid() {
    let mut pairs = Vec::new();
    let stored = add_pair(&mut pairs, pair("", "a"));
    assert!(is_uuid(&stored.id));
    assert_eq!(pairs.len(), 1);
    assert_eq!(pairs[0], stored);
    let kept = add_pair(&mut pairs, pair("given", "b"));
    assert_eq!(kept.id, "given");
    assert!(is_uuid(&new_task_id()));
}

#[test]
fn add_with_id_uses_fresh_id_only_when_empty() {
    let mut pairs = Vec::new();
    let a = add_pair_with_id(&mut pairs, pair("", "a"), "fresh".to_string());
    assert_eq!(a.id, "fresh");
    let b = add_pair_with_id(&mut pairs, pair("own", "b"), "fresh2".to_string());
    assert_eq!(b.id, "own");
    assert_eq!(list_pairs(&pairs), vec![pair("fresh", "a"), pair("own", "b")]);
}

#[test]
fn find_after_add_update_delete() {
    let mut pairs = vec![pair("1", "one"), pair("2", "two")];
    assert_eq!(find_pair(&pairs, "2").unwrap().name, "two");
    assert_eq!(find_pair(&pairs, "9"), Err(AppError::NotFound("9".to_string())));
    let updated = update_pair(&mut pairs, pair("2", "deux")).unwrap();
    assert_eq!(updated.name, "deux");
    assert_eq!(find_pair(&pairs, "2").unwrap().name, "deux");
    assert_eq!(pairs.len(), 2);
    assert_eq!(
        update_pair(&mut pairs, pair("7", "x")),
        Err(AppError::NotFound("pair 7".to_string()))
    );
    assert_eq!(delete_pair(&mut pairs, "1"), Ok(()));
    assert!(find_pair(&pairs, "1").is_err());
    assert_eq!(delete_pair(&mut pairs, "1"), Err(AppError::NotFound("pair 1".to_string())));
    assert_eq!(pairs, vec![pair("2", "deux")]);
}

#[test]
fn delete_removes_every_pair_with_the_id() {
    let mut pairs = vec![pair("a", "1"), pair("b", "2"), pair("a", "3")];
    delete_pair(&mut pairs, "a").unwrap();
    assert_eq!(pairs, vec![pair("b", "2")]);
}

#[test]
fn last_sync_recorded_on_first_match() {
    let mut pairs = vec![pair("a", "1"), pair("a", "2")];
    let last = LastSync {
        direction: sync_direction(Direction::Pull),
        timestamp: 0,
        status: SyncStatus::Interrupted,
        message: String::new(),
    };
    record_last_sync(&mut pairs, "a", last.clone());
    assert_eq!(pairs[0].last_sync, Some(last.clone()));
    assert_eq!(pairs[1].last_sync, None);
    record_last_sync(&mut pairs, "zzz", last);
    assert_eq!(pairs[1].last_sync, None);
    assert_eq!(sync_direction(Direction::Push), SyncDirection::Push);
}

#[test]
fn error_messages() {
    assert_eq!(AppError::Io("x".into()).message(), "io: x");
    assert_eq!(AppError::Tailscale("x".into()).message(), "tailscale: x");
    assert_eq!(AppError::Ssh("x".into()).message(), "ssh: x");
    assert_eq!(AppError::Rsync("x".into()).message(), "rsync: x");
    assert_eq!(AppError::NotFound("x".into()).message(), "not found: x");
    assert_eq!(AppError::Invalid("x".into()).message(), "invalid: x");
}

fn me(host: &str, ip: &str, ssh: bool) -> TailnetDevice {
    TailnetDevice {
        hostname: host.into(),
        tailscale_ip: ip.into(),
        user: String::new(),
        os: String::new(),
        online: true,
        is_self: true,
        ssh_enabled: ssh,
    }
}

#[test]
fn environment_reports() {
    let none = check_environment(true, None);
    assert!(!none.tailscale_installed && !none.tailscale_logged_in && none.rsync_modern);
    assert_eq!(
        none.error_detail.as_deref(),
        Some("未找到 tailscale CLI（PATH 和常见安装位置都没有）")
    );
    let ok = check_environment(false, Some(Ok(me("mbp", "100.1.2.3", true))));
    assert!(ok.tailscale_installed && ok.tailscale_logged_in && ok.tailscale_ssh_enabled);
    assert_eq!(ok.self_hostname.as_deref(), Some("mbp"));
    assert!(!ok.rsync_modern && ok.error_detail.is_none());
    let out = check_environment(true, Some(Ok(me("mbp", "", false))));
    assert!(!out.tailscale_logged_in);
    let err = check_environment(true, Some(Err("boom".into())));
    assert!(err.tailscale_installed && !err.tailscale_logged_in);
    assert_eq!(err.error_detail.as_deref(), Some("boom"));
}
