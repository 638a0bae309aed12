use tailsync::remote::{
    create_dir_outcome, mkdir_command, probe_command, probe_outcome, shell_escape, ssh_args,
    CommandOutput, PathProbeResult,
};

#[test]
fn shell_escape_handles_quotes() {
    assert_eq!(shell_escape("/a/b"), "'/a/b'");
    assert_eq!(shell_escape("/a's/b"), r"'/a'\''s/b'");
}

#[test]
fn shell_escape_of_empty_and_unicode() {
    assert_eq!(shell_escape(""), "''");
    assert_eq!(shell_escape("读书 笔记$x"), "'读书 笔记$x'");
    assert_eq!(shell_escape("''"), r"''\'''\'''");
}

#[test]
fn remote_commands_quote_the_path() {
    assert_eq!(probe_command("/a b"), "test -d '/a b' && echo OK || echo MISSING");
    assert_eq!(mkdir_command("/x's"), r"mkdir -p '/x'\''s'");
}

#[test]
fn ssh_argument_list() {
    let a = ssh_args("me", "mini", "ls");
    assert_eq!(
        a,
        vec![
            "-o",
            "BatchMode=yes",
            "-o",
            "StrictHostKeyChecking=accept-new",
            "-o",
            "ConnectTimeout=5",
            "me@mini",
            "ls"
        ]
    );
}

#[test]
fn probe_outcomes() {
    let ok = CommandOutput { success: true, stdout: "OK\n".into(), stderr: String::new() };
    assert_eq!(probe_outcome(Ok(ok)), PathProbeResult::Exists);
    let missing = CommandOutput { success: true, stdout: "MISSING\n".into(), stderr: String::new() };
    assert_eq!(probe_outcome(Ok(missing)), PathProbeResult::Missing);
    let failed = CommandOutput { success: false, stdout: String::new(), stderr: "denied".into() };
    assert_eq!(probe_outcome(Ok(failed)), PathProbeResult::SshFailed("denied".into()));
    assert_eq!(probe_outcome(Err("no ssh".into())), PathProbeResult::SshFailed("no ssh".into()));
}

#[test]
fn create_dir_outcomes() {
    let ok = CommandOutput { success: true, stdout: String::new(), stderr: String::new() };
    assert_eq!(create_dir_outcome(Ok(ok)), Ok(()));
    let bad = CommandOutput { success: false, stdout: String::new(), stderr: "ro".into() };
    assert_eq!(create_dir_outcome(Ok(bad)), Err("ro".to_string()));
    assert_eq!(create_dir_outcome(Err("spawn".into())), Err("spawn".to_string()));
}
