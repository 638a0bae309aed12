//! What the start-up check of the environment reports.
use vstd::prelude::*;
use crate::tailscale::TailnetDevice;

verus! {

/// Whether the tools the app needs are there and ready.
#[derive(Debug, PartialEq)]
pub struct EnvCheckResult {
    pub tailscale_installed: bool,
    pub tailscale_logged_in: bool,
    pub tailscale_ssh_enabled: bool,
    pub rsync_modern: bool,
    pub self_hostname: Option<String>,
    pub error_detail: Option<String>,
}

/// The text shown when no tailscale CLI was found.
pub open spec fn missing_cli_message() -> Seq<char> {
    "未找到 tailscale CLI（PATH 和常见安装位置都没有）"@
}

/// The report from what was found: whether a modern rsync is there, and
/// `None` when no tailscale CLI was found, otherwise what reading the
/// tailscale status gave (this machine, or why it failed). Logged in means
/// that this machine has both a host name and a tailnet address.
pub fn check_environment(rsync_modern: bool, status: Option<Result<TailnetDevice, String>>) -> (r:
    EnvCheckResult)
    ensures
        r.rsync_modern == rsync_modern,
        r.tailscale_installed == (status is Some),
        match status {
            None => {
                &&& !r.tailscale_logged_in
                &&& !r.tailscale_ssh_enabled
                &&& r.self_hostname is None
                &&& r.error_detail matches Some(m) && m@ == missing_cli_message()
            },
            Some(Ok(me)) => {
                &&& r.tailscale_logged_in == (me.hostname@.len() > 0 && me.tailscale_ip@.len()
                    > 0)
                &&& r.tailscale_ssh_enabled == me.ssh_enabled
                &&& r.self_hostname matches Some(h) && h@ == me.hostname@
                &&& r.error_detail is None
            },
            Some(Err(e)) => {
                &&& !r.tailscale_logged_in
                &&& !r.tailscale_ssh_enabled
                &&& r.self_hostname is None
                &&& r.error_detail matches Some(m) && m@ == e@
            },
        },
{
    match status {
        None => EnvCheckResult {
            tailscale_installed: false,
            tailscale_logged_in: false,
            tailscale_ssh_enabled: false,
            rsync_modern,
            self_hostname: None,
            error_detail: Some(String::from_str("未找到 tailscale CLI（PATH 和常见安装位置都没有）")),
        },
        Some(Ok(me)) => {
            let logged_in = me.hostname.as_str().unicode_len() > 0
                && me.tailscale_ip.as_str().unicode_len() > 0;
            EnvCheckResult {
                tailscale_installed: true,
                tailscale_logged_in: logged_in,
                tailscale_ssh_enabled: me.ssh_enabled,
                rsync_modern,
                self_hostname: Some(me.hostname),
                error_detail: None,
            }
        },
        Some(Err(e)) => EnvCheckResult {
            tailscale_installed: true,
            tailscale_logged_in: false,
            tailscale_ssh_enabled: false,
            rsync_modern,
            self_hostname: None,
            error_detail: Some(e),
        },
    }
}

} // verus!
