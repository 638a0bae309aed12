use tailsync::commands::tailnet_device_list;
use tailsync::tailscale::{parse_tailscale_status, sort_devices, TailnetDevice};

fn fixture() -> &'static str {
    r#"{
      "Self": {
        "HostName": "macbook-pro-2",
        "TailscaleIPs": ["100.127.149.33"],
        "UserID": 1234,
        "OS": "macOS",
        "Online": true,
        "sshHostKeys": ["ssh-ed25519 AAAA..."]
      },
      "Peer": {
        "n1": {
          "HostName": "wuhoujins-mac-mini",
          "TailscaleIPs": ["100.72.185.45"],
          "UserID": 1234,
          "OS": "macOS",
          "Online": true,
          "sshHostKeys": ["ssh-ed25519 BBBB..."]
        },
        "n2": {
          "HostName": "old-laptop",
          "TailscaleIPs": ["100.99.99.99"],
          "UserID": 1234,
          "OS": "linux",
          "Online": false,
          "sshHostKeys": []
        }
      }
    }"#
}

#[test]
fn parses_self_and_peers() {
    let (me, peers) = parse_tailscale_status(fixture()).unwrap();
    assert_eq!(me.hostname, "macbook-pro-2");
    assert!(me.is_self);
    assert!(me.ssh_enabled);
    assert_eq!(peers.len(), 2);
}

#[test]
fn peers_sorted_by_hostname() {
    let (_, peers) = parse_tailscale_status(fixture()).unwrap();
    assert_eq!(peers[0].hostname, "old-laptop");
    assert_eq!(peers[1].hostname, "wuhoujins-mac-mini");
}

#[test]
fn ssh_disabled_when_no_keys() {
    let (_, peers) = parse_tailscale_status(fixture()).unwrap();
    let off = peers.iter().find(|p| p.hostname == "old-laptop").unwrap();
    assert!(!off.ssh_enabled);
}

#[test]
fn self_device_fields() {
    let (me, _) = parse_tailscale_status(fixture()).unwrap();
    assert_eq!(
        me,
        TailnetDevice {
            hostname: "macbook-pro-2".into(),
            tailscale_ip: "100.127.149.33".into(),
            user: "1234".into(),
            os: "macOS".into(),
            online: true,
            is_self: true,
            ssh_enabled: true,
        }
    );
}

#[test]
fn missing_fields_read_as_empty() {
    let (me, peers) = parse_tailscale_status(r#"{"Self": {"UserID": -3, "Online": "yes"}, "Peer": null}"#).unwrap();
    assert_eq!(me.hostname, "");
    assert_eq!(me.tailscale_ip, "");
    assert_eq!(me.user, "");
    assert!(!me.online);
    assert!(!me.ssh_enabled);
    assert!(peers.is_empty());
}

#[test]
fn capabilities_enable_ssh() {
    let (me, _) = parse_tailscale_status(
        r#"{"Self": {"Capabilities": [1, "https://tailscale.com/cap/ssh"]}}"#,
    )
    .unwrap();
    assert!(me.ssh_enabled);
    let (other, _) = parse_tailscale_status(r#"{"Self": {"Capabilities": ["https://x/cap/file"]}}"#).unwrap();
    assert!(!other.ssh_enabled);
}

#[test]
fn invalid_json_is_an_error() {
    assert!(parse_tailscale_status("{not json").is_err());
    assert!(parse_tailscale_status("").is_err());
}

fn dev(name: &str, os: &str) -> TailnetDevice {
    TailnetDevice {
        hostname: name.into(),
        tailscale_ip: String::new(),
        user: String::new(),
        os: os.into(),
        online: false,
        is_self: false,
        ssh_enabled: false,
    }
}

#[test]
fn sort_is_stable_and_ordered() {
    let devs = vec![dev("b", "1"), dev("a", "1"), dev("b", "2"), dev("B", "1"), dev("a", "2")];
    let sorted = sort_devices(&devs);
    let got: Vec<(String, String)> = sorted.iter().map(|d| (d.hostname.clone(), d.os.clone())).collect();
    let want: Vec<(String, String)> = [("B", "1"), ("a", "1"), ("a", "2"), ("b", "1"), ("b", "2")]
        .iter()
        .map(|(a, b)| (a.to_string(), b.to_string()))
        .collect();
    assert_eq!(got, want);
}

#[test]
fn device_list_puts_self_first() {
    let list = tailnet_device_list(dev("me", ""), vec![dev("a", ""), dev("b", "")]);
    let names: Vec<&str> = list.iter().map(|d| d.hostname.as_str()).collect();
    assert_eq!(names, vec!["me", "a", "b"]);
}
