//! The tailnet as `tailscale status --json` describes it.
use vstd::prelude::*;
use crate::text::{chars_of, contains_at, contains_seq, decimal, decimal_string};

verus! {

#[verifier::external_type_specification]
#[verifier::external_body]
pub struct ExJsonValue(serde_json::Value);

#[verifier::external_type_specification]
#[verifier::external_body]
pub struct ExJsonError(serde_json::Error);

/// A JSON document, holding what the status parser reads: numbers only as
/// `u64` (`None` for a negative or fractional number), objects as their
/// entries in the order the parser yields them.
#[derive(Debug)]
pub enum JsonValue {
    Null,
    Bool(bool),
    Number(Option<u64>),
    Str(String),
    Array(Vec<JsonValue>),
    Object(Vec<(String, JsonValue)>),
}

/// The document that `serde_json::from_str` reads from a text, when the
/// text is valid JSON.
pub uninterp spec fn json_document(text: Seq<char>) -> Option<JsonValue>;

/// Carries a `serde_json::Value` over into a `JsonValue`, variant by variant.
#[verifier::external_body]
fn json_value_from(v: serde_json::Value) -> JsonValue {
    match v {
        serde_json::Value::Null => JsonValue::Null,
        serde_json::Value::Bool(b) => JsonValue::Bool(b),
        serde_json::Value::Number(n) => JsonValue::Number(n.as_u64()),
        serde_json::Value::String(s) => JsonValue::Str(s),
        serde_json::Value::Array(a) => JsonValue::Array(a.into_iter().map(json_value_from).collect()),
        serde_json::Value::Object(m) => JsonValue::Object(
            m.into_iter().map(|(k, x)| (k, json_value_from(x))).collect(),
        ),
    }
}

/// `serde_json::from_str::<serde_json::Value>`. Claimed: it succeeds exactly
/// when the text is a JSON document, and then gives that document; the
/// result depends on the text alone.
#[verifier::external_body]
fn parse_json(text: &str) -> (r: Result<JsonValue, serde_json::Error>)
    ensures
        r is Ok <==> json_document(text@) is Some,
        r matches Ok(v) ==> json_document(text@) == Some(v),
{
    serde_json::from_str::<serde_json::Value>(text).map(json_value_from)
}

/// The value of the first entry named `key`.
pub open spec fn lookup(entries: Seq<(String, JsonValue)>, key: Seq<char>) -> JsonValue
    decreases entries.len(),
{
    if entries.len() == 0 {
        JsonValue::Null
    } else if entries[0].0@ == key {
        entries[0].1
    } else {
        lookup(entries.drop_first(), key)
    }
}

/// `value[key]`: the member named `key` of an object, `null` otherwise.
pub open spec fn json_get(v: JsonValue, key: Seq<char>) -> JsonValue {
    match v {
        JsonValue::Object(entries) => lookup(entries@, key),
        _ => JsonValue::Null,
    }
}

pub open spec fn json_as_str(v: JsonValue) -> Option<Seq<char>> {
    match v {
        JsonValue::Str(s) => Some(s@),
        _ => None,
    }
}

pub open spec fn json_as_array(v: JsonValue) -> Option<Seq<JsonValue>> {
    match v {
        JsonValue::Array(a) => Some(a@),
        _ => None,
    }
}

pub open spec fn json_as_u64(v: JsonValue) -> Option<u64> {
    match v {
        JsonValue::Number(n) => n,
        _ => None,
    }
}

pub open spec fn json_as_bool(v: JsonValue) -> Option<bool> {
    match v {
        JsonValue::Bool(b) => Some(b),
        _ => None,
    }
}

pub open spec fn str_or_empty(o: Option<Seq<char>>) -> Seq<char> {
    match o {
        Some(s) => s,
        None => seq![],
    }
}

/// A machine of the tailnet.
#[derive(Debug, PartialEq)]
pub struct TailnetDevice {
    pub hostname: String,
    pub tailscale_ip: String,
    pub user: String,
    pub os: String,
    pub online: bool,
    pub is_self: bool,
    pub ssh_enabled: bool,
}

/// A machine of the tailnet with its texts as characters.
pub struct DeviceView {
    pub hostname: Seq<char>,
    pub tailscale_ip: Seq<char>,
    pub user: Seq<char>,
    pub os: Seq<char>,
    pub online: bool,
    pub is_self: bool,
    pub ssh_enabled: bool,
}

impl Clone for TailnetDevice {
    fn clone(&self) -> (r: Self)
        ensures
            r@ == self@,
    {
        TailnetDevice {
            hostname: self.hostname.clone(),
            tailscale_ip: self.tailscale_ip.clone(),
            user: self.user.clone(),
            os: self.os.clone(),
            online: self.online,
            is_self: self.is_self,
            ssh_enabled: self.ssh_enabled,
        }
    }
}

impl View for TailnetDevice {
    type V = DeviceView;

    open spec fn view(&self) -> DeviceView {
        DeviceView {
            hostname: self.hostname@,
            tailscale_ip: self.tailscale_ip@,
            user: self.user@,
            os: self.os@,
            online: self.online,
            is_self: self.is_self,
            ssh_enabled: self.ssh_enabled,
        }
    }
}

/// Whether the element is a string that mentions `/ssh`.
pub open spec fn is_ssh_capability(c: JsonValue) -> bool {
    contains_seq(str_or_empty(json_as_str(c)), "/ssh"@)
}

/// Whether some element is a string that mentions `/ssh`.
pub open spec fn any_ssh_capability(caps: Seq<JsonValue>) -> bool {
    exists|i: int| 0 <= i < caps.len() && is_ssh_capability(#[trigger] caps[i])
}

/// Whether a node accepts Tailscale SSH: it lists host keys, or, in
/// versions without `sshHostKeys`, one of its capabilities mentions `/ssh`.
pub open spec fn ssh_spec(v: JsonValue) -> bool {
    match json_as_array(json_get(v, "sshHostKeys"@)) {
        Some(keys) => keys.len() > 0,
        None => match json_as_array(json_get(v, "Capabilities"@)) {
            Some(caps) => any_ssh_capability(caps),
            None => false,
        },
    }
}

/// The device that a node of the status describes; absent or mistyped
/// fields read as empty text, `false`, or no user.
pub open spec fn device_spec(v: JsonValue, is_self: bool) -> DeviceView {
    DeviceView {
        hostname: str_or_empty(json_as_str(json_get(v, "HostName"@))),
        tailscale_ip: match json_as_array(json_get(v, "TailscaleIPs"@)) {
            Some(a) => if a.len() > 0 {
                str_or_empty(json_as_str(a[0]))
            } else {
                seq![]
            },
            None => seq![],
        },
        user: match json_as_u64(json_get(v, "UserID"@)) {
            Some(n) => decimal(n as nat),
            None => seq![],
        },
        os: str_or_empty(json_as_str(json_get(v, "OS"@))),
        online: match json_as_bool(json_get(v, "Online"@)) {
            Some(b) => b,
            None => false,
        },
        is_self,
        ssh_enabled: ssh_spec(v),
    }
}

/// Law: a device takes its fields from its node: the host name and the OS
/// when they are text, the first listed address when that is text, the
/// online flag when it is a boolean, and empty text or `false` when a field
/// is missing.
pub proof fn lemma_device_reads_node(v: JsonValue, is_self: bool)
    ensures
        json_as_str(json_get(v, "HostName"@)) is Some ==> device_spec(v, is_self).hostname
            == json_as_str(json_get(v, "HostName"@))->0,
        json_as_str(json_get(v, "OS"@)) is Some ==> device_spec(v, is_self).os == json_as_str(
            json_get(v, "OS"@),
        )->0,
        forall|a: Seq<JsonValue>|
            json_as_array(json_get(v, "TailscaleIPs"@)) == Some(a) && a.len() > 0 && (
            #[trigger] json_as_str(a[0])) is Some ==> device_spec(v, is_self).tailscale_ip
                == json_as_str(a[0])->0,
        json_get(v, "TailscaleIPs"@) == JsonValue::Null ==> device_spec(v, is_self).tailscale_ip
            == Seq::<char>::empty(),
        json_get(v, "HostName"@) == JsonValue::Null ==> device_spec(v, is_self).hostname
            == Seq::<char>::empty(),
        json_as_bool(json_get(v, "Online"@)) is Some ==> device_spec(v, is_self).online
            == json_as_bool(json_get(v, "Online"@))->0,
        json_get(v, "Online"@) == JsonValue::Null ==> !device_spec(v, is_self).online,
        device_spec(v, is_self).is_self == is_self,
        json_as_u64(json_get(v, "UserID"@)) is Some ==> device_spec(v, is_self).user == decimal(
            json_as_u64(json_get(v, "UserID"@))->0 as nat,
        ),
        json_get(v, "UserID"@) == JsonValue::Null ==> device_spec(v, is_self).user
            == Seq::<char>::empty(),
        json_as_array(json_get(v, "sshHostKeys"@)) is Some ==> (device_spec(v, is_self).ssh_enabled
            <==> json_as_array(json_get(v, "sshHostKeys"@))->0.len() > 0),
        json_get(v, "sshHostKeys"@) == JsonValue::Null && json_get(v, "Capabilities"@)
            == JsonValue::Null ==> !device_spec(v, is_self).ssh_enabled,
{
}

/// `value[key]`, `None` standing for `null`.
fn get_field<'a>(v: &'a JsonValue, key: &str) -> (r: Option<&'a JsonValue>)
    ensures
        json_get(*v, key@) == match r {
            Some(x) => *x,
            None => JsonValue::Null,
        },
{
    match v {
        JsonValue::Object(entries) => {
            let wanted = String::from_str(key);
            assert(entries@.skip(0) =~= entries@);
            let mut i: usize = 0;
            while i < entries.len()
                invariant
                    i <= entries@.len(),
                    wanted@ == key@,
                    json_get(*v, key@) == lookup(entries@, key@),
                    lookup(entries@, key@) == lookup(entries@.skip(i as int), key@),
                decreases entries@.len() - i,
            {
                assert(entries@.skip(i as int).drop_first() =~= entries@.skip(i + 1));
                assert(entries@.skip(i as int)[0] == entries@[i as int]);
                let entry = &entries[i];
                let name = &entry.0;
                let value = &entry.1;
                if *name == wanted {
                    return Some(value);
                }
                i = i + 1;
            }
            None
        },
        _ => None,
    }
}

fn text_of(v: Option<&JsonValue>) -> (r: String)
    ensures
        r@ == str_or_empty(json_as_str(
            match v {
                Some(x) => *x,
                None => JsonValue::Null,
            },
        )),
{
    match v {
        Some(JsonValue::Str(s)) => s.clone(),
        _ => String::new(),
    }
}

/// Whether some element of `caps` is a string that mentions `/ssh`.
fn has_ssh_capability(caps: &Vec<JsonValue>) -> (r: bool)
    ensures
        r == any_ssh_capability(caps@),
{
    let needle = chars_of("/ssh");
    let mut i: usize = 0;
    while i < caps.len()
        invariant
            i <= caps@.len(),
            needle@ == "/ssh"@,
            forall|k: int| 0 <= k < i ==> !is_ssh_capability(#[trigger] caps@[k]),
        decreases caps@.len() - i,
    {
        let t = text_of(Some(&caps[i]));
        let tv = chars_of(t.as_str());
        assert(tv@.subrange(0, tv@.len() as int) =~= tv@);
        if contains_at(&tv, 0, tv.len(), &needle) {
            return true;
        }
        i = i + 1;
    }
    false
}

/// The device that one node of `tailscale status --json` describes.
pub fn parse_device(v: &JsonValue, is_self: bool) -> (d: TailnetDevice)
    ensures
        d@ == device_spec(*v, is_self),
{
    let hostname = text_of(get_field(v, "HostName"));
    let tailscale_ip = match get_field(v, "TailscaleIPs") {
        Some(JsonValue::Array(a)) => if a.len() > 0 {
            text_of(Some(&a[0]))
        } else {
            String::new()
        },
        _ => String::new(),
    };
    let user = match get_field(v, "UserID") {
        Some(JsonValue::Number(Some(n))) => decimal_string(*n),
        _ => String::new(),
    };
    let os = text_of(get_field(v, "OS"));
    let online = match get_field(v, "Online") {
        Some(JsonValue::Bool(b)) => *b,
        _ => false,
    };
    let ssh_enabled = match get_field(v, "sshHostKeys") {
        Some(JsonValue::Array(keys)) => keys.len() > 0,
        _ => match get_field(v, "Capabilities") {
            Some(JsonValue::Array(caps)) => has_ssh_capability(caps),
            _ => false,
        },
    };
    TailnetDevice { hostname, tailscale_ip, user, os, online, is_self, ssh_enabled }
}


/// `a <= b` in the order of `str`: character by character, a proper prefix
/// first.
pub open spec fn host_le(a: Seq<char>, b: Seq<char>) -> bool
    decreases a.len(),
{
    if a.len() == 0 {
        true
    } else if b.len() == 0 {
        false
    } else if (a[0] as u32) != (b[0] as u32) {
        (a[0] as u32) < (b[0] as u32)
    } else {
        host_le(a.drop_first(), b.drop_first())
    }
}

pub proof fn lemma_host_le_total(a: Seq<char>, b: Seq<char>)
    ensures
        host_le(a, b) || host_le(b, a),
    decreases a.len(),
{
    if a.len() > 0 && b.len() > 0 && (a[0] as u32) == (b[0] as u32) {
        lemma_host_le_total(a.drop_first(), b.drop_first());
    }
}

pub proof fn lemma_host_le_transitive(a: Seq<char>, b: Seq<char>, c: Seq<char>)
    requires
        host_le(a, b),
        host_le(b, c),
    ensures
        host_le(a, c),
    decreases a.len(),
{
    if a.len() > 0 && b.len() > 0 && c.len() > 0 && (a[0] as u32) == (b[0] as u32) && (b[0] as u32)
        == (c[0] as u32) {
        lemma_host_le_transitive(a.drop_first(), b.drop_first(), c.drop_first());
    }
}

/// `x` put into `s` just after the last element whose host name is not
/// after `x`'s: the step of a stable insertion sort.
pub open spec fn insert_by_host(s: Seq<DeviceView>, x: DeviceView) -> Seq<DeviceView>
    decreases s.len(),
{
    if s.len() == 0 {
        seq![x]
    } else if host_le(s.last().hostname, x.hostname) {
        s.push(x)
    } else {
        insert_by_host(s.drop_last(), x).push(s.last())
    }
}

/// The devices ordered by host name; devices with equal names keep their
/// order (a stable sort, as `sort_by` is).
pub open spec fn sort_by_host(s: Seq<DeviceView>) -> Seq<DeviceView>
    decreases s.len(),
{
    if s.len() == 0 {
        seq![]
    } else {
        insert_by_host(sort_by_host(s.drop_last()), s.last())
    }
}

/// Where `insert_by_host` puts `x`.
pub open spec fn insert_pos(s: Seq<DeviceView>, x: DeviceView) -> int
    decreases s.len(),
{
    if s.len() == 0 {
        0
    } else if host_le(s.last().hostname, x.hostname) {
        s.len() as int
    } else {
        insert_pos(s.drop_last(), x)
    }
}

pub proof fn lemma_insert_pos(s: Seq<DeviceView>, x: DeviceView)
    ensures
        0 <= insert_pos(s, x) <= s.len(),
        insert_by_host(s, x) == s.insert(insert_pos(s, x), x),
        insert_pos(s, x) > 0 ==> host_le(s[insert_pos(s, x) - 1].hostname, x.hostname),
        forall|k: int|
            insert_pos(s, x) <= k < s.len() ==> !host_le(#[trigger] s[k].hostname, x.hostname),
    decreases s.len(),
{
    if s.len() == 0 {
        assert(s.insert(0, x) =~= seq![x]);
    } else if host_le(s.last().hostname, x.hostname) {
        assert(s.insert(s.len() as int, x) =~= s.push(x));
    } else {
        lemma_insert_pos(s.drop_last(), x);
        let j = insert_pos(s.drop_last(), x);
        assert(s.drop_last().insert(j, x).push(s.last()) =~= s.insert(j, x));
        assert forall|k: int| j <= k < s.len() implies !host_le(
            #[trigger] s[k].hostname,
            x.hostname,
        ) by {
            if k < s.len() - 1 {
                assert(s[k] == s.drop_last()[k]);
            }
        }
    }
}

/// The host names are in order.
pub open spec fn sorted_by_host(s: Seq<DeviceView>) -> bool {
    forall|i: int, j: int| 0 <= i < j < s.len() ==> host_le(s[i].hostname, s[j].hostname)
}

/// Inserting into a sorted list by host name keeps it sorted.
proof fn lemma_insert_keeps_order(s: Seq<DeviceView>, x: DeviceView)
    requires
        sorted_by_host(s),
    ensures
        sorted_by_host(insert_by_host(s, x)),
{
    lemma_insert_pos(s, x);
    let j = insert_pos(s, x);
    let r = s.insert(j, x);
    s.insert_ensures(j, x);
    assert forall|a: int, b: int| 0 <= a < b < r.len() implies host_le(
        r[a].hostname,
        r[b].hostname,
    ) by {
        lemma_inserted_pair_in_order(s, x, j, a, b);
    }
}

/// One pair of positions of the list with `x` inserted at `j` is in order.
proof fn lemma_inserted_pair_in_order(s: Seq<DeviceView>, x: DeviceView, j: int, a: int, b: int)
    requires
        sorted_by_host(s),
        0 <= j <= s.len(),
        j > 0 ==> host_le(s[j - 1].hostname, x.hostname),
        forall|k: int| j <= k < s.len() ==> !host_le(#[trigger] s[k].hostname, x.hostname),
        0 <= a < b < s.len() + 1,
    ensures
        host_le(s.insert(j, x)[a].hostname, s.insert(j, x)[b].hostname),
{
    let r = s.insert(j, x);
    s.insert_ensures(j, x);
    if b < j {
        assert(r[a] == s[a] && r[b] == s[b]);
    } else if b == j {
        assert(r[a] == s[a]);
        if a < j - 1 {
            lemma_host_le_transitive(s[a].hostname, s[j - 1].hostname, x.hostname);
        }
    } else if a == j {
        assert(r[b] == s[b - 1]);
        lemma_host_le_total(s[b - 1].hostname, x.hostname);
    } else if a < j {
        assert(r[a] == s[a] && r[b] == s[b - 1]);
    } else {
        assert(r[a] == s[a - 1] && r[b] == s[b - 1]);
    }
}

proof fn lemma_insert_sorted(s: Seq<DeviceView>, x: DeviceView)
    requires
        sorted_by_host(s),
    ensures
        sorted_by_host(insert_by_host(s, x)),
        insert_by_host(s, x).to_multiset() == s.to_multiset().insert(x),
{
    lemma_insert_keeps_order(s, x);
    lemma_insert_pos(s, x);
    vstd::seq_lib::to_multiset_insert(s, insert_pos(s, x), x);
}

/// Law: sorting yields the same devices, each as often as before, in host
/// name order.
pub proof fn lemma_sort_by_host(s: Seq<DeviceView>)
    ensures
        sorted_by_host(sort_by_host(s)),
        sort_by_host(s).to_multiset() == s.to_multiset(),
    decreases s.len(),
{
    if s.len() == 0 {
        assert(s =~= Seq::<DeviceView>::empty());
    } else {
        lemma_sort_by_host(s.drop_last());
        lemma_insert_sorted(sort_by_host(s.drop_last()), s.last());
        assert(s.drop_last().push(s.last()) =~= s);
        vstd::seq_lib::to_multiset_build(s.drop_last(), s.last());
    }
}


/// The devices of a list, each as its view.
pub open spec fn devices_view(s: Seq<TailnetDevice>) -> Seq<DeviceView> {
    s.map_values(|d: TailnetDevice| d@)
}

/// Whether `a` comes no later than `b` in the order of `str`.
fn host_le_exec(a: &String, b: &String) -> (r: bool)
    ensures
        r == host_le(a@, b@),
{
    let av = chars_of(a.as_str());
    let bv = chars_of(b.as_str());
    let mut i: usize = 0;
    assert(av@.skip(0) =~= av@);
    assert(bv@.skip(0) =~= bv@);
    while i < av.len() && i < bv.len() && (av[i] as u32) == (bv[i] as u32)
        invariant
            i <= av@.len(),
            i <= bv@.len(),
            av@ == a@,
            bv@ == b@,
            host_le(a@, b@) == host_le(av@.skip(i as int), bv@.skip(i as int)),
        decreases av@.len() - i,
    {
        assert(av@.skip(i as int).drop_first() =~= av@.skip(i + 1));
        assert(bv@.skip(i as int).drop_first() =~= bv@.skip(i + 1));
        i = i + 1;
    }
    if i == av.len() {
        true
    } else if i == bv.len() {
        false
    } else {
        assert(av@.skip(i as int)[0] == av@[i as int]);
        assert(bv@.skip(i as int)[0] == bv@[i as int]);
        (av[i] as u32) < (bv[i] as u32)
    }
}

proof fn lemma_insert_at(s: Seq<DeviceView>, x: DeviceView, j: int)
    requires
        0 <= j <= s.len(),
        j > 0 ==> host_le(s[j - 1].hostname, x.hostname),
        forall|k: int| j <= k < s.len() ==> !host_le(#[trigger] s[k].hostname, x.hostname),
    ensures
        insert_by_host(s, x) == s.insert(j, x),
{
    lemma_insert_pos(s, x);
    let p = insert_pos(s, x);
    if j < p {
        assert(!host_le(s[p - 1].hostname, x.hostname));
    }
    if p < j {
        assert(!host_le(s[j - 1].hostname, x.hostname));
    }
}

/// The devices ordered by host name, devices with equal names kept in
/// their order.
pub fn sort_devices(devs: &Vec<TailnetDevice>) -> (r: Vec<TailnetDevice>)
    ensures
        devices_view(r@) == sort_by_host(devices_view(devs@)),
{
    let mut out: Vec<TailnetDevice> = Vec::new();
    let mut i: usize = 0;
    assert(devices_view(devs@).take(0) =~= Seq::<DeviceView>::empty());
    assert(devices_view(out@) =~= Seq::<DeviceView>::empty());
    while i < devs.len()
        invariant
            i <= devs@.len(),
            devices_view(out@) == sort_by_host(devices_view(devs@).take(i as int)),
        decreases devs@.len() - i,
    {
        let d = devs[i].clone();
        let mut j = out.len();
        while j > 0 && !host_le_exec(&out[j - 1].hostname, &d.hostname)
            invariant
                j <= out@.len(),
                forall|k: int| j <= k < out@.len() ==> !host_le(#[trigger] out@[k].hostname@, d.hostname@),
            decreases j,
        {
            j = j - 1;
        }
        let ghost before = devices_view(out@);
        proof {
            assert forall|k: int| j <= k < before.len() implies !host_le(
                #[trigger] before[k].hostname,
                d@.hostname,
            ) by {
                assert(before[k] == out@[k]@);
            }
            if j > 0 {
                assert(before[j - 1] == out@[j - 1]@);
            }
            lemma_insert_at(before, d@, j as int);
            let t = devices_view(devs@).take(i + 1);
            assert(t.drop_last() =~= devices_view(devs@).take(i as int));
            assert(t.last() == d@);
        }
        out.insert(j, d);
        assert(devices_view(out@) =~= before.insert(j as int, d@));
        i = i + 1;
    }
    assert(devices_view(devs@).take(i as int) =~= devices_view(devs@));
    out
}

/// The devices that the `Peer` member describes, in the order of its entries.
pub open spec fn peer_devices(peer: JsonValue) -> Seq<DeviceView> {
    match peer {
        JsonValue::Object(entries) => entries@.map_values(
            |p: (String, JsonValue)| device_spec(p.1, false),
        ),
        _ => seq![],
    }
}

/// This machine, and the other machines ordered by host name.
pub open spec fn status_spec(doc: JsonValue) -> (DeviceView, Seq<DeviceView>) {
    (
        device_spec(json_get(doc, "Self"@), true),
        sort_by_host(peer_devices(json_get(doc, "Peer"@))),
    )
}

/// This machine and its peers, sorted by host name for a stable order in
/// the user interface, from a parsed `tailscale status --json`.
pub fn status_from_json(doc: &JsonValue) -> (r: (TailnetDevice, Vec<TailnetDevice>))
    ensures
        (r.0@, devices_view(r.1@)) == status_spec(*doc),
{
    let me = match get_field(doc, "Self") {
        Some(v) => parse_device(v, true),
        None => parse_device(&JsonValue::Null, true),
    };
    let mut peers: Vec<TailnetDevice> = Vec::new();
    let ghost want = peer_devices(json_get(*doc, "Peer"@));
    match get_field(doc, "Peer") {
        Some(JsonValue::Object(entries)) => {
            let mut i: usize = 0;
            while i < entries.len()
                invariant
                    i <= entries@.len(),
                    peers@.len() == i,
                    want == entries@.map_values(|p: (String, JsonValue)| device_spec(p.1, false)),
                    devices_view(peers@) == want.take(i as int),
                decreases entries@.len() - i,
            {
                let d = parse_device(&entries[i].1, false);
                assert(want[i as int] == device_spec(entries@[i as int].1, false));
                let ghost prev = peers@;
                peers.push(d);
                assert(peers@ == prev.push(d));
                assert forall|k: int| 0 <= k < i + 1 implies devices_view(peers@)[k] == want.take(
                    i + 1,
                )[k] by {
                    assert(devices_view(peers@)[k] == peers@[k]@);
                    if k < i {
                        assert(peers@[k] == prev[k]);
                        assert(devices_view(prev)[k] == prev[k]@);
                        assert(devices_view(prev)[k] == want.take(i as int)[k]);
                    } else {
                        assert(peers@[k] == d);
                    }
                }
                assert(devices_view(peers@) =~= want.take(i + 1));
                i = i + 1;
            }
            assert(want.take(i as int) =~= want);
        },
        _ => {
            assert(devices_view(peers@) =~= want);
        },
    }
    let sorted = sort_devices(&peers);
    (me, sorted)
}

/// Parse the JSON output of `tailscale status --json`.
/// Returns (self_device, peers).
pub fn parse_tailscale_status(json_str: &str) -> (r: Result<
    (TailnetDevice, Vec<TailnetDevice>),
    serde_json::Error,
>)
    ensures
        r is Ok <==> json_document(json_str@) is Some,
        r matches Ok(x) ==> (x.0@, devices_view(x.1@)) == status_spec(
            json_document(json_str@)->0,
        ),
{
    match parse_json(json_str) {
        Ok(doc) => Ok(status_from_json(&doc)),
        Err(e) => Err(e),
    }
}

} // verus!
