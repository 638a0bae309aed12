//! The operations behind the user interface's commands: the list of pairs,
//! the rsync configuration of a sync, and the record of a finished sync.
use vstd::prelude::*;
use crate::errors::AppError;
use crate::pairs::{
    find_index, has_id, lemma_find_index, pairs_view, without_id, DirectoryPair, LastSync,
    PairView, SyncDirection,
};
use crate::rsync::{ConfigView, RsyncConfig};
use crate::tailscale::TailnetDevice;
use crate::text::{chars_of, push_char};

verus! {

/// Which way to sync: push the local directory to the remote one, or pull
/// the remote directory into the local one.
#[derive(Debug, Clone, Copy, PartialEq, Eq, Structural)]
pub enum Direction {
    Push,
    Pull,
}

/// A request to preview or run a sync of one pair.
#[derive(Debug, Clone, PartialEq)]
pub struct SyncRequest {
    pub pair_id: String,
    pub direction: Direction,
}

/// The direction as the record of the last sync names it.
pub fn sync_direction(d: Direction) -> (r: SyncDirection)
    ensures
        r == (match d {
            Direction::Push => SyncDirection::Push,
            Direction::Pull => SyncDirection::Pull,
        }),
{
    match d {
        Direction::Push => SyncDirection::Push,
        Direction::Pull => SyncDirection::Pull,
    }
}

/// A path with a `/` at its end: rsync then syncs the directory's contents.
pub open spec fn with_slash(p: Seq<char>) -> Seq<char> {
    if p.len() > 0 && p.last() == '/' {
        p
    } else {
        p.push('/')
    }
}

/// Appends a `/` to a path that does not already end with one.
pub fn ensure_trailing_slash(p: &str) -> (r: String)
    ensures
        r@ == with_slash(p@),
{
    let v = chars_of(p);
    let mut r = String::from_str(p);
    if v.len() > 0 && v[v.len() - 1] == '/' {
        r
    } else {
        push_char(&mut r, '/');
        r
    }
}

/// The pair's local directory as rsync is given it.
pub open spec fn local_endpoint(pair: PairView) -> Seq<char> {
    with_slash(pair.local_path)
}

/// The pair's remote directory as rsync is given it: `user@host:path/`.
pub open spec fn remote_endpoint(pair: PairView) -> Seq<char> {
    pair.remote_user + "@"@ + pair.remote_host + ":"@ + with_slash(pair.remote_path)
}

/// The rsync configuration of a sync of `pair` in direction `dir`, reading
/// its excludes from `excludes_file`: a push copies the local directory to
/// the remote one, a pull the other way; the pair's limit and mirror mode
/// apply, and the timeout is 300 seconds.
pub open spec fn config_spec(pair: PairView, dir: Direction, dry_run: bool, excludes_file: Seq<
    char,
>) -> ConfigView {
    let (source, destination) = match dir {
        Direction::Push => (local_endpoint(pair), remote_endpoint(pair)),
        Direction::Pull => (remote_endpoint(pair), local_endpoint(pair)),
    };
    ConfigView {
        source,
        destination,
        excludes_file: Some(excludes_file),
        bandwidth_limit_kbps: pair.bandwidth_limit_kbps,
        mirror_mode: pair.mirror_mode,
        dry_run,
        timeout_seconds: 300,
    }
}

/// The rsync configuration of a sync of `pair` in direction `dir`, with the
/// merged excludes already written to `excludes_file`.
pub fn build_config_for(pair: &DirectoryPair, dir: Direction, dry_run: bool, excludes_file: String) -> (r:
    RsyncConfig)
    ensures
        r@ == config_spec(pair@, dir, dry_run, excludes_file@),
{
    let local = ensure_trailing_slash(pair.local_path.as_str());
    let mut remote = pair.remote_user.clone();
    remote.append("@");
    remote.append(pair.remote_host.as_str());
    remote.append(":");
    let remote_path = ensure_trailing_slash(pair.remote_path.as_str());
    remote.append(remote_path.as_str());
    let (source, destination) = match dir {
        Direction::Push => (local, remote),
        Direction::Pull => (remote, local),
    };
    RsyncConfig {
        source,
        destination,
        excludes_file: Some(excludes_file),
        bandwidth_limit_kbps: pair.bandwidth_limit_kbps,
        mirror_mode: pair.mirror_mode,
        dry_run,
        timeout_seconds: 300,
    }
}

/// Law: a pull is the mirror image of a push: the same configuration with
/// source and destination swapped.
pub proof fn lemma_pull_mirrors_push(pair: PairView, dry_run: bool, excludes_file: Seq<char>)
    ensures
        config_spec(pair, Direction::Pull, dry_run, excludes_file) == (ConfigView {
            source: config_spec(pair, Direction::Push, dry_run, excludes_file).destination,
            destination: config_spec(pair, Direction::Push, dry_run, excludes_file).source,
            ..config_spec(pair, Direction::Push, dry_run, excludes_file)
        }),
{
}

/// A path as rsync is given it: it ends with `/`, and it is the path itself
/// when that already ends with `/`, otherwise the path with one `/` added.
pub open spec fn is_dir_form(given: Seq<char>, path: Seq<char>) -> bool {
    &&& given.len() > 0
    &&& given.last() == '/'
    &&& if path.len() > 0 && path.last() == '/' {
        given == path
    } else {
        given == path.push('/')
    }
}

/// Law: a push copies the contents of the local directory (its path with a
/// trailing `/`) to `user@host:` and the remote path with a trailing `/`; a
/// pull goes the other way; the pair's settings and the flag pass through.
pub proof fn lemma_endpoints_are_directories(
    pair: PairView,
    dir: Direction,
    dry_run: bool,
    excludes_file: Seq<char>,
)
    ensures
        ({
            let c = config_spec(pair, dir, dry_run, excludes_file);
            let (local, remote) = match dir {
                Direction::Push => (c.source, c.destination),
                Direction::Pull => (c.destination, c.source),
            };
            let prefix = pair.remote_user + "@"@ + pair.remote_host + ":"@;
            &&& is_dir_form(local, pair.local_path)
            &&& remote.len() > prefix.len()
            &&& remote.take(prefix.len() as int) == prefix
            &&& is_dir_form(remote.skip(prefix.len() as int), pair.remote_path)
            &&& c.excludes_file == Some(excludes_file)
            &&& c.bandwidth_limit_kbps == pair.bandwidth_limit_kbps
            &&& c.mirror_mode == pair.mirror_mode
            &&& c.dry_run == dry_run
            &&& c.timeout_seconds == 300
        }),
{
    let prefix = pair.remote_user + "@"@ + pair.remote_host + ":"@;
    let q = with_slash(pair.remote_path);
    assert((prefix + q).take(prefix.len() as int) =~= prefix);
    assert((prefix + q).skip(prefix.len() as int) =~= q);
}

/// The name of the temporary file that holds one sync's excludes.
pub fn excludes_file_name(id: &str) -> (r: String)
    ensures
        r@ == "tailsync-excludes-"@ + id@ + ".txt"@,
{
    let mut r = String::from_str("tailsync-excludes-");
    r.append(id);
    r.append(".txt");
    r
}


/// A lowercase hexadecimal digit.
pub open spec fn is_lower_hex(c: char) -> bool {
    (48 <= (c as u32) <= 57) || (97 <= (c as u32) <= 102)
}

/// The text form of a random (version 4) UUID: 36 characters, hyphens at
/// positions 8, 13, 18 and 23, lowercase hexadecimal digits elsewhere, the
/// version digit `4` at position 14 and a variant digit `8`, `9`, `a` or `b`
/// at position 19.
pub open spec fn is_uuid_text(s: Seq<char>) -> bool {
    &&& s.len() == 36
    &&& forall|i: int|
        0 <= i < 36 ==> if i == 8 || i == 13 || i == 18 || i == 23 {
            #[trigger] s[i] == '-'
        } else {
            is_lower_hex(s[i])
        }
    &&& s[14] == '4'
    &&& (s[19] == '8' || s[19] == '9' || s[19] == 'a' || s[19] == 'b')
}

/// `uuid::Uuid::new_v4().to_string()`. Claimed: the result is a UUID in its
/// hyphenated lowercase form, as `Display` for `Uuid` writes it, with the
/// version and variant bits that `new_v4` sets. Which UUID
/// comes back is random and is not stated.
#[verifier::external_body]
fn uuid_v4_text() -> (r: String)
    ensures
        is_uuid_text(r@),
{
    uuid::Uuid::new_v4().to_string()
}

/// A fresh random identifier for a sync task.
pub fn new_task_id() -> (r: String)
    ensures
        is_uuid_text(r@),
{
    uuid_v4_text()
}

/// The pair as stored: with `fresh_id` in place of an empty id.
pub open spec fn with_fresh_id(pair: PairView, fresh_id: Seq<char>) -> PairView {
    if pair.id.len() == 0 {
        PairView { id: fresh_id, ..pair }
    } else {
        pair
    }
}

/// A copy of the list of pairs.
pub fn list_pairs(pairs: &Vec<DirectoryPair>) -> (r: Vec<DirectoryPair>)
    ensures
        pairs_view(r@) == pairs_view(pairs@),
{
    let mut r: Vec<DirectoryPair> = Vec::new();
    let mut i: usize = 0;
    while i < pairs.len()
        invariant
            i <= pairs@.len(),
            r@.len() == i,
            pairs_view(r@) == pairs_view(pairs@).take(i as int),
        decreases pairs@.len() - i,
    {
        let ghost prev = r@;
        r.push(pairs[i].clone());
        assert forall|k: int| 0 <= k < i + 1 implies pairs_view(r@)[k] == pairs_view(pairs@).take(
            i + 1,
        )[k] by {
            assert(pairs_view(r@)[k] == r@[k]@);
            if k < i {
                assert(r@[k] == prev[k]);
                assert(pairs_view(prev)[k] == prev[k]@);
            }
        }
        assert(pairs_view(r@) =~= pairs_view(pairs@).take(i + 1));
        i = i + 1;
    }
    assert(pairs_view(pairs@).take(i as int) =~= pairs_view(pairs@));
    r
}

proof fn lemma_push_view(s: Seq<DirectoryPair>, p: DirectoryPair)
    ensures
        pairs_view(s.push(p)) == pairs_view(s).push(p@),
{
    assert(pairs_view(s.push(p)) =~= pairs_view(s).push(p@));
}

/// Adds a pair at the end of the list; a pair without an id gets
/// `fresh_id` as its id. Returns the pair as stored.
pub fn add_pair_with_id(pairs: &mut Vec<DirectoryPair>, pair: DirectoryPair, fresh_id: String) -> (r:
    DirectoryPair)
    ensures
        r@ == with_fresh_id(pair@, fresh_id@),
        pairs_view(final(pairs)@) == pairs_view(old(pairs)@).push(r@),
{
    let mut pair = pair;
    if pair.id.as_str().is_empty() {
        pair.id = fresh_id;
    }
    proof {
        lemma_push_view(pairs@, pair);
    }
    pairs.push(pair.clone());
    proof {
        lemma_push_view(old(pairs)@, pair);
    }
    assert(pairs_view(pairs@) =~= pairs_view(old(pairs)@).push(pair@)) by {
        assert forall|k: int| 0 <= k < pairs@.len() implies pairs_view(pairs@)[k] == pairs_view(
            old(pairs)@,
        ).push(pair@)[k] by {
            assert(pairs_view(pairs@)[k] == pairs@[k]@);
            if k < old(pairs)@.len() {
                assert(pairs@[k] == old(pairs)@[k]);
                assert(pairs_view(old(pairs)@)[k] == old(pairs)@[k]@);
            }
        }
    }
    pair
}

/// Adds a pair at the end of the list, giving it a fresh random id when it
/// has none. Returns the pair as stored.
pub fn add_pair(pairs: &mut Vec<DirectoryPair>, pair: DirectoryPair) -> (r: DirectoryPair)
    ensures
        pair@.id.len() > 0 ==> r@ == pair@,
        pair@.id.len() == 0 ==> is_uuid_text(r@.id) && r@ == (PairView { id: r@.id, ..pair@ }),
        pairs_view(final(pairs)@) == pairs_view(old(pairs)@).push(r@),
{
    if pair.id.as_str().is_empty() {
        let id = uuid_v4_text();
        add_pair_with_id(pairs, pair, id)
    } else {
        add_pair_with_id(pairs, pair, String::new())
    }
}

/// The error for a pair that is not in the list.
pub open spec fn pair_not_found(r: AppError, id: Seq<char>) -> bool {
    r matches AppError::NotFound(m) && m@ == "pair "@ + id
}

/// Position of the first pair with id `id`, or the length of the list.
fn position_of(pairs: &Vec<DirectoryPair>, id: &str) -> (i: usize)
    ensures
        i == find_index(pairs_view(pairs@), id@),
        i <= pairs@.len(),
{
    let wanted = String::from_str(id);
    let ghost v = pairs_view(pairs@);
    proof {
        lemma_find_index(v, id@);
    }
    let mut i: usize = 0;
    assert(v.skip(0) =~= v);
    while i < pairs.len()
        invariant
            i <= pairs@.len(),
            v == pairs_view(pairs@),
            wanted@ == id@,
            find_index(v, id@) == i + find_index(v.skip(i as int), id@),
            find_index(v, id@) <= v.len(),
        decreases pairs@.len() - i,
    {
        assert(v.skip(i as int)[0] == pairs@[i as int]@);
        if pairs[i].id == wanted {
            return i;
        }
        assert(v.skip(i as int).drop_first() =~= v.skip(i + 1));
        i = i + 1;
    }
    i
}

/// Replaces the first pair that has the same id as `pair`. Fails with
/// not-found, changing nothing, when no pair has that id.
pub fn update_pair(pairs: &mut Vec<DirectoryPair>, pair: DirectoryPair) -> (r: Result<
    DirectoryPair,
    AppError,
>)
    ensures
        ({
            let i = find_index(pairs_view(old(pairs)@), pair@.id);
            if i < old(pairs)@.len() {
                &&& r matches Ok(p) && p@ == pair@
                &&& pairs_view(final(pairs)@) == pairs_view(old(pairs)@).update(i as int, pair@)
            } else {
                &&& r matches Err(e) && pair_not_found(e, pair@.id)
                &&& pairs_view(final(pairs)@) == pairs_view(old(pairs)@)
            }
        }),
{
    let i = position_of(pairs, pair.id.as_str());
    if i == pairs.len() {
        let mut m = String::from_str("pair ");
        m.append(pair.id.as_str());
        return Err(AppError::NotFound(m));
    }
    let ghost before = pairs@;
    let stored = pair.clone();
    pairs.set(i, stored);
    assert(pairs_view(pairs@) =~= pairs_view(before).update(i as int, pair@));
    Ok(pair)
}

/// Removes every pair with id `id`. Fails with not-found, changing nothing,
/// when there is none.
pub fn delete_pair(pairs: &mut Vec<DirectoryPair>, id: &str) -> (r: Result<(), AppError>)
    ensures
        pairs_view(final(pairs)@) == without_id(pairs_view(old(pairs)@), id@),
        r is Ok <==> has_id(pairs_view(old(pairs)@), id@),
        r matches Err(e) ==> pair_not_found(e, id@),
{
    let wanted = String::from_str(id);
    let ghost v = pairs_view(pairs@);
    let mut kept: Vec<DirectoryPair> = Vec::new();
    let mut removed = false;
    let mut i: usize = 0;
    while i < pairs.len()
        invariant
            i <= pairs@.len(),
            v == pairs_view(pairs@),
            wanted@ == id@,
            pairs_view(kept@) == without_id(v.take(i as int), id@),
            removed == has_id(v.take(i as int), id@),
        decreases pairs@.len() - i,
    {
        let ghost t = v.take(i + 1);
        assert(t.drop_last() =~= v.take(i as int));
        assert(t.last() == pairs@[i as int]@);
        if pairs[i].id == wanted {
            removed = true;
            assert(t[i as int].id == id@);
        } else {
            let ghost prev = kept@;
            kept.push(pairs[i].clone());
            proof {
                lemma_push_view(prev, kept@.last());
                assert(kept@ =~= prev.push(kept@.last()));
            }
        }
        proof {
            if has_id(t, id@) {
                let k = choose|k: int| 0 <= k < t.len() && (#[trigger] t[k]).id == id@;
                if k < i {
                    assert(v.take(i as int)[k].id == id@);
                }
            }
            if has_id(v.take(i as int), id@) {
                let k = choose|k: int| 0 <= k < i && (#[trigger] v.take(i as int)[k]).id == id@;
                assert(t[k].id == id@);
            }
        }
        i = i + 1;
    }
    assert(v.take(i as int) =~= v);
    if !removed {
        let mut m = String::from_str("pair ");
        m.append(id);
        proof {
            lemma_without_absent(v, id@);
        }
        return Err(AppError::NotFound(m));
    }
    *pairs = kept;
    Ok(())
}

/// Removing an id that no pair has changes nothing.
pub proof fn lemma_without_absent(s: Seq<PairView>, id: Seq<char>)
    requires
        !has_id(s, id),
    ensures
        without_id(s, id) == s,
    decreases s.len(),
{
    if s.len() > 0 {
        assert(s[s.len() - 1] == s.last());
        if has_id(s.drop_last(), id) {
            let k = choose|k: int| 0 <= k < s.drop_last().len() && (#[trigger] s.drop_last()[k]).id == id;
            assert(s[k].id == id);
        }
        lemma_without_absent(s.drop_last(), id);
        assert(s.drop_last().push(s.last()) =~= s);
    }
}

/// The first pair with id `id`; not found (with the bare id) when there is
/// none.
pub fn find_pair(pairs: &Vec<DirectoryPair>, id: &str) -> (r: Result<DirectoryPair, AppError>)
    ensures
        ({
            let i = find_index(pairs_view(pairs@), id@);
            if i < pairs@.len() {
                r matches Ok(p) && p@ == pairs_view(pairs@)[i as int]
            } else {
                r matches Err(AppError::NotFound(m)) && m@ == id@
            }
        }),
{
    let i = position_of(pairs, id);
    if i == pairs.len() {
        return Err(AppError::NotFound(String::from_str(id)));
    }
    Ok(pairs[i].clone())
}

/// The pair with its last sync replaced.
pub open spec fn with_last_sync(p: PairView, last: LastSync) -> PairView {
    PairView { last_sync: Some(last), ..p }
}

/// Records `last` as the last sync of the first pair with id `pair_id`;
/// nothing changes when there is none.
pub fn record_last_sync(pairs: &mut Vec<DirectoryPair>, pair_id: &str, last: LastSync)
    ensures
        ({
            let i = find_index(pairs_view(old(pairs)@), pair_id@);
            if i < old(pairs)@.len() {
                pairs_view(final(pairs)@) == pairs_view(old(pairs)@).update(
                    i as int,
                    with_last_sync(pairs_view(old(pairs)@)[i as int], last),
                )
            } else {
                pairs_view(final(pairs)@) == pairs_view(old(pairs)@)
            }
        }),
{
    let i = position_of(pairs, pair_id);
    if i < pairs.len() {
        let mut p = pairs[i].clone();
        p.last_sync = Some(last);
        let ghost before = pairs@;
        pairs.set(i, p);
        assert(pairs_view(pairs@) =~= pairs_view(before).update(
            i as int,
            with_last_sync(pairs_view(before)[i as int], last),
        ));
    }
}

/// The devices of the tailnet with this machine first.
pub fn tailnet_device_list(me: TailnetDevice, peers: Vec<TailnetDevice>) -> (r: Vec<TailnetDevice>)
    ensures
        r@ == seq![me] + peers@,
{
    let mut r = peers;
    r.insert(0, me);
    assert(r@ =~= seq![me] + peers@);
    r
}


/// Law: after adding a pair whose id no other pair has, finding that id
/// gives the added pair.
pub proof fn lemma_find_after_add(s: Seq<PairView>, p: PairView)
    requires
        !has_id(s, p.id),
    ensures
        find_index(s.push(p), p.id) == s.len(),
        s.push(p)[s.len() as int] == p,
{
    let t = s.push(p);
    lemma_find_index(s, p.id);
    lemma_find_index(t, p.id);
    assert(t[s.len() as int].id == p.id);
    let i = find_index(t, p.id);
    if i < s.len() {
        assert(s[i as int].id == p.id);
    }
}

/// Law: after updating a pair, finding its id gives the new contents, at
/// the same position.
pub proof fn lemma_find_after_update(s: Seq<PairView>, p: PairView)
    requires
        has_id(s, p.id),
    ensures
        find_index(s.update(find_index(s, p.id) as int, p), p.id) == find_index(s, p.id),
        s.update(find_index(s, p.id) as int, p)[find_index(s, p.id) as int] == p,
{
    lemma_find_index(s, p.id);
    let i = find_index(s, p.id);
    let t = s.update(i as int, p);
    lemma_find_index(t, p.id);
    let j = find_index(t, p.id);
    if j < i {
        assert(t[j as int] == s[j as int]);
    }
}

/// Law: after deleting an id, no pair has it, and deleting it again
/// changes nothing.
pub proof fn lemma_delete_removes(s: Seq<PairView>, id: Seq<char>)
    ensures
        !has_id(without_id(s, id), id),
        without_id(without_id(s, id), id) == without_id(s, id),
    decreases s.len(),
{
    if s.len() > 0 {
        lemma_delete_removes(s.drop_last(), id);
        let w = without_id(s.drop_last(), id);
        if s.last().id != id {
            if has_id(w.push(s.last()), id) {
                let k = choose|k: int| 0 <= k < w.len() + 1 && (#[trigger] w.push(s.last())[k]).id == id;
                assert(w[k].id == id);
            }
        }
    }
    lemma_without_absent(without_id(s, id), id);
}

/// Law: deleting an id keeps every pair with another id, in order.
pub proof fn lemma_delete_keeps_others(s: Seq<PairView>, id: Seq<char>, i: int)
    requires
        0 <= i < s.len(),
        s[i].id != id,
    ensures
        without_id(s, id).contains(s[i]),
    decreases s.len(),
{
    let w = without_id(s.drop_last(), id);
    if i == s.len() - 1 {
        assert(w.push(s.last())[w.len() as int] == s[i]);
    } else {
        lemma_delete_keeps_others(s.drop_last(), id, i);
        let k = choose|k: int| 0 <= k < w.len() && w[k] == s.drop_last()[i];
        if s.last().id != id {
            assert(w.push(s.last())[k] == s[i]);
        }
    }
}

} // verus!
