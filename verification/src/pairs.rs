//! The configured directory pairs and the record of their last sync.
use vstd::prelude::*;

verus! {

/// Which way a sync went: local to remote, or remote to local.
#[derive(Debug, Clone, Copy, PartialEq, Eq, Structural)]
pub enum SyncDirection {
    Push,
    Pull,
}

/// How the last sync of a pair ended.
#[derive(Debug, Clone, Copy, PartialEq, Eq, Structural)]
pub enum SyncStatus {
    Success,
    Failed,
    Interrupted,
}

/// The most recent sync of a pair.
#[derive(Debug, PartialEq)]
pub struct LastSync {
    pub direction: SyncDirection,
    pub timestamp: i64,
    pub status: SyncStatus,
    pub message: String,
}

impl Clone for LastSync {
    fn clone(&self) -> (r: Self)
        ensures
            r == *self,
    {
        LastSync {
            direction: self.direction,
            timestamp: self.timestamp,
            status: self.status,
            message: self.message.clone(),
        }
    }
}

/// A local directory and the remote directory it is synced with.
#[derive(Debug, PartialEq)]
pub struct DirectoryPair {
    pub id: String,
    pub name: String,
    pub local_path: String,
    pub remote_host: String,
    pub remote_user: String,
    pub remote_path: String,
    pub excludes: Vec<String>,
    pub bandwidth_limit_kbps: Option<u32>,
    pub mirror_mode: bool,
    pub last_sync: Option<LastSync>,
}

/// The contents of a directory pair, with every text as its characters.
pub struct PairView {
    pub id: Seq<char>,
    pub name: Seq<char>,
    pub local_path: Seq<char>,
    pub remote_host: Seq<char>,
    pub remote_user: Seq<char>,
    pub remote_path: Seq<char>,
    pub excludes: Seq<Seq<char>>,
    pub bandwidth_limit_kbps: Option<u32>,
    pub mirror_mode: bool,
    pub last_sync: Option<LastSync>,
}

impl View for DirectoryPair {
    type V = PairView;

    open spec fn view(&self) -> PairView {
        PairView {
            id: self.id@,
            name: self.name@,
            local_path: self.local_path@,
            remote_host: self.remote_host@,
            remote_user: self.remote_user@,
            remote_path: self.remote_path@,
            excludes: self.excludes.deep_view(),
            bandwidth_limit_kbps: self.bandwidth_limit_kbps,
            mirror_mode: self.mirror_mode,
            last_sync: self.last_sync,
        }
    }
}

/// A copy of a list of strings.
pub fn clone_strings(v: &Vec<String>) -> (r: Vec<String>)
    ensures
        r@ == v@,
{
    let mut r: Vec<String> = Vec::new();
    let mut i: usize = 0;
    while i < v.len()
        invariant
            i <= v@.len(),
            r@ == v@.take(i as int),
        decreases v@.len() - i,
    {
        r.push(v[i].clone());
        assert(r@ =~= v@.take(i + 1));
        i = i + 1;
    }
    assert(r@ =~= v@);
    r
}

impl Clone for DirectoryPair {
    fn clone(&self) -> (r: Self)
        ensures
            r@ == self@,
    {
        let excludes = clone_strings(&self.excludes);
        assert(excludes.deep_view() =~= self.excludes.deep_view());
        let last_sync = match &self.last_sync {
            Some(l) => Some(l.clone()),
            None => None,
        };
        DirectoryPair {
            id: self.id.clone(),
            name: self.name.clone(),
            local_path: self.local_path.clone(),
            remote_host: self.remote_host.clone(),
            remote_user: self.remote_user.clone(),
            remote_path: self.remote_path.clone(),
            excludes,
            bandwidth_limit_kbps: self.bandwidth_limit_kbps,
            mirror_mode: self.mirror_mode,
            last_sync,
        }
    }
}


/// The views of a list of pairs.
pub open spec fn pairs_view(s: Seq<DirectoryPair>) -> Seq<PairView> {
    s.map_values(|p: DirectoryPair| p@)
}

/// Index of the first pair with this id, or the length when there is none.
pub open spec fn find_index(s: Seq<PairView>, id: Seq<char>) -> nat
    decreases s.len(),
{
    if s.len() == 0 {
        0
    } else if s[0].id == id {
        0
    } else {
        1 + find_index(s.drop_first(), id)
    }
}

/// The pairs whose id differs from `id`, in order.
pub open spec fn without_id(s: Seq<PairView>, id: Seq<char>) -> Seq<PairView>
    decreases s.len(),
{
    if s.len() == 0 {
        seq![]
    } else if s.last().id == id {
        without_id(s.drop_last(), id)
    } else {
        without_id(s.drop_last(), id).push(s.last())
    }
}

/// Some pair has this id.
pub open spec fn has_id(s: Seq<PairView>, id: Seq<char>) -> bool {
    exists|i: int| 0 <= i < s.len() && (#[trigger] s[i]).id == id
}

pub proof fn lemma_find_index(s: Seq<PairView>, id: Seq<char>)
    ensures
        find_index(s, id) <= s.len(),
        find_index(s, id) < s.len() ==> s[find_index(s, id) as int].id == id,
        forall|k: int| 0 <= k < find_index(s, id) ==> (#[trigger] s[k]).id != id,
        (find_index(s, id) < s.len()) == has_id(s, id),
    decreases s.len(),
{
    if s.len() > 0 && s[0].id != id {
        lemma_find_index(s.drop_first(), id);
        assert forall|k: int| 0 <= k < find_index(s, id) implies (#[trigger] s[k]).id != id by {
            if k > 0 {
                assert(s[k] == s.drop_first()[k - 1]);
            }
        }
        if has_id(s, id) {
            let k = choose|k: int| 0 <= k < s.len() && (#[trigger] s[k]).id == id;
            assert(s.drop_first()[k - 1].id == id);
        }
        if has_id(s.drop_first(), id) {
            let k = choose|k: int| 0 <= k < s.drop_first().len() && (#[trigger] s.drop_first()[k]).id == id;
            assert(s[k + 1].id == id);
        }
    } else if s.len() > 0 {
        assert(s[0].id == id);
    }
}
} // verus!
