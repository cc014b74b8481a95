//! The per-epoch cache of cluster-node snapshots.
//!
//! Each epoch's node table is rebuilt at most once per refresh period: a
//! fresh cached snapshot is handed out as is, and only a missing or expired
//! entry triggers a rebuild.  Entries live in a least-recently-used cache
//! keyed by epoch, so old epochs fall out on capacity.  The snapshots
//! themselves are plain values beside the cache.

use vstd::prelude::*;
use crate::bank::{BankView, epoch_stakes_of};
use crate::cluster::{ClusterNodes, TableKind, new_cluster_nodes};
use crate::node::{ContactInfo, Node, Pubkey, StakeMap, candidate_nodes};

verus! {

#[verifier::external_type_specification]
#[verifier::external_body]
#[verifier::reject_recursive_types(K)]
#[verifier::reject_recursive_types(V)]
#[verifier::reject_recursive_types(S)]
pub struct ExLruCache<K, V, S>(lru::LruCache<K, V, S>);

#[verifier::external_type_specification]
#[verifier::external_body]
pub struct ExLruDefaultHasher(lru::DefaultHasher);

/// The cache as the wrappers below see it: epochs keyed to a marker value.
pub type EpochLru = lru::LruCache<u64, u64>;

/// The key-value pairs an epoch cache holds.
pub uninterp spec fn lru_contents(c: EpochLru) -> Map<u64, u64>;

/// The keys of an epoch cache by recency, most recent first.
pub uninterp spec fn lru_queue(c: EpochLru) -> Seq<u64>;

/// The capacity an epoch cache was created with.
pub uninterp spec fn lru_cap(c: EpochLru) -> int;

/// Relies on `lru::LruCache::new`: an empty cache of the given capacity
/// (which must not be zero: `NonZeroUsize::new(0)` is `None`).
#[verifier::external_body]
fn lru_new(cap: usize) -> (out: EpochLru)
    requires
        cap >= 1,
    ensures
        forall|k: u64| !lru_contents(out).dom().contains(k),
        lru_queue(out).len() == 0,
        lru_cap(out) == cap,
{
    lru::LruCache::new(core::num::NonZeroUsize::new(cap).unwrap())
}

/// Relies on `lru::LruCache::get`: yields the key's value and moves the key
/// to the front of the recency order; an absent key changes nothing.
#[verifier::external_body]
fn lru_get(c: &mut EpochLru, k: u64) -> (r: Option<u64>)
    ensures
        lru_cap(*final(c)) == lru_cap(*old(c)),
        lru_contents(*final(c)) == lru_contents(*old(c)),
        match r {
            Some(v) => lru_contents(*old(c)).dom().contains(k) && v == lru_contents(*old(c))[k]
                && lru_queue(*final(c)) == seq![k] + lru_queue(*old(c)).remove_value(k),
            None => !lru_contents(*old(c)).dom().contains(k) && lru_queue(*final(c)) == lru_queue(
                *old(c),
            ),
        },
{
    c.get(&k).copied()
}

/// Relies on `lru::LruCache::push`: inserts or updates the pair and makes
/// its key the most recent; pushing a new key into a full cache evicts and
/// returns the least recent entry, and updating an existing key returns the
/// key's old value.
#[verifier::external_body]
fn lru_push(c: &mut EpochLru, k: u64, v: u64) -> (r: Option<(u64, u64)>)
    ensures
        lru_cap(*final(c)) == lru_cap(*old(c)),
        lru_contents(*old(c)).dom().contains(k) ==> r == Some((k, lru_contents(*old(c))[k]))
            && lru_contents(*final(c)) == lru_contents(*old(c)).insert(k, v) && lru_queue(
            *final(c),
        ) == seq![k] + lru_queue(*old(c)).remove_value(k),
        (!lru_contents(*old(c)).dom().contains(k) && lru_queue(*old(c)).len() < lru_cap(*old(c)))
            ==> r is None && lru_contents(*final(c)) == lru_contents(*old(c)).insert(k, v)
            && lru_queue(*final(c)) == seq![k] + lru_queue(*old(c)),
        (!lru_contents(*old(c)).dom().contains(k) && lru_queue(*old(c)).len() >= lru_cap(*old(c))
            && lru_queue(*old(c)).len() > 0) ==> r == Some(
            (
                lru_queue(*old(c)).last(),
                lru_contents(*old(c))[lru_queue(*old(c)).last()],
            ),
        ) && lru_contents(*final(c)) == lru_contents(*old(c)).remove(
            lru_queue(*old(c)).last(),
        ).insert(k, v) && lru_queue(*final(c)) == seq![k] + lru_queue(*old(c)).drop_last(),
{
    c.push(k, v)
}

/// A copy of a snapshot: same table, rebuilt handles.
fn clone_cluster_nodes(cn: &ClusterNodes) -> (out: ClusterNodes)
    ensures
        out.pubkey == cn.pubkey,
        out.kind == cn.kind,
        out.nodes@ == cn.nodes@,
        out.compat_index@ == cn.compat_index@,
        match (out.weighted_shuffle, cn.weighted_shuffle) {
            (Some(a), Some(b)) => a.weights_view() == b.weights_view() && a.active_view()
                == b.active_view() && (b.wf() ==> a.wf()),
            (None, None) => true,
            _ => false,
        },
        cn.wf() ==> out.wf(),
{
    let n = cn.nodes.len();
    let mut nodes: Vec<Node> = Vec::new();
    let mut i: usize = 0;
    while i < n
        invariant
            n == cn.nodes@.len(),
            0 <= i <= n,
            nodes@ == cn.nodes@.take(i as int),
        decreases n - i,
    {
        nodes.push(cn.nodes[i]);
        proof {
            assert(nodes@ =~= cn.nodes@.take(i + 1));
        }
        i = i + 1;
    }
    proof {
        assert(cn.nodes@.take(n as int) =~= cn.nodes@);
    }
    let m = cn.compat_index.len();
    let mut compat_index: Vec<(u64, usize)> = Vec::new();
    let mut t: usize = 0;
    while t < m
        invariant
            m == cn.compat_index@.len(),
            0 <= t <= m,
            compat_index@ == cn.compat_index@.take(t as int),
        decreases m - t,
    {
        compat_index.push(cn.compat_index[t]);
        proof {
            assert(compat_index@ =~= cn.compat_index@.take(t + 1));
        }
        t = t + 1;
    }
    proof {
        assert(cn.compat_index@.take(m as int) =~= cn.compat_index@);
    }
    let weighted_shuffle = match &cn.weighted_shuffle {
        Some(ws) => Some(ws.clone()),
        None => None,
    };
    ClusterNodes { pubkey: cn.pubkey, nodes, weighted_shuffle, compat_index, kind: cn.kind }
}

/// A cached snapshot with the time it was taken.
pub struct CacheEntry {
    pub epoch: u64,
    pub as_of_ms: u64,
    pub nodes: ClusterNodes,
}

/// The epoch cache: recency bookkeeping in the LRU, snapshots beside it.
pub struct ClusterNodesCache {
    pub cache: EpochLru,
    /// The cached snapshots, one per epoch.
    pub entries: Vec<CacheEntry>,
    pub ttl_ms: u64,
    pub kind: TableKind,
}

/// The epoch whose stake map a rebuild for `epoch` ends up using: the
/// target epoch when either bank knows its staked nodes, otherwise (once)
/// the root bank's own leader-schedule epoch.
pub open spec fn resolved_epoch(root: BankView, working: BankView, epoch: u64) -> u64 {
    if epoch_stakes_of(root.epoch_stakes@, epoch) is Some || epoch_stakes_of(
        working.epoch_stakes@,
        epoch,
    ) is Some {
        epoch
    } else {
        let root_epoch = (root.epoch_schedule.epoch_of(root.slot) + 1) as u64;
        if epoch != root_epoch {
            root_epoch
        } else {
            epoch
        }
    }
}

/// The stake map a rebuild for `epoch` uses: the root bank's staked nodes
/// for the resolved epoch, else the working bank's, else an empty map.
pub open spec fn resolved_stakes(root: BankView, working: BankView, epoch: u64) -> Seq<(
    Pubkey,
    u64,
)> {
    let e = resolved_epoch(root, working, epoch);
    match epoch_stakes_of(root.epoch_stakes@, e) {
        Some(m) => m.entries@,
        None => match epoch_stakes_of(working.epoch_stakes@, e) {
            Some(m) => m.entries@,
            None => Seq::<(Pubkey, u64)>::empty(),
        },
    }
}

/// Whether the cache holds a snapshot for `epoch` younger than the refresh
/// period at time `now`.
pub open spec fn fresh_entry_at(entries: Seq<CacheEntry>, epoch: u64, now: u64, ttl: u64) -> Option<
    int,
> {
    if exists|j: int|
        0 <= j < entries.len() && (#[trigger] entries[j]).epoch == epoch && (if now
            >= entries[j].as_of_ms {
            now - entries[j].as_of_ms
        } else {
            0
        }) < ttl {
        Some(
            choose|j: int|
                0 <= j < entries.len() && (#[trigger] entries[j]).epoch == epoch && (if now
                    >= entries[j].as_of_ms {
                    now - entries[j].as_of_ms
                } else {
                    0
                }) < ttl,
        )
    } else {
        None
    }
}

impl ClusterNodesCache {
    pub open spec fn wf(&self) -> bool {
        &&& forall|i: int, j: int|
            0 <= i < j < self.entries@.len() ==> (#[trigger] self.entries@[i]).epoch != (
            #[trigger] self.entries@[j]).epoch
        &&& forall|i: int|
            0 <= i < self.entries@.len() ==> (#[trigger] self.entries@[i]).nodes.kind == self.kind
    }

    /// A cache for `cap` epochs whose entries expire after `ttl_ms`.
    pub fn new(cap: usize, ttl_ms: u64, kind: TableKind) -> (out: ClusterNodesCache)
        requires
            cap >= 1,
        ensures
            out.wf(),
            out.entries@.len() == 0,
            out.ttl_ms == ttl_ms,
            out.kind == kind,
    {
        ClusterNodesCache { cache: lru_new(cap), entries: Vec::new(), ttl_ms, kind }
    }

    /// Position of the cached entry for `epoch`, if any.
    fn find_entry(&self, epoch: u64) -> (r: Option<usize>)
        ensures
            match r {
                Some(j) => j < self.entries@.len() && self.entries@[j as int].epoch == epoch,
                None => forall|j: int|
                    0 <= j < self.entries@.len() ==> (#[trigger] self.entries@[j]).epoch != epoch,
            },
    {
        let n = self.entries.len();
        let mut i: usize = 0;
        while i < n
            invariant
                n == self.entries@.len(),
                0 <= i <= n,
                forall|j: int| 0 <= j < i ==> (#[trigger] self.entries@[j]).epoch != epoch,
            decreases n - i,
        {
            if self.entries[i].epoch == epoch {
                return Some(i);
            }
            i = i + 1;
        }
        None
    }

    /// Drops the cached entry for `epoch`, if any.
    fn drop_entry(&mut self, epoch: u64)
        requires
            old(self).wf(),
        ensures
            final(self).wf(),
            final(self).ttl_ms == old(self).ttl_ms,
            final(self).kind == old(self).kind,
            forall|j: int|
                0 <= j < final(self).entries@.len() ==> (#[trigger] final(self).entries@[j]).epoch
                    != epoch && old(self).entries@.contains(final(self).entries@[j]),
            forall|j: int|
                0 <= j < old(self).entries@.len() ==> ((#[trigger] old(self).entries@[j]).epoch
                    != epoch ==> final(self).entries@.contains(old(self).entries@[j])),
    {
        match self.find_entry(epoch) {
            Some(j) => {
                let ghost pre = self.entries@;
                self.entries.remove(j);
                proof {
                    assert(self.entries@ =~= pre.remove(j as int));
                    assert forall|t: int|
                        0 <= t < self.entries@.len() implies (#[trigger] self.entries@[t]).epoch
                        != epoch && pre.contains(self.entries@[t]) && self.entries@[t].nodes.kind
                        == self.kind by {
                        if t < j {
                            assert(self.entries@[t] == pre[t]);
                        } else {
                            assert(self.entries@[t] == pre[t + 1]);
                        }
                    }
                    assert forall|t: int|
                        0 <= t < pre.len() && (#[trigger] pre[t]).epoch != epoch implies self
                        .entries@.contains(pre[t]) by {
                        if t < j {
                            assert(self.entries@[t] == pre[t]);
                        } else {
                            assert(t > j);
                            assert(self.entries@[t - 1] == pre[t]);
                        }
                    }
                }
            },
            None => {},
        }
    }

    /// Hands out the node table for the epoch that governs `shred_slot`.  A
    /// snapshot younger than the refresh period is returned as is; only a
    /// missing or expired entry triggers a rebuild, so within one refresh
    /// period each epoch's table is built at most once.  Missing epoch
    /// stakes fall back once to the root bank's own epoch, then to an empty
    /// stake map.  Returns the snapshot and whether it was rebuilt.
    pub fn get(
        &mut self,
        shred_slot: u64,
        root_bank: &BankView,
        working_bank: &BankView,
        local: &ContactInfo,
        peers: &Vec<ContactInfo>,
        now_ms: u64,
    ) -> (out: (ClusterNodes, bool))
        requires
            old(self).wf(),
            root_bank.wf(),
            working_bank.wf(),
            shred_slot < u64::MAX,
            root_bank.slot < u64::MAX,
            forall|i: int, j: int|
                0 <= i < j < peers@.len() ==> (#[trigger] peers@[i]).id != (
                #[trigger] peers@[j]).id,
            forall|i: int| 0 <= i < peers@.len() ==> (#[trigger] peers@[i]).id != local.id,
        ensures
            final(self).wf(),
            final(self).ttl_ms == old(self).ttl_ms,
            final(self).kind == old(self).kind,
            out.0.kind == old(self).kind,
            ({
                let epoch = root_bank.epoch_schedule.epoch_of(shred_slot) + 1;
                match fresh_entry_at(old(self).entries@, epoch as u64, now_ms, old(self).ttl_ms) {
                    Some(j) => {
                        &&& out.1 == false
                        &&& final(self).entries@ == old(self).entries@
                        &&& out.0.nodes@ == old(self).entries@[j].nodes.nodes@
                        &&& out.0.pubkey == old(self).entries@[j].nodes.pubkey
                        &&& (old(self).entries@[j].nodes.wf() ==> out.0.wf())
                    },
                    None => {
                        &&& out.1 == true
                        &&& out.0.wf()
                        &&& out.0.pubkey == local.id
                        &&& out.0.nodes@.to_multiset() == candidate_nodes(
                            *local,
                            peers@,
                            resolved_stakes(*root_bank, *working_bank, epoch as u64),
                        ).to_multiset()
                        &&& exists|j: int|
                            0 <= j < final(self).entries@.len()
                                && (#[trigger] final(self).entries@[j]).epoch == resolved_epoch(
                                *root_bank,
                                *working_bank,
                                epoch as u64,
                            ) && final(self).entries@[j].as_of_ms == now_ms
                                && final(self).entries@[j].nodes.nodes@ == out.0.nodes@
                    },
                }
            }),
    {
        let epoch = root_bank.epoch_schedule.get_leader_schedule_epoch(shred_slot);
        match self.find_entry(epoch) {
            Some(j) => {
                let as_of = self.entries[j].as_of_ms;
                let elapsed = if now_ms >= as_of {
                    now_ms - as_of
                } else {
                    0
                };
                if elapsed < self.ttl_ms {
                    let _promote = lru_get(&mut self.cache, epoch);
                    let snapshot = clone_cluster_nodes(&self.entries[j].nodes);
                    proof {
                        let fj = fresh_entry_at(
                            self.entries@,
                            epoch,
                            now_ms,
                            self.ttl_ms,
                        );
                        assert(fj is Some);
                        let jj = fj->Some_0;
                        assert(self.entries@[jj].epoch == epoch);
                        assert(jj == j as int);
                    }
                    return (snapshot, false);
                }
            },
            None => {},
        }
        proof {
            let fj = fresh_entry_at(self.entries@, epoch, now_ms, self.ttl_ms);
            if fj is Some {
                let jj = fj->Some_0;
                assert(self.entries@[jj].epoch == epoch);
                assert(false);
            }
        }
        // Rebuild: fetch the staked nodes, falling back once to the root
        // bank's own leader-schedule epoch.
        let mut stakes_opt: Option<&StakeMap> = root_bank.epoch_staked_nodes(epoch);
        if stakes_opt.is_none() {
            stakes_opt = working_bank.epoch_staked_nodes(epoch);
        }
        let mut cache_epoch = epoch;
        if stakes_opt.is_none() {
            let root_epoch = root_bank.epoch_schedule.get_leader_schedule_epoch(root_bank.slot);
            if epoch != root_epoch {
                cache_epoch = root_epoch;
                stakes_opt = root_bank.epoch_staked_nodes(root_epoch);
                if stakes_opt.is_none() {
                    stakes_opt = working_bank.epoch_staked_nodes(root_epoch);
                }
            }
        }
        let empty_stakes = StakeMap { entries: Vec::new() };
        let stakes: &StakeMap = match stakes_opt {
            Some(m) => m,
            None => &empty_stakes,
        };
        proof {
            assert(empty_stakes.entries@ =~= Seq::<(Pubkey, u64)>::empty());
            assert(cache_epoch == resolved_epoch(*root_bank, *working_bank, epoch));
            assert(stakes.entries@ == resolved_stakes(*root_bank, *working_bank, epoch));
        }
        let nodes = new_cluster_nodes(local, peers, stakes, self.kind);
        let snapshot = clone_cluster_nodes(&nodes);
        self.drop_entry(cache_epoch);
        let evicted = lru_push(&mut self.cache, cache_epoch, 0);
        match evicted {
            Some(pair) => {
                if pair.0 != cache_epoch {
                    self.drop_entry(pair.0);
                }
            },
            None => {},
        }
        let ghost pre = self.entries@;
        self.entries.push(CacheEntry { epoch: cache_epoch, as_of_ms: now_ms, nodes });
        proof {
            assert(self.entries@ =~= pre.push(self.entries@.last()));
            assert(self.entries@[self.entries@.len() - 1].nodes.nodes@ == snapshot.nodes@);
            assert forall|i: int, j: int|
                0 <= i < j < self.entries@.len() implies (#[trigger] self.entries@[i]).epoch != (
                #[trigger] self.entries@[j]).epoch by {
                if j < self.entries@.len() - 1 {
                    assert(self.entries@[i] == pre[i] && self.entries@[j] == pre[j]);
                } else {
                    assert(self.entries@[i] == pre[i]);
                    assert(pre[i].epoch != cache_epoch);
                }
            }
        }
        (snapshot, true)
    }
}

/// Law of the single flight, sequentially: a rebuild stamps the epoch's
/// entry with its time, and any later lookup of an epoch that holds an
/// entry younger than the refresh period returns the snapshot without
/// rebuilding, so within one refresh period the table of an epoch is built
/// at most once.
pub proof fn lemma_single_flight(entries: Seq<CacheEntry>, epoch: u64, now: u64, ttl: u64, j: int)
    requires
        0 <= j < entries.len(),
        entries[j].epoch == epoch,
        (if now >= entries[j].as_of_ms {
            now - entries[j].as_of_ms
        } else {
            0
        }) < ttl,
    ensures
        fresh_entry_at(entries, epoch, now, ttl) is Some,
{
    assert(exists|t: int|
        0 <= t < entries.len() && (#[trigger] entries[t]).epoch == epoch && (if now
            >= entries[t].as_of_ms {
            now - entries[t].as_of_ms
        } else {
            0
        }) < ttl) by {
        assert(entries[j].epoch == epoch);
    }
}

} // verus!
