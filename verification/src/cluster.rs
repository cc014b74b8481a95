//! The cluster-node table and the turbine peer resolvers.
//!
//! A `ClusterNodes` snapshot holds every known node sorted by stake, a
//! weighted-shuffle handle over the stake column, and the legacy compat
//! index used for best-peer sampling.  A broadcast table excludes the local
//! node from its shuffle; a retransmit table keeps it.  The resolvers
//! compute, per shred, either the single broadcast root or the neighbor and
//! child sets of the fanout tree, deterministically from the shred's seed.

use vstd::prelude::*;
use vstd::multiset::Multiset;
use crate::node::{
    Node, NodeId, Pubkey, ContactInfo, SockAddr, StakeMap, pubkey_of, contact_of, sorted_desc,
    unique_pubkeys, candidate_nodes, get_nodes,
};
use crate::shuffle::{WeightedShuffle, shuffle_spec, active_list, total_weight};

verus! {

broadcast use vstd::seq_lib::group_to_multiset_ensures;

/// Contact records older than this many milliseconds are not trusted as the
/// single broadcast root.
pub const MAX_CONTACT_INFO_AGE_MS: u64 = 120_000;

/// Contact records older than this many milliseconds do not count as live
/// peers.
pub const CRDS_GOSSIP_PULL_CRDS_TIMEOUT_MS: u64 = 15_000;

/// What the table serves: the leader's first transmission, or a validator's
/// retransmission.
#[derive(Clone, Copy, Debug, PartialEq, Eq, Structural)]
pub enum TableKind {
    Broadcast,
    Retransmit,
}

/// Which rows the table's shuffle may yield: all of them, except the local
/// node on a broadcast table.
pub open spec fn shuffle_active_spec(nodes: Seq<Node>, self_pk: Pubkey, kind: TableKind) -> Seq<
    bool,
> {
    match kind {
        TableKind::Retransmit => Seq::new(nodes.len(), |i: int| true),
        TableKind::Broadcast => Seq::new(nodes.len(), |i: int| pubkey_of(nodes[i]) != self_pk),
    }
}

pub open spec fn stakes_of_nodes(nodes: Seq<Node>) -> Seq<u64> {
    nodes.map_values(|n: Node| n.stake)
}

/// Whether row `i` belongs in the compat index: it must carry contact info,
/// and on a broadcast table it must not be the local node.
pub open spec fn compat_eligible(n: Node, self_pk: Pubkey, kind: TableKind) -> bool {
    contact_of(n) is Some && (kind is Retransmit || pubkey_of(n) != self_pk)
}

pub open spec fn stake_floor_one(stake: u64) -> u64 {
    if stake == 0 {
        1
    } else {
        stake
    }
}

/// The compat rows in table order: `(max(1, stake), position)` for each
/// eligible row.
pub open spec fn compat_entries(nodes: Seq<Node>, self_pk: Pubkey, kind: TableKind) -> Seq<(
    u64,
    usize,
)>
    decreases nodes.len(),
{
    if nodes.len() == 0 {
        Seq::<(u64, usize)>::empty()
    } else {
        compat_entries(nodes.drop_last(), self_pk, kind)
            + if compat_eligible(nodes.last(), self_pk, kind) {
                seq![(stake_floor_one(nodes.last().stake), (nodes.len() - 1) as usize)]
            } else {
                Seq::<(u64, usize)>::empty()
            }
    }
}

/// Sort rank of a compat row: weight first, identity second, descending.
pub open spec fn compat_rank(e: (u64, usize), nodes: Seq<Node>) -> int {
    e.0 as int * 0x1_0000_0000_0000_0000 + pubkey_of(nodes[e.1 as int]).id as int
}

pub open spec fn compat_sorted(s: Seq<(u64, usize)>, nodes: Seq<Node>) -> bool {
    forall|i: int, j: int|
        0 <= i < j < s.len() ==> compat_rank(#[trigger] s[i], nodes) >= compat_rank(
            #[trigger] s[j],
            nodes,
        )
}

/// Every compat row points at an eligible table row and carries its floored
/// stake; every eligible table row is pointed at.
proof fn lemma_compat_entries_props(nodes: Seq<Node>, self_pk: Pubkey, kind: TableKind)
    requires
        nodes.len() <= usize::MAX,
    ensures
        forall|t: int|
            0 <= t < compat_entries(nodes, self_pk, kind).len() ==> {
                let e = #[trigger] compat_entries(nodes, self_pk, kind)[t];
                &&& (e.1 as int) < nodes.len()
                &&& compat_eligible(nodes[e.1 as int], self_pk, kind)
                &&& e.0 == stake_floor_one(nodes[e.1 as int].stake)
            },
        forall|i: int|
            0 <= i < nodes.len() && compat_eligible(#[trigger] nodes[i], self_pk, kind)
                ==> compat_entries(nodes, self_pk, kind).contains(
                (stake_floor_one(nodes[i].stake), i as usize),
            ),
    decreases nodes.len(),
{
    if nodes.len() > 0 {
        let prev = compat_entries(nodes.drop_last(), self_pk, kind);
        let cur = compat_entries(nodes, self_pk, kind);
        lemma_compat_entries_props(nodes.drop_last(), self_pk, kind);
        assert forall|t: int| 0 <= t < cur.len() implies {
            let e = #[trigger] cur[t];
            &&& (e.1 as int) < nodes.len()
            &&& compat_eligible(nodes[e.1 as int], self_pk, kind)
            &&& e.0 == stake_floor_one(nodes[e.1 as int].stake)
        } by {
            if t < prev.len() {
                assert(cur[t] == prev[t]);
                assert((prev[t].1 as int) < nodes.drop_last().len());
                assert(nodes.drop_last()[prev[t].1 as int] == nodes[prev[t].1 as int]);
            } else {
                assert(compat_eligible(nodes.last(), self_pk, kind));
                assert(cur[t] == (stake_floor_one(nodes.last().stake), (nodes.len() - 1) as usize));
            }
        }
        assert forall|i: int|
            0 <= i < nodes.len() && compat_eligible(#[trigger] nodes[i], self_pk, kind) implies cur
            .contains((stake_floor_one(nodes[i].stake), i as usize)) by {
            if i < nodes.len() - 1 {
                assert(nodes.drop_last()[i] == nodes[i]);
                assert(prev.contains((stake_floor_one(nodes[i].stake), i as usize)));
                let t = choose|t: int|
                    0 <= t < prev.len() && prev[t] == (stake_floor_one(nodes[i].stake), i as usize);
                assert(cur[t] == prev[t]);
            } else {
                assert(compat_eligible(nodes.last(), self_pk, kind));
                assert(cur[cur.len() - 1] == (
                    stake_floor_one(nodes.last().stake),
                    (nodes.len() - 1) as usize,
                ));
            }
        }
    }
}

/// An immutable snapshot of the cluster for one epoch: all nodes sorted by
/// stake, the shuffle handle, and the compat index.
pub struct ClusterNodes {
    /// The local node itself.
    pub pubkey: Pubkey,
    /// All staked nodes, other known peers, and the node itself, sorted by
    /// `(stake, identity)` descending.
    pub nodes: Vec<Node>,
    /// Shuffle over the stake column; `None` when the weights are degenerate
    /// (all zero, or overflowing), in which case the resolvers yield nothing.
    pub weighted_shuffle: Option<WeightedShuffle>,
    /// Eligible rows with floored weights for legacy best-peer sampling.
    pub compat_index: Vec<(u64, usize)>,
    pub kind: TableKind,
}

impl ClusterNodes {
    pub open spec fn wf(&self) -> bool {
        &&& sorted_desc(self.nodes@)
        &&& unique_pubkeys(self.nodes@)
        &&& exists|i: int|
            0 <= i < self.nodes@.len() && pubkey_of(#[trigger] self.nodes@[i]) == self.pubkey
        &&& match self.weighted_shuffle {
            Some(ws) => ws.wf() && ws.weights_view() == stakes_of_nodes(self.nodes@)
                && ws.active_view() == shuffle_active_spec(self.nodes@, self.pubkey, self.kind),
            None => !(0 < total_weight(stakes_of_nodes(self.nodes@)) <= u64::MAX),
        }
        &&& self.compat_index@.to_multiset() == compat_entries(
            self.nodes@,
            self.pubkey,
            self.kind,
        ).to_multiset()
        &&& compat_sorted(self.compat_index@, self.nodes@)
        &&& forall|t: int|
            0 <= t < self.compat_index@.len() ==> {
                let e = #[trigger] self.compat_index@[t];
                &&& (e.1 as int) < self.nodes@.len()
                &&& compat_eligible(self.nodes@[e.1 as int], self.pubkey, self.kind)
                &&& e.0 == stake_floor_one(self.nodes@[e.1 as int].stake)
            }
    }

    /// How many peers the legacy sampler can choose from.
    pub fn num_peers(&self) -> (r: usize)
        ensures
            r == self.compat_index@.len(),
    {
        self.compat_index.len()
    }

    /// How many compat peers generated their contact info recently.
    pub fn num_peers_live(&self, now: u64) -> (r: usize)
        requires
            self.wf(),
        ensures
            r == live_count(self.compat_index@, self.nodes@, now),
    {
        let m = self.compat_index.len();
        let mut count: usize = 0;
        let mut t: usize = 0;
        while t < m
            invariant
                self.wf(),
                m == self.compat_index@.len(),
                0 <= t <= m,
                count <= t,
                count == live_count(self.compat_index@.take(t as int), self.nodes@, now),
            decreases m - t,
        {
            proof {
                assert(self.compat_index@.take(t + 1).drop_last() =~= self.compat_index@.take(
                    t as int,
                ));
                assert(self.compat_index@.take(t + 1).last() == self.compat_index@[t as int]);
            }
            let e = self.compat_index[t];
            match self.nodes[e.1].contact_info() {
                Some(c) => {
                    let elapsed = if c.wallclock < now {
                        now - c.wallclock
                    } else {
                        c.wallclock - now
                    };
                    if elapsed < CRDS_GOSSIP_PULL_CRDS_TIMEOUT_MS {
                        count = count + 1;
                    }
                },
                None => {},
            }
            t = t + 1;
        }
        proof {
            assert(self.compat_index@.take(m as int) =~= self.compat_index@);
        }
        count
    }

    /// Builds a snapshot, under the name callers use.
    pub fn new(
        local: &ContactInfo,
        peers: &Vec<ContactInfo>,
        stakes: &StakeMap,
        kind: TableKind,
    ) -> (out: ClusterNodes)
        requires
            stakes.wf(),
            forall|i: int, j: int|
                0 <= i < j < peers@.len() ==> (#[trigger] peers@[i]).id != (
                #[trigger] peers@[j]).id,
            forall|i: int| 0 <= i < peers@.len() ==> (#[trigger] peers@[i]).id != local.id,
        ensures
            out.wf(),
            out.pubkey == local.id,
            out.kind == kind,
            out.nodes@.to_multiset() == candidate_nodes(
                *local,
                peers@,
                stakes.entries@,
            ).to_multiset(),
    {
        new_cluster_nodes(local, peers, stakes, kind)
    }
}

/// How many compat rows hold a contact record whose wallclock is within the
/// gossip timeout of `now`, in either direction.
pub open spec fn live_count(compat: Seq<(u64, usize)>, nodes: Seq<Node>, now: u64) -> int
    decreases compat.len(),
{
    if compat.len() == 0 {
        0
    } else {
        live_count(compat.drop_last(), nodes, now) + match contact_of(
            nodes[compat.last().1 as int],
        ) {
            Some(c) => if (if c.wallclock < now {
                now - c.wallclock
            } else {
                c.wallclock - now
            }) < CRDS_GOSSIP_PULL_CRDS_TIMEOUT_MS {
                1int
            } else {
                0int
            },
            None => 0int,
        }
    }
}

/// First row whose identity is `pk`.
fn position_of_pubkey(nodes: &Vec<Node>, pk: &Pubkey) -> (r: Option<usize>)
    ensures
        match r {
            Some(i) => crate::node::pubkey_index(nodes@, *pk) == Some(i as int) && i
                < nodes@.len() && pubkey_of(nodes@[i as int]) == *pk,
            None => crate::node::pubkey_index(nodes@, *pk) is None && forall|j: int|
                0 <= j < nodes@.len() ==> pubkey_of(#[trigger] nodes@[j]) != *pk,
        },
{
    let n = nodes.len();
    let mut i: usize = 0;
    proof {
        assert(nodes@.skip(0) =~= nodes@);
    }
    while i < n
        invariant
            n == nodes@.len(),
            0 <= i <= n,
            forall|j: int| 0 <= j < i ==> pubkey_of(#[trigger] nodes@[j]) != *pk,
            crate::node::pubkey_index(nodes@, *pk) == (match crate::node::pubkey_index(
                nodes@.skip(i as int),
                *pk,
            ) {
                Some(t) => Some(t + i),
                None => Option::<int>::None,
            }),
        decreases n - i,
    {
        proof {
            assert(nodes@.skip(i as int)[0] == nodes@[i as int]);
            assert(nodes@.skip(i as int).drop_first() =~= nodes@.skip(i + 1));
        }
        let p = nodes[i].pubkey();
        if p.id == pk.id {
            proof {
                assert(pubkey_of(nodes@[i as int]) == *pk);
                assert(crate::node::pubkey_index(nodes@.skip(i as int), *pk) == Some(0int));
            }
            return Some(i);
        }
        i = i + 1;
    }
    None
}

/// True when the compat rank of `a` is above the rank of `b`.
fn compat_rank_gt(a: &(u64, usize), b: &(u64, usize), nodes: &Vec<Node>) -> (r: bool)
    requires
        (a.1 as int) < nodes@.len(),
        (b.1 as int) < nodes@.len(),
    ensures
        r == (compat_rank(*a, nodes@) > compat_rank(*b, nodes@)),
{
    let pa = nodes[a.1].pubkey();
    let pb = nodes[b.1].pubkey();
    if a.0 != b.0 {
        a.0 > b.0
    } else {
        pa.id > pb.id
    }
}

/// Sorts compat rows descending by `(weight, identity)`.
fn sort_compat_desc(v: Vec<(u64, usize)>, nodes: &Vec<Node>) -> (out: Vec<(u64, usize)>)
    requires
        forall|t: int| 0 <= t < v@.len() ==> ((#[trigger] v@[t]).1 as int) < nodes@.len(),
    ensures
        out@.to_multiset() == v@.to_multiset(),
        compat_sorted(out@, nodes@),
        forall|t: int| 0 <= t < out@.len() ==> ((#[trigger] out@[t]).1 as int) < nodes@.len(),
{
    let mut rem = v;
    let ghost orig = rem@;
    let mut out: Vec<(u64, usize)> = Vec::new();
    proof {
        assert(out@.to_multiset().add(rem@.to_multiset()) =~= orig.to_multiset());
    }
    while rem.len() > 0
        invariant
            forall|t: int| 0 <= t < rem@.len() ==> ((#[trigger] rem@[t]).1 as int) < nodes@.len(),
            forall|t: int| 0 <= t < out@.len() ==> ((#[trigger] out@[t]).1 as int) < nodes@.len(),
            out@.to_multiset().add(rem@.to_multiset()) == orig.to_multiset(),
            compat_sorted(out@, nodes@),
            forall|i: int, j: int|
                0 <= i < out@.len() && 0 <= j < rem@.len() ==> compat_rank(
                    #[trigger] out@[i],
                    nodes@,
                ) >= compat_rank(#[trigger] rem@[j], nodes@),
        decreases rem@.len(),
    {
        let n = rem.len();
        let mut k: usize = 0;
        let mut t: usize = 1;
        while t < n
            invariant
                n == rem@.len(),
                forall|u: int|
                    0 <= u < rem@.len() ==> ((#[trigger] rem@[u]).1 as int) < nodes@.len(),
                0 <= k < t <= n,
                forall|j: int| 0 <= j < t ==> compat_rank(rem@[k as int], nodes@) >= compat_rank(
                    #[trigger] rem@[j],
                    nodes@,
                ),
            decreases n - t,
        {
            if compat_rank_gt(&rem[t], &rem[k], nodes) {
                k = t;
            }
            t = t + 1;
        }
        let x = rem[k];
        let ghost out_pre = out@;
        let ghost rem_pre = rem@;
        out.push(x);
        rem.remove(k);
        proof {
            assert(rem@ =~= rem_pre.remove(k as int));
            assert(rem@.to_multiset() =~= rem_pre.to_multiset().remove(x));
            assert(out@ =~= out_pre.push(x));
            assert(out@.to_multiset() =~= out_pre.to_multiset().insert(x));
            assert(rem_pre.contains(x));
            assert(rem_pre.to_multiset().count(x) > 0);
            assert(out@.to_multiset().add(rem@.to_multiset()) =~= orig.to_multiset());
            assert forall|i: int, j: int|
                0 <= i < out@.len() && 0 <= j < rem@.len() implies compat_rank(
                #[trigger] out@[i],
                nodes@,
            ) >= compat_rank(#[trigger] rem@[j], nodes@) by {
                if j < k {
                    assert(rem@[j] == rem_pre[j]);
                } else {
                    assert(rem@[j] == rem_pre[j + 1]);
                }
                if i < out_pre.len() {
                    assert(out@[i] == out_pre[i]);
                } else {
                    assert(out@[i] == x);
                }
            }
            assert forall|t2: int|
                0 <= t2 < rem@.len() implies ((#[trigger] rem@[t2]).1 as int) < nodes@.len() by {
                if t2 < k {
                    assert(rem@[t2] == rem_pre[t2]);
                } else {
                    assert(rem@[t2] == rem_pre[t2 + 1]);
                }
            }
        }
    }
    proof {
        assert(rem@.to_multiset() =~= Multiset::<(u64, usize)>::empty());
        assert(out@.to_multiset() =~= out@.to_multiset().add(rem@.to_multiset()));
    }
    out
}

/// Builds the snapshot for one epoch: assembles and sorts the node table,
/// prepares the stake shuffle (dropping the local node from it on a
/// broadcast table), and assembles the compat index.
pub fn new_cluster_nodes(
    local: &ContactInfo,
    peers: &Vec<ContactInfo>,
    stakes: &StakeMap,
    kind: TableKind,
) -> (out: ClusterNodes)
    requires
        stakes.wf(),
        forall|i: int, j: int|
            0 <= i < j < peers@.len() ==> (#[trigger] peers@[i]).id != (#[trigger] peers@[j]).id,
        forall|i: int| 0 <= i < peers@.len() ==> (#[trigger] peers@[i]).id != local.id,
    ensures
        out.wf(),
        out.pubkey == local.id,
        out.kind == kind,
        out.nodes@.to_multiset() == candidate_nodes(*local, peers@, stakes.entries@).to_multiset(),
{
    let nodes = get_nodes(local, peers, stakes);
    let self_pk = Pubkey { id: local.id.id };
    proof {
        assert(self_pk == local.id);
        let cand = candidate_nodes(*local, peers@, stakes.entries@);
        assert(cand[0] == crate::node::contact_node(*local, stakes.entries@));
        assert(cand.contains(cand[0]));
        assert(cand.to_multiset().count(cand[0]) > 0);
        assert(nodes@.to_multiset().count(cand[0]) > 0);
        assert(nodes@.contains(cand[0]));
        let w = choose|i: int| 0 <= i < nodes@.len() && nodes@[i] == cand[0];
        assert(pubkey_of(nodes@[w]) == local.id);
    }
    let self_idx_opt = position_of_pubkey(&nodes, &self_pk);
    let self_idx: usize;
    match self_idx_opt {
        Some(i) => {
            self_idx = i;
        },
        None => {
            proof {
                assert(false);
            }
            self_idx = 0;
        },
    }
    let n = nodes.len();
    let mut stake_col: Vec<u64> = Vec::new();
    let mut i: usize = 0;
    while i < n
        invariant
            n == nodes@.len(),
            0 <= i <= n,
            stake_col@ == stakes_of_nodes(nodes@.take(i as int)),
        decreases n - i,
    {
        stake_col.push(nodes[i].stake);
        proof {
            assert(stakes_of_nodes(nodes@.take(i + 1)) =~= stakes_of_nodes(
                nodes@.take(i as int),
            ).push(nodes@[i as int].stake));
        }
        i = i + 1;
    }
    proof {
        assert(nodes@.take(n as int) =~= nodes@);
        assert(stake_col@ =~= stakes_of_nodes(nodes@));
    }
    let weighted_shuffle: Option<WeightedShuffle> = match WeightedShuffle::new(&stake_col) {
        Ok(ws) => {
            let mut ws = ws;
            let is_broadcast = match kind {
                TableKind::Broadcast => true,
                TableKind::Retransmit => false,
            };
            if is_broadcast {
                ws.remove_index(self_idx);
                proof {
                    assert forall|t: int|
                        0 <= t < nodes@.len() implies shuffle_active_spec(nodes@, self_pk, kind)[t]
                        == ws.active_view()[t] by {
                        if t != self_idx as int {
                            assert(pubkey_of(nodes@[t]) != self_pk);
                        }
                    }
                    assert(ws.active_view() =~= shuffle_active_spec(nodes@, self_pk, kind));
                }
            } else {
                proof {
                    assert(ws.active_view() =~= shuffle_active_spec(nodes@, self_pk, kind));
                }
            }
            Some(ws)
        },
        Err(_) => {
            proof {
                assert(nodes@.len() > 0);
                assert(!(0 < total_weight(stakes_of_nodes(nodes@)) <= u64::MAX));
            }
            None
        },
    };
    let mut compat: Vec<(u64, usize)> = Vec::new();
    let mut t: usize = 0;
    while t < n
        invariant
            n == nodes@.len(),
            0 <= t <= n,
            self_pk == local.id,
            compat@ == compat_entries(nodes@.take(t as int), self_pk, kind),
            forall|u: int| 0 <= u < compat@.len() ==> ((#[trigger] compat@[u]).1 as int) < t,
        decreases n - t,
    {
        proof {
            assert(nodes@.take(t + 1).drop_last() =~= nodes@.take(t as int));
            assert(nodes@.take(t + 1).last() == nodes@[t as int]);
        }
        let node = nodes[t];
        let has_contact = match node.node {
            NodeId::ContactInfo(_) => true,
            NodeId::Pubkey(_) => false,
        };
        let is_broadcast = match kind {
            TableKind::Broadcast => true,
            TableKind::Retransmit => false,
        };
        let pk = node.pubkey();
        if has_contact && (!is_broadcast || pk.id != self_pk.id) {
            let w = if node.stake == 0 {
                1
            } else {
                node.stake
            };
            compat.push((w, t));
            proof {
                assert(compat_eligible(nodes@[t as int], self_pk, kind));
                assert(compat@ =~= compat_entries(nodes@.take(t + 1), self_pk, kind));
            }
        } else {
            proof {
                assert(!compat_eligible(nodes@[t as int], self_pk, kind));
                assert(compat@ =~= compat_entries(nodes@.take(t + 1), self_pk, kind));
            }
        }
        t = t + 1;
    }
    proof {
        assert(nodes@.take(n as int) =~= nodes@);
    }
    let compat_index = sort_compat_desc(compat, &nodes);
    proof {
        lemma_compat_entries_props(nodes@, self_pk, kind);
        assert forall|u: int| 0 <= u < compat_index@.len() implies {
            let e = #[trigger] compat_index@[u];
            &&& (e.1 as int) < nodes@.len()
            &&& compat_eligible(nodes@[e.1 as int], self_pk, kind)
            &&& e.0 == stake_floor_one(nodes@[e.1 as int].stake)
        } by {
            let e = compat_index@[u];
            assert(compat_index@.contains(e));
            assert(compat_index@.to_multiset().count(e) > 0);
            assert(compat_entries(nodes@, self_pk, kind).to_multiset().count(e) > 0);
            assert(compat_entries(nodes@, self_pk, kind).contains(e));
        }
    }
    ClusterNodes { pubkey: self_pk, nodes, weighted_shuffle, compat_index, kind }
}

/// Which addresses the process may send to.
#[derive(Clone, Copy, Debug, PartialEq, Eq, Structural)]
pub enum SocketAddrSpace {
    /// Accept any address.
    Unspecified,
    /// Reject loopback addresses.
    Global,
}

pub open spec fn is_loopback(a: SockAddr) -> bool {
    a.ip / 0x0100_0000 == 127
}

pub open spec fn addr_check_spec(space: SocketAddrSpace, a: SockAddr) -> bool {
    match space {
        SocketAddrSpace::Unspecified => true,
        SocketAddrSpace::Global => !is_loopback(a),
    }
}

/// A usable address: specified, with a port, and allowed by the space.
pub open spec fn is_valid_address_spec(space: SocketAddrSpace, a: SockAddr) -> bool {
    a.ip != 0 && a.port != 0 && addr_check_spec(space, a)
}

impl SocketAddrSpace {
    pub fn check(&self, a: &SockAddr) -> (r: bool)
        ensures
            r == addr_check_spec(*self, *a),
    {
        match self {
            SocketAddrSpace::Unspecified => true,
            SocketAddrSpace::Global => !(a.ip / 0x0100_0000 == 127),
        }
    }
}

pub fn is_valid_address(a: &SockAddr, space: &SocketAddrSpace) -> (r: bool)
    ensures
        r == is_valid_address_spec(*space, *a),
{
    a.ip != 0 && a.port != 0 && space.check(a)
}

/// The compat weights column.
pub open spec fn compat_weights(compat: Seq<(u64, usize)>) -> Seq<u64> {
    compat.map_values(|e: (u64, usize)| e.0)
}

/// The compat row that stake-weighted best-peer sampling picks for a seed:
/// the first yield of the weighted shuffle over the compat weights.  `None`
/// when there are no peers or the weights overflow.
pub open spec fn weighted_best_spec(compat: Seq<(u64, usize)>, seed: Seq<u8>) -> Option<int> {
    if compat.len() == 0 || total_weight(compat_weights(compat)) > u64::MAX {
        None
    } else {
        let order = shuffle_spec(
            compat_weights(compat),
            Seq::new(compat.len(), |i: int| true),
            seed,
        );
        Some(compat[order[0] as int].1 as int)
    }
}

impl ClusterNodes {
    /// The root of the turbine broadcast tree for this seed: the contact the
    /// leader sends the shred to, drawn stake-weighted from the compat
    /// index.
    pub fn get_broadcast_peer(&self, shred_seed: &[u8; 32]) -> (r: Option<ContactInfo>)
        requires
            self.wf(),
        ensures
            match weighted_best_spec(self.compat_index@, shred_seed@) {
                Some(i) => r == contact_of(self.nodes@[i]),
                None => r is None,
            },
    {
        if self.compat_index.is_empty() {
            return None;
        }
        let m = self.compat_index.len();
        let mut weights: Vec<u64> = Vec::new();
        let mut i: usize = 0;
        while i < m
            invariant
                m == self.compat_index@.len(),
                0 <= i <= m,
                weights@ == compat_weights(self.compat_index@.take(i as int)),
            decreases m - i,
        {
            weights.push(self.compat_index[i].0);
            proof {
                assert(compat_weights(self.compat_index@.take(i + 1)) =~= compat_weights(
                    self.compat_index@.take(i as int),
                ).push(self.compat_index@[i as int].0));
            }
            i = i + 1;
        }
        proof {
            assert(self.compat_index@.take(m as int) =~= self.compat_index@);
            assert(weights@ =~= compat_weights(self.compat_index@));
        }
        match WeightedShuffle::new(&weights) {
            Err(_) => {
                proof {
                    assert forall|t: int| 0 <= t < weights@.len() implies (#[trigger] weights@[t])
                        >= 1 by {
                        assert(self.compat_index@[t].0 == stake_floor_one(
                            self.nodes@[self.compat_index@[t].1 as int].stake,
                        ));
                    }
                    assert(weights@[0] >= 1);
                    lemma_total_weight_lower(weights@);
                    assert(total_weight(compat_weights(self.compat_index@)) > u64::MAX);
                }
                None
            },
            Ok(ws) => {
                match ws.first(shred_seed) {
                    None => {
                        proof {
                            crate::shuffle::lemma_active_list_props(ws.active_view());
                            assert(ws.active_view()[0]);
                            assert(active_list(ws.active_view()).contains(0usize));
                            assert(false);
                        }
                        None
                    },
                    Some(j) => {
                        proof {
                            crate::shuffle::lemma_active_list_props(ws.active_view());
                            assert(ws.active_view()[0]);
                            assert(active_list(ws.active_view()).contains(0usize));
                            crate::shuffle::lemma_shuffle_is_permutation(
                                ws.weights_view(),
                                ws.active_view(),
                                shred_seed@,
                            );
                            let order = shuffle_spec(
                                ws.weights_view(),
                                ws.active_view(),
                                shred_seed@,
                            );
                            assert(order.contains(order[0]));
                            assert((order[0] as int) < self.compat_index@.len());
                            assert(ws.active_view() =~= Seq::new(
                                self.compat_index@.len(),
                                |t: int| true,
                            ));
                        }
                        let e = self.compat_index[j];
                        let node = self.nodes[e.1];
                        node.contact_info()
                    },
                }
            },
        }
    }
}

/// Contact addresses of the rows that the order places at `positions`: the
/// tvu socket, or the tvu-forwards socket; rows without contact info are
/// skipped.
pub open spec fn addrs_at_positions(
    nodes: Seq<Node>,
    order: Seq<usize>,
    positions: Seq<int>,
    use_forwards: bool,
) -> Seq<SockAddr>
    decreases positions.len(),
{
    if positions.len() == 0 {
        Seq::<SockAddr>::empty()
    } else {
        addrs_at_positions(nodes, order, positions.drop_last(), use_forwards)
            + match contact_of(nodes[order[positions.last()] as int]) {
            Some(c) => seq![
                if use_forwards {
                    c.tvu_forwards
                } else {
                    c.tvu
                },
            ],
            None => Seq::<SockAddr>::empty(),
        }
    }
}

/// The addresses that pass the address-space filter, in order.
pub open spec fn filter_valid_addrs(space: SocketAddrSpace, addrs: Seq<SockAddr>) -> Seq<SockAddr>
    decreases addrs.len(),
{
    if addrs.len() == 0 {
        Seq::<SockAddr>::empty()
    } else {
        filter_valid_addrs(space, addrs.drop_last()) + if is_valid_address_spec(
            space,
            addrs.last(),
        ) {
            seq![addrs.last()]
        } else {
            Seq::<SockAddr>::empty()
        }
    }
}

pub proof fn lemma_filter_addrs_concat(space: SocketAddrSpace, a: Seq<SockAddr>, b: Seq<SockAddr>)
    ensures
        filter_valid_addrs(space, a + b) == filter_valid_addrs(space, a) + filter_valid_addrs(
            space,
            b,
        ),
    decreases b.len(),
{
    if b.len() == 0 {
        assert(a + b =~= a);
        assert(filter_valid_addrs(space, a) + filter_valid_addrs(space, b) =~= filter_valid_addrs(
            space,
            a,
        ));
    } else {
        lemma_filter_addrs_concat(space, a, b.drop_last());
        assert((a + b).drop_last() =~= a + b.drop_last());
        assert((a + b).last() == b.last());
        assert(filter_valid_addrs(space, a) + filter_valid_addrs(space, b) =~= filter_valid_addrs(
            space,
            a,
        ) + filter_valid_addrs(space, b.drop_last()) + if is_valid_address_spec(space, b.last()) {
            seq![b.last()]
        } else {
            Seq::<SockAddr>::empty()
        });
    }
}

/// The fallback recipients when the preferred broadcast root is stale: the
/// tvu socket of the order's head, the tvu-forwards sockets of the rest of
/// its neighborhood, and the tvu sockets of its children, all filtered.
pub open spec fn broadcast_fallback_addrs(
    nodes: Seq<Node>,
    order: Seq<usize>,
    fanout: int,
    space: SocketAddrSpace,
) -> Seq<SockAddr> {
    let nb = crate::tree::neighbor_positions(fanout, 0, order.len() as int);
    let ch = crate::tree::child_positions(fanout, 0, order.len() as int);
    filter_valid_addrs(
        space,
        addrs_at_positions(nodes, order, nb.take(1), false) + addrs_at_positions(
            nodes,
            order,
            nb.skip(1),
            true,
        ) + addrs_at_positions(nodes, order, ch, false),
    )
}

/// Where a broadcast table sends a shred: the stale-aware preferred root,
/// or its fallback set; with the shuffle feature off, the legacy best peer.
pub open spec fn broadcast_addrs_spec(
    cn: ClusterNodes,
    shred: crate::shred::Shred,
    bank: crate::bank::BankView,
    fanout: int,
    space: SocketAddrSpace,
    now: u64,
) -> Seq<SockAddr> {
    let seed = crate::shred::shred_seed_bytes(cn.pubkey.id, shred.slot, shred.index as u64);
    if !crate::bank::shuffle_patch_enabled(
        bank.turbine_shuffle_activation,
        bank.epoch_schedule,
        shred.slot,
    ) {
        match weighted_best_spec(cn.compat_index@, seed) {
            Some(i) => match contact_of(cn.nodes@[i]) {
                Some(c) => if addr_check_spec(space, c.tvu) {
                    seq![c.tvu]
                } else {
                    Seq::<SockAddr>::empty()
                },
                None => Seq::<SockAddr>::empty(),
            },
            None => Seq::<SockAddr>::empty(),
        }
    } else {
        match cn.weighted_shuffle {
            None => Seq::<SockAddr>::empty(),
            Some(ws) => {
                let order = shuffle_spec(ws.weights_view(), ws.active_view(), seed);
                if order.len() == 0 {
                    Seq::<SockAddr>::empty()
                } else {
                    match contact_of(cn.nodes@[order[0] as int]) {
                        Some(c) => if (if now >= c.wallclock {
                            (now - c.wallclock) as int
                        } else {
                            0
                        }) < MAX_CONTACT_INFO_AGE_MS as int && is_valid_address_spec(
                            space,
                            c.tvu,
                        ) {
                            seq![c.tvu]
                        } else {
                            broadcast_fallback_addrs(cn.nodes@, order, fanout, space)
                        },
                        None => broadcast_fallback_addrs(cn.nodes@, order, fanout, space),
                    }
                }
            },
        }
    }
}

/// Walks `positions[from..to]` of the order and appends each row's contact
/// address, optionally dropping those the address space refuses.
fn collect_addrs(
    nodes: &Vec<Node>,
    order: &Vec<usize>,
    positions: &Vec<usize>,
    from: usize,
    to: usize,
    use_forwards: bool,
    space: &SocketAddrSpace,
    filtered: bool,
    out: &mut Vec<SockAddr>,
)
    requires
        from <= to <= positions@.len(),
        forall|t: int|
            0 <= t < positions@.len() ==> ((#[trigger] positions@[t]) as int) < order@.len(),
        forall|t: int| 0 <= t < order@.len() ==> ((#[trigger] order@[t]) as int) < nodes@.len(),
    ensures
        final(out)@ == old(out)@ + (if filtered {
            filter_valid_addrs(
                *space,
                addrs_at_positions(
                    nodes@,
                    order@,
                    positions@.map_values(|p: usize| p as int).subrange(from as int, to as int),
                    use_forwards,
                ),
            )
        } else {
            addrs_at_positions(
                nodes@,
                order@,
                positions@.map_values(|p: usize| p as int).subrange(from as int, to as int),
                use_forwards,
            )
        }),
{
    let ghost ipos = positions@.map_values(|p: usize| p as int);
    let ghost base = out@;
    let mut k = from;
    proof {
        assert(ipos.subrange(from as int, from as int) =~= Seq::<int>::empty());
        assert(out@ =~= base + Seq::<SockAddr>::empty());
    }
    while k < to
        invariant
            from <= k <= to <= positions@.len(),
            ipos == positions@.map_values(|p: usize| p as int),
            forall|t: int|
                0 <= t < positions@.len() ==> ((#[trigger] positions@[t]) as int) < order@.len(),
            forall|t: int| 0 <= t < order@.len() ==> ((#[trigger] order@[t]) as int) < nodes@.len(),
            out@ == base + (if filtered {
                filter_valid_addrs(
                    *space,
                    addrs_at_positions(
                        nodes@,
                        order@,
                        ipos.subrange(from as int, k as int),
                        use_forwards,
                    ),
                )
            } else {
                addrs_at_positions(
                    nodes@,
                    order@,
                    ipos.subrange(from as int, k as int),
                    use_forwards,
                )
            }),
        decreases to - k,
    {
        let ghost pre = ipos.subrange(from as int, k as int);
        let ghost ext = ipos.subrange(from as int, k + 1);
        proof {
            assert(ext.drop_last() =~= pre);
            assert(ext.last() == ipos[k as int]);
            assert(ipos[k as int] == positions@[k as int] as int);
        }
        let p = positions[k];
        let row = order[p];
        let node = nodes[row];
        let ghost a_pre = addrs_at_positions(nodes@, order@, pre, use_forwards);
        let ghost a_ext = addrs_at_positions(nodes@, order@, ext, use_forwards);
        match node.contact_info() {
            Some(c) => {
                let a = if use_forwards {
                    c.tvu_forwards
                } else {
                    c.tvu
                };
                proof {
                    assert(a_ext =~= a_pre + seq![a]);
                    assert((a_pre + seq![a]).drop_last() =~= a_pre);
                }
                if filtered {
                    if is_valid_address(&a, space) {
                        out.push(a);
                    }
                    proof {
                        assert(filter_valid_addrs(*space, a_ext) =~= filter_valid_addrs(
                            *space,
                            a_pre,
                        ) + if is_valid_address_spec(*space, a) {
                            seq![a]
                        } else {
                            Seq::<SockAddr>::empty()
                        });
                        assert(out@ =~= base + filter_valid_addrs(*space, a_ext));
                    }
                } else {
                    out.push(a);
                    proof {
                        assert(out@ =~= base + a_ext);
                    }
                }
            },
            None => {
                proof {
                    assert(a_ext =~= a_pre + Seq::<SockAddr>::empty());
                    assert(a_ext =~= a_pre);
                }
            },
        }
        k = k + 1;
    }
}

impl ClusterNodes {
    /// The wire addresses the leader sends this shred to.  With the shuffle
    /// feature off, the legacy best peer; otherwise the first yield of the
    /// stake shuffle if its contact is fresh and addressable, else the
    /// neighborhood-and-children fallback.  `now_ms` is the caller's clock,
    /// used only to gauge contact freshness.
    pub fn get_broadcast_addrs(
        &self,
        shred: &crate::shred::Shred,
        root_bank: &crate::bank::BankView,
        fanout: usize,
        socket_addr_space: &SocketAddrSpace,
        now_ms: u64,
    ) -> (out: Vec<SockAddr>)
        requires
            self.wf(),
            root_bank.wf(),
            fanout >= 1,
        ensures
            out@ == broadcast_addrs_spec(
                *self,
                *shred,
                *root_bank,
                fanout as int,
                *socket_addr_space,
                now_ms,
            ),
    {
        let shred_seed = shred.seed(&self.pubkey);
        if !crate::bank::enable_turbine_peers_shuffle_patch(shred.slot, root_bank) {
            let mut out: Vec<SockAddr> = Vec::new();
            match self.get_broadcast_peer(&shred_seed) {
                Some(c) => {
                    if socket_addr_space.check(&c.tvu) {
                        out.push(c.tvu);
                        proof {
                            assert(out@ =~= seq![c.tvu]);
                        }
                    }
                },
                None => {},
            }
            return out;
        }
        match &self.weighted_shuffle {
            None => Vec::new(),
            Some(ws) => {
                let order = ws.shuffle(&shred_seed);
                let n = order.len();
                let nn = self.nodes.len();
                if n == 0 {
                    return Vec::new();
                }
                proof {
                    assert(ws.weights_view().len() == nn as int);
                    crate::shuffle::lemma_shuffle_is_permutation(
                        ws.weights_view(),
                        ws.active_view(),
                        shred_seed@,
                    );
                    let so = shuffle_spec(ws.weights_view(), ws.active_view(), shred_seed@);
                    assert(so == order@);
                    assert forall|t: int| 0 <= t < order@.len() implies ((#[trigger] order@[t])
                        as int) < self.nodes@.len() by {
                        assert(so[t] == order@[t]);
                        assert(so.contains(so[t]));
                        assert((so[t] as int) < ws.weights_view().len());
                        assert(ws.weights_view() == stakes_of_nodes(self.nodes@));
                        assert(stakes_of_nodes(self.nodes@).len() == self.nodes@.len());
                    }
                }
                let first = order[0];
                let node = self.nodes[first];
                match node.contact_info() {
                    Some(c) => {
                        let age = if now_ms >= c.wallclock {
                            now_ms - c.wallclock
                        } else {
                            0
                        };
                        if age < MAX_CONTACT_INFO_AGE_MS && is_valid_address(
                            &c.tvu,
                            socket_addr_space,
                        ) {
                            let mut out: Vec<SockAddr> = Vec::new();
                            out.push(c.tvu);
                            proof {
                                assert(out@ =~= seq![c.tvu]);
                            }
                            return out;
                        }
                    },
                    None => {},
                }
                let ghost gf = fanout as int;
                let ghost gn = n as int;
                let (neighbors, children) = crate::tree::compute_retransmit_positions(
                    fanout,
                    0,
                    n,
                );
                let ghost nb = crate::tree::neighbor_positions(gf, 0, gn);
                let ghost ch = crate::tree::child_positions(gf, 0, gn);
                proof {
                    assert(crate::tree::tree_anchor(0, gf) == 0);
                    assert(nb.len() >= 1);
                    assert(neighbors@.len() == nb.len());
                    assert forall|t: int|
                        0 <= t < neighbors@.len() implies ((#[trigger] neighbors@[t]) as int)
                        < order@.len() by {
                        assert(neighbors@.map_values(|p: usize| p as int)[t] == nb[t]);
                        assert(nb[t] == t);
                    }
                    crate::tree::lemma_child_count_bounds(gf, 0, gn, 0);
                    assert forall|t: int|
                        0 <= t < children@.len() implies ((#[trigger] children@[t]) as int)
                        < order@.len() by {
                        assert(children@.map_values(|p: usize| p as int) == ch);
                        assert(children@.map_values(|p: usize| p as int)[t] == children@[t] as int);
                        assert(ch.len() == crate::tree::child_count_from(gf, 0, gn, 0));
                        assert(ch[t] == crate::tree::tree_child_start(0, gf) + t * gf);
                        crate::tree::lemma_child_count_split(gf, 0, gn, 0, t);
                    }
                }
                let mut out: Vec<SockAddr> = Vec::new();
                collect_addrs(
                    &self.nodes,
                    &order,
                    &neighbors,
                    0,
                    1,
                    false,
                    socket_addr_space,
                    true,
                    &mut out,
                );
                let ghost a1 = addrs_at_positions(self.nodes@, order@, nb.take(1), false);
                proof {
                    assert(neighbors@.map_values(|p: usize| p as int).subrange(0, 1) =~= nb.take(
                        1,
                    ));
                    assert(out@ =~= filter_valid_addrs(*socket_addr_space, a1));
                }
                let nblen = neighbors.len();
                collect_addrs(
                    &self.nodes,
                    &order,
                    &neighbors,
                    1,
                    nblen,
                    true,
                    socket_addr_space,
                    true,
                    &mut out,
                );
                let ghost a2 = addrs_at_positions(self.nodes@, order@, nb.skip(1), true);
                proof {
                    assert(neighbors@.map_values(|p: usize| p as int).subrange(1, nblen as int)
                        =~= nb.skip(1));
                    assert(out@ =~= filter_valid_addrs(*socket_addr_space, a1)
                        + filter_valid_addrs(*socket_addr_space, a2));
                }
                let chlen = children.len();
                collect_addrs(
                    &self.nodes,
                    &order,
                    &children,
                    0,
                    chlen,
                    false,
                    socket_addr_space,
                    true,
                    &mut out,
                );
                let ghost a3 = addrs_at_positions(self.nodes@, order@, ch, false);
                proof {
                    assert(children@.map_values(|p: usize| p as int).subrange(0, chlen as int)
                        =~= ch);
                    lemma_filter_addrs_concat(*socket_addr_space, a1, a2);
                    lemma_filter_addrs_concat(*socket_addr_space, a1 + a2, a3);
                    assert(out@ =~= (filter_valid_addrs(*socket_addr_space, a1)
                        + filter_valid_addrs(*socket_addr_space, a2)) + filter_valid_addrs(
                        *socket_addr_space,
                        a3,
                    ));
                    assert(out@ =~= filter_valid_addrs(*socket_addr_space, (a1 + a2) + a3));
                    assert(broadcast_fallback_addrs(
                        self.nodes@,
                        order@,
                        gf,
                        *socket_addr_space,
                    ) == filter_valid_addrs(*socket_addr_space, a1 + a2 + a3));
                    assert((a1 + a2) + a3 =~= a1 + a2 + a3);
                }
                out
            },
        }
    }
}

/// A list of weights that are each at least one sums to at least its
/// length.
pub proof fn lemma_total_weight_lower(weights: Seq<u64>)
    requires
        forall|t: int| 0 <= t < weights.len() ==> (#[trigger] weights[t]) >= 1,
    ensures
        total_weight(weights) >= weights.len(),
    decreases weights.len(),
{
    if weights.len() > 0 {
        lemma_total_weight_lower(weights.drop_last());
    }
}

/// First position in `rows` holding a row with identity `pk`.
pub open spec fn order_position_of(nodes: Seq<Node>, rows: Seq<usize>, pk: Pubkey) -> Option<int>
    decreases rows.len(),
{
    if rows.len() == 0 {
        None
    } else if pubkey_of(nodes[rows[0] as int]) == pk {
        Some(0int)
    } else {
        match order_position_of(nodes, rows.drop_first(), pk) {
            Some(t) => Some(t + 1),
            None => None,
        }
    }
}

/// The rows at `positions` of the order.
pub open spec fn nodes_at_positions(nodes: Seq<Node>, rows: Seq<usize>, positions: Seq<int>) -> Seq<
    Node,
> {
    positions.map_values(|p: int| nodes[rows[p] as int])
}

/// The active rows of a retransmit shuffle for a slot led by `leader`: all
/// of them but the leader's, which stays only when the leader is this node
/// itself.
pub open spec fn retransmit_active(cn: ClusterNodes, leader: Pubkey) -> Seq<bool> {
    let all = Seq::new(cn.nodes@.len(), |i: int| true);
    if leader == cn.pubkey {
        all
    } else {
        match crate::node::pubkey_index(cn.nodes@, leader) {
            Some(t) => all.update(t, false),
            None => all,
        }
    }
}

/// The order a retransmit table shuffles its rows into for one shred.
pub open spec fn retransmit_order_spec(cn: ClusterNodes, leader: Pubkey, seed: Seq<u8>) -> Seq<
    usize,
> {
    shuffle_spec(stakes_of_nodes(cn.nodes@), retransmit_active(cn, leader), seed)
}

/// The compat rows that survive the leader exclusion.
pub open spec fn compat_excluding(
    compat: Seq<(u64, usize)>,
    nodes: Seq<Node>,
    leader: Pubkey,
) -> Seq<(u64, usize)>
    decreases compat.len(),
{
    if compat.len() == 0 {
        Seq::<(u64, usize)>::empty()
    } else {
        compat_excluding(compat.drop_last(), nodes, leader) + if pubkey_of(
            nodes[compat.last().1 as int],
        ) != leader {
            seq![compat.last()]
        } else {
            Seq::<(u64, usize)>::empty()
        }
    }
}

/// The neighbor and child rows of this node in the turbine tree for one
/// shred, as `(neighbors, children)`.
pub open spec fn retransmit_peers_spec(
    cn: ClusterNodes,
    leader: Pubkey,
    shred: crate::shred::Shred,
    bank: crate::bank::BankView,
    fanout: int,
) -> (Seq<Node>, Seq<Node>) {
    let seed = crate::shred::shred_seed_bytes(leader.id, shred.slot, shred.index as u64);
    if crate::bank::shuffle_patch_enabled(
        bank.turbine_shuffle_activation,
        bank.epoch_schedule,
        shred.slot,
    ) {
        match cn.weighted_shuffle {
            None => (Seq::<Node>::empty(), Seq::<Node>::empty()),
            Some(_) => {
                let order = retransmit_order_spec(cn, leader, seed);
                match order_position_of(cn.nodes@, order, cn.pubkey) {
                    None => (Seq::<Node>::empty(), Seq::<Node>::empty()),
                    Some(sp) => (
                        nodes_at_positions(
                            cn.nodes@,
                            order,
                            crate::tree::neighbor_positions(fanout, sp, order.len() as int),
                        ),
                        nodes_at_positions(
                            cn.nodes@,
                            order,
                            crate::tree::child_positions(fanout, sp, order.len() as int),
                        ),
                    ),
                }
            },
        }
    } else {
        let filtered = if leader == cn.pubkey {
            cn.compat_index@
        } else {
            compat_excluding(cn.compat_index@, cn.nodes@, leader)
        };
        if filtered.len() == 0 || total_weight(compat_weights(filtered)) > u64::MAX {
            (Seq::<Node>::empty(), Seq::<Node>::empty())
        } else {
            let order_c = shuffle_spec(
                compat_weights(filtered),
                Seq::new(filtered.len(), |i: int| true),
                seed,
            );
            let rows = order_c.map_values(|t: usize| filtered[t as int].1);
            match order_position_of(cn.nodes@, rows, cn.pubkey) {
                None => (Seq::<Node>::empty(), Seq::<Node>::empty()),
                Some(sp) => (
                    nodes_at_positions(
                        cn.nodes@,
                        rows,
                        crate::tree::neighbor_positions(fanout, sp, rows.len() as int),
                    ),
                    nodes_at_positions(
                        cn.nodes@,
                        rows,
                        crate::tree::child_positions(fanout, sp, rows.len() as int),
                    ),
                ),
            }
        }
    }
}

/// The contact addresses of the listed rows, skipping bare ones.
pub open spec fn contact_addrs(list: Seq<Node>, use_forwards: bool) -> Seq<SockAddr>
    decreases list.len(),
{
    if list.len() == 0 {
        Seq::<SockAddr>::empty()
    } else {
        contact_addrs(list.drop_last(), use_forwards) + match contact_of(list.last()) {
            Some(c) => seq![
                if use_forwards {
                    c.tvu_forwards
                } else {
                    c.tvu
                },
            ],
            None => Seq::<SockAddr>::empty(),
        }
    }
}

/// Where this node re-forwards a shred.  The first node of each
/// neighborhood is the anchor: it feeds its neighbors' tvu-forwards sockets
/// and its children's tvu sockets; every other node feeds only its
/// children's tvu-forwards sockets.
pub open spec fn retransmit_addrs_spec(
    cn: ClusterNodes,
    leader: Pubkey,
    shred: crate::shred::Shred,
    bank: crate::bank::BankView,
    fanout: int,
) -> Seq<SockAddr> {
    let pair = retransmit_peers_spec(cn, leader, shred, bank, fanout);
    let neighbors = pair.0;
    let children = pair.1;
    if neighbors.len() == 0 {
        Seq::<SockAddr>::empty()
    } else if pubkey_of(neighbors[0]) != cn.pubkey {
        contact_addrs(children, true)
    } else {
        contact_addrs(neighbors.skip(1), true) + contact_addrs(children, false)
    }
}

/// First row of `rows` whose identity is `pk`, scanning forward.
fn find_order_position(nodes: &Vec<Node>, rows: &Vec<usize>, pk: &Pubkey) -> (r: Option<usize>)
    requires
        forall|t: int| 0 <= t < rows@.len() ==> ((#[trigger] rows@[t]) as int) < nodes@.len(),
    ensures
        match r {
            Some(i) => order_position_of(nodes@, rows@, *pk) == Some(i as int) && i < rows@.len(),
            None => order_position_of(nodes@, rows@, *pk) is None,
        },
{
    let n = rows.len();
    let mut i: usize = 0;
    proof {
        assert(rows@.skip(0) =~= rows@);
    }
    while i < n
        invariant
            n == rows@.len(),
            0 <= i <= n,
            forall|t: int| 0 <= t < rows@.len() ==> ((#[trigger] rows@[t]) as int) < nodes@.len(),
            order_position_of(nodes@, rows@, *pk) == (match order_position_of(
                nodes@,
                rows@.skip(i as int),
                *pk,
            ) {
                Some(t) => Some(t + i),
                None => Option::<int>::None,
            }),
        decreases n - i,
    {
        proof {
            assert(rows@.skip(i as int)[0] == rows@[i as int]);
            assert(rows@.skip(i as int).drop_first() =~= rows@.skip(i + 1));
        }
        let row = rows[i];
        let p = nodes[row].pubkey();
        if p.id == pk.id {
            proof {
                assert(pubkey_of(nodes@[rows@[i as int] as int]) == *pk);
                assert(order_position_of(nodes@, rows@.skip(i as int), *pk) == Some(0int));
            }
            return Some(i);
        }
        i = i + 1;
    }
    None
}

/// Copies the rows the order places at `positions` out of the table.
fn map_rows(nodes: &Vec<Node>, rows: &Vec<usize>, positions: &Vec<usize>) -> (out: Vec<Node>)
    requires
        forall|t: int| 0 <= t < rows@.len() ==> ((#[trigger] rows@[t]) as int) < nodes@.len(),
        forall|t: int| 0 <= t < positions@.len() ==> ((#[trigger] positions@[t]) as int)
            < rows@.len(),
    ensures
        out@ == nodes_at_positions(nodes@, rows@, positions@.map_values(|p: usize| p as int)),
{
    let n = positions.len();
    let mut out: Vec<Node> = Vec::new();
    let mut i: usize = 0;
    while i < n
        invariant
            n == positions@.len(),
            0 <= i <= n,
            forall|t: int| 0 <= t < rows@.len() ==> ((#[trigger] rows@[t]) as int) < nodes@.len(),
            forall|t: int|
                0 <= t < positions@.len() ==> ((#[trigger] positions@[t]) as int) < rows@.len(),
            out@.len() == i,
            forall|j: int|
                0 <= j < i ==> (#[trigger] out@[j]) == nodes@[rows@[positions@[j] as int] as int],
        decreases n - i,
    {
        let p = positions[i];
        let row = rows[p];
        out.push(nodes[row]);
        i = i + 1;
    }
    proof {
        assert(out@ =~= nodes_at_positions(
            nodes@,
            rows@,
            positions@.map_values(|p: usize| p as int),
        ));
    }
    out
}

/// Appends the contact addresses of the listed rows.
fn collect_contact_addrs(list: &Vec<Node>, from: usize, use_forwards: bool, out: &mut Vec<SockAddr>)
    requires
        from <= list@.len(),
    ensures
        final(out)@ == old(out)@ + contact_addrs(list@.skip(from as int), use_forwards),
{
    let ghost base = out@;
    let n = list.len();
    let mut i = from;
    proof {
        assert(list@.subrange(from as int, from as int) =~= Seq::<Node>::empty());
        assert(out@ =~= base + contact_addrs(
            list@.subrange(from as int, from as int),
            use_forwards,
        ));
    }
    while i < n
        invariant
            n == list@.len(),
            from <= i <= n,
            out@ == base + contact_addrs(list@.subrange(from as int, i as int), use_forwards),
        decreases n - i,
    {
        proof {
            assert(list@.subrange(from as int, i + 1).drop_last() =~= list@.subrange(
                from as int,
                i as int,
            ));
            assert(list@.subrange(from as int, i + 1).last() == list@[i as int]);
        }
        match list[i].contact_info() {
            Some(c) => {
                if use_forwards {
                    out.push(c.tvu_forwards);
                } else {
                    out.push(c.tvu);
                }
            },
            None => {},
        }
        i = i + 1;
    }
    proof {
        assert(list@.subrange(from as int, n as int) =~= list@.skip(from as int));
    }
}

impl ClusterNodes {
    /// The neighbor and child rows of this node for one shred: the leader's
    /// row is dropped from the shuffle (unless this node is the leader),
    /// the rest are shuffled by the shred's seed, and the fanout tree is
    /// read at this node's position.
    pub fn get_retransmit_peers(
        &self,
        slot_leader: &Pubkey,
        shred: &crate::shred::Shred,
        root_bank: &crate::bank::BankView,
        fanout: usize,
    ) -> (out: (Vec<Node>, Vec<Node>))
        requires
            self.wf(),
            root_bank.wf(),
            fanout >= 1,
            self.kind is Retransmit,
        ensures
            (out.0@, out.1@) == retransmit_peers_spec(
                *self,
                *slot_leader,
                *shred,
                *root_bank,
                fanout as int,
            ),
    {
        let shred_seed = shred.seed(slot_leader);
        if !crate::bank::enable_turbine_peers_shuffle_patch(shred.slot, root_bank) {
            return self.get_retransmit_peers_compat(&shred_seed, fanout, slot_leader);
        }
        match &self.weighted_shuffle {
            None => (Vec::new(), Vec::new()),
            Some(ws) => {
                let mut shuffled = ws.clone();
                let nn = self.nodes.len();
                if slot_leader.id != self.pubkey.id {
                    match position_of_pubkey(&self.nodes, slot_leader) {
                        Some(idx) => {
                            shuffled.remove_index(idx);
                        },
                        None => {},
                    }
                }
                proof {
                    assert(shuffled.active_view() =~= retransmit_active(*self, *slot_leader));
                }
                let order = shuffled.shuffle(&shred_seed);
                proof {
                    assert(shuffled.weights_view().len() == nn as int);
                    crate::shuffle::lemma_shuffle_is_permutation(
                        shuffled.weights_view(),
                        shuffled.active_view(),
                        shred_seed@,
                    );
                    let so = shuffle_spec(
                        shuffled.weights_view(),
                        shuffled.active_view(),
                        shred_seed@,
                    );
                    assert(so == order@);
                    assert forall|t: int| 0 <= t < order@.len() implies ((#[trigger] order@[t])
                        as int) < self.nodes@.len() by {
                        assert(so[t] == order@[t]);
                        assert(so.contains(so[t]));
                        assert((so[t] as int) < shuffled.weights_view().len());
                    }
                    assert(order@ == retransmit_order_spec(*self, *slot_leader, shred_seed@));
                }
                match find_order_position(&self.nodes, &order, &self.pubkey) {
                    None => (Vec::new(), Vec::new()),
                    Some(sp) => {
                        let (nb, ch) = crate::tree::compute_retransmit_positions(
                            fanout,
                            sp,
                            order.len(),
                        );
                        proof {
                            lemma_tree_positions_in_range(
                                fanout as int,
                                sp as int,
                                order@.len() as int,
                                nb@,
                                ch@,
                            );
                        }
                        let neighbors = map_rows(&self.nodes, &order, &nb);
                        let children = map_rows(&self.nodes, &order, &ch);
                        (neighbors, children)
                    },
                }
            },
        }
    }

    /// The legacy path: the compat rows minus the leader's, shuffled by the
    /// seed, with the tree read at this node's position.
    pub fn get_retransmit_peers_compat(
        &self,
        shred_seed: &[u8; 32],
        fanout: usize,
        slot_leader: &Pubkey,
    ) -> (out: (Vec<Node>, Vec<Node>))
        requires
            self.wf(),
            fanout >= 1,
        ensures
            ({
                let filtered = if *slot_leader == self.pubkey {
                    self.compat_index@
                } else {
                    compat_excluding(self.compat_index@, self.nodes@, *slot_leader)
                };
                if filtered.len() == 0 || total_weight(compat_weights(filtered)) > u64::MAX {
                    out.0@.len() == 0 && out.1@.len() == 0
                } else {
                    let order_c = shuffle_spec(
                        compat_weights(filtered),
                        Seq::new(filtered.len(), |i: int| true),
                        shred_seed@,
                    );
                    let rows = order_c.map_values(|t: usize| filtered[t as int].1);
                    match order_position_of(self.nodes@, rows, self.pubkey) {
                        None => out.0@.len() == 0 && out.1@.len() == 0,
                        Some(sp) => (out.0@, out.1@) == (
                            nodes_at_positions(
                                self.nodes@,
                                rows,
                                crate::tree::neighbor_positions(
                                    fanout as int,
                                    sp,
                                    rows.len() as int,
                                ),
                            ),
                            nodes_at_positions(
                                self.nodes@,
                                rows,
                                crate::tree::child_positions(fanout as int, sp, rows.len() as int),
                            ),
                        ),
                    }
                }
            }),
    {
        let m = self.compat_index.len();
        let mut filtered: Vec<(u64, usize)> = Vec::new();
        if slot_leader.id == self.pubkey.id {
            let mut i: usize = 0;
            while i < m
                invariant
                    m == self.compat_index@.len(),
                    0 <= i <= m,
                    filtered@ == self.compat_index@.take(i as int),
                decreases m - i,
            {
                filtered.push(self.compat_index[i]);
                proof {
                    assert(filtered@ =~= self.compat_index@.take(i + 1));
                }
                i = i + 1;
            }
            proof {
                assert(self.compat_index@.take(m as int) =~= self.compat_index@);
                assert(*slot_leader == self.pubkey);
            }
        } else {
            let mut i: usize = 0;
            while i < m
                invariant
                    self.wf(),
                    m == self.compat_index@.len(),
                    0 <= i <= m,
                    filtered@ == compat_excluding(
                        self.compat_index@.take(i as int),
                        self.nodes@,
                        *slot_leader,
                    ),
                decreases m - i,
            {
                proof {
                    assert(self.compat_index@.take(i + 1).drop_last() =~= self.compat_index@.take(
                        i as int,
                    ));
                    assert(self.compat_index@.take(i + 1).last() == self.compat_index@[i as int]);
                }
                let e = self.compat_index[i];
                let p = self.nodes[e.1].pubkey();
                if p.id != slot_leader.id {
                    filtered.push(e);
                    proof {
                        assert(filtered@ =~= compat_excluding(
                            self.compat_index@.take(i + 1),
                            self.nodes@,
                            *slot_leader,
                        ));
                    }
                } else {
                    proof {
                        assert(filtered@ =~= compat_excluding(
                            self.compat_index@.take(i + 1),
                            self.nodes@,
                            *slot_leader,
                        ));
                    }
                }
                i = i + 1;
            }
            proof {
                assert(self.compat_index@.take(m as int) =~= self.compat_index@);
                assert(*slot_leader != self.pubkey);
            }
        }
        let ghost gfiltered = filtered@;
        proof {
            lemma_compat_excluding_subset(self.compat_index@, self.nodes@, *slot_leader);
            assert forall|t: int| 0 <= t < filtered@.len() implies ((#[trigger] filtered@[t]).1
                as int) < self.nodes@.len() && filtered@[t].0 >= 1 by {
                assert(filtered@.contains(filtered@[t]));
                if *slot_leader == self.pubkey {
                } else {
                    assert(self.compat_index@.contains(filtered@[t]));
                }
                let u = choose|u: int|
                    0 <= u < self.compat_index@.len() && self.compat_index@[u] == filtered@[t];
                assert(self.compat_index@[u].0 == stake_floor_one(
                    self.nodes@[self.compat_index@[u].1 as int].stake,
                ));
            }
        }
        let fl = filtered.len();
        if fl == 0 {
            return (Vec::new(), Vec::new());
        }
        let mut weights: Vec<u64> = Vec::new();
        let mut i: usize = 0;
        while i < fl
            invariant
                fl == filtered@.len(),
                0 <= i <= fl,
                weights@ == compat_weights(filtered@.take(i as int)),
            decreases fl - i,
        {
            weights.push(filtered[i].0);
            proof {
                assert(compat_weights(filtered@.take(i + 1)) =~= compat_weights(
                    filtered@.take(i as int),
                ).push(filtered@[i as int].0));
            }
            i = i + 1;
        }
        proof {
            assert(filtered@.take(fl as int) =~= filtered@);
            assert(weights@ =~= compat_weights(filtered@));
        }
        match WeightedShuffle::new(&weights) {
            Err(_) => {
                proof {
                    assert(weights@[0] >= 1);
                    lemma_total_weight_lower(weights@);
                    assert(total_weight(compat_weights(filtered@)) > u64::MAX);
                }
                (Vec::new(), Vec::new())
            },
            Ok(ws) => {
                let order_c = ws.shuffle(shred_seed);
                proof {
                    crate::shuffle::lemma_shuffle_is_permutation(
                        ws.weights_view(),
                        ws.active_view(),
                        shred_seed@,
                    );
                    let so = shuffle_spec(ws.weights_view(), ws.active_view(), shred_seed@);
                    assert(so == order_c@);
                    assert(ws.active_view() =~= Seq::new(filtered@.len(), |i: int| true));
                    assert forall|t: int| 0 <= t < order_c@.len() implies ((#[trigger] order_c@[t])
                        as int) < filtered@.len() by {
                        assert(so[t] == order_c@[t]);
                        assert(so.contains(so[t]));
                    }
                }
                let mut rows: Vec<usize> = Vec::new();
                let cl = order_c.len();
                let mut k: usize = 0;
                while k < cl
                    invariant
                        cl == order_c@.len(),
                        0 <= k <= cl,
                        fl == filtered@.len(),
                        forall|t: int|
                            0 <= t < order_c@.len() ==> ((#[trigger] order_c@[t]) as int)
                                < filtered@.len(),
                        forall|t: int|
                            0 <= t < filtered@.len() ==> ((#[trigger] filtered@[t]).1 as int)
                                < self.nodes@.len(),
                        rows@.len() == k,
                        forall|j: int|
                            0 <= j < k ==> (#[trigger] rows@[j]) == filtered@[order_c@[j] as int].1,
                    decreases cl - k,
                {
                    let t = order_c[k];
                    rows.push(filtered[t].1);
                    k = k + 1;
                }
                proof {
                    assert(rows@ =~= order_c@.map_values(|t: usize| gfiltered[t as int].1));
                    assert forall|t: int| 0 <= t < rows@.len() implies ((#[trigger] rows@[t])
                        as int) < self.nodes@.len() by {}
                }
                match find_order_position(&self.nodes, &rows, &self.pubkey) {
                    None => (Vec::new(), Vec::new()),
                    Some(sp) => {
                        let (nb, ch) = crate::tree::compute_retransmit_positions(
                            fanout,
                            sp,
                            rows.len(),
                        );
                        proof {
                            lemma_tree_positions_in_range(
                                fanout as int,
                                sp as int,
                                rows@.len() as int,
                                nb@,
                                ch@,
                            );
                        }
                        let neighbors = map_rows(&self.nodes, &rows, &nb);
                        let children = map_rows(&self.nodes, &rows, &ch);
                        (neighbors, children)
                    },
                }
            },
        }
    }

    /// Where this node re-forwards the shred, by the critical-path rule: a
    /// neighborhood's first node feeds its neighbors' tvu-forwards sockets
    /// and its children's tvu sockets; any other node feeds only its
    /// children's tvu-forwards sockets.
    pub fn get_retransmit_addrs(
        &self,
        slot_leader: &Pubkey,
        shred: &crate::shred::Shred,
        root_bank: &crate::bank::BankView,
        fanout: usize,
    ) -> (out: Vec<SockAddr>)
        requires
            self.wf(),
            root_bank.wf(),
            fanout >= 1,
            self.kind is Retransmit,
        ensures
            out@ == retransmit_addrs_spec(
                *self,
                *slot_leader,
                *shred,
                *root_bank,
                fanout as int,
            ),
    {
        let (neighbors, children) = self.get_retransmit_peers(slot_leader, shred, root_bank, fanout);
        let mut out: Vec<SockAddr> = Vec::new();
        if neighbors.len() == 0 {
            return out;
        }
        let first_pk = neighbors[0].pubkey();
        if first_pk.id != self.pubkey.id {
            collect_contact_addrs(&children, 0, true, &mut out);
            proof {
                assert(children@.skip(0) =~= children@);
                assert(out@ =~= contact_addrs(children@, true));
            }
            return out;
        }
        collect_contact_addrs(&neighbors, 1, true, &mut out);
        collect_contact_addrs(&children, 0, false, &mut out);
        proof {
            assert(children@.skip(0) =~= children@);
            assert(out@ =~= contact_addrs(neighbors@.skip(1), true) + contact_addrs(
                children@,
                false,
            ));
        }
        out
    }
}

/// Sum of the stakes of `nodes[a .. b]`.
pub open spec fn stake_range(nodes: Seq<Node>, a: int, b: int) -> int
    decreases
            if b - a >= 0 {
                b - a
            } else {
                0
            },
{
    if a >= b {
        0
    } else {
        nodes[a].stake as int + stake_range(nodes, a + 1, b)
    }
}

pub proof fn lemma_stake_range_nonneg(nodes: Seq<Node>, a: int, b: int)
    ensures
        stake_range(nodes, a, b) >= 0,
    decreases
            if b - a >= 0 {
                b - a
            } else {
                0
            },
{
    if a < b {
        lemma_stake_range_nonneg(nodes, a + 1, b);
    }
}

pub proof fn lemma_stake_range_split(nodes: Seq<Node>, a: int, m: int, b: int)
    requires
        a <= m <= b,
    ensures
        stake_range(nodes, a, b) == stake_range(nodes, a, m) + stake_range(nodes, m, b),
    decreases m - a,
{
    if a < m {
        lemma_stake_range_split(nodes, a + 1, m, b);
    }
}

/// The stake sum over a slice of the shuffled order equals the sum over the
/// rows it names.
proof fn lemma_stake_range_maps(
    table: Seq<Node>,
    order: Seq<usize>,
    ordered: Seq<Node>,
    a: int,
    b: int,
)
    requires
        ordered.len() == order.len(),
        forall|t: int| 0 <= t < order.len() ==> ((#[trigger] order[t]) as int) < table.len(),
        forall|t: int| 0 <= t < order.len() ==> #[trigger] ordered[t] == table[order[t] as int],
        0 <= a <= b <= order.len(),
    ensures
        stake_range(ordered, a, b) == crate::shuffle::rem_sum(
            stakes_of_nodes(table),
            order.subrange(a, b),
        ),
    decreases b - a,
{
    if a < b {
        lemma_stake_range_maps(table, order, ordered, a + 1, b);
        let sub = order.subrange(a, b);
        assert(sub.drop_last() == order.subrange(a, b - 1));
        crate::shuffle::lemma_rem_sum_split(stakes_of_nodes(table), sub, 1);
        assert(sub.take(1) =~= seq![order[a]]);
        assert(sub.skip(1) =~= order.subrange(a + 1, b));
        crate::shuffle::lemma_rem_sum_singleton(stakes_of_nodes(table), order[a]);
        assert(stakes_of_nodes(table)[order[a] as int] == table[order[a] as int].stake);
    }
}

/// First-match properties of the order position.
proof fn lemma_order_position_props(nodes: Seq<Node>, rows: Seq<usize>, pk: Pubkey)
    ensures
        match order_position_of(nodes, rows, pk) {
            Some(i) => 0 <= i < rows.len() && pubkey_of(nodes[rows[i] as int]) == pk,
            None => forall|t: int|
                0 <= t < rows.len() ==> pubkey_of(nodes[(#[trigger] rows[t]) as int]) != pk,
        },
    decreases rows.len(),
{
    if rows.len() > 0 && pubkey_of(nodes[rows[0] as int]) != pk {
        lemma_order_position_props(nodes, rows.drop_first(), pk);
        assert forall|t: int| 1 <= t < rows.len() implies rows[t] == rows.drop_first()[t - 1] by {}
    }
}

/// The stakes a shred's retransmission crosses: this node's neighborhood,
/// its parent, and the parent's neighborhood.
#[derive(Clone, Copy, Debug, PartialEq, Eq, Structural)]
pub struct ShredDistributionStakes {
    pub neighborhood: u64,
    pub parent: u64,
    pub parent_neighborhood: u64,
}

impl Default for ShredDistributionStakes {
    fn default() -> (out: Self)
        ensures
            out.neighborhood == 0 && out.parent == 0 && out.parent_neighborhood == 0,
    {
        ShredDistributionStakes { neighborhood: 0, parent: 0, parent_neighborhood: 0 }
    }
}

impl ShredDistributionStakes {
    /// The stake reached by this node's own send: its neighborhood plus its
    /// parent's.
    pub fn total(&self) -> (r: u64)
        requires
            self.neighborhood + self.parent_neighborhood <= u64::MAX,
        ensures
            r == self.neighborhood + self.parent_neighborhood,
    {
        self.neighborhood + self.parent_neighborhood
    }
}

/// Sum of the stakes of the neighborhood that position `index` of `nodes`
/// belongs to, clipped to the list.
pub fn get_neighborhood_stake(index: usize, fanout: usize, nodes: &Vec<Node>) -> (r: u64)
    requires
        fanout >= 1,
        stake_range(
            nodes@,
            crate::tree::tree_anchor(index as int, fanout as int),
            if crate::tree::tree_anchor(index as int, fanout as int) + fanout <= nodes@.len() {
                crate::tree::tree_anchor(index as int, fanout as int) + fanout
            } else {
                nodes@.len() as int
            },
        ) <= u64::MAX,
    ensures
        r as int == stake_range(
            nodes@,
            crate::tree::tree_anchor(index as int, fanout as int),
            if crate::tree::tree_anchor(index as int, fanout as int) + fanout <= nodes@.len() {
                crate::tree::tree_anchor(index as int, fanout as int) + fanout
            } else {
                nodes@.len() as int
            },
        ),
{
    let offset = index % fanout;
    proof {
        vstd::arithmetic::div_mod::lemma_mod_bound(index as int, fanout as int);
        if index < fanout {
            vstd::arithmetic::div_mod::lemma_small_mod(index as nat, fanout as nat);
        }
    }
    let anchor = index - offset;
    proof {
        assert(anchor as int == crate::tree::tree_anchor(index as int, fanout as int));
    }
    let n = nodes.len();
    let ghost endb: int = if anchor as int + fanout <= nodes@.len() {
        anchor as int + fanout
    } else {
        nodes@.len() as int
    };
    let mut sum: u64 = 0;
    let mut j = anchor;
    while j < n && j - anchor < fanout
        invariant
            n == nodes@.len(),
            fanout >= 1,
            anchor <= j,
            j - anchor <= fanout,
            j <= n || j == anchor,
            endb == if anchor as int + fanout <= nodes@.len() {
                anchor as int + fanout
            } else {
                nodes@.len() as int
            },
            stake_range(nodes@, anchor as int, endb) <= u64::MAX,
            sum as int == stake_range(nodes@, anchor as int, j as int),
        decreases n - j,
    {
        proof {
            assert((j as int) < endb);
            lemma_stake_range_split(nodes@, anchor as int, j as int, endb);
            lemma_stake_range_split(nodes@, j as int, j + 1, endb);
            lemma_stake_range_split(nodes@, anchor as int, j as int, j + 1);
            lemma_stake_range_nonneg(nodes@, j + 1, endb);
            lemma_stake_range_nonneg(nodes@, anchor as int, j as int);
            assert(stake_range(nodes@, j as int, j + 1) == nodes@[j as int].stake as int);
        }
        sum = sum + nodes[j].stake;
        j = j + 1;
    }
    proof {
        if anchor < n {
            assert(j as int == endb);
        } else {
            assert(j == anchor);
            assert(endb <= anchor as int);
            assert(stake_range(nodes@, anchor as int, endb) == 0);
        }
    }
    sum
}

/// The distribution stakes for one shuffled order.
pub open spec fn shred_distribution_spec(
    cn: ClusterNodes,
    seed: Seq<u8>,
    fanout: int,
) -> ShredDistributionStakes {
    match cn.weighted_shuffle {
        None => ShredDistributionStakes { neighborhood: 0, parent: 0, parent_neighborhood: 0 },
        Some(ws) => {
            let order = shuffle_spec(ws.weights_view(), ws.active_view(), seed);
            let ordered = order.map_values(|row: usize| cn.nodes@[row as int]);
            match order_position_of(cn.nodes@, order, cn.pubkey) {
                None => ShredDistributionStakes {
                    neighborhood: 0,
                    parent: 0,
                    parent_neighborhood: 0,
                },
                Some(sp) => {
                    let nb = stake_range(
                        ordered,
                        crate::tree::tree_anchor(sp, fanout),
                        if crate::tree::tree_anchor(sp, fanout) + fanout <= ordered.len() {
                            crate::tree::tree_anchor(sp, fanout) + fanout
                        } else {
                            ordered.len() as int
                        },
                    );
                    match crate::tree::parent_position(sp, fanout) {
                        None => ShredDistributionStakes {
                            neighborhood: nb as u64,
                            parent: 0,
                            parent_neighborhood: 0,
                        },
                        Some(p) => ShredDistributionStakes {
                            neighborhood: nb as u64,
                            parent: if p < ordered.len() {
                                ordered[p].stake
                            } else {
                                0
                            },
                            parent_neighborhood: stake_range(
                                ordered,
                                crate::tree::tree_anchor(p, fanout),
                                if crate::tree::tree_anchor(p, fanout) + fanout <= ordered.len() {
                                    crate::tree::tree_anchor(p, fanout) + fanout
                                } else {
                                    ordered.len() as int
                                },
                            ) as u64,
                        },
                    }
                },
            }
        },
    }
}

impl ClusterNodes {
    /// Shared core of the distribution-stakes queries: shuffles the whole
    /// table by the seed and sums the stakes around this node's position.
    fn shred_distribution_core(&self, shred_seed: &[u8; 32], fanout: usize) -> (out:
        ShredDistributionStakes)
        requires
            self.wf(),
            self.kind is Retransmit,
            fanout >= 1,
        ensures
            out == shred_distribution_spec(*self, shred_seed@, fanout as int),
    {
        match &self.weighted_shuffle {
            None => ShredDistributionStakes { neighborhood: 0, parent: 0, parent_neighborhood: 0 },
            Some(ws) => {
                let nn = self.nodes.len();
                let order = ws.shuffle(shred_seed);
                let ghost gstakes = stakes_of_nodes(self.nodes@);
                proof {
                    assert(ws.weights_view().len() == nn as int);
                    crate::shuffle::lemma_shuffle_is_permutation(
                        ws.weights_view(),
                        ws.active_view(),
                        shred_seed@,
                    );
                    crate::shuffle::lemma_wf_sum_bound(ws);
                    let so = shuffle_spec(ws.weights_view(), ws.active_view(), shred_seed@);
                    assert(so == order@);
                    assert forall|t: int| 0 <= t < order@.len() implies ((#[trigger] order@[t])
                        as int) < self.nodes@.len() && ws.active_view()[order@[t] as int] by {
                        assert(so[t] == order@[t]);
                        assert(so.contains(so[t]));
                        assert((so[t] as int) < ws.weights_view().len());
                    }
                    assert(order@.no_duplicates());
                }
                let ol = order.len();
                let mut ordered: Vec<Node> = Vec::new();
                let mut t: usize = 0;
                while t < ol
                    invariant
                        ol == order@.len(),
                        0 <= t <= ol,
                        forall|u: int|
                            0 <= u < order@.len() ==> ((#[trigger] order@[u]) as int)
                                < self.nodes@.len(),
                        ordered@.len() == t,
                        forall|u: int|
                            0 <= u < t ==> #[trigger] ordered@[u] == self.nodes@[order@[u] as int],
                    decreases ol - t,
                {
                    let row = order[t];
                    ordered.push(self.nodes[row]);
                    t = t + 1;
                }
                proof {
                    assert(ordered@ =~= order@.map_values(
                        |row: usize| self.nodes@[row as int],
                    ));
                }
                match find_order_position(&self.nodes, &order, &self.pubkey) {
                    None => {
                        proof {
                            let sr = choose|i: int|
                                0 <= i < self.nodes@.len() && pubkey_of(
                                    #[trigger] self.nodes@[i],
                                ) == self.pubkey;
                            let so = shuffle_spec(
                                ws.weights_view(),
                                ws.active_view(),
                                shred_seed@,
                            );
                            assert(ws.active_view()[sr]);
                            assert(so.contains((sr as usize)));
                            let t0 = choose|t0: int|
                                0 <= t0 < so.len() && so[t0] == (sr as usize);
                            lemma_order_position_props(self.nodes@, order@, self.pubkey);
                            assert(pubkey_of(self.nodes@[order@[t0] as int]) != self.pubkey);
                            assert(false);
                        }
                        ShredDistributionStakes {
                            neighborhood: 0,
                            parent: 0,
                            parent_neighborhood: 0,
                        }
                    },
                    Some(sp) => {
                        proof {
                            lemma_neighborhood_fits(
                                self.nodes@,
                                order@,
                                ordered@,
                                ws.active_view(),
                                sp as int,
                                fanout as int,
                            );
                        }
                        let neighborhood = get_neighborhood_stake(sp, fanout, &ordered);
                        match crate::tree::get_parent_index(sp, fanout) {
                            None => ShredDistributionStakes {
                                neighborhood,
                                parent: 0,
                                parent_neighborhood: 0,
                            },
                            Some(p) => {
                                proof {
                                    crate::tree::lemma_parent_before(sp as int, fanout as int);
                                    lemma_neighborhood_fits(
                                        self.nodes@,
                                        order@,
                                        ordered@,
                                        ws.active_view(),
                                        p as int,
                                        fanout as int,
                                    );
                                }
                                let parent = if p < ordered.len() {
                                    ordered[p].stake
                                } else {
                                    0
                                };
                                let parent_neighborhood = get_neighborhood_stake(
                                    p,
                                    fanout,
                                    &ordered,
                                );
                                ShredDistributionStakes { neighborhood, parent, parent_neighborhood }
                            },
                        }
                    },
                }
            },
        }
    }

    /// Stake profile of one shred of a slot: this node's neighborhood, its
    /// parent and the parent's neighborhood under the given slot leader.
    pub fn get_deterministic_shred_distribution_stakes_by_slot_and_index(
        &self,
        slot: u64,
        shred_index: u32,
        slot_leader: &Pubkey,
        fanout: usize,
    ) -> (out: ShredDistributionStakes)
        requires
            self.wf(),
            self.kind is Retransmit,
            fanout >= 1,
        ensures
            out == shred_distribution_spec(
                *self,
                crate::shred::shred_seed_bytes(slot_leader.id, slot, shred_index as u64),
                fanout as int,
            ),
    {
        let seed = crate::shred::shred_seed_for(slot_leader, slot, shred_index);
        self.shred_distribution_core(&seed, fanout)
    }

    /// The same profile for a materialized shred; with the shuffle feature
    /// off it reports nothing.
    pub fn get_shred_distribution_stakes(
        &self,
        shred: &crate::shred::Shred,
        root_bank: &crate::bank::BankView,
        fanout: usize,
        slot_leader: &Pubkey,
    ) -> (out: ShredDistributionStakes)
        requires
            self.wf(),
            self.kind is Retransmit,
            root_bank.wf(),
            fanout >= 1,
        ensures
            out == if crate::bank::shuffle_patch_enabled(
                root_bank.turbine_shuffle_activation,
                root_bank.epoch_schedule,
                shred.slot,
            ) {
                shred_distribution_spec(
                    *self,
                    crate::shred::shred_seed_bytes(slot_leader.id, shred.slot, shred.index as u64),
                    fanout as int,
                )
            } else {
                ShredDistributionStakes { neighborhood: 0, parent: 0, parent_neighborhood: 0 }
            },
    {
        if !crate::bank::enable_turbine_peers_shuffle_patch(shred.slot, root_bank) {
            return ShredDistributionStakes { neighborhood: 0, parent: 0, parent_neighborhood: 0 };
        }
        let seed = shred.seed(slot_leader);
        self.shred_distribution_core(&seed, fanout)
    }
}

/// A neighborhood's stake sum stays within the machine word: it is a sum
/// over distinct active rows, bounded by the shuffle's own total.
proof fn lemma_neighborhood_fits(
    table: Seq<Node>,
    order: Seq<usize>,
    ordered: Seq<Node>,
    active: Seq<bool>,
    pos: int,
    fanout: int,
)
    requires
        fanout >= 1,
        pos >= 0,
        ordered.len() == order.len(),
        order.no_duplicates(),
        forall|t: int|
            0 <= t < order.len() ==> ((#[trigger] order[t]) as int) < table.len() && active[order[t] as int],
        forall|t: int| 0 <= t < order.len() ==> #[trigger] ordered[t] == table[order[t] as int],
        active.len() == table.len(),
        active.len() <= usize::MAX,
        crate::shuffle::rem_sum(stakes_of_nodes(table), crate::shuffle::active_list(active))
            <= u64::MAX,
    ensures
        stake_range(
            ordered,
            crate::tree::tree_anchor(pos, fanout),
            if crate::tree::tree_anchor(pos, fanout) + fanout <= ordered.len() {
                crate::tree::tree_anchor(pos, fanout) + fanout
            } else {
                ordered.len() as int
            },
        ) <= u64::MAX,
{
    let a = crate::tree::tree_anchor(pos, fanout);
    let b = if a + fanout <= ordered.len() {
        a + fanout
    } else {
        ordered.len() as int
    };
    vstd::arithmetic::div_mod::lemma_mod_bound(pos, fanout);
    if pos < fanout {
        vstd::arithmetic::div_mod::lemma_small_mod(pos as nat, fanout as nat);
    }
    assert(0 <= a);
    if a >= b {
        assert(stake_range(ordered, a, b) == 0);
    } else {
        assert(b <= order.len());
        lemma_stake_range_maps(table, order, ordered, a, b);
        let sub = order.subrange(a, b);
        assert(sub.no_duplicates()) by {
            assert forall|i: int, j: int| 0 <= i < j < sub.len() implies sub[i] != sub[j] by {
                assert(sub[i] == order[a + i] && sub[j] == order[a + j]);
            }
        }
        assert forall|i: int|
            0 <= i < sub.len() implies ((#[trigger] sub[i]) as int) < stakes_of_nodes(
            table,
        ).len() && active[sub[i] as int] by {
            assert(sub[i] == order[a + i]);
        }
        crate::shuffle::lemma_subset_sum(stakes_of_nodes(table), sub, active);
    }
}

/// Rows kept by the leader exclusion were all in the compat index.
proof fn lemma_compat_excluding_subset(compat: Seq<(u64, usize)>, nodes: Seq<Node>, leader: Pubkey)
    ensures
        forall|x: (u64, usize)|
            #[trigger] compat_excluding(compat, nodes, leader).contains(x) ==> compat.contains(x),
    decreases compat.len(),
{
    if compat.len() > 0 {
        lemma_compat_excluding_subset(compat.drop_last(), nodes, leader);
        let prev = compat_excluding(compat.drop_last(), nodes, leader);
        let cur = compat_excluding(compat, nodes, leader);
        assert forall|x: (u64, usize)| #[trigger] cur.contains(x) implies compat.contains(x) by {
            let t = choose|t: int| 0 <= t < cur.len() && cur[t] == x;
            if t < prev.len() {
                assert(prev[t] == x);
                assert(prev.contains(x));
                let u = choose|u: int| 0 <= u < compat.drop_last().len() && compat.drop_last()[u] == x;
                assert(compat[u] == x);
            } else {
                assert(x == compat.last());
                assert(compat[compat.len() - 1] == x);
            }
        }
    }
}

/// The neighbor and child position vectors that the tree computation hands
/// back stay inside the order.
proof fn lemma_tree_positions_in_range(
    fanout: int,
    node: int,
    n: int,
    nb: Seq<usize>,
    ch: Seq<usize>,
)
    requires
        fanout >= 1,
        0 <= node < n,
        nb.map_values(|p: usize| p as int) == crate::tree::neighbor_positions(fanout, node, n),
        ch.map_values(|p: usize| p as int) == crate::tree::child_positions(fanout, node, n),
    ensures
        forall|t: int| 0 <= t < nb.len() ==> ((#[trigger] nb[t]) as int) < n,
        forall|t: int| 0 <= t < ch.len() ==> ((#[trigger] ch[t]) as int) < n,
{
    let snb = crate::tree::neighbor_positions(fanout, node, n);
    let sch = crate::tree::child_positions(fanout, node, n);
    vstd::arithmetic::div_mod::lemma_mod_bound(node, fanout);
    assert(nb.map_values(|p: usize| p as int).len() == nb.len());
    assert(nb.len() == snb.len());
    assert forall|t: int| 0 <= t < nb.len() implies ((#[trigger] nb[t]) as int) < n by {
        assert(nb.map_values(|p: usize| p as int)[t] == nb[t] as int);
        assert(snb[t] == crate::tree::tree_anchor(node, fanout) + t);
        assert(snb.len() == if crate::tree::tree_anchor(node, fanout) + fanout <= n {
            fanout
        } else {
            n - crate::tree::tree_anchor(node, fanout)
        });
    }
    crate::tree::lemma_child_count_bounds(fanout, node, n, 0);
    assert(ch.map_values(|p: usize| p as int).len() == ch.len());
    assert(ch.len() == sch.len());
    assert forall|t: int| 0 <= t < ch.len() implies ((#[trigger] ch[t]) as int) < n by {
        assert(ch.map_values(|p: usize| p as int)[t] == ch[t] as int);
        assert(sch[t] == crate::tree::tree_child_start(node, fanout) + t * fanout);
        assert(sch.len() == crate::tree::child_count_from(fanout, node, n, 0));
        crate::tree::lemma_child_count_split(fanout, node, n, 0, t);
    }
}

/// Law of the retransmit tree: with the shuffle feature on and a leader
/// other than this node, the shuffled order out of which the fanout tree is
/// read holds every row except the leader's exactly once, and the leader's
/// not at all.  Together with the tree lemmas, every non-leader node stands
/// at exactly one position of exactly one layer, and the leader at none.
pub proof fn lemma_retransmit_order_tree(cn: ClusterNodes, leader: Pubkey, seed: Seq<u8>)
    requires
        cn.wf(),
        leader != cn.pubkey,
        cn.nodes@.len() <= usize::MAX,
    ensures
        retransmit_order_spec(cn, leader, seed).no_duplicates(),
        forall|x: usize|
            #[trigger] retransmit_order_spec(cn, leader, seed).contains(x) <==> ((x as int)
                < cn.nodes@.len() && pubkey_of(cn.nodes@[x as int]) != leader),
{
    let active = retransmit_active(cn, leader);
    let weights = stakes_of_nodes(cn.nodes@);
    crate::node::lemma_pubkey_index_props(cn.nodes@, leader);
    crate::shuffle::lemma_shuffle_is_permutation(weights, active, seed);
    let order = retransmit_order_spec(cn, leader, seed);
    assert forall|x: usize| #[trigger] order.contains(x) implies ((x as int) < cn.nodes@.len()
        && pubkey_of(cn.nodes@[x as int]) != leader) by {
        assert(shuffle_spec(weights, active, seed).contains(x));
        assert(active[x as int]);
        match crate::node::pubkey_index(cn.nodes@, leader) {
            Some(t) => {
                assert((x as int) != t);
                if pubkey_of(cn.nodes@[x as int]) == leader {
                    if (x as int) < t {
                        assert(false);
                    } else {
                        assert(pubkey_of(cn.nodes@[t]) == leader);
                        assert(false);
                    }
                }
            },
            None => {},
        }
    }
    assert forall|x: usize| ((x as int) < cn.nodes@.len() && pubkey_of(cn.nodes@[x as int])
        != leader) implies #[trigger] order.contains(x) by {
        assert(active.len() == cn.nodes@.len());
        match crate::node::pubkey_index(cn.nodes@, leader) {
            Some(t) => {
                assert(pubkey_of(cn.nodes@[t]) == leader);
                assert(x as int != t);
                assert(active[x as int]);
            },
            None => {
                assert(active[x as int]);
            },
        }
        assert(shuffle_spec(weights, active, seed).contains(x));
    }
}

} // verus!
