//! Cluster records and the node-table ordering.
//!
//! A node is an identity with a stake; the identity either carries a contact
//! record learned from gossip or is bare (staked but unreachable).  The node
//! table lists the local node, every known peer and every staked identity,
//! exactly once per identity, sorted by `(stake, identity)` descending.  The
//! order is a pure function of the stake map and the cluster view, so two
//! validators that share those inputs agree on it.

use vstd::prelude::*;
use vstd::multiset::Multiset;

verus! {

broadcast use vstd::seq_lib::group_to_multiset_ensures;

/// A validator identity.  The wire form is a 32-byte key; the table only
/// compares identities and hands them to a digest, so it carries them as a
/// number.
#[derive(Clone, Copy, Debug, PartialEq, Eq, Structural)]
pub struct Pubkey {
    pub id: u64,
}

/// A peer socket address (IPv4 as a number, plus the port).
#[derive(Clone, Copy, Debug, PartialEq, Eq, Structural)]
pub struct SockAddr {
    pub ip: u32,
    pub port: u16,
}

/// A contact record from gossip: where to reach the peer's shred sockets,
/// and when the record was generated.
#[derive(Clone, Copy, Debug, PartialEq, Eq, Structural)]
pub struct ContactInfo {
    pub id: Pubkey,
    pub tvu: SockAddr,
    pub tvu_forwards: SockAddr,
    pub wallclock: u64,
}

/// An identity as the table holds it: with contact info, or bare.
#[derive(Clone, Copy, Debug, PartialEq, Eq, Structural)]
pub enum NodeId {
    ContactInfo(ContactInfo),
    Pubkey(Pubkey),
}

/// One row of the node table.
#[derive(Clone, Copy, Debug, PartialEq, Eq, Structural)]
pub struct Node {
    pub node: NodeId,
    pub stake: u64,
}

impl From<ContactInfo> for NodeId {
    fn from(node: ContactInfo) -> (r: Self)
        ensures
            r == NodeId::ContactInfo(node),
    {
        NodeId::ContactInfo(node)
    }
}

impl vstd::std_specs::convert::FromSpecImpl<ContactInfo> for NodeId {
    open spec fn obeys_from_spec() -> bool {
        true
    }

    open spec fn from_spec(node: ContactInfo) -> Self {
        NodeId::ContactInfo(node)
    }
}

impl From<Pubkey> for NodeId {
    fn from(pubkey: Pubkey) -> (r: Self)
        ensures
            r == NodeId::Pubkey(pubkey),
    {
        NodeId::Pubkey(pubkey)
    }
}

impl vstd::std_specs::convert::FromSpecImpl<Pubkey> for NodeId {
    open spec fn obeys_from_spec() -> bool {
        true
    }

    open spec fn from_spec(pubkey: Pubkey) -> Self {
        NodeId::Pubkey(pubkey)
    }
}

pub open spec fn pubkey_of(n: Node) -> Pubkey {
    match n.node {
        NodeId::Pubkey(pubkey) => pubkey,
        NodeId::ContactInfo(c) => c.id,
    }
}

pub open spec fn contact_of(n: Node) -> Option<ContactInfo> {
    match n.node {
        NodeId::Pubkey(_) => None,
        NodeId::ContactInfo(c) => Some(c),
    }
}

impl Node {
    pub fn pubkey(&self) -> (r: Pubkey)
        ensures
            r == pubkey_of(*self),
    {
        match &self.node {
            NodeId::Pubkey(pubkey) => *pubkey,
            NodeId::ContactInfo(c) => c.id,
        }
    }

    pub fn contact_info(&self) -> (r: Option<ContactInfo>)
        ensures
            r == contact_of(*self),
    {
        match &self.node {
            NodeId::Pubkey(_) => None,
            NodeId::ContactInfo(c) => Some(*c),
        }
    }
}

/// The first row whose identity is `pk`, if any.
pub open spec fn pubkey_index(nodes: Seq<Node>, pk: Pubkey) -> Option<int>
    decreases nodes.len(),
{
    if nodes.len() == 0 {
        None
    } else if pubkey_of(nodes[0]) == pk {
        Some(0int)
    } else {
        match pubkey_index(nodes.drop_first(), pk) {
            Some(i) => Some(i + 1),
            None => None,
        }
    }
}

pub proof fn lemma_pubkey_index_props(nodes: Seq<Node>, pk: Pubkey)
    ensures
        match pubkey_index(nodes, pk) {
            Some(i) => 0 <= i < nodes.len() && pubkey_of(nodes[i]) == pk && forall|j: int|
                0 <= j < i ==> pubkey_of(#[trigger] nodes[j]) != pk,
            None => forall|j: int| 0 <= j < nodes.len() ==> pubkey_of(#[trigger] nodes[j]) != pk,
        },
    decreases nodes.len(),
{
    if nodes.len() > 0 && pubkey_of(nodes[0]) != pk {
        lemma_pubkey_index_props(nodes.drop_first(), pk);
        assert forall|j: int| 1 <= j < nodes.len() implies nodes[j] == nodes.drop_first()[j - 1] by {}
    }
}

/// The sort rank of a row: stake first, identity second, both descending.
/// Ranks decode back to `(stake, identity)`, so rows with distinct
/// identities have distinct ranks.
pub open spec fn node_rank(n: Node) -> int {
    n.stake as int * 0x1_0000_0000_0000_0000 + pubkey_of(n).id as int
}

pub open spec fn sorted_desc(s: Seq<Node>) -> bool {
    forall|i: int, j: int| 0 <= i < j < s.len() ==> node_rank(s[i]) >= node_rank(s[j])
}

pub open spec fn unique_pubkeys(s: Seq<Node>) -> bool {
    forall|i: int, j: int| 0 <= i < j < s.len() ==> pubkey_of(s[i]) != pubkey_of(s[j])
}

pub open spec fn distinct_ranks(s: Seq<Node>) -> bool {
    forall|i: int, j: int| 0 <= i < j < s.len() ==> node_rank(s[i]) != node_rank(s[j])
}

pub proof fn lemma_unique_pubkeys_distinct_ranks(s: Seq<Node>)
    requires
        unique_pubkeys(s),
    ensures
        distinct_ranks(s),
{
    assert forall|i: int, j: int| 0 <= i < j < s.len() implies node_rank(s[i]) != node_rank(
        s[j],
    ) by {
        if node_rank(s[i]) == node_rank(s[j]) {
            lemma_rank_decodes(s[i], s[j]);
        }
    }
}

/// Equal ranks force equal stake and equal identity.
proof fn lemma_rank_decodes(a: Node, b: Node)
    requires
        node_rank(a) == node_rank(b),
    ensures
        a.stake == b.stake,
        pubkey_of(a) == pubkey_of(b),
{
    assert(pubkey_of(a).id < 0x1_0000_0000_0000_0000);
    assert(pubkey_of(b).id < 0x1_0000_0000_0000_0000);
}

/// A descending order with pairwise distinct ranks is determined by its
/// multiset: two validators that sort the same records agree on the whole
/// sequence.
pub proof fn lemma_sorted_order_deterministic(s1: Seq<Node>, s2: Seq<Node>)
    requires
        s1.to_multiset() == s2.to_multiset(),
        sorted_desc(s1),
        sorted_desc(s2),
        distinct_ranks(s1),
        distinct_ranks(s2),
    ensures
        s1 == s2,
    decreases s1.len(),
{
    assert(s1.len() == s1.to_multiset().len());
    assert(s2.len() == s2.to_multiset().len());
    if s1.len() == 0 {
        assert(s1 =~= s2);
    } else {
        let x1 = s1[0];
        let x2 = s2[0];
        assert(s1.contains(x1));
        assert(s1.to_multiset().count(x1) > 0);
        assert(s2.to_multiset().count(x1) > 0);
        assert(s2.contains(x1));
        assert(s2.to_multiset().count(x2) > 0);
        assert(s1.to_multiset().count(x2) > 0);
        assert(s1.contains(x2));
        let j = choose|j: int| 0 <= j < s2.len() && s2[j] == x1;
        let i = choose|i: int| 0 <= i < s1.len() && s1[i] == x2;
        assert(node_rank(x2) >= node_rank(s2[j]));
        assert(node_rank(x1) >= node_rank(s1[i]));
        assert(node_rank(x1) == node_rank(x2));
        if i != 0 && j != 0 {
            assert(node_rank(s1[0]) != node_rank(s1[i]));
            assert(false);
        }
        assert(x1 == x2);
        let t1 = s1.drop_first();
        let t2 = s2.drop_first();
        assert(s1 =~= seq![x1] + t1);
        assert(s2 =~= seq![x1] + t2);
        lemma_cons_multiset(x1, t1);
        lemma_cons_multiset(x1, t2);
        assert(t1.to_multiset() =~= s1.to_multiset().remove(x1));
        assert(t2.to_multiset() =~= s2.to_multiset().remove(x1));
        assert forall|i2: int, j2: int| 0 <= i2 < j2 < t1.len() implies node_rank(t1[i2])
            >= node_rank(t1[j2]) && node_rank(t1[i2]) != node_rank(t1[j2]) by {
            assert(t1[i2] == s1[i2 + 1] && t1[j2] == s1[j2 + 1]);
        }
        assert forall|i2: int, j2: int| 0 <= i2 < j2 < t2.len() implies node_rank(t2[i2])
            >= node_rank(t2[j2]) && node_rank(t2[i2]) != node_rank(t2[j2]) by {
            assert(t2[i2] == s2[i2 + 1] && t2[j2] == s2[j2 + 1]);
        }
        lemma_sorted_order_deterministic(t1, t2);
        assert(s1 =~= s2);
    }
}

/// The stake of each identity, as handed in by the caller.  Keys are unique;
/// identities that are absent hold no stake.
pub struct StakeMap {
    pub entries: Vec<(Pubkey, u64)>,
}

pub open spec fn stake_keys_unique(entries: Seq<(Pubkey, u64)>) -> bool {
    forall|i: int, j: int| 0 <= i < j < entries.len() ==> (#[trigger] entries[i]).0 != (
    #[trigger] entries[j]).0
}

/// The stake that `entries` assigns to `pk`, or zero.
pub open spec fn stake_of(entries: Seq<(Pubkey, u64)>, pk: Pubkey) -> u64
    decreases entries.len(),
{
    if entries.len() == 0 {
        0
    } else if entries[0].0 == pk {
        entries[0].1
    } else {
        stake_of(entries.drop_first(), pk)
    }
}

impl StakeMap {
    pub open spec fn wf(&self) -> bool {
        stake_keys_unique(self.entries@)
    }

    pub fn get(&self, pk: &Pubkey) -> (r: u64)
        ensures
            r == stake_of(self.entries@, *pk),
    {
        let n = self.entries.len();
        let mut i: usize = 0;
        proof {
            assert(self.entries@.skip(0) =~= self.entries@);
        }
        while i < n
            invariant
                n == self.entries@.len(),
                0 <= i <= n,
                stake_of(self.entries@, *pk) == stake_of(self.entries@.skip(i as int), *pk),
            decreases n - i,
        {
            proof {
                assert(self.entries@.skip(i as int)[0] == self.entries@[i as int]);
                assert(self.entries@.skip(i as int).drop_first() =~= self.entries@.skip(i + 1));
            }
            if self.entries[i].0 == *pk {
                return self.entries[i].1;
            }
            i = i + 1;
        }
        0
    }
}

/// The table row for a contact record: its identity's stake, or zero.
pub open spec fn contact_node(c: ContactInfo, stakes: Seq<(Pubkey, u64)>) -> Node {
    Node { node: NodeId::ContactInfo(c), stake: stake_of(stakes, c.id) }
}

pub open spec fn peer_nodes(peers: Seq<ContactInfo>, stakes: Seq<(Pubkey, u64)>) -> Seq<Node> {
    peers.map_values(|c: ContactInfo| contact_node(c, stakes))
}

/// Whether `pk` belongs to the local node or to a known peer contact.
pub open spec fn is_contact_id(pk: Pubkey, local: ContactInfo, peers: Seq<ContactInfo>) -> bool {
    pk == local.id || exists|i: int| 0 <= i < peers.len() && (#[trigger] peers[i]).id == pk
}

/// Bare rows: every staked identity with positive stake and no contact
/// record, in stake-map order.
pub open spec fn bare_nodes(
    entries: Seq<(Pubkey, u64)>,
    local: ContactInfo,
    peers: Seq<ContactInfo>,
) -> Seq<Node>
    decreases entries.len(),
{
    if entries.len() == 0 {
        Seq::<Node>::empty()
    } else {
        bare_nodes(entries.drop_last(), local, peers)
            + if entries.last().1 > 0 && !is_contact_id(entries.last().0, local, peers) {
                seq![Node { node: NodeId::Pubkey(entries.last().0), stake: entries.last().1 }]
            } else {
                Seq::<Node>::empty()
            }
    }
}

/// Everything the table is built from: the local node, every peer, and every
/// bare staked identity.
pub open spec fn candidate_nodes(
    local: ContactInfo,
    peers: Seq<ContactInfo>,
    stakes: Seq<(Pubkey, u64)>,
) -> Seq<Node> {
    seq![contact_node(local, stakes)] + peer_nodes(peers, stakes) + bare_nodes(
        stakes,
        local,
        peers,
    )
}

/// Every bare row's identity is a stake-map key outside the contacts, each
/// key at most once, with the entry's own stake.
proof fn lemma_bare_nodes_props(
    entries: Seq<(Pubkey, u64)>,
    local: ContactInfo,
    peers: Seq<ContactInfo>,
)
    requires
        stake_keys_unique(entries),
    ensures
        unique_pubkeys(bare_nodes(entries, local, peers)),
        forall|t: int|
            0 <= t < bare_nodes(entries, local, peers).len() ==> !is_contact_id(
                pubkey_of(#[trigger] bare_nodes(entries, local, peers)[t]),
                local,
                peers,
            ),
        forall|t: int|
            0 <= t < bare_nodes(entries, local, peers).len() ==> exists|i: int|
                0 <= i < entries.len() && (#[trigger] entries[i]).0 == pubkey_of(
                    #[trigger] bare_nodes(entries, local, peers)[t],
                ),
        forall|t: int|
            0 <= t < bare_nodes(entries, local, peers).len() ==> (#[trigger] bare_nodes(
                entries,
                local,
                peers,
            )[t]).node is Pubkey,
    decreases entries.len(),
{
    if entries.len() > 0 {
        let prev = bare_nodes(entries.drop_last(), local, peers);
        let cur = bare_nodes(entries, local, peers);
        assert(stake_keys_unique(entries.drop_last()));
        lemma_bare_nodes_props(entries.drop_last(), local, peers);
        assert forall|t: int|
            0 <= t < prev.len() implies exists|i: int|
                0 <= i < entries.len() && (#[trigger] entries[i]).0 == pubkey_of(
                    #[trigger] prev[t],
                ) by {
            let i = choose|i: int|
                0 <= i < entries.drop_last().len() && (#[trigger] entries.drop_last()[i]).0
                    == pubkey_of(prev[t]);
            assert(entries[i].0 == pubkey_of(prev[t]));
        }
        if entries.last().1 > 0 && !is_contact_id(entries.last().0, local, peers) {
            let x = Node { node: NodeId::Pubkey(entries.last().0), stake: entries.last().1 };
            assert(cur =~= prev.push(x));
            assert forall|t: int| 0 <= t < prev.len() implies pubkey_of(prev[t])
                != entries.last().0 by {
                let i = choose|i: int|
                    0 <= i < entries.drop_last().len() && (#[trigger] entries.drop_last()[i]).0
                        == pubkey_of(prev[t]);
                assert(entries[i].0 == pubkey_of(prev[t]));
                assert(entries[entries.len() - 1].0 == entries.last().0);
            }
        } else {
            assert(cur =~= prev);
        }
    }
}

/// Rows never share an identity: the peers are distinct and exclude the
/// local node, the stake keys are unique, and bare rows dodge the contacts.
pub proof fn lemma_candidates_unique(
    local: ContactInfo,
    peers: Seq<ContactInfo>,
    stakes: Seq<(Pubkey, u64)>,
)
    requires
        stake_keys_unique(stakes),
        forall|i: int, j: int|
            0 <= i < j < peers.len() ==> (#[trigger] peers[i]).id != (#[trigger] peers[j]).id,
        forall|i: int| 0 <= i < peers.len() ==> (#[trigger] peers[i]).id != local.id,
    ensures
        unique_pubkeys(candidate_nodes(local, peers, stakes)),
{
    let cand = candidate_nodes(local, peers, stakes);
    let pn = peer_nodes(peers, stakes);
    let bn = bare_nodes(stakes, local, peers);
    lemma_bare_nodes_props(stakes, local, peers);
    assert forall|i: int, j: int| 0 <= i < j < cand.len() implies pubkey_of(cand[i]) != pubkey_of(
        cand[j],
    ) by {
        let head: int = 1;
        let pe = head + pn.len();
        assert(cand.len() == pe + bn.len());
        assert(cand[0] == contact_node(local, stakes));
        if i >= head && i < pe {
            assert(cand[i] == pn[i - head]);
            assert(pn[i - head] == contact_node(peers[i - head], stakes));
        }
        if j >= head && j < pe {
            assert(cand[j] == pn[j - head]);
            assert(pn[j - head] == contact_node(peers[j - head], stakes));
        }
        if i >= pe {
            assert(cand[i] == bn[i - pe]);
        }
        if j >= pe {
            assert(cand[j] == bn[j - pe]);
        }
        if j < pe {
            // both among the contacts
        } else if i >= pe {
            // both bare
        } else {
            // i names a contact, j a bare row
            assert(!is_contact_id(pubkey_of(bn[j - pe]), local, peers));
            if i >= head {
                assert(peers[i - head].id == pubkey_of(cand[i]));
            }
        }
    }
}

proof fn lemma_cons_multiset(x: Node, rest: Seq<Node>)
    ensures
        (seq![x] + rest).to_multiset() == rest.to_multiset().insert(x),
    decreases rest.len(),
{
    if rest.len() == 0 {
        assert(seq![x] + rest =~= seq![x]);
        assert(seq![x] =~= Seq::<Node>::empty().push(x));
    } else {
        let all = seq![x] + rest;
        assert(all.drop_last() =~= seq![x] + rest.drop_last());
        assert(all =~= all.drop_last().push(rest.last()));
        assert(rest =~= rest.drop_last().push(rest.last()));
        lemma_cons_multiset(x, rest.drop_last());
        assert(all.to_multiset() =~= all.drop_last().to_multiset().insert(rest.last()));
        assert(rest.to_multiset() =~= rest.drop_last().to_multiset().insert(rest.last()));
        assert(all.to_multiset() =~= rest.to_multiset().insert(x));
    }
}

/// A permutation keeps identities unique.
pub proof fn lemma_permutation_unique_pubkeys(a: Seq<Node>, b: Seq<Node>)
    requires
        a.to_multiset() == b.to_multiset(),
        unique_pubkeys(a),
    ensures
        unique_pubkeys(b),
{
    assert(a.no_duplicates()) by {
        assert forall|i: int, j: int| 0 <= i < j < a.len() implies a[i] != a[j] by {
            assert(pubkey_of(a[i]) != pubkey_of(a[j]));
        }
    }
    a.lemma_multiset_has_no_duplicates();
    assert forall|x: Node| b.to_multiset().contains(x) implies b.to_multiset().count(x) == 1 by {
        assert(a.to_multiset().count(x) == b.to_multiset().count(x));
    }
    b.lemma_multiset_has_no_duplicates_conv();
    assert forall|i: int, j: int| 0 <= i < j < b.len() implies pubkey_of(b[i]) != pubkey_of(
        b[j],
    ) by {
        assert(b[i] != b[j]);
        if pubkey_of(b[i]) == pubkey_of(b[j]) {
            assert(b.contains(b[i]));
            assert(b.to_multiset().count(b[i]) > 0);
            assert(a.to_multiset().count(b[i]) > 0);
            assert(a.contains(b[i]));
            assert(b.contains(b[j]));
            assert(b.to_multiset().count(b[j]) > 0);
            assert(a.to_multiset().count(b[j]) > 0);
            assert(a.contains(b[j]));
            let ai = choose|t: int| 0 <= t < a.len() && a[t] == b[i];
            let aj = choose|t: int| 0 <= t < a.len() && a[t] == b[j];
            assert(ai != aj);
            assert(false);
        }
    }
}

/// True when the rank of `a` is above the rank of `b`.
fn node_rank_gt(a: &Node, b: &Node) -> (r: bool)
    ensures
        r == (node_rank(*a) > node_rank(*b)),
{
    let pa = a.pubkey();
    let pb = b.pubkey();
    if a.stake != b.stake {
        a.stake > b.stake
    } else {
        pa.id > pb.id
    }
}

/// Sorts rows descending by `(stake, identity)`.
pub fn sort_nodes_desc(v: Vec<Node>) -> (out: Vec<Node>)
    ensures
        out@.to_multiset() == v@.to_multiset(),
        sorted_desc(out@),
{
    let mut rem = v;
    let ghost orig = rem@;
    let mut out: Vec<Node> = Vec::new();
    proof {
        assert(out@.to_multiset().add(rem@.to_multiset()) =~= orig.to_multiset());
    }
    while rem.len() > 0
        invariant
            out@.to_multiset().add(rem@.to_multiset()) == orig.to_multiset(),
            sorted_desc(out@),
            forall|i: int, j: int|
                0 <= i < out@.len() && 0 <= j < rem@.len() ==> node_rank(#[trigger] out@[i])
                    >= node_rank(#[trigger] rem@[j]),
        decreases rem@.len(),
    {
        let n = rem.len();
        let mut k: usize = 0;
        let mut t: usize = 1;
        while t < n
            invariant
                n == rem@.len(),
                0 <= k < t <= n,
                forall|j: int| 0 <= j < t ==> node_rank(rem@[k as int]) >= node_rank(
                    #[trigger] rem@[j],
                ),
            decreases n - t,
        {
            if node_rank_gt(&rem[t], &rem[k]) {
                k = t;
            }
            t = t + 1;
        }
        let x = rem[k];
        let ghost out_pre = out@;
        let ghost rem_pre = rem@;
        out.push(x);
        rem.remove(k);
        proof {
            assert(rem@ =~= rem_pre.remove(k as int));
            assert(rem@.to_multiset() =~= rem_pre.to_multiset().remove(x));
            assert(out@ =~= out_pre.push(x));
            assert(out@.to_multiset() =~= out_pre.to_multiset().insert(x));
            assert(rem_pre.contains(x));
            assert(rem_pre.to_multiset().count(x) > 0);
            assert(out@.to_multiset().add(rem@.to_multiset()) =~= orig.to_multiset());
            assert forall|i: int, j: int|
                0 <= i < out@.len() && 0 <= j < rem@.len() implies node_rank(#[trigger] out@[i])
                >= node_rank(#[trigger] rem@[j]) by {
                if j < k {
                    assert(rem@[j] == rem_pre[j]);
                } else {
                    assert(rem@[j] == rem_pre[j + 1]);
                }
                if i < out_pre.len() {
                    assert(out@[i] == out_pre[i]);
                } else {
                    assert(out@[i] == x);
                }
            }
        }
    }
    proof {
        assert(rem@.to_multiset() =~= Multiset::<Node>::empty());
        assert(out@.to_multiset() =~= out@.to_multiset().add(rem@.to_multiset()));
    }
    out
}

/// Whether `pk` is the local identity or one of the peer contacts.
fn contains_contact_id(local: &ContactInfo, peers: &Vec<ContactInfo>, pk: &Pubkey) -> (r: bool)
    ensures
        r == is_contact_id(*pk, *local, peers@),
{
    if local.id == *pk {
        return true;
    }
    let n = peers.len();
    let mut i: usize = 0;
    while i < n
        invariant
            n == peers@.len(),
            0 <= i <= n,
            local.id != *pk,
            forall|j: int| 0 <= j < i ==> (#[trigger] peers@[j]).id != *pk,
        decreases n - i,
    {
        if peers[i].id == *pk {
            return true;
        }
        i = i + 1;
    }
    false
}

/// Assembles the node table: the local node, every peer contact, and every
/// staked identity without a contact record, sorted by `(stake, identity)`
/// descending, one row per identity.  The multiset of rows, and with it the
/// whole order, is a function of the inputs alone.
pub fn get_nodes(local: &ContactInfo, peers: &Vec<ContactInfo>, stakes: &StakeMap) -> (out: Vec<
    Node,
>)
    requires
        stakes.wf(),
        forall|i: int, j: int|
            0 <= i < j < peers@.len() ==> (#[trigger] peers@[i]).id != (#[trigger] peers@[j]).id,
        forall|i: int| 0 <= i < peers@.len() ==> (#[trigger] peers@[i]).id != local.id,
    ensures
        out@.to_multiset() == candidate_nodes(*local, peers@, stakes.entries@).to_multiset(),
        sorted_desc(out@),
        unique_pubkeys(out@),
{
    let mut cand: Vec<Node> = Vec::new();
    let local_stake = stakes.get(&local.id);
    cand.push(Node { node: NodeId::ContactInfo(*local), stake: local_stake });
    proof {
        assert(cand@ =~= seq![contact_node(*local, stakes.entries@)] + peer_nodes(
            peers@.take(0),
            stakes.entries@,
        ));
        assert(peer_nodes(peers@.take(0), stakes.entries@) =~= Seq::<Node>::empty());
    }
    let np = peers.len();
    let mut i: usize = 0;
    while i < np
        invariant
            np == peers@.len(),
            0 <= i <= np,
            stakes.wf(),
            cand@ == seq![contact_node(*local, stakes.entries@)] + peer_nodes(
                peers@.take(i as int),
                stakes.entries@,
            ),
        decreases np - i,
    {
        let p = peers[i];
        let s = stakes.get(&p.id);
        cand.push(Node { node: NodeId::ContactInfo(p), stake: s });
        proof {
            assert(peers@.take(i + 1) =~= peers@.take(i as int).push(peers@[i as int]));
            assert(peer_nodes(peers@.take(i + 1), stakes.entries@) =~= peer_nodes(
                peers@.take(i as int),
                stakes.entries@,
            ).push(contact_node(peers@[i as int], stakes.entries@)));
            assert(cand@ =~= seq![contact_node(*local, stakes.entries@)] + peer_nodes(
                peers@.take(i + 1),
                stakes.entries@,
            ));
        }
        i = i + 1;
    }
    proof {
        assert(peers@.take(np as int) =~= peers@);
    }
    let ghost base = cand@;
    let ns = stakes.entries.len();
    let mut t: usize = 0;
    while t < ns
        invariant
            ns == stakes.entries@.len(),
            0 <= t <= ns,
            stakes.wf(),
            cand@ == base + bare_nodes(stakes.entries@.take(t as int), *local, peers@),
        decreases ns - t,
    {
        let entry = stakes.entries[t];
        proof {
            assert(stakes.entries@.take(t + 1).drop_last() =~= stakes.entries@.take(t as int));
            assert(stakes.entries@.take(t + 1).last() == stakes.entries@[t as int]);
        }
        if entry.1 > 0 && !contains_contact_id(local, peers, &entry.0) {
            cand.push(Node { node: NodeId::Pubkey(entry.0), stake: entry.1 });
            proof {
                assert(cand@ =~= base + bare_nodes(
                    stakes.entries@.take(t + 1),
                    *local,
                    peers@,
                ));
            }
        } else {
            proof {
                assert(bare_nodes(stakes.entries@.take(t + 1), *local, peers@) =~= bare_nodes(
                    stakes.entries@.take(t as int),
                    *local,
                    peers@,
                ));
            }
        }
        t = t + 1;
    }
    proof {
        assert(stakes.entries@.take(ns as int) =~= stakes.entries@);
        assert(cand@ =~= candidate_nodes(*local, peers@, stakes.entries@));
        lemma_candidates_unique(*local, peers@, stakes.entries@);
    }
    let out = sort_nodes_desc(cand);
    proof {
        lemma_permutation_unique_pubkeys(
            candidate_nodes(*local, peers@, stakes.entries@),
            out@,
        );
    }
    out
}

/// Building the table twice from one stake map and one cluster view gives
/// identical `nodes` orders: the rows are a function of the inputs, and a
/// descending order over unique identities is unique.
pub proof fn lemma_node_table_deterministic(
    out1: Seq<Node>,
    out2: Seq<Node>,
    local: ContactInfo,
    peers: Seq<ContactInfo>,
    stakes: Seq<(Pubkey, u64)>,
)
    requires
        out1.to_multiset() == candidate_nodes(local, peers, stakes).to_multiset(),
        out2.to_multiset() == candidate_nodes(local, peers, stakes).to_multiset(),
        sorted_desc(out1),
        sorted_desc(out2),
        unique_pubkeys(out1),
        unique_pubkeys(out2),
    ensures
        out1 == out2,
{
    lemma_unique_pubkeys_distinct_ranks(out1);
    lemma_unique_pubkeys_distinct_ranks(out2);
    lemma_sorted_order_deterministic(out1, out2);
}

} // verus!
