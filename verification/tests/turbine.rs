use rand::Rng;
use rand::SeedableRng;
use sha2::Digest;
use turbine_broadcast::bank::{BankView, EpochSchedule};
use turbine_broadcast::cache::ClusterNodesCache;
use turbine_broadcast::cluster::{ClusterNodes, ShredDistributionStakes, SocketAddrSpace, TableKind, new_cluster_nodes};
use turbine_broadcast::node::{ContactInfo, NodeId, Pubkey, SockAddr, StakeMap};
use turbine_broadcast::shred::Shred;
use turbine_broadcast::shuffle::{WeightedShuffle, WeightedShuffleError};

fn contact(id: u64, wallclock: u64) -> ContactInfo {
    ContactInfo {
        id: Pubkey { id },
        tvu: SockAddr { ip: 0x0a00_0000 + id as u32, port: 8000 },
        tvu_forwards: SockAddr { ip: 0x0a00_0000 + id as u32, port: 8001 },
        wallclock,
    }
}

fn make_cluster(rng: &mut rand_chacha::ChaCha20Rng) -> (Vec<ContactInfo>, StakeMap, ContactInfo) {
    let mut nodes: Vec<ContactInfo> = (1..=1000u64).map(|id| contact(id, 1_000)).collect();
    let this_node = nodes[0];
    let mut stakes: Vec<(Pubkey, u64)> = Vec::new();
    for node in &nodes {
        if rng.gen_range(0..7u32) != 0 {
            stakes.push((node.id, rng.gen_range(0..20u64)));
        }
    }
    // Staked identities with no contact info.
    for id in 2000..2100u64 {
        stakes.push((Pubkey { id }, rng.gen_range(0..20u64)));
    }
    nodes.remove(0);
    (nodes, StakeMap { entries: stakes }, this_node)
}

fn default_bank(activated: bool) -> BankView {
    BankView {
        slot: 0,
        parent_slot: 0,
        epoch_schedule: EpochSchedule { slots_per_epoch: 432_000 },
        turbine_shuffle_activation: if activated { Some(0) } else { None },
        total_epoch_stake: 0,
        epoch_stakes: Vec::new(),
        ticks_per_slot: 64,
        max_tick_height: 64,
        tick_height: 0,
    }
}

#[test]
fn test_weighted_shuffle_is_permutation() {
    let weights: Vec<u64> = vec![5, 0, 3, 1, 0, 9, 2, 0, 4, 7];
    let ws = WeightedShuffle::new(&weights).unwrap();
    let seed = [7u8; 32];
    let order = ws.shuffle(&seed);
    assert_eq!(order.len(), weights.len());
    let mut seen = vec![false; weights.len()];
    for &i in &order {
        assert!(!seen[i]);
        seen[i] = true;
    }
    assert!(seen.iter().all(|&b| b));
    // Zero-weight indices come after every positive one.
    let positions: Vec<usize> = (0..weights.len())
        .map(|i| order.iter().position(|&x| x == i).unwrap())
        .collect();
    for i in 0..weights.len() {
        for j in 0..weights.len() {
            if weights[i] > 0 && weights[j] == 0 {
                assert!(positions[i] < positions[j]);
            }
        }
    }
}

#[test]
fn test_weighted_shuffle_deterministic() {
    let weights: Vec<u64> = (0..100).map(|i| (i * 37 + 11) % 50).collect();
    let ws = WeightedShuffle::new(&weights).unwrap();
    let seed = [42u8; 32];
    let a = ws.shuffle(&seed);
    let b = ws.shuffle(&seed);
    assert_eq!(a, b);
    let c = ws.shuffle(&[43u8; 32]);
    assert_ne!(a, c);
    assert_eq!(ws.first(&seed), Some(a[0]));
}

#[test]
fn test_weighted_shuffle_matches_chacha_stream() {
    // Replays the draw sequence against the raw stream cipher, so a wrapper
    // that ignored its seed or its bound would be caught.
    let weights: Vec<u64> = vec![4, 1, 3];
    let ws = WeightedShuffle::new(&weights).unwrap();
    let seed = [9u8; 32];
    let order = ws.shuffle(&seed);
    let mut rng = rand_chacha::ChaCha20Rng::from_seed(seed);
    let mut rem: Vec<usize> = vec![0, 1, 2];
    let mut w = weights.clone();
    let mut expect = Vec::new();
    let mut sum: u64 = 8;
    while !rem.is_empty() {
        let r = rng.gen_range(0..sum);
        let mut acc = 0u64;
        let mut k = 0;
        for (pos, &i) in rem.iter().enumerate() {
            if pos + 1 == rem.len() {
                k = pos;
                break;
            }
            if acc + w[i] > r {
                k = pos;
                break;
            }
            acc += w[i];
        }
        let i = rem.remove(k);
        sum -= w[i];
        w[i] = 0;
        expect.push(i);
    }
    assert_eq!(order, expect);
}

#[test]
fn test_weighted_shuffle_errors() {
    assert!(matches!(
        WeightedShuffle::new(&vec![0, 0, 0]),
        Err(WeightedShuffleError::InvalidWeights)
    ));
    assert!(matches!(
        WeightedShuffle::new(&vec![u64::MAX, u64::MAX]),
        Err(WeightedShuffleError::WeightsOverflow)
    ));
    let empty = WeightedShuffle::new(&Vec::new()).unwrap();
    assert_eq!(empty.shuffle(&[0u8; 32]).len(), 0);
    assert_eq!(empty.first(&[0u8; 32]), None);
}

#[test]
fn test_remove_index_never_yields() {
    let weights: Vec<u64> = vec![10, 20, 30, 40];
    let mut ws = WeightedShuffle::new(&weights).unwrap();
    ws.remove_index(2);
    let order = ws.shuffle(&[5u8; 32]);
    assert_eq!(order.len(), 3);
    assert!(!order.contains(&2));
}

#[test]
fn test_node_table_deterministic() {
    let mut rng = rand_chacha::ChaCha20Rng::from_seed([1u8; 32]);
    let (peers, stakes, this_node) = make_cluster(&mut rng);
    let a = new_cluster_nodes(&this_node, &peers, &stakes, TableKind::Retransmit);
    let b = new_cluster_nodes(&this_node, &peers, &stakes, TableKind::Retransmit);
    assert_eq!(a.nodes.len(), b.nodes.len());
    for (x, y) in a.nodes.iter().zip(b.nodes.iter()) {
        assert_eq!(x, y);
    }
    // Sorted by (stake, identity) descending, one row per identity.
    for w in a.nodes.windows(2) {
        let ka = (w[0].stake, w[0].pubkey().id);
        let kb = (w[1].stake, w[1].pubkey().id);
        assert!(ka > kb);
    }
}

#[test]
fn test_cluster_nodes_retransmit() {
    let mut rng = rand_chacha::ChaCha20Rng::from_seed([2u8; 32]);
    let (peers, stakes, this_node) = make_cluster(&mut rng);
    let cluster_nodes = new_cluster_nodes(&this_node, &peers, &stakes, TableKind::Retransmit);
    // All nodes with contact info are in the compat index.
    assert_eq!(cluster_nodes.compat_index.len(), peers.len() + 1);
    // Staked nodes with no contact info are included.
    assert!(cluster_nodes.nodes.len() > peers.len() + 1);
    // All nodes keep their contact info and staked nodes their stake.
    for peer in &peers {
        let row = cluster_nodes
            .nodes
            .iter()
            .find(|n| n.pubkey() == peer.id)
            .unwrap();
        assert_eq!(row.contact_info().unwrap().id, peer.id);
    }
    for (pubkey, stake) in &stakes.entries {
        if *stake > 0 {
            let row = cluster_nodes
                .nodes
                .iter()
                .find(|n| n.pubkey() == *pubkey)
                .unwrap();
            assert_eq!(row.stake, *stake);
        }
    }
    // Compat weights are stakes floored at one.
    for &(w, idx) in &cluster_nodes.compat_index {
        assert_eq!(w, cluster_nodes.nodes[idx].stake.max(1));
        assert!(cluster_nodes.nodes[idx].contact_info().is_some());
    }
}

#[test]
fn test_cluster_nodes_broadcast() {
    let mut rng = rand_chacha::ChaCha20Rng::from_seed([3u8; 32]);
    let (peers, stakes, this_node) = make_cluster(&mut rng);
    let cluster_nodes = ClusterNodes::new(&this_node, &peers, &stakes, TableKind::Broadcast);
    // The compat index excludes the node itself.
    assert_eq!(cluster_nodes.compat_index.len(), peers.len());
    for &(_, idx) in &cluster_nodes.compat_index {
        assert_ne!(cluster_nodes.nodes[idx].pubkey(), this_node.id);
    }
    // The broadcast peer is deterministic and has contact info.
    let seed = [11u8; 32];
    let p1 = cluster_nodes.get_broadcast_peer(&seed);
    let p2 = cluster_nodes.get_broadcast_peer(&seed);
    assert_eq!(p1, p2);
    assert!(p1.is_some());
}

#[test]
fn test_retransmit_peers_exclude_leader() {
    let mut rng = rand_chacha::ChaCha20Rng::from_seed([4u8; 32]);
    let (peers, stakes, this_node) = make_cluster(&mut rng);
    let cluster_nodes = new_cluster_nodes(&this_node, &peers, &stakes, TableKind::Retransmit);
    let bank = default_bank(true);
    let shred = Shred::new_from_data(100, 7, 1, &[1, 2, 3], false, false, 0, 0, 0);
    let leader = peers[17].id;
    let (neighbors, children) =
        cluster_nodes.get_retransmit_peers(&leader, &shred, &bank, 200);
    assert!(!neighbors.is_empty());
    for n in neighbors.iter().chain(children.iter()) {
        assert_ne!(n.pubkey(), leader);
    }
    // Deterministic across invocations.
    let (n2, c2) = cluster_nodes.get_retransmit_peers(&leader, &shred, &bank, 200);
    assert_eq!(neighbors, n2);
    assert_eq!(children, c2);
    let addrs = cluster_nodes.get_retransmit_addrs(&leader, &shred, &bank, 200);
    let addrs2 = cluster_nodes.get_retransmit_addrs(&leader, &shred, &bank, 200);
    assert_eq!(addrs, addrs2);
}

#[test]
fn test_leader_keeps_own_position() {
    // The local node leading its own slot is not removed from the shuffle
    // and still finds its place in the tree.
    let mut rng = rand_chacha::ChaCha20Rng::from_seed([5u8; 32]);
    let (peers, stakes, this_node) = make_cluster(&mut rng);
    let cluster_nodes = new_cluster_nodes(&this_node, &peers, &stakes, TableKind::Retransmit);
    let bank = default_bank(true);
    let shred = Shred::new_from_data(100, 7, 1, &[1, 2, 3], false, false, 0, 0, 0);
    let (neighbors, _children) =
        cluster_nodes.get_retransmit_peers(&this_node.id, &shred, &bank, 10);
    assert!(neighbors.iter().any(|n| n.pubkey() == this_node.id));
}

#[test]
fn test_stale_peer_fallback() {
    // Every contact is stale, so the broadcast root is rejected and the
    // resolver falls through to the neighborhood enumeration, which still
    // produces recipients.
    let mut rng = rand_chacha::ChaCha20Rng::from_seed([6u8; 32]);
    let (peers, stakes, this_node) = make_cluster(&mut rng);
    let cluster_nodes = ClusterNodes::new(&this_node, &peers, &stakes, TableKind::Broadcast);
    let bank = default_bank(true);
    let shred = Shred::new_from_data(100, 7, 1, &[1, 2, 3], false, false, 0, 0, 0);
    let now_stale = 1_000 + 300_000;  // every wallclock is 1_000
    let addrs_stale = cluster_nodes.get_broadcast_addrs(
        &shred,
        &bank,
        200,
        &SocketAddrSpace::Unspecified,
        now_stale,
    );
    assert!(!addrs_stale.is_empty());
    assert!(addrs_stale.len() > 1);
    // With fresh contacts and no bare rows, the resolver returns the single
    // preferred root.
    let peers2: Vec<ContactInfo> = (2..=6u64).map(|id| contact(id, 1_000)).collect();
    let this2 = contact(1, 1_000);
    let stakes2 = StakeMap {
        entries: (1..=6u64).map(|id| (Pubkey { id }, 10 * id)).collect(),
    };
    let cn2 = ClusterNodes::new(&this2, &peers2, &stakes2, TableKind::Broadcast);
    let addrs_fresh = cn2.get_broadcast_addrs(
        &shred,
        &bank,
        200,
        &SocketAddrSpace::Unspecified,
        1_500,
    );
    assert_eq!(addrs_fresh.len(), 1);
}

#[test]
fn test_cache_single_flight() {
    let mut rng = rand_chacha::ChaCha20Rng::from_seed([8u8; 32]);
    let (peers, stakes, this_node) = make_cluster(&mut rng);
    let mut bank = default_bank(true);
    bank.epoch_stakes = vec![(1, StakeMap { entries: stakes.entries.clone() })];
    let working = default_bank(true);
    let mut cache = ClusterNodesCache::new(8, 5_000, TableKind::Broadcast);
    let (first, rebuilt1) = cache.get(10, &bank, &working, &this_node, &peers, 1_000);
    assert!(rebuilt1);
    // Every caller within the refresh period sees the cached snapshot and
    // triggers no rebuild.
    for _ in 0..8 {
        let (again, rebuilt) = cache.get(10, &bank, &working, &this_node, &peers, 2_000);
        assert!(!rebuilt);
        assert_eq!(again.nodes.len(), first.nodes.len());
        for (x, y) in again.nodes.iter().zip(first.nodes.iter()) {
            assert_eq!(x, y);
        }
    }
    // Past the refresh period the table is rebuilt.
    let (_, rebuilt3) = cache.get(10, &bank, &working, &this_node, &peers, 7_000);
    assert!(rebuilt3);
}

#[test]
fn test_cache_eviction() {
    let mut rng = rand_chacha::ChaCha20Rng::from_seed([9u8; 32]);
    let (peers, stakes, this_node) = make_cluster(&mut rng);
    let mut bank = default_bank(true);
    bank.epoch_stakes = vec![
        (1, StakeMap { entries: stakes.entries.clone() }),
        (4, StakeMap { entries: stakes.entries.clone() }),
    ];
    let working = default_bank(true);
    let mut cache = ClusterNodesCache::new(1, 1_000_000, TableKind::Broadcast);
    let (_, r1) = cache.get(10, &bank, &working, &this_node, &peers, 1_000);
    assert!(r1);
    // A different epoch evicts the only slot.
    let slot_in_epoch_4 = 432_000 * 3 + 5;
    let (_, r2) = cache.get(slot_in_epoch_4, &bank, &working, &this_node, &peers, 1_000);
    assert!(r2);
    // The first epoch must be rebuilt again.
    let (_, r3) = cache.get(10, &bank, &working, &this_node, &peers, 1_100);
    assert!(r3);
}

#[test]
fn test_cache_missing_stakes_fallback() {
    // The target epoch's stakes are unknown to both banks, so the rebuild
    // falls back once to the root bank's own leader-schedule epoch and
    // caches the snapshot under it.
    let peers: Vec<ContactInfo> = (2..=4u64).map(|id| contact(id, 1_000)).collect();
    let this_node = contact(1, 1_000);
    let stakes = StakeMap {
        entries: vec![(Pubkey { id: 2 }, 50), (Pubkey { id: 77 }, 9)],
    };
    let mut bank = default_bank(true);
    // The root bank's own leader-schedule epoch is 1 (slot 0).
    bank.epoch_stakes = vec![(1, StakeMap { entries: stakes.entries.clone() })];
    let working = default_bank(true);
    let mut cache = ClusterNodesCache::new(8, 5_000, TableKind::Broadcast);
    let slot_in_epoch_4 = 432_000 * 3 + 5;
    let (table, rebuilt) = cache.get(slot_in_epoch_4, &bank, &working, &this_node, &peers, 1_000);
    assert!(rebuilt);
    // The fallback stakes were used: the bare staked identity is present.
    assert!(table.nodes.iter().any(|n| n.pubkey() == Pubkey { id: 77 }));
    // The snapshot is cached under the fallback epoch, so a lookup whose
    // target is that epoch hits it without rebuilding.
    let (_, rebuilt2) = cache.get(10, &bank, &working, &this_node, &peers, 2_000);
    assert!(!rebuilt2);

    // With no stakes anywhere the table is built from an empty map:
    // contacts only, no bare rows.
    let bare_bank = default_bank(true);
    let mut cache2 = ClusterNodesCache::new(8, 5_000, TableKind::Broadcast);
    let (table2, rebuilt3) = cache2.get(10, &bare_bank, &bare_bank, &this_node, &peers, 1_000);
    assert!(rebuilt3);
    assert_eq!(table2.nodes.len(), peers.len() + 1);
}

#[test]
fn test_num_peers_live() {
    let peers = vec![contact(2, 1_000), contact(3, 50_000)];
    let this_node = contact(1, 1_000);
    let stakes = StakeMap { entries: vec![(Pubkey { id: 2 }, 5)] };
    let cn = new_cluster_nodes(&this_node, &peers, &stakes, TableKind::Retransmit);
    assert_eq!(cn.num_peers(), 3);
    // At time 10_000 the contacts at wallclock 1_000 are within the gossip
    // timeout; the one at 50_000 is not.
    assert_eq!(cn.num_peers_live(10_000), 2);
    assert_eq!(cn.num_peers_live(60_000), 1);
}

#[test]
fn test_get_shred_distribution_stakes() {
    let mut rng = rand_chacha::ChaCha20Rng::from_seed([12u8; 32]);
    let (peers, stakes, this_node) = make_cluster(&mut rng);
    let cluster_nodes = new_cluster_nodes(&this_node, &peers, &stakes, TableKind::Retransmit);
    let bank = default_bank(true);
    let leader = peers[0].id;
    const MAX_STAKE_PER_NODE: u64 = 19;

    for fanout in [10usize, 200] {
        for index in 0..5u32 {
            let shred = Shred::new_from_data(100, index, 1, &[1, 2, 3], false, false, 0, 0, 0);
            let shred_stakes =
                cluster_nodes.get_shred_distribution_stakes(&shred, &bank, fanout, &leader);
            let max_stake_per_neighborhood = MAX_STAKE_PER_NODE * fanout as u64;
            assert!(shred_stakes.neighborhood <= max_stake_per_neighborhood);
            assert!(shred_stakes.parent_neighborhood <= max_stake_per_neighborhood);
            let by_index = cluster_nodes
                .get_deterministic_shred_distribution_stakes_by_slot_and_index(
                    100, index, &leader, fanout,
                );
            assert_eq!(shred_stakes, by_index);
            assert!(shred_stakes.total() <= 2 * max_stake_per_neighborhood);
        }
    }
    // With the shuffle feature off the profile is empty.
    let off = default_bank(false);
    let shred = Shred::new_from_data(100, 0, 1, &[1], false, false, 0, 0, 0);
    let stakes0 = cluster_nodes.get_shred_distribution_stakes(&shred, &off, 10, &leader);
    assert_eq!(stakes0, ShredDistributionStakes::default());
}

#[test]
fn test_node_id_from() {
    let c = contact(5, 0);
    assert_eq!(NodeId::from(c), NodeId::ContactInfo(c));
    let pk = Pubkey { id: 9 };
    assert_eq!(NodeId::from(pk), NodeId::Pubkey(pk));
}

#[test]
fn test_shred_seed_matches_digest() {
    let shred = Shred::new_from_data(100, 7, 1, &[1, 2, 3], false, false, 0, 0, 0);
    let leader = Pubkey { id: 77 };
    let seed = shred.seed(&leader);
    let mut hasher = sha2::Sha256::new();
    hasher.update(100u64.to_le_bytes());
    hasher.update(7u64.to_le_bytes());
    hasher.update(77u64.to_le_bytes());
    let digest = hasher.finalize();
    assert_eq!(&seed[..], &digest[..]);
    assert_eq!(seed, shred.seed(&leader));
    assert_ne!(seed, Shred::new_from_data(100, 8, 1, &[], false, false, 0, 0, 0).seed(&leader));
}
