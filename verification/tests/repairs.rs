use turbine_broadcast::repair::{
    BlockstoreView, ForkTree, GenericTraversal, ShredRepairType, SlotInfo, SlotMeta,
    get_closest_completion, get_unknown_last_index,
};

fn meta(parent: u64, received: u64, last_index: Option<u64>) -> SlotMeta {
    SlotMeta { consumed: 2, received, last_index, is_full: false, parent_slot: parent }
}

fn setup_forks() -> (BlockstoreView, ForkTree) {
    // Fork structure:
    //      slot 0
    //        |
    //      slot 1
    //      /    \
    //  slot 2   slot 3
    //     |       |
    //  slot 4   slot 5
    let tree = ForkTree {
        root: 0,
        children: vec![
            (0, vec![1]),
            (1, vec![2, 3]),
            (2, vec![4]),
            (3, vec![5]),
        ],
    };
    let parents = [0u64, 0, 1, 1, 2, 3];
    let blockstore = BlockstoreView {
        slots: (0..=5u64)
            .map(|slot| SlotInfo {
                slot,
                meta: Some(meta(parents[slot as usize], 7, None)),
                num_shreds_index: Some(2),
            })
            .collect(),
    };
    (blockstore, tree)
}

#[test]
fn test_get_unknown_last_index() {
    let (blockstore, tree) = setup_forks();
    let last_shred = 7;
    let mut processed_slots: Vec<u64> = Vec::new();
    let repairs = get_unknown_last_index(&tree, &blockstore, &mut processed_slots, 10, 100);
    assert_eq!(
        repairs,
        [0u64, 1, 3, 5, 2, 4]
            .iter()
            .map(|slot| ShredRepairType::HighestShred(*slot, last_shred))
            .collect::<Vec<_>>()
    );
}

#[test]
fn test_get_unknown_last_index_ordering() {
    let (mut blockstore, tree) = setup_forks();
    // Slot 4 has received the most shreds, slot 2 the fewest; slot 3
    // already knows its last index and is never asked.
    blockstore.slots[4].meta = Some(meta(2, 30, None));
    blockstore.slots[2].meta = Some(meta(1, 1, None));
    blockstore.slots[4].num_shreds_index = Some(25);
    blockstore.slots[3].meta = Some(meta(1, 9, Some(8)));
    let mut processed_slots: Vec<u64> = vec![5];
    let repairs = get_unknown_last_index(&tree, &blockstore, &mut processed_slots, 3, 100);
    assert_eq!(
        repairs,
        vec![
            ShredRepairType::HighestShred(4, 30),
            ShredRepairType::HighestShred(0, 7),
            ShredRepairType::HighestShred(1, 7),
        ]
    );
    assert!(processed_slots.contains(&5));
    assert!(processed_slots.contains(&4));
    assert!(!processed_slots.contains(&3));
}

#[test]
fn test_get_closest_completion() {
    let (blockstore, tree) = setup_forks();
    // No slot knows its last index, so nothing is close to completion.
    let mut processed_slots: Vec<u64> = Vec::new();
    let repairs = get_closest_completion(&tree, &blockstore, &mut processed_slots, 10, 100);
    assert_eq!(repairs, Vec::<u64>::new());
}

#[test]
fn test_get_closest_completion_orders_by_distance() {
    let (mut blockstore, tree) = setup_forks();
    // Slot 5 lacks one shred, slot 4 lacks ten; each drags its unfinished
    // ancestors in front of it, root first, without repeats.
    blockstore.slots[5].meta = Some(meta(3, 9, Some(3)));
    blockstore.slots[5].num_shreds_index = Some(2);
    blockstore.slots[4].meta = Some(meta(2, 14, Some(12)));
    blockstore.slots[4].num_shreds_index = Some(2);
    let mut processed_slots: Vec<u64> = Vec::new();
    let repairs = get_closest_completion(&tree, &blockstore, &mut processed_slots, 10, 100);
    assert_eq!(repairs, vec![0, 1, 3, 5, 2, 4]);
    let mut processed_slots: Vec<u64> = Vec::new();
    let limited = get_closest_completion(&tree, &blockstore, &mut processed_slots, 3, 100);
    assert_eq!(limited, vec![0, 1, 3]);
}

#[test]
fn test_generic_traversal_order() {
    let (_, tree) = setup_forks();
    let mut iter = GenericTraversal::new(&tree);
    let mut order = Vec::new();
    while let Some(slot) = iter.next() {
        order.push(slot);
    }
    assert_eq!(order, vec![0, 1, 3, 5, 2, 4]);
}
