use turbine_broadcast::shred::{Shred, ShredKindInfo, DATA_SHRED_PAYLOAD_CAPACITY};
use turbine_broadcast::shredder::{BroadcastMissingShredsRun, ReceiveResults, fec_set_index, make_data_shreds};

fn receive(slot: u64, parent: u64, data: Vec<u8>, last_tick: u64) -> ReceiveResults {
    ReceiveResults {
        serialized_entries: data,
        slot,
        parent_slot: parent,
        last_tick_height: last_tick,
        max_tick_height: 64,
        ticks_per_slot: 64,
        tick_height: 0,
    }
}

#[test]
fn test_single_entry_slot_end() {
    // One entry worth one data shred, closing the slot: a data batch of one
    // shred at index zero flagged last-in-slot, a coding batch for the
    // one-shred group, and an expected batch count of two.
    let mut run = BroadcastMissingShredsRun::new(0);
    let data = vec![42u8; 100];
    let out = run.process_receive_results(&receive(1, 0, data.clone(), 64), None, 1_000);
    assert!(out.prev_slot_shreds.is_empty());
    assert!(out.prev_slot_batch_info.is_none());
    assert_eq!(out.data_shreds.len(), 1);
    let shred = &out.data_shreds[0];
    assert_eq!(shred.slot, 1);
    assert_eq!(shred.index, 0);
    assert_eq!(shred.fec_set_index, 0);
    assert!(shred.last_in_slot());
    assert_eq!(shred.payload, data);
    assert!(out.first_shred_index_zero);
    assert_eq!(out.coding_shreds.len(), 1);
    match out.coding_shreds[0].kind {
        ShredKindInfo::Coding { position, num_data, num_code } => {
            assert_eq!(position, 0);
            assert_eq!(num_data, 1);
            assert_eq!(num_code, 1);
        },
        _ => panic!("expected a coding shred"),
    }
    assert_eq!(out.batch_info.slot, 1);
    assert_eq!(out.batch_info.num_expected_batches, Some(2));
    assert!(!out.batch_info.was_interrupted);
}

#[test]
fn test_slot_interruption() {
    // A carry for one slot is finalized when the next slot's entries
    // arrive: first a terminator batch for the old slot, whose one new data
    // shred is flagged last-in-slot, with the coding of the whole remaining
    // buffer; then the new slot's data, not marked interrupted.
    let mut run = BroadcastMissingShredsRun::new(0);
    let three_shreds = vec![7u8; 2 * DATA_SHRED_PAYLOAD_CAPACITY + 5];
    let out1 = run.process_receive_results(&receive(10, 9, three_shreds, 32), None, 1_000);
    assert_eq!(out1.data_shreds.len(), 3);
    // No set is complete yet, so nothing is drained for coding.
    assert!(out1.coding_shreds.is_empty());
    assert_eq!(out1.batch_info.num_expected_batches, None);

    let out2 = run.process_receive_results(&receive(11, 10, vec![9u8; 10], 64), None, 2_000);
    // Terminator plus the coding of the four buffered data shreds.
    assert_eq!(out2.prev_slot_shreds.len(), 5);
    let term = &out2.prev_slot_shreds[0];
    assert_eq!(term.slot, 10);
    assert_eq!(term.index, 3);
    assert!(term.last_in_slot());
    assert!(term.payload.is_empty());
    for coding in &out2.prev_slot_shreds[1..] {
        assert_eq!(coding.slot, 10);
        assert!(!coding.is_data());
    }
    let info = out2.prev_slot_batch_info.unwrap();
    assert_eq!(info.slot, 10);
    assert!(info.was_interrupted);
    assert_eq!(info.num_expected_batches, Some(3));
    // The new slot proceeds normally from index zero.
    assert_eq!(out2.data_shreds[0].slot, 11);
    assert_eq!(out2.data_shreds[0].index, 0);
    assert!(!out2.batch_info.was_interrupted);
    assert_eq!(out2.batch_info.num_expected_batches, Some(2));
}

#[test]
fn test_slot_indices_dense() {
    // Batches of a slot are numbered consecutively from zero with exactly
    // one final shred.
    let mut run = BroadcastMissingShredsRun::new(7);
    let out1 = run.process_receive_results(
        &receive(5, 4, vec![1u8; DATA_SHRED_PAYLOAD_CAPACITY + 1], 10),
        None,
        1_000,
    );
    let out2 = run.process_receive_results(&receive(5, 4, vec![2u8; 50], 64), None, 1_100);
    let mut all: Vec<&Shred> = Vec::new();
    all.extend(out1.data_shreds.iter());
    all.extend(out2.data_shreds.iter());
    for (k, shred) in all.iter().enumerate() {
        assert_eq!(shred.index as usize, k);
        assert_eq!(shred.slot, 5);
        assert!(shred.is_data());
        assert_eq!(shred.last_in_slot(), k + 1 == all.len());
        assert_eq!(shred.shred_version, 7);
    }
}

#[test]
fn test_blockstore_carry_start() {
    // A fresh slot resumes from the ledger's first unoccupied index.
    let mut run = BroadcastMissingShredsRun::new(0);
    let out = run.process_receive_results(&receive(3, 2, vec![5u8; 40], 64), Some(17), 1_000);
    assert_eq!(out.data_shreds[0].index, 17);
    assert_eq!(out.data_shreds[0].fec_set_index, 17);
    assert!(!out.first_shred_index_zero);
}

#[test]
fn test_coding_shreds_are_reed_solomon() {
    // The coding payloads are the Reed-Solomon parity of the zero-padded
    // data payloads, and half of a set suffices to recover the data.
    let mut run = BroadcastMissingShredsRun::new(0);
    let data = vec![3u8; DATA_SHRED_PAYLOAD_CAPACITY + 10];
    let out = run.process_receive_results(&receive(1, 0, data, 64), None, 1_000);
    assert_eq!(out.data_shreds.len(), 2);
    assert_eq!(out.coding_shreds.len(), 2);
    let pad = |p: &Vec<u8>| {
        let mut v = p.clone();
        v.resize(DATA_SHRED_PAYLOAD_CAPACITY, 0);
        v
    };
    let d0 = pad(&out.data_shreds[0].payload);
    let d1 = pad(&out.data_shreds[1].payload);
    let rs = reed_solomon_erasure::galois_8::ReedSolomon::new(2, 2).unwrap();
    let mut shards = vec![d0.clone(), d1.clone(), vec![0u8; DATA_SHRED_PAYLOAD_CAPACITY],
        vec![0u8; DATA_SHRED_PAYLOAD_CAPACITY]];
    rs.encode(&mut shards).unwrap();
    assert_eq!(shards[2], out.coding_shreds[0].payload);
    assert_eq!(shards[3], out.coding_shreds[1].payload);
    // Erase half the set and reconstruct.
    let mut partial: Vec<Option<Vec<u8>>> = vec![
        None,
        Some(d1.clone()),
        Some(out.coding_shreds[0].payload.clone()),
        None,
    ];
    rs.reconstruct(&mut partial).unwrap();
    assert_eq!(partial[0].as_ref().unwrap(), &d0);
}

#[test]
fn test_fec_set_index() {
    assert_eq!(fec_set_index(0, 0), Some(0));
    assert_eq!(fec_set_index(31, 0), Some(0));
    assert_eq!(fec_set_index(32, 0), Some(32));
    assert_eq!(fec_set_index(37, 2), Some(34));
    assert_eq!(fec_set_index(1, 2), None);
}

#[test]
fn test_make_data_shreds_chunks() {
    let data = vec![9u8; 3 * DATA_SHRED_PAYLOAD_CAPACITY];
    let shreds = make_data_shreds(&data, 8, 1, 64, 64, false, 3, 2);
    assert_eq!(shreds.len(), 3);
    for (k, s) in shreds.iter().enumerate() {
        assert_eq!(s.index as usize, 64 + k);
        assert_eq!(s.slot, 8);
        assert_eq!(s.payload.len(), DATA_SHRED_PAYLOAD_CAPACITY);
        assert!(!s.last_in_slot());
    }
    // Index 95 closes the set that began at 64.
    match shreds[2].kind {
        ShredKindInfo::Data { last_in_fec_set, .. } => assert!(!last_in_fec_set),
        _ => unreachable!(),
    }
    let short = make_data_shreds(&data[..10], 8, 1, 64, 64, true, 3, 2);
    assert_eq!(short.len(), 1);
    assert!(short[0].last_in_slot());
    assert_eq!(short[0].payload.len(), 10);
}
