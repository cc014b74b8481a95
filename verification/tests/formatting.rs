use sha2::Digest;
use turbine_broadcast::display::{
    AddressLabels, BuildBalanceMessageConfig, CliAccountMeta, build_balance_message,
    build_balance_message_with_config, format_account_mode, format_labeled_address,
    u64_to_string, write_log_messages, write_status,
};
use turbine_broadcast::mask_reference_tick;
use turbine_broadcast::packets::{hash_packets, test_create_random_packet_data};
use turbine_broadcast::ranges::{compute_lengths_and_offsets, compute_range_vec, sort_u32_asc};
use turbine_broadcast::shred::{FindLastShredsInSlotIterator, Shred};
use turbine_broadcast::sigverify::{
    DisabledSigVerifier, LoopDisposition, Packet, Packets, SigVerifier, SigVerifyServiceError,
    StreamerErrorKind, count_packets, recv_batch_max, sigverify_loop_disposition,
};

#[test]
fn test_u64_to_string() {
    assert_eq!(u64_to_string(0), "0");
    assert_eq!(u64_to_string(7), "7");
    assert_eq!(u64_to_string(1234567890), "1234567890");
    assert_eq!(u64_to_string(u64::MAX), "18446744073709551615");
}

#[test]
fn test_build_balance_message() {
    assert_eq!(build_balance_message(0, false, true), "0 SOL");
    assert_eq!(build_balance_message(1_000_000_000, false, true), "1 SOL");
    assert_eq!(build_balance_message(5_000, false, true), "0.000005 SOL");
    assert_eq!(build_balance_message(2_500_000_000, false, false), "2.5");
    assert_eq!(build_balance_message(1, true, true), "1 lamport");
    assert_eq!(build_balance_message(2, true, true), "2 lamports");
    assert_eq!(build_balance_message(2, true, false), "2");
    let config = BuildBalanceMessageConfig {
        use_lamports_unit: false,
        show_unit: true,
        trim_trailing_zeros: false,
    };
    assert_eq!(build_balance_message_with_config(5_000, &config), "0.000005000 SOL");
    let d = BuildBalanceMessageConfig::default();
    assert!(!d.use_lamports_unit && d.show_unit && d.trim_trailing_zeros);
}

#[test]
fn test_format_labeled_address() {
    let pubkey = "11111111111111111111111111111111";
    let no_labels = AddressLabels { entries: Vec::new() };
    assert_eq!(format_labeled_address(pubkey, &no_labels), pubkey);

    let labels = AddressLabels {
        entries: vec![(pubkey.to_string(), "Default Address".to_string())],
    };
    assert_eq!(
        format_labeled_address(pubkey, &labels),
        "Default Address (1111..1111)"
    );

    let labels = AddressLabels {
        entries: vec![(
            pubkey.to_string(),
            "abcdefghijklmnopqrstuvwxyz1234567890".to_string(),
        )],
    };
    assert_eq!(
        format_labeled_address(pubkey, &labels),
        "abcdefghijklmnopqrstuvwxyz12345 (1111..1111)"
    );
}

#[test]
fn test_format_account_mode() {
    let all = CliAccountMeta { is_signer: true, is_writable: true, is_invoked: true };
    assert_eq!(format_account_mode(all), "srwx");
    let none = CliAccountMeta { is_signer: false, is_writable: false, is_invoked: false };
    assert_eq!(format_account_mode(none), "-r--");
    let writable = CliAccountMeta { is_signer: false, is_writable: true, is_invoked: false };
    assert_eq!(format_account_mode(writable), "-rw-");
}

#[test]
fn test_write_status() {
    assert_eq!(write_status(&Ok(()), ""), "Status: Ok\n");
    assert_eq!(
        write_status(&Err("AccountNotFound".to_string()), "  "),
        "  Status: AccountNotFound\n"
    );
}

#[test]
fn test_write_log_messages() {
    assert_eq!(write_log_messages(None, ""), "");
    let empty: Vec<String> = Vec::new();
    assert_eq!(write_log_messages(Some(&empty), ""), "");
    let msgs = vec!["Test message".to_string(), "again".to_string()];
    assert_eq!(
        write_log_messages(Some(&msgs), "> "),
        "> Log Messages:\n>   Test message\n>   again\n"
    );
}

#[test]
fn test_compute_range_vec() {
    // Runs of consecutive indices, the still-open final run dropped.
    let indices = vec![7, 1, 2, 3, 5, 8];
    let ranges = compute_range_vec(&indices);
    assert_eq!(ranges, vec![vec![1, 3], vec![5]]);
    let empty: Vec<u32> = Vec::new();
    assert!(compute_range_vec(&empty).is_empty());
    let single = vec![4u32];
    assert!(compute_range_vec(&single).is_empty());
}

#[test]
fn test_compute_lengths_and_offsets() {
    let indices = vec![1, 2, 3, 5, 10, 11, 12, 20];
    // Closed runs: [1,3], [5], [10,12]; the run at 20 stays open.
    let (lengths, offsets) = compute_lengths_and_offsets(&indices);
    assert_eq!(lengths.len(), offsets.len());
    // Keys appear in first-seen order with the runs' starts in run order.
    assert_eq!(lengths, vec![2, 1]);
    assert_eq!(offsets, vec![vec![1, 10], vec![5]]);
}

#[test]
fn test_sort_u32_asc() {
    let v = vec![5u32, 1, 4, 1, 9];
    assert_eq!(sort_u32_asc(&v), vec![1, 1, 4, 5, 9]);
}

#[test]
fn test_find_last_shreds_in_slot_iterator() {
    fn ranges(shreds: &Vec<Shred>) -> Vec<&[Shred]> {
        let mut iter = FindLastShredsInSlotIterator::new(shreds);
        let mut out = Vec::new();
        while let Some((a, b)) = iter.next() {
            out.push(&shreds[a..b]);
        }
        out
    }

    // Empty shreds.
    let shreds: Vec<Shred> = vec![];
    assert!(FindLastShredsInSlotIterator::new(&shreds).next().is_none());

    let not_last_shred_in_slot = Shred::new_empty_data_shred();
    let mut last_shred_in_slot = Shred::new_empty_data_shred();
    last_shred_in_slot.set_last_in_slot();

    // One shred marked as last.
    let shreds = vec![last_shred_in_slot.clone()];
    assert!(FindLastShredsInSlotIterator::new(&shreds).next().is_none());

    // Multiple shreds marked as last.
    let shreds = vec![last_shred_in_slot.clone(); 5];
    assert!(FindLastShredsInSlotIterator::new(&shreds).next().is_none());

    // Multiple not-last shreds.
    let shreds = vec![not_last_shred_in_slot.clone(); 5];
    assert_eq!(ranges(&shreds), vec![&shreds[..]]);

    // Alternating, ending on a last shred.
    let shreds = vec![
        not_last_shred_in_slot.clone(),
        last_shred_in_slot.clone(),
        not_last_shred_in_slot.clone(),
        last_shred_in_slot.clone(),
    ];
    assert_eq!(
        ranges(&shreds),
        vec![&shreds[0..1], &shreds[2..3]],
    );

    // Alternating, ending on a not-last shred.
    let shreds = vec![
        last_shred_in_slot.clone(),
        not_last_shred_in_slot.clone(),
        last_shred_in_slot,
        not_last_shred_in_slot.clone(),
    ];
    assert_eq!(
        ranges(&shreds),
        vec![&shreds[1..2], &shreds[3..4]],
    );
}

#[test]
fn test_disabled_sig_verifier() {
    let batch = vec![
        Packets {
            packets: vec![
                Packet { data: vec![1, 2, 3], discard: true },
                Packet { data: vec![4], discard: false },
            ],
        },
        Packets { packets: Vec::new() },
    ];
    let verifier = DisabledSigVerifier::default();
    let out = verifier.verify_batch(batch);
    assert_eq!(out.len(), 2);
    assert_eq!(out[0].packets.len(), 2);
    assert_eq!(out[0].packets[0].data, vec![1, 2, 3]);
    assert!(!out[0].packets[0].discard);
    assert!(!out[0].packets[1].discard);
    assert_eq!(count_packets(&out), 2);
    assert_eq!(recv_batch_max(false), 1_000);
    assert_eq!(recv_batch_max(true), 5_000);
}

#[test]
fn test_sigverify_loop_disposition() {
    assert_eq!(
        sigverify_loop_disposition(&SigVerifyServiceError::Send),
        LoopDisposition::Exit
    );
    assert_eq!(
        sigverify_loop_disposition(&SigVerifyServiceError::Streamer(
            StreamerErrorKind::RecvDisconnected
        )),
        LoopDisposition::Exit
    );
    assert_eq!(
        sigverify_loop_disposition(&SigVerifyServiceError::Streamer(
            StreamerErrorKind::RecvTimeout
        )),
        LoopDisposition::Continue
    );
    assert_eq!(
        sigverify_loop_disposition(&SigVerifyServiceError::Streamer(StreamerErrorKind::Other)),
        LoopDisposition::LogAndContinue
    );
}

#[test]
fn test_hash_packets() {
    let packets = vec![vec![1u8, 2, 3], vec![0xffu8; 64]];
    let hashes = hash_packets(&packets);
    assert_eq!(hashes.len(), 2);
    for (p, h) in packets.iter().zip(hashes.iter()) {
        let mut expect: Vec<u8> = sha2::Sha256::digest(p).to_vec();
        expect[31] &= 0b0011_1111;
        assert_eq!(h, &expect);
        assert!(h[31] < 64);
    }
    let random = test_create_random_packet_data();
    assert_eq!(random.len(), 1200);
}

#[test]
fn test_mask_reference_tick() {
    assert_eq!(mask_reference_tick(0), 0);
    assert_eq!(mask_reference_tick(63), 63);
    assert_eq!(mask_reference_tick(64), 0);
    assert_eq!(mask_reference_tick(255), 63);
}
