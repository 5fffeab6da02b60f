use shredstream::decoder::{EntryCodec, EntryRead};
use shredstream::listener::{
    is_slot_plausible, raw_shred_of, MAX_BOOTSTRAP_SLOT, MAX_PLAUSIBLE_SLOT,
};
use shredstream::{AccumulatorConfig, ListenerOptions, ShredListener};
use solana_message::{Message, VersionedMessage};
use solana_signature::Signature;
use solana_transaction::versioned::VersionedTransaction;

const HEADER: usize = 0x58;
const DATA_COMPLETE: u8 = 0b0100_0000;

/// Entries of 48 bytes: a count of transactions, then one tag byte each.
struct TagCodec;

fn tx(tag: u8) -> VersionedTransaction {
    VersionedTransaction {
        signatures: vec![Signature::from([tag; 64])],
        message: VersionedMessage::Legacy(Message::default()),
    }
}

fn tags(txs: &[VersionedTransaction]) -> Vec<u8> {
    txs.iter().map(|t| <[u8; 64]>::from(t.signatures[0])[0]).collect()
}

fn read_one(bytes: &[u8]) -> Option<Vec<VersionedTransaction>> {
    let n = bytes[0] as usize;
    if n > 47 {
        return None;
    }
    Some(bytes[1..1 + n].iter().map(|t| tx(*t)).collect())
}

impl EntryCodec for TagCodec {
    fn read_entry(&self, bytes: &[u8]) -> EntryRead {
        if bytes.len() < 48 {
            return EntryRead::Truncated;
        }
        match read_one(&bytes[..48]) {
            Some(transactions) => EntryRead::Entry { consumed: 48, transactions },
            None => EntryRead::Invalid("bad entry".to_string()),
        }
    }

    fn read_entry_list(&self, bytes: &[u8]) -> Option<(u64, Vec<VersionedTransaction>)> {
        if bytes.len() < 8 {
            return None;
        }
        let count = u64::from_le_bytes(bytes[..8].try_into().unwrap()) as usize;
        let need = 8 + 48 * count;
        if bytes.len() < need {
            return None;
        }
        let mut txs = Vec::new();
        for i in 0..count {
            txs.extend(read_one(&bytes[8 + 48 * i..8 + 48 * (i + 1)])?);
        }
        Some((need as u64, txs))
    }
}

fn entry_list(entries: &[&[u8]]) -> Vec<u8> {
    let mut b = (entries.len() as u64).to_le_bytes().to_vec();
    for tags in entries {
        let mut e = vec![0u8; 48];
        e[0] = tags.len() as u8;
        e[1..1 + tags.len()].copy_from_slice(tags);
        b.extend(e);
    }
    b
}

fn data_packet(slot: u64, index: u32, flags: u8, payload: &[u8]) -> Vec<u8> {
    let mut p = vec![0u8; HEADER + payload.len()];
    p[0x40] = 0x90;
    p[0x41..0x49].copy_from_slice(&slot.to_le_bytes());
    p[0x49..0x4D].copy_from_slice(&index.to_le_bytes());
    p[0x4F..0x53].copy_from_slice(&index.to_le_bytes());
    p[0x55] = flags;
    let size = (HEADER + payload.len()) as u16;
    p[0x56..0x58].copy_from_slice(&size.to_le_bytes());
    p[HEADER..].copy_from_slice(payload);
    p
}

fn code_packet(slot: u64) -> Vec<u8> {
    let mut p = vec![0u8; 300];
    p[0x40] = 0x60;
    p[0x41..0x49].copy_from_slice(&slot.to_le_bytes());
    p[0x53..0x55].copy_from_slice(&4u16.to_le_bytes());
    p[0x55..0x57].copy_from_slice(&2u16.to_le_bytes());
    p
}

fn listener(opts: ListenerOptions) -> ShredListener<TagCodec> {
    ShredListener::new(opts, TagCodec)
}

#[test]
fn listener_option_defaults() {
    let o = ListenerOptions::default();
    assert_eq!(o.recv_buf, 64 * 1024 * 1024);
    assert_eq!(o.max_age, 3);
    assert_eq!(o.busy_poll_us, Some(200));
    assert_eq!(o.pool_size, 4096);
    assert!(o.enable_fec);
    assert!(!o.disable_salvage_delivery);
    assert_eq!(o.accumulator.max_fec_sets_per_slot, 32);
    assert_eq!(o.accumulator.stuck_batch_timeout_ns, 50_000_000);
}

#[test]
fn slot_plausibility_rules() {
    assert!(is_slot_plausible(MAX_BOOTSTRAP_SLOT, 0));
    assert!(!is_slot_plausible(MAX_BOOTSTRAP_SLOT + 1, 0));
    assert!(!is_slot_plausible(MAX_PLAUSIBLE_SLOT + 1, MAX_PLAUSIBLE_SLOT));
    assert!(is_slot_plausible(2_000_000, 1_000_000));
    assert!(!is_slot_plausible(2_000_001, 1_000_000));
    assert!(is_slot_plausible(5, 1_000_000));
}

#[test]
fn unparseable_packets_are_counted_by_reason() {
    let mut l = listener(ListenerOptions::default());
    assert!(l.handle_packet_at(&[0u8; 10], 0).is_none());
    assert_eq!(l.unparseable_too_short(), 1);
    let mut unknown = vec![0u8; 100];
    unknown[0x56..0x58].copy_from_slice(&500u16.to_le_bytes());
    assert!(l.handle_packet_at(&unknown, 0).is_none());
    assert_eq!(l.unparseable_variant(), 1);
    let mut bad_size = data_packet(5, 0, 0, &[1, 2]);
    bad_size[0x56..0x58].copy_from_slice(&1000u16.to_le_bytes());
    assert!(l.handle_packet_at(&bad_size, 0).is_none());
    assert_eq!(l.unparseable_payload(), 1);
    let far = data_packet(MAX_BOOTSTRAP_SLOT + 1, 0, 0, &[1]);
    assert!(l.handle_packet_at(&far, 0).is_none());
    assert_eq!(l.unparseable_slot_range(), 1);
    assert_eq!(l.unparseable_packets(), 4);
    assert_eq!(l.bytes_received(), (10 + 100 + 90 + 89) as u64);
    assert_eq!(l.data_shred_count_total(), 0);
    assert_eq!(l.slot_count(), 0);
}

#[test]
fn data_shred_delivers_its_batch() {
    let mut l = listener(ListenerOptions::default());
    let p = data_packet(100, 0, DATA_COMPLETE, &entry_list(&[&[5, 6]]));
    let (slot, txs) = l.handle_packet_at(&p, 0).expect("batch");
    assert_eq!(slot, 100);
    assert_eq!(tags(&txs), vec![5, 6]);
    assert_eq!(l.data_shred_count_total(), 1);
    assert_eq!(l.slot_count(), 1);
    assert_eq!(l.batches_decoded_streaming_total(), 1);
}

#[test]
fn old_slots_are_given_up_and_blacklisted() {
    let mut l = listener(ListenerOptions::default());
    assert!(l.handle_packet_at(&data_packet(100, 1, 0, &[0xAA; 20]), 0).is_none());
    assert!(l.handle_packet_at(&data_packet(104, 1, 0, &[0xAA; 20]), 0).is_none());
    assert_eq!(l.slots_evicted_by_age(), 1);
    assert_eq!(l.slot_count(), 1);
    assert!(l.handle_packet_at(&data_packet(100, 2, 0, &[0xAA; 20]), 0).is_none());
    assert_eq!(l.dropped_known_slots(), 1);
    assert_eq!(l.data_shred_count_total(), 2);
}

#[test]
fn salvaged_tail_is_queued_for_delivery() {
    let mut l = listener(ListenerOptions::default());
    assert!(l.handle_packet_at(&data_packet(100, 1, 0, &entry_list(&[&[9]])), 0).is_none());
    assert!(l.handle_packet_at(&data_packet(110, 1, 0, &[0xAA; 20]), 0).is_none());
    assert_eq!(l.harvested_batches_total(), 1);
    assert_eq!(l.salvaged_tail_tx_total(), 1);
    let (slot, txs) = l.pop_pending_batch().expect("queued");
    assert_eq!(slot, 100);
    assert_eq!(tags(&txs), vec![9]);
    assert!(l.pop_pending_batch().is_none());
}

#[test]
fn salvaged_tail_is_dropped_when_delivery_is_off() {
    let opts = ListenerOptions { disable_salvage_delivery: true, ..ListenerOptions::default() };
    let mut l = listener(opts);
    assert!(l.handle_packet_at(&data_packet(100, 1, 0, &entry_list(&[&[9]])), 0).is_none());
    assert!(l.handle_packet_at(&data_packet(110, 1, 0, &[0xAA; 20]), 0).is_none());
    assert_eq!(l.harvested_batches_total(), 1);
    assert!(l.pop_pending_batch().is_none());
}

#[test]
fn completed_slot_is_kept_one_slot_only() {
    let mut l = listener(ListenerOptions::default());
    assert!(l.handle_packet_at(&data_packet(100, 0, 0xC0, &[1]), 0).is_none());
    assert!(l.handle_packet_at(&data_packet(101, 0, 0, &[0xAA; 20]), 0).is_none());
    assert_eq!(l.slot_count(), 2);
    assert!(l.handle_packet_at(&data_packet(102, 0, 0, &[0xAA; 20]), 0).is_none());
    assert_eq!(l.slots_completed_total(), 1);
    assert_eq!(l.slot_count(), 2);
}

#[test]
fn coding_shreds_are_ignored_when_recovery_is_off() {
    let opts = ListenerOptions { enable_fec: false, ..ListenerOptions::default() };
    let mut l = listener(opts);
    assert!(l.handle_packet_at(&code_packet(50), 0).is_none());
    assert_eq!(l.code_shred_count_total(), 1);
    assert_eq!(l.slot_count(), 0);
    let mut on = listener(ListenerOptions::default());
    assert!(on.handle_packet_at(&code_packet(50), 0).is_none());
    assert_eq!(on.code_shred_count_total(), 1);
    assert_eq!(on.slot_count(), 1);
}

#[test]
fn full_pool_gives_up_the_oldest_slot() {
    let opts = ListenerOptions { pool_size: 1, ..ListenerOptions::default() };
    let mut l = listener(opts);
    assert!(l.handle_packet_at(&data_packet(100, 1, 0, &[0xAA; 20]), 0).is_none());
    assert!(l.handle_packet_at(&data_packet(100, 2, 0, &[0xAA; 20]), 0).is_none());
    assert_eq!(l.pool_exhausted_count(), 0);
    assert_eq!(l.slots_evicted_by_age(), 1);
    assert_eq!(l.dropped_known_slots(), 1);
    assert_eq!(l.slot_count(), 0);
}

#[test]
fn totals_include_live_slots() {
    let cfg = AccumulatorConfig { max_fec_sets_per_slot: 32, stuck_batch_timeout_ns: 50_000_000 };
    let opts = ListenerOptions { accumulator: cfg, ..ListenerOptions::default() };
    let mut l = listener(opts);
    let p = data_packet(7, 0, DATA_COMPLETE, &entry_list(&[&[1]]));
    assert!(l.handle_packet_at(&p, 0).is_some());
    assert_eq!(l.batches_decoded_streaming_total(), 1);
    assert_eq!(l.decode_errors_total(), 0);
    assert_eq!(l.fec_recoveries_total(), 0);
    assert_eq!(l.fec_recovery_failures_total(), 0);
    assert_eq!(l.batches_skipped_total(), 0);
    assert_eq!(l.batches_decoded_fallback_total(), 0);
    assert_eq!(l.fec_sets_discarded_unused_total(), 0);
    assert_eq!(l.fec_sets_evicted_early_total(), 0);
    assert_eq!(l.batches_force_finalized_corrupted_total(), 0);
    assert_eq!(l.batches_force_finalized_timeout_total(), 0);
}

#[test]
fn handle_packet_uses_the_listener_clock() {
    let mut l = listener(ListenerOptions::default());
    let p = data_packet(9, 0, DATA_COMPLETE, &entry_list(&[&[3]]));
    let (slot, txs) = l.handle_packet(&p).expect("batch");
    assert_eq!(slot, 9);
    assert_eq!(tags(&txs), vec![3]);
}

#[test]
fn raw_shred_reads_data_shred_headers() {
    let p = data_packet(12, 34, 0, &[1, 2, 3, 4]);
    let r = raw_shred_of(&p).expect("data shred");
    assert_eq!(r.slot, 12);
    assert_eq!(r.index, 34);
    assert_eq!(r.payload_len, 4);
    assert!(raw_shred_of(&code_packet(1)).is_none());
}

#[test]
fn blacklisted_slot_is_forgotten_below_the_floor() {
    let mut l = listener(ListenerOptions::default());
    assert!(l.handle_packet_at(&data_packet(100, 1, 0, &[0xAA; 20]), 0).is_none());
    assert!(l.handle_packet_at(&data_packet(104, 1, 0, &[0xAA; 20]), 0).is_none());
    assert!(l.handle_packet_at(&data_packet(200, 1, 0, &[0xAA; 20]), 0).is_none());
    assert_eq!(l.slots_evicted_by_age(), 2);
    assert!(l.handle_packet_at(&data_packet(100, 2, 0, &[0xAA; 20]), 0).is_none());
    assert_eq!(l.dropped_known_slots(), 0);
    assert_eq!(l.data_shred_count_total(), 4);
    assert_eq!(l.slot_count(), 2);
}

#[test]
fn minimal_data_shred_makes_its_slot_live() {
    let mut l = listener(ListenerOptions::default());
    let mut raw = [0u8; 88];
    raw[0x40] = 0xA5;
    raw[0x41..0x49].copy_from_slice(&300_000_000u64.to_le_bytes());
    assert!(l.handle_packet_at(&raw, 0).is_none());
    assert_eq!(l.data_shred_count_total(), 1);
    assert_eq!(l.unparseable_slot_range(), 0);
    assert_eq!(l.slot_count(), 1);
    assert_eq!(l.bytes_received(), 88);
}

#[test]
fn coding_shred_with_recovery_off_changes_only_its_counters() {
    let opts = ListenerOptions { enable_fec: false, ..ListenerOptions::default() };
    let mut l = listener(opts);
    let first = data_packet(100, 0, 0, &entry_list(&[]));
    let _ = l.handle_packet_at(&first, 0);
    let slots = l.slot_count();
    let code = code_packet(110);
    assert!(l.handle_packet_at(&code, 0).is_none());
    assert_eq!(l.code_shred_count_total(), 1);
    assert_eq!(l.slot_count(), slots);
    assert_eq!(l.fec_recoveries_total(), 0);
    assert_eq!(l.fec_recovery_failures_total(), 0);
    assert_eq!(l.decode_errors_total(), 0);
    assert_eq!(l.bytes_received(), (first.len() + code.len()) as u64);
    // The window did not move to the coding shred's slot: slot 100 stays live.
    assert_eq!(l.slots_evicted_by_age(), 0);
    assert_eq!(l.slot_count(), 1);
}

#[test]
fn each_packet_moves_exactly_one_packet_counter() {
    let mut l = listener(ListenerOptions::default());
    let counters = |l: &ShredListener<TagCodec>| {
        [
            l.pool_exhausted_count(),
            l.unparseable_too_short(),
            l.unparseable_variant(),
            l.unparseable_payload(),
            l.unparseable_slot_range(),
            l.dropped_known_slots(),
            l.data_shred_count_total(),
            l.code_shred_count_total(),
        ]
    };
    let mut unknown = data_packet(10, 0, 0, &[]);
    unknown[0x40] = 0x00;
    let packets = vec![
        vec![1u8; 10],
        unknown,
        data_packet(MAX_PLAUSIBLE_SLOT + 1, 0, 0, &[]),
        data_packet(10, 0, 0, &[]),
        code_packet(10),
    ];
    for p in packets {
        let before = counters(&l);
        let _ = l.handle_packet_at(&p, 0);
        let after = counters(&l);
        let moved: Vec<usize> = (0..8).filter(|&i| after[i] != before[i]).collect();
        assert_eq!(moved.len(), 1);
        assert_eq!(after[moved[0]], before[moved[0]] + 1);
    }
}
