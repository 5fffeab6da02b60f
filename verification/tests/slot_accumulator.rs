use reed_solomon_erasure::galois_8::ReedSolomon;
use shredstream::accumulator::{AccumulatorConfig, SlotAccumulator};
use shredstream::decoder::{EntryCodec, EntryRead};
use shredstream::fec::{shard_size, ReedSolomonCache, DATA_SHRED_PAYLOAD_LEN};
use shredstream::pool::{BufferHandle, ShredPool};
use shredstream::variant::VariantKind;
use solana_message::{Message, VersionedMessage};
use solana_signature::Signature;
use solana_transaction::versioned::VersionedTransaction;

const HEADER: usize = 0x58;

/// One millisecond on the accumulator's nanosecond clock.
const MS: u64 = 1_000_000;

/// Entries of 48 bytes: a count of transactions, then one tag byte each.
struct TagCodec;

fn tx(tag: u8) -> VersionedTransaction {
    VersionedTransaction {
        signatures: vec![Signature::from([tag; 64])],
        message: VersionedMessage::Legacy(Message::default()),
    }
}

fn tags(txs: &[VersionedTransaction]) -> Vec<u8> {
    txs.iter().map(|t| <[u8; 64]>::from(t.signatures[0])[0]).collect()
}

fn read_one(bytes: &[u8]) -> Option<Vec<VersionedTransaction>> {
    let n = bytes[0] as usize;
    if n > 47 {
        return None;
    }
    Some(bytes[1..1 + n].iter().map(|t| tx(*t)).collect())
}

impl EntryCodec for TagCodec {
    fn read_entry(&self, bytes: &[u8]) -> EntryRead {
        if bytes.len() < 48 {
            return EntryRead::Truncated;
        }
        match read_one(&bytes[..48]) {
            Some(transactions) => EntryRead::Entry { consumed: 48, transactions },
            None => EntryRead::Invalid("bad entry".to_string()),
        }
    }

    fn read_entry_list(&self, bytes: &[u8]) -> Option<(u64, Vec<VersionedTransaction>)> {
        if bytes.len() < 8 {
            return None;
        }
        let count = u64::from_le_bytes(bytes[..8].try_into().unwrap()) as usize;
        let need = 8 + 48 * count;
        if bytes.len() < need {
            return None;
        }
        let mut txs = Vec::new();
        for i in 0..count {
            txs.extend(read_one(&bytes[8 + 48 * i..8 + 48 * (i + 1)])?);
        }
        Some((need as u64, txs))
    }
}

fn entry_list(entries: &[&[u8]]) -> Vec<u8> {
    let mut b = (entries.len() as u64).to_le_bytes().to_vec();
    for tags in entries {
        let mut e = vec![0u8; 48];
        e[0] = tags.len() as u8;
        e[1..1 + tags.len()].copy_from_slice(tags);
        b.extend(e);
    }
    b
}

/// A pool buffer holding a packet whose payload follows an empty header.
fn shred(pool: &mut ShredPool, payload: &[u8]) -> (BufferHandle, u16) {
    let mut packet = vec![0u8; HEADER];
    packet.extend_from_slice(payload);
    let mut h = pool.acquire().expect("free buffer");
    h.fill_from(&packet);
    (h, (HEADER + payload.len()) as u16)
}

#[test]
fn accumulator_config_defaults() {
    let cfg = AccumulatorConfig::default();
    assert_eq!(cfg.max_fec_sets_per_slot, 32);
    assert_eq!(cfg.stuck_batch_timeout_ns, 50_000_000);
    let acc = SlotAccumulator::default();
    assert_eq!(acc.decode_errors(), 0);
    assert!(!acc.is_slot_complete());
}

#[test]
fn single_shred_batch_streams_its_transactions() {
    let mut pool = ShredPool::new(8);
    let mut cache = ReedSolomonCache::new();
    let mut acc = SlotAccumulator::new();
    let (h, end) = shred(&mut pool, &entry_list(&[&[1, 2]]));
    let out = acc.push_data(&TagCodec, 0, 0, h, end, true, false, &mut cache, 0);
    assert_eq!(tags(&out), vec![1, 2]);
    assert_eq!(acc.batches_decoded_streaming(), 1);
    assert_eq!(acc.batches_decoded_fallback(), 0);
    assert_eq!(acc.decode_errors(), 0);
    let released = acc.take_released();
    assert_eq!(released.len(), 1);
    for h in released {
        assert!(pool.release(h));
    }
    assert_eq!(pool.available(), 8);
}

#[test]
fn shreds_arriving_out_of_order_are_streamed_in_order() {
    let mut pool = ShredPool::new(8);
    let mut cache = ReedSolomonCache::new();
    let mut acc = SlotAccumulator::new();
    let bytes = entry_list(&[&[7], &[8]]);
    let (h1, e1) = shred(&mut pool, &bytes[60..]);
    let (h0, e0) = shred(&mut pool, &bytes[..60]);
    assert!(acc.push_data(&TagCodec, 1, 0, h1, e1, true, false, &mut cache, 0).is_empty());
    let out = acc.push_data(&TagCodec, 0, 0, h0, e0, false, false, &mut cache, 1 * MS);
    assert_eq!(tags(&out), vec![7, 8]);
    assert_eq!(acc.batches_decoded_streaming(), 1);
    assert_eq!(acc.take_released().len(), 2);
}

#[test]
fn stuck_batch_is_finalized_after_the_timeout() {
    let mut pool = ShredPool::new(8);
    let mut cache = ReedSolomonCache::new();
    let mut acc = SlotAccumulator::new();
    let (h1, e1) = shred(&mut pool, &[0xFF; 10]);
    assert!(acc.push_data(&TagCodec, 1, 0, h1, e1, true, false, &mut cache, 0).is_empty());
    let (h3, e3) = shred(&mut pool, &[0xFF; 10]);
    assert!(acc.push_data(&TagCodec, 3, 0, h3, e3, false, false, &mut cache, 40 * MS).is_empty());
    assert_eq!(acc.batches_force_finalized_timeout(), 0);
    let (h4, e4) = shred(&mut pool, &[0xFF; 10]);
    assert!(acc.push_data(&TagCodec, 4, 0, h4, e4, false, false, &mut cache, 100 * MS).is_empty());
    assert_eq!(acc.batches_force_finalized_timeout(), 1);
    assert_eq!(acc.batches_skipped(), 1);
    assert_eq!(acc.take_released().len(), 1);
}

#[test]
fn stuck_batch_salvages_what_it_can_read() {
    let mut pool = ShredPool::new(8);
    let mut cache = ReedSolomonCache::new();
    let mut acc = SlotAccumulator::new();
    let (h1, e1) = shred(&mut pool, &entry_list(&[&[9]]));
    assert!(acc.push_data(&TagCodec, 1, 0, h1, e1, true, false, &mut cache, 0).is_empty());
    let (h5, e5) = shred(&mut pool, &[0xFF; 10]);
    let out = acc.push_data(&TagCodec, 5, 0, h5, e5, false, false, &mut cache, 60 * MS);
    assert_eq!(tags(&out), vec![9]);
    assert_eq!(acc.batches_decoded_fallback(), 1);
    assert_eq!(acc.batches_force_finalized_timeout(), 1);
}

#[test]
fn late_and_duplicate_shreds_are_dropped() {
    let mut pool = ShredPool::new(8);
    let mut cache = ReedSolomonCache::new();
    let mut acc = SlotAccumulator::new();
    let (h, e) = shred(&mut pool, &entry_list(&[&[1]]));
    assert_eq!(tags(&acc.push_data(&TagCodec, 0, 0, h, e, true, false, &mut cache, 0)), vec![1]);
    assert_eq!(acc.take_released().len(), 1);
    let (late, e) = shred(&mut pool, &entry_list(&[&[1]]));
    assert!(acc.push_data(&TagCodec, 0, 0, late, e, true, false, &mut cache, 0).is_empty());
    assert_eq!(acc.take_released().len(), 1);
    let (a, e) = shred(&mut pool, &[0u8; 20]);
    assert!(acc.push_data(&TagCodec, 3, 0, a, e, false, false, &mut cache, 0).is_empty());
    let (b, e) = shred(&mut pool, &[0u8; 20]);
    assert!(acc.push_data(&TagCodec, 3, 0, b, e, false, false, &mut cache, 0).is_empty());
    assert_eq!(acc.take_released().len(), 1);
    assert_eq!(acc.release_all().len(), 1);
}

#[test]
fn last_shred_marks_the_slot_complete() {
    let mut pool = ShredPool::new(2);
    let mut cache = ReedSolomonCache::new();
    let mut acc = SlotAccumulator::new();
    let (h, e) = shred(&mut pool, &[1, 2, 3]);
    assert!(acc.push_data(&TagCodec, 7, 0, h, e, true, true, &mut cache, 0).is_empty());
    assert!(acc.is_slot_complete());
    assert_eq!(acc.take_released().len(), 1);
}

#[test]
fn shred_with_payload_bounds_off_is_dropped_and_counted() {
    let mut pool = ShredPool::new(8);
    let mut cache = ReedSolomonCache::new();
    let mut acc = SlotAccumulator::new();
    let (h0, _) = shred(&mut pool, &[0u8; 8]);
    assert!(acc.push_data(&TagCodec, 0, 0, h0, 10, false, false, &mut cache, 0).is_empty());
    assert_eq!(acc.decode_errors(), 1);
    let (h1, _) = shred(&mut pool, &[0u8; 8]);
    assert!(acc.push_data(&TagCodec, 1, 0, h1, 3000, true, false, &mut cache, 0).is_empty());
    assert_eq!(acc.decode_errors(), 2);
    assert_eq!(acc.batches_skipped(), 1);
    assert_eq!(acc.batches_force_finalized_corrupted(), 1);
    assert_eq!(acc.take_released().len(), 2);
}

fn merkle_data_shred(payload: &[u8], index: u32, flags: u8) -> Vec<u8> {
    let mut p = vec![0u8; DATA_SHRED_PAYLOAD_LEN];
    p[0x40] = 0x90;
    p[0x41..0x49].copy_from_slice(&9u64.to_le_bytes());
    p[0x49..0x4D].copy_from_slice(&index.to_le_bytes());
    p[0x55] = flags;
    let size = (HEADER + payload.len()) as u16;
    p[0x56..0x58].copy_from_slice(&size.to_le_bytes());
    p[HEADER..HEADER + payload.len()].copy_from_slice(payload);
    p
}

#[test]
fn missing_data_shred_is_rebuilt_from_a_coding_shred() {
    let len = shard_size(0, false);
    let data = merkle_data_shred(&entry_list(&[&[42]]), 0, 0x40);
    let mut shards = vec![data[64..64 + len].to_vec(), vec![0u8; len]];
    ReedSolomon::new(1, 1).unwrap().encode(&mut shards).unwrap();
    let mut code = vec![0u8; 89];
    code.extend_from_slice(&shards[1]);
    let mut cache = ReedSolomonCache::new();
    let mut acc = SlotAccumulator::new();
    let v = VariantKind::CodeMerkle { proof_size: 0, resigned: false };
    let out = acc.push_code(&TagCodec, 0, 1, 1, 0, &code, v, &mut cache, 0);
    assert_eq!(tags(&out), vec![42]);
    assert_eq!(acc.recoveries_done(), 1);
    assert_eq!(acc.batches_decoded_fallback(), 1);
    assert_eq!(acc.recovery_failures(), 0);
}

#[test]
fn oldest_erasure_set_is_evicted_when_the_slot_holds_too_many() {
    let cfg = AccumulatorConfig { max_fec_sets_per_slot: 2, stuck_batch_timeout_ns: 50 * MS };
    let mut acc = SlotAccumulator::with_config(cfg);
    let mut cache = ReedSolomonCache::new();
    let v = VariantKind::CodeMerkle { proof_size: 0, resigned: false };
    let code = vec![0u8; 100];
    for set in [32u32, 64, 96] {
        assert!(acc.push_code(&TagCodec, set, 8, 8, 0, &code, v, &mut cache, 0).is_empty());
    }
    assert_eq!(acc.fec_sets_evicted_early(), 1);
    assert!(acc.push_code(&TagCodec, 0, 8, 8, 0, &code, v, &mut cache, 0).is_empty());
    assert_eq!(acc.fec_sets_evicted_early(), 1);
}

#[test]
fn harvesting_the_tail_reads_what_is_left() {
    let mut pool = ShredPool::new(8);
    let mut cache = ReedSolomonCache::new();
    let mut acc = SlotAccumulator::new();
    let bytes = entry_list(&[&[3], &[4]]);
    let (h1, e1) = shred(&mut pool, &bytes[..56]);
    assert!(acc.push_data(&TagCodec, 1, 0, h1, e1, false, false, &mut cache, 0).is_empty());
    let (h5, e5) = shred(&mut pool, &entry_list(&[&[5]]));
    assert!(acc.push_data(&TagCodec, 5, 0, h5, e5, false, false, &mut cache, 0).is_empty());
    let out = acc.try_harvest_tail(&TagCodec, &mut cache, 0);
    assert_eq!(tags(&out), vec![5]);
    assert_eq!(acc.salvaged_tail_tx(), 1);
    assert_eq!(acc.fec_sets_discarded_unused(), 0);
}

#[test]
fn harvesting_the_tail_finalizes_known_batches() {
    let mut pool = ShredPool::new(8);
    let mut cache = ReedSolomonCache::new();
    let mut acc = SlotAccumulator::new();
    let (h2, e2) = shred(&mut pool, &entry_list(&[&[6]]));
    assert!(acc.push_data(&TagCodec, 2, 0, h2, e2, true, false, &mut cache, 0).is_empty());
    let out = acc.try_harvest_tail(&TagCodec, &mut cache, 0);
    assert_eq!(tags(&out), vec![6]);
    assert_eq!(acc.batches_decoded_fallback(), 1);
    assert_eq!(acc.salvaged_tail_tx(), 1);
    assert_eq!(acc.take_released().len(), 1);
}

#[test]
fn repeated_signature_is_handed_out_once_per_batch() {
    let mut pool = ShredPool::new(8);
    let mut cache = ReedSolomonCache::new();
    let mut acc = SlotAccumulator::new();
    let (h0, e0) = shred(&mut pool, &entry_list(&[&[1, 1, 2]]));
    let out = acc.push_data(&TagCodec, 0, 0, h0, e0, true, false, &mut cache, 0);
    assert_eq!(tags(&out), vec![1, 2]);
    let (h1, e1) = shred(&mut pool, &entry_list(&[&[1]]));
    let out = acc.push_data(&TagCodec, 1, 1, h1, e1, true, false, &mut cache, 0);
    assert_eq!(tags(&out), vec![1]);
    assert_eq!(acc.batches_decoded_streaming(), 2);
}

#[test]
fn lone_coding_shred_is_discarded_unused_at_harvest() {
    let mut acc = SlotAccumulator::new();
    let mut cache = ReedSolomonCache::new();
    let v = VariantKind::CodeMerkle { proof_size: 0, resigned: false };
    assert!(acc.push_code(&TagCodec, 0, 2, 2, 0, &[0u8; 200], v, &mut cache, 0).is_empty());
    assert!(acc.try_harvest_tail(&TagCodec, &mut cache, 0).is_empty());
    assert_eq!(acc.fec_sets_discarded_unused(), 1);
    assert_eq!(acc.salvaged_tail_tx(), 0);
    assert_eq!(acc.recoveries_done(), 0);
    assert_eq!(acc.recovery_failures(), 0);
}

#[test]
fn stuck_batch_past_a_zero_timeout_is_skipped() {
    let mut pool = ShredPool::new(1);
    let mut cache = ReedSolomonCache::new();
    let cfg = AccumulatorConfig { stuck_batch_timeout_ns: 0, ..AccumulatorConfig::default() };
    let mut acc = SlotAccumulator::with_config(cfg);
    let mut h = pool.acquire().unwrap();
    h.fill_from(&[0u8; 88]);
    let out = acc.push_data(&TagCodec, 1, 0, h, 88, true, false, &mut cache, 0);
    assert!(out.is_empty());
    assert_eq!(acc.batches_force_finalized_timeout(), 1);
    assert_eq!(acc.batches_skipped(), 1);
    assert_eq!(acc.batches_decoded_fallback(), 0);
    assert_eq!(acc.decode_errors(), 0);
}

#[test]
fn stuck_batch_waits_until_its_timeout() {
    let mut pool = ShredPool::new(3);
    let mut cache = ReedSolomonCache::new();
    let mut acc = SlotAccumulator::new();
    let (h, end) = shred(&mut pool, &entry_list(&[&[4]]));
    assert!(acc.push_data(&TagCodec, 1, 0, h, end, true, false, &mut cache, 10 * MS).is_empty());
    assert_eq!(acc.batches_force_finalized_timeout(), 0);
    let (h2, end2) = shred(&mut pool, &entry_list(&[&[5]]));
    assert!(acc.push_data(&TagCodec, 3, 0, h2, end2, false, false, &mut cache, 59 * MS).is_empty());
    assert_eq!(acc.batches_force_finalized_timeout(), 0);
    let (h3, end3) = shred(&mut pool, &entry_list(&[&[6]]));
    let out = acc.push_data(&TagCodec, 4, 0, h3, end3, false, false, &mut cache, 60 * MS);
    assert_eq!(tags(&out), vec![4]);
    assert_eq!(acc.batches_force_finalized_timeout(), 1);
    assert_eq!(acc.batches_decoded_fallback(), 1);
}

#[test]
fn second_harvest_delivers_nothing_again() {
    let mut pool = ShredPool::new(8);
    let mut cache = ReedSolomonCache::new();
    let mut acc = SlotAccumulator::new();
    let (h5, e5) = shred(&mut pool, &entry_list(&[&[5]]));
    assert!(acc.push_data(&TagCodec, 5, 0, h5, e5, false, false, &mut cache, 0).is_empty());
    assert_eq!(tags(&acc.try_harvest_tail(&TagCodec, &mut cache, 0)), vec![5]);
    assert!(acc.try_harvest_tail(&TagCodec, &mut cache, 0).is_empty());
    assert_eq!(acc.salvaged_tail_tx(), 1);
}

#[test]
fn sub_millisecond_timeout_is_kept() {
    let mut pool = ShredPool::new(3);
    let mut cache = ReedSolomonCache::new();
    let cfg = AccumulatorConfig { stuck_batch_timeout_ns: 500_000, ..AccumulatorConfig::default() };
    let mut acc = SlotAccumulator::with_config(cfg);
    let (h, end) = shred(&mut pool, &entry_list(&[&[4]]));
    assert!(acc.push_data(&TagCodec, 1, 0, h, end, true, false, &mut cache, 0).is_empty());
    let (h2, end2) = shred(&mut pool, &entry_list(&[&[5]]));
    assert!(acc.push_data(&TagCodec, 3, 0, h2, end2, false, false, &mut cache, 499_999).is_empty());
    assert_eq!(acc.batches_force_finalized_timeout(), 0);
    let (h3, end3) = shred(&mut pool, &entry_list(&[&[6]]));
    let out = acc.push_data(&TagCodec, 4, 0, h3, end3, false, false, &mut cache, 500_000);
    assert_eq!(tags(&out), vec![4]);
    assert_eq!(acc.batches_force_finalized_timeout(), 1);
}
