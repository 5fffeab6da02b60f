use reed_solomon_erasure::galois_8::ReedSolomon;
use shredstream::fec::{
    code_shard_slice, data_shard_slice, shard_size, variant_as_data, FecSetBuffer,
    ReedSolomonCache, CODE_SHRED_PAYLOAD_LEN, DATA_SHRED_PAYLOAD_LEN,
    SIZE_OF_CODING_SHRED_HEADERS, SIZE_OF_SIGNATURE,
};
use shredstream::pool::{ShredPool, BUF_SIZE};
use shredstream::variant::VariantKind;

#[test]
fn pool_hands_out_each_buffer_once() {
    let mut pool = ShredPool::new(3);
    assert_eq!(pool.capacity(), 3);
    assert_eq!(pool.available(), 3);
    let a = pool.acquire().expect("first");
    let b = pool.acquire().expect("second");
    let c = pool.acquire().expect("third");
    assert!(pool.acquire().is_none());
    assert_eq!(pool.available(), 0);
    assert!(a.is_empty());
    assert!(pool.release(a));
    assert_eq!(pool.available(), 1);
    assert!(pool.release(b));
    assert!(pool.release(c));
    assert_eq!(pool.available(), 3);
}

#[test]
fn pool_acquire_then_release_restores() {
    let mut pool = ShredPool::new(2);
    let h = pool.acquire().unwrap();
    assert_eq!(pool.available(), 1);
    assert!(pool.release(h));
    assert_eq!(pool.available(), 2);
    assert!(pool.acquire().is_some());
}

#[test]
fn pool_refuses_a_foreign_handle() {
    let mut small = ShredPool::new(1);
    let mut big = ShredPool::new(4);
    let _kept = big.acquire().unwrap();
    let h = big.acquire().unwrap();
    // `h` names a buffer index the small pool does not have in use.
    assert!(!small.release(h));
    assert_eq!(small.available(), 1);
}

#[test]
fn buffer_fill_cuts_to_buffer_size() {
    let mut pool = ShredPool::new(1);
    let mut h = pool.acquire().unwrap();
    let raw: Vec<u8> = (0..3000u32).map(|i| (i % 251) as u8).collect();
    assert_eq!(h.fill_from(&raw), BUF_SIZE);
    assert_eq!(h.len(), BUF_SIZE);
    assert_eq!(h.as_slice(), &raw[..BUF_SIZE]);
    assert_eq!(h.fill_from(&raw[..10]), 10);
    assert_eq!(h.as_slice(), &raw[..10]);
    h.set_len(4);
    assert_eq!(h.len(), 4);
    assert_eq!(h.as_slice(), &raw[..4]);
    assert!(!h.is_empty());
}

#[test]
fn released_buffer_is_handed_out_again_with_its_bytes() {
    let mut pool = ShredPool::new(1);
    let mut h = pool.acquire().unwrap();
    assert_eq!(h.as_mut_slice().len(), BUF_SIZE);
    h.as_mut_slice()[..3].copy_from_slice(&[7, 8, 9]);
    h.set_len(3);
    assert_eq!(h.as_slice(), &[7, 8, 9]);
    assert!(pool.release(h));
    let mut again = pool.acquire().unwrap();
    assert_eq!(again.len(), 0);
    again.set_len(3);
    assert_eq!(again.as_slice(), &[7, 8, 9]);
}

#[test]
fn shard_sizes() {
    assert_eq!(shard_size(0, false), 1228 - 89 - 32);
    assert_eq!(shard_size(5, false), 1228 - 89 - 32 - 100);
    assert_eq!(shard_size(15, true), 1228 - 89 - 32 - 300 - 64);
}

#[test]
fn shard_slices_of_matching_shreds_have_equal_length() {
    let code = vec![1u8; CODE_SHRED_PAYLOAD_LEN];
    let data = vec![2u8; DATA_SHRED_PAYLOAD_LEN];
    for proof_size in 0u8..16 {
        for resigned in [false, true] {
            let cv = VariantKind::CodeMerkle { proof_size, resigned };
            let dv = variant_as_data(cv);
            assert_eq!(dv, VariantKind::DataMerkle { proof_size, resigned });
            let cs = code_shard_slice(&code, cv).expect("code shard");
            let ds = data_shard_slice(&data, dv).expect("data shard");
            assert_eq!(cs.len(), shard_size(proof_size, resigned));
            assert_eq!(ds.len(), cs.len());
        }
    }
}

#[test]
fn shard_slices_need_merkle_variants_and_room() {
    let raw = vec![0u8; 500];
    assert!(data_shard_slice(&raw, VariantKind::DataLegacy).is_none());
    assert!(code_shard_slice(&raw, VariantKind::CodeLegacy).is_none());
    assert!(data_shard_slice(&raw, VariantKind::DataMerkle { proof_size: 0, resigned: false })
        .is_none());
    let raw = vec![3u8; 1300];
    let s = data_shard_slice(&raw, VariantKind::DataMerkle { proof_size: 0, resigned: false })
        .unwrap();
    assert_eq!(s.len(), 1107);
    assert_eq!(s.as_ptr(), raw[SIZE_OF_SIGNATURE..].as_ptr());
    let s = code_shard_slice(&raw, VariantKind::CodeMerkle { proof_size: 0, resigned: false })
        .unwrap();
    assert_eq!(s.as_ptr(), raw[SIZE_OF_CODING_SHRED_HEADERS..].as_ptr());
}

#[test]
fn fec_set_keeps_the_first_coding_shred_details() {
    let mut set = FecSetBuffer::new(64);
    assert!(!set.can_recover_with(5));
    let v = VariantKind::CodeMerkle { proof_size: 1, resigned: false };
    set.record_code(0, 4, 2, &[1, 2, 3], v);
    set.record_code(1, 9, 9, &[4, 5], VariantKind::CodeMerkle { proof_size: 3, resigned: true });
    set.record_code(0, 9, 9, &[7], v);
    assert_eq!(set.fec_set_index, 64);
    assert_eq!(set.num_data, 4);
    assert_eq!(set.num_coding, 2);
    assert_eq!(set.variant, Some(v));
    assert_eq!(set.shard_size, shard_size(1, false));
    assert_eq!(set.code.len(), 2);
    assert_eq!(set.code.get(0), Some(&vec![1, 2, 3]));
    assert_eq!(set.code.get(1), Some(&vec![4, 5]));
    assert!(set.can_recover_with(2));
    assert!(!set.can_recover_with(1));
}

#[test]
fn cache_builds_once_and_refuses_bad_counts() {
    let mut cache = ReedSolomonCache::new();
    assert_eq!(cache.len(), 0);
    {
        let c = cache.get_or_build(4, 2).expect("codec");
        assert_eq!(c.data_shards(), 4);
        assert_eq!(c.coding_shards(), 2);
    }
    assert!(cache.get_or_build(4, 2).is_ok());
    assert_eq!(cache.len(), 1);
    assert!(cache.get_or_build(0, 2).is_err());
    assert!(cache.get_or_build(200, 100).is_err());
    assert_eq!(cache.len(), 1);
}

#[test]
fn cache_holds_at_most_its_capacity() {
    let mut cache = ReedSolomonCache::default();
    for d in 1u16..=40 {
        assert!(cache.get_or_build(d, 1).is_ok());
    }
    assert_eq!(cache.len(), 32);
}

fn merkle_data_shred(payload: &[u8], index: u32, flags: u8) -> Vec<u8> {
    let mut p = vec![0u8; DATA_SHRED_PAYLOAD_LEN];
    p[0x40] = 0x90;
    p[0x41..0x49].copy_from_slice(&9u64.to_le_bytes());
    p[0x49..0x4D].copy_from_slice(&index.to_le_bytes());
    p[0x4F..0x53].copy_from_slice(&0u32.to_le_bytes());
    p[0x55] = flags;
    let size = (0x58 + payload.len()) as u16;
    p[0x56..0x58].copy_from_slice(&size.to_le_bytes());
    p[0x58..0x58 + payload.len()].copy_from_slice(payload);
    p
}

#[test]
fn fec_set_rebuilds_a_missing_data_shred() {
    let len = shard_size(0, false);
    let d0 = merkle_data_shred(&[10, 11, 12], 0, 0);
    let d1 = merkle_data_shred(&[20, 21], 1, 0x40);
    let mut shards: Vec<Vec<u8>> = vec![
        d0[64..64 + len].to_vec(),
        d1[64..64 + len].to_vec(),
        vec![0u8; len],
        vec![0u8; len],
    ];
    ReedSolomon::new(2, 2).unwrap().encode(&mut shards).unwrap();
    let mut set = FecSetBuffer::new(0);
    let v = VariantKind::CodeMerkle { proof_size: 0, resigned: false };
    for (pos, parity) in shards[2..].iter().enumerate() {
        let mut code = vec![0u8; SIZE_OF_CODING_SHRED_HEADERS];
        code.extend_from_slice(parity);
        set.record_code(pos as u16, 2, 2, &code, v);
    }
    let mut cache = ReedSolomonCache::new();
    let rebuilt = set.try_reconstruct(&[(0, &d0[..])], &mut cache).expect("rebuilt");
    assert_eq!(rebuilt.len(), 1);
    assert_eq!(rebuilt[0].0, 1);
    assert_eq!(rebuilt[0].1.len(), DATA_SHRED_PAYLOAD_LEN);
    assert_eq!(&rebuilt[0].1[..64], &[0u8; 64][..]);
    assert_eq!(&rebuilt[0].1[64..64 + len], &d1[64..64 + len]);
    assert!(rebuilt[0].1[64 + len..].iter().all(|b| *b == 0));
}

#[test]
fn fec_set_without_enough_shards_rebuilds_nothing() {
    let mut set = FecSetBuffer::new(0);
    let v = VariantKind::CodeMerkle { proof_size: 0, resigned: false };
    let code = vec![0u8; SIZE_OF_CODING_SHRED_HEADERS + shard_size(0, false)];
    set.record_code(0, 3, 2, &code, v);
    let mut cache = ReedSolomonCache::new();
    let rebuilt = set.try_reconstruct(&[], &mut cache).expect("no error");
    assert!(rebuilt.is_empty());
    let legacy = FecSetBuffer::new(0);
    assert!(legacy.try_reconstruct(&[], &mut cache).unwrap().is_empty());
}

#[test]
fn dropped_handle_is_lost_to_the_pool() {
    let mut pool = ShredPool::new(2);
    let h1 = pool.acquire().unwrap();
    let h2 = pool.acquire().unwrap();
    assert!(h1.is_empty());
    assert!(pool.acquire().is_none());
    drop(h1);
    assert!(pool.acquire().is_none());
    assert!(pool.release(h2));
    assert_eq!(pool.available(), 1);
}
