use shredstream::decoder::{
    apply_list_read, decode_batch, decode_concatenated, validate_vec_prefix, EntryCodec,
    EntryRead, StreamingDecoder,
};
use shredstream::error::DecodeError;
use solana_message::{Message, VersionedMessage};
use solana_signature::Signature;
use solana_transaction::versioned::VersionedTransaction;

/// Entries of 48 bytes: a count of transactions, then one tag byte each.
struct TagCodec;

fn tx(tag: u8) -> VersionedTransaction {
    VersionedTransaction {
        signatures: vec![Signature::from([tag; 64])],
        message: VersionedMessage::Legacy(Message::default()),
    }
}

fn tag_of(t: &VersionedTransaction) -> u8 {
    <[u8; 64]>::from(t.signatures[0])[0]
}

fn tags(txs: &[VersionedTransaction]) -> Vec<u8> {
    txs.iter().map(tag_of).collect()
}

fn read_one(bytes: &[u8]) -> Option<Vec<VersionedTransaction>> {
    let n = bytes[0] as usize;
    if n > 47 {
        return None;
    }
    Some(bytes[1..1 + n].iter().map(|t| tx(*t)).collect())
}

impl EntryCodec for TagCodec {
    fn read_entry(&self, bytes: &[u8]) -> EntryRead {
        if bytes.len() < 48 {
            return EntryRead::Truncated;
        }
        match read_one(&bytes[..48]) {
            Some(transactions) => EntryRead::Entry { consumed: 48, transactions },
            None => EntryRead::Invalid("bad entry".to_string()),
        }
    }

    fn read_entry_list(&self, bytes: &[u8]) -> Option<(u64, Vec<VersionedTransaction>)> {
        if bytes.len() < 8 {
            return None;
        }
        let count = u64::from_le_bytes(bytes[..8].try_into().unwrap()) as usize;
        let need = 8 + 48 * count;
        if bytes.len() < need {
            return None;
        }
        let mut txs = Vec::new();
        for i in 0..count {
            txs.extend(read_one(&bytes[8 + 48 * i..8 + 48 * (i + 1)])?);
        }
        Some((need as u64, txs))
    }
}

fn entry(tags: &[u8]) -> Vec<u8> {
    let mut e = vec![0u8; 48];
    e[0] = tags.len() as u8;
    e[1..1 + tags.len()].copy_from_slice(tags);
    e
}

fn entry_list(entries: &[&[u8]]) -> Vec<u8> {
    let mut b = (entries.len() as u64).to_le_bytes().to_vec();
    for e in entries {
        b.extend(entry(e));
    }
    b
}

#[test]
fn vec_prefix_checks() {
    assert!(!validate_vec_prefix(&[]));
    assert!(!validate_vec_prefix(&[0u8; 7]));
    assert!(validate_vec_prefix(&0u64.to_le_bytes()));
    let mut one = 1u64.to_le_bytes().to_vec();
    assert!(!validate_vec_prefix(&one));
    one.extend(vec![0u8; 40]);
    assert!(validate_vec_prefix(&one));
    assert!(!validate_vec_prefix(&one[..47]));
    let mut big = 50_000u64.to_le_bytes().to_vec();
    big.extend(vec![0u8; 50_000 * 48]);
    assert!(validate_vec_prefix(&big));
    let mut too_big = 50_001u64.to_le_bytes().to_vec();
    too_big.extend(vec![0u8; 50_001 * 48]);
    assert!(!validate_vec_prefix(&too_big));
}

#[test]
fn decode_batch_reads_a_whole_list() {
    let bytes = entry_list(&[&[1, 2], &[3]]);
    let txs = decode_batch(&TagCodec, &bytes).expect("batch");
    assert_eq!(tags(&txs), vec![1, 2, 3]);
}

#[test]
fn decode_batch_refuses_an_implausible_prefix() {
    let mut bytes = entry_list(&[&[1]]);
    bytes[..8].copy_from_slice(&60_000u64.to_le_bytes());
    assert!(decode_batch(&TagCodec, &bytes).is_none());
    assert!(decode_batch(&TagCodec, &bytes[..5]).is_none());
}

#[test]
fn decode_concatenated_reads_lists_until_one_fails() {
    let mut bytes = entry_list(&[&[1]]);
    bytes.extend(entry_list(&[&[2], &[3, 4]]));
    bytes.extend([0xFFu8; 20]);
    let txs = decode_concatenated(&TagCodec, &bytes);
    assert_eq!(tags(&txs), vec![1, 2, 3, 4]);
    assert!(decode_concatenated(&TagCodec, &[0xFF; 100]).is_empty());
}

#[test]
fn streaming_decoder_reads_entries_as_bytes_arrive() {
    let bytes = entry_list(&[&[5], &[6, 7]]);
    let mut d = StreamingDecoder::new();
    assert!(d.push(&TagCodec, &bytes[..4]).unwrap().is_empty());
    assert_eq!(tags(&d.push(&TagCodec, &bytes[4..60]).unwrap()), vec![5]);
    assert!(d.push(&TagCodec, &bytes[60..100]).unwrap().is_empty());
    assert_eq!(tags(&d.push(&TagCodec, &bytes[100..]).unwrap()), vec![6, 7]);
    assert!(d.push(&TagCodec, &entry(&[9])).unwrap().is_empty());
}

#[test]
fn streaming_decoder_refuses_an_implausible_count() {
    let mut d = StreamingDecoder::default();
    match d.push(&TagCodec, &50_001u64.to_le_bytes()) {
        Err(DecodeError::Corruption(why)) => assert_eq!(why, "invalid entry count"),
        other => panic!("unexpected {other:?}"),
    }
}

#[test]
fn streaming_decoder_reports_a_bad_entry_and_resets() {
    let mut bytes = 1u64.to_le_bytes().to_vec();
    let mut bad = entry(&[1]);
    bad[0] = 200;
    bytes.extend(bad);
    let mut d = StreamingDecoder::new();
    let err = d.push(&TagCodec, &bytes).unwrap_err();
    assert_eq!(err.message(), "corruption: bad entry");
    d.reset();
    let good = entry_list(&[&[8]]);
    assert_eq!(tags(&d.push(&TagCodec, &good).unwrap()), vec![8]);
}

#[test]
fn list_read_moves_past_a_list_that_fits() {
    let mut out = vec![tx(1)];
    assert_eq!(apply_list_read(100, 8, Some((48, vec![tx(2), tx(3)])), &mut out), Some(56));
    assert_eq!(tags(&out), vec![1, 2, 3]);
    assert_eq!(apply_list_read(100, 60, Some((48, vec![tx(4)])), &mut out), None);
    assert_eq!(apply_list_read(100, 60, Some((0, vec![tx(4)])), &mut out), None);
    assert_eq!(apply_list_read(100, 60, None, &mut out), None);
    assert_eq!(tags(&out), vec![1, 2, 3]);
}

#[test]
fn entry_read_outcomes() {
    let mut d = StreamingDecoder::new();
    assert!(d.push(&TagCodec, &2u64.to_le_bytes()).unwrap().is_empty());
    let mut txs = Vec::new();
    assert!(matches!(d.apply_entry_read(EntryRead::Truncated, &mut txs), Ok(false)));
    match d.apply_entry_read(EntryRead::Invalid("odd".to_string()), &mut txs) {
        Err(DecodeError::Corruption(why)) => assert_eq!(why, "odd"),
        other => panic!("unexpected {other:?}"),
    }
    let read = EntryRead::Entry { consumed: 48, transactions: vec![tx(5)] };
    match d.apply_entry_read(read, &mut txs) {
        Err(DecodeError::Corruption(why)) => assert_eq!(why, "entry size out of range"),
        other => panic!("unexpected {other:?}"),
    }
    assert!(txs.is_empty());
    let e = entry(&[6]);
    assert_eq!(tags(&d.push(&TagCodec, &e).unwrap()), vec![6]);
}

#[test]
fn largest_entry_count_alone_reads_nothing_yet() {
    let mut d = StreamingDecoder::new();
    assert!(d.push(&TagCodec, &50_000u64.to_le_bytes()).unwrap().is_empty());
    let mut d2 = StreamingDecoder::new();
    assert!(d2.push(&TagCodec, &[0u8; 7]).unwrap().is_empty());
}
