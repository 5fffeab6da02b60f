use shredstream::classify_variant;
use shredstream::parser::{parse_kind, parse_shred, ParseError, ShredKind, DATA_HEADER_SIZE};
use shredstream::variant::VariantKind;

const DATA_COMPLETE: u8 = 0b0100_0000;
const LAST_IN_SLOT: u8 = 0b1100_0000;

fn data_packet(
    variant: u8,
    slot: u64,
    index: u32,
    fec_set_index: u32,
    flags: u8,
    payload: &[u8],
    total_len: usize,
) -> Vec<u8> {
    let mut p = vec![0u8; total_len];
    p[0x40] = variant;
    p[0x41..0x49].copy_from_slice(&slot.to_le_bytes());
    p[0x49..0x4D].copy_from_slice(&index.to_le_bytes());
    p[0x4D..0x4F].copy_from_slice(&7u16.to_le_bytes());
    p[0x4F..0x53].copy_from_slice(&fec_set_index.to_le_bytes());
    p[0x53..0x55].copy_from_slice(&3u16.to_le_bytes());
    p[0x55] = flags;
    let size = (DATA_HEADER_SIZE + payload.len()) as u16;
    p[0x56..0x58].copy_from_slice(&size.to_le_bytes());
    p[DATA_HEADER_SIZE..DATA_HEADER_SIZE + payload.len()].copy_from_slice(payload);
    p
}

fn code_packet(
    variant: u8,
    slot: u64,
    fec_set_index: u32,
    num_data: u16,
    num_coding: u16,
    position: u16,
    total_len: usize,
) -> Vec<u8> {
    let mut p = vec![0u8; total_len];
    p[0x40] = variant;
    p[0x41..0x49].copy_from_slice(&slot.to_le_bytes());
    p[0x49..0x4D].copy_from_slice(&(fec_set_index + position as u32).to_le_bytes());
    p[0x4D..0x4F].copy_from_slice(&7u16.to_le_bytes());
    p[0x4F..0x53].copy_from_slice(&fec_set_index.to_le_bytes());
    p[0x53..0x55].copy_from_slice(&num_data.to_le_bytes());
    p[0x55..0x57].copy_from_slice(&num_coding.to_le_bytes());
    p[0x57..0x59].copy_from_slice(&position.to_le_bytes());
    p
}

#[test]
fn classify_known_variant_bytes() {
    assert_eq!(classify_variant(0xA5), Some(VariantKind::DataLegacy));
    assert_eq!(classify_variant(0x5A), Some(VariantKind::CodeLegacy));
    assert_eq!(
        classify_variant(0x65),
        Some(VariantKind::CodeMerkle { proof_size: 5, resigned: false })
    );
    assert_eq!(
        classify_variant(0x7F),
        Some(VariantKind::CodeMerkle { proof_size: 15, resigned: true })
    );
    assert_eq!(
        classify_variant(0x9A),
        Some(VariantKind::DataMerkle { proof_size: 10, resigned: false })
    );
    assert_eq!(
        classify_variant(0xB3),
        Some(VariantKind::DataMerkle { proof_size: 3, resigned: true })
    );
}

#[test]
fn classify_unknown_variant_bytes() {
    for b in [0x00u8, 0x5B, 0x80, 0xA4, 0xA6, 0xC0, 0xFF] {
        assert_eq!(classify_variant(b), None, "byte {b:#x}");
    }
}

#[test]
fn every_known_variant_is_data_or_code_not_both() {
    for b in 0u8..=255 {
        if let Some(v) = classify_variant(b) {
            assert!(v.is_data() != v.is_code(), "byte {b:#x}");
            assert!(v.proof_size() < 16);
        }
    }
}

#[test]
fn variant_accessors() {
    let v = VariantKind::DataMerkle { proof_size: 6, resigned: true };
    assert!(v.is_data());
    assert!(!v.is_code());
    assert_eq!(v.proof_size(), 6);
    assert!(v.resigned());
    assert_eq!(v.merkle_suffix(), 6 * 20 + 32 + 64);
    let c = VariantKind::CodeMerkle { proof_size: 2, resigned: false };
    assert_eq!(c.merkle_suffix(), 2 * 20 + 32);
    assert_eq!(VariantKind::DataLegacy.merkle_suffix(), 0);
    assert_eq!(VariantKind::CodeLegacy.proof_size(), 0);
    assert!(!VariantKind::CodeLegacy.resigned());
}

#[test]
fn parse_merkle_data_shred() {
    let payload = [1u8, 2, 3, 4, 5];
    let raw = data_packet(0x93, 42, 10, 8, DATA_COMPLETE, &payload, 200);
    match parse_kind(&raw) {
        Ok(ShredKind::Data(d)) => {
            assert_eq!(d.slot, 42);
            assert_eq!(d.index, 10);
            assert_eq!(d.version, 7);
            assert_eq!(d.fec_set_index, 8);
            assert_eq!(d.parent_offset, 3);
            assert_eq!(d.payload, &payload[..]);
            assert!(d.batch_complete);
            assert!(!d.last_in_slot);
            assert_eq!(d.variant, VariantKind::DataMerkle { proof_size: 3, resigned: false });
            assert_eq!(d.raw_len, 200);
        }
        other => panic!("unexpected {other:?}"),
    }
}

#[test]
fn parse_last_in_slot_flag() {
    let raw = data_packet(0x90, 1, 0, 0, LAST_IN_SLOT, &[9], 100);
    match parse_kind(&raw) {
        Ok(ShredKind::Data(d)) => {
            assert!(d.batch_complete);
            assert!(d.last_in_slot);
        }
        other => panic!("unexpected {other:?}"),
    }
}

#[test]
fn parse_too_short_packet() {
    assert_eq!(parse_kind(&[0u8; 10]).err(), Some(ParseError::TooShort));
    assert_eq!(parse_kind(&[0u8; DATA_HEADER_SIZE - 1]).err(), Some(ParseError::TooShort));
}

#[test]
fn parse_unknown_variant_when_legacy_read_fails() {
    let mut raw = vec![0u8; 100];
    raw[0x56..0x58].copy_from_slice(&500u16.to_le_bytes());
    assert_eq!(parse_kind(&raw).err(), Some(ParseError::UnknownVariant));
}

#[test]
fn parse_unknown_byte_reads_as_legacy_data() {
    let raw = data_packet(0x00, 11, 4, 0, 0, &[7, 7], 100);
    match parse_kind(&raw) {
        Ok(ShredKind::Data(d)) => {
            assert_eq!(d.variant, VariantKind::DataLegacy);
            assert_eq!(d.fec_set_index, 4);
            assert_eq!(d.version, 0);
            assert_eq!(d.parent_offset, 0);
            assert_eq!(d.payload, &[7, 7][..]);
        }
        other => panic!("unexpected {other:?}"),
    }
}

#[test]
fn parse_data_size_past_packet_is_invalid() {
    let mut raw = data_packet(0x90, 1, 0, 0, 0, &[1], 100);
    raw[0x56..0x58].copy_from_slice(&1000u16.to_le_bytes());
    assert_eq!(parse_kind(&raw).err(), Some(ParseError::PayloadInvalid));
}

#[test]
fn parse_merkle_code_shred() {
    let raw = code_packet(0x62, 77, 32, 4, 3, 1, 300);
    match parse_kind(&raw) {
        Ok(ShredKind::Code(c)) => {
            assert_eq!(c.slot, 77);
            assert_eq!(c.index, 33);
            assert_eq!(c.fec_set_index, 32);
            assert_eq!(c.num_data_shreds, 4);
            assert_eq!(c.num_coding_shreds, 3);
            assert_eq!(c.position, 1);
            assert_eq!(c.variant, VariantKind::CodeMerkle { proof_size: 2, resigned: false });
            assert_eq!(c.coded.len(), 300 - (2 * 20 + 32));
        }
        other => panic!("unexpected {other:?}"),
    }
}

#[test]
fn parse_code_shred_with_bad_counts_is_invalid() {
    let raw = code_packet(0x60, 1, 0, 0, 3, 0, 300);
    assert_eq!(parse_kind(&raw).err(), Some(ParseError::PayloadInvalid));
    let raw = code_packet(0x60, 1, 0, 2, 3, 3, 300);
    assert_eq!(parse_kind(&raw).err(), Some(ParseError::PayloadInvalid));
    let raw = code_packet(0x60, 1, 0, 2, 3, 1, 300);
    assert_eq!(parse_kind(&raw[..0x58]).err(), Some(ParseError::TooShort));
}

#[test]
fn parse_shred_reads_data_shreds_only() {
    let raw = data_packet(0x90, 5, 6, 6, DATA_COMPLETE, &[1, 2, 3], 120);
    let p = parse_shred(&raw).expect("data shred");
    assert_eq!(p.slot, 5);
    assert_eq!(p.index, 6);
    assert_eq!(p.payload, &[1, 2, 3][..]);
    assert!(p.batch_complete);
    assert!(!p.last_in_slot);
    let code = code_packet(0x60, 1, 0, 2, 2, 0, 300);
    assert!(parse_shred(&code).is_none());
    assert!(parse_shred(&[0u8; 5]).is_none());
}
