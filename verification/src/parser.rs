use vstd::prelude::*;
use vstd::slice::slice_subrange;

use crate::variant::{classify_variant, spec_classify_variant, VariantKind};

verus! {

pub const VARIANT_OFFSET: usize = 0x40;

pub const SLOT_OFFSET: usize = 0x41;

pub const INDEX_OFFSET: usize = 0x49;

pub const VERSION_OFFSET: usize = 0x4D;

pub const FEC_SET_INDEX_OFFSET: usize = 0x4F;

pub const DATA_PARENT_OFFSET: usize = 0x53;

pub const DATA_FLAGS_OFFSET: usize = 0x55;

pub const DATA_SIZE_OFFSET: usize = 0x56;

pub const DATA_HEADER_SIZE: usize = 0x58;

pub const CODE_NUM_DATA_OFFSET: usize = 0x53;

pub const CODE_NUM_CODING_OFFSET: usize = 0x55;

pub const CODE_POSITION_OFFSET: usize = 0x57;

pub const CODE_HEADER_SIZE: usize = 0x59;

/// Flag bit set on the last data shred of a batch of entries.
pub const DATA_COMPLETE: u8 = 0b0100_0000;

/// Flag bits both set on the last data shred of a slot.
pub const LAST_IN_SLOT: u8 = 0b1100_0000;

/// Largest `size` field a Merkle data shred may announce.
pub const MAX_DATA_SHRED_SIZE: usize = 1203;

// ---------------------------------------------------------------------------
// Little-endian integers, as the wire format stores them.
// ---------------------------------------------------------------------------
pub open spec fn spec_le_u16(raw: Seq<u8>, off: int) -> int {
    raw[off] as int + 256 * (raw[off + 1] as int)
}

pub open spec fn spec_le_u32(raw: Seq<u8>, off: int) -> int {
    spec_le_u16(raw, off) + 65536 * spec_le_u16(raw, off + 2)
}

pub open spec fn spec_le_u64(raw: Seq<u8>, off: int) -> int {
    spec_le_u32(raw, off) + 4294967296 * spec_le_u32(raw, off + 4)
}

/// The little-endian `u16` at `off`, when two bytes are there.
pub open spec fn spec_read_u16(raw: Seq<u8>, off: int) -> Option<u16> {
    if 0 <= off && off + 2 <= raw.len() {
        Some(spec_le_u16(raw, off) as u16)
    } else {
        None
    }
}

/// The little-endian `u32` at `off`, when four bytes are there.
pub open spec fn spec_read_u32(raw: Seq<u8>, off: int) -> Option<u32> {
    if 0 <= off && off + 4 <= raw.len() {
        Some(spec_le_u32(raw, off) as u32)
    } else {
        None
    }
}

/// The little-endian `u64` at `off`, when eight bytes are there.
pub open spec fn spec_read_u64(raw: Seq<u8>, off: int) -> Option<u64> {
    if 0 <= off && off + 8 <= raw.len() {
        Some(spec_le_u64(raw, off) as u64)
    } else {
        None
    }
}

proof fn lemma_le_bounds(raw: Seq<u8>, off: int)
    requires
        0 <= off,
        off + 8 <= raw.len(),
    ensures
        0 <= spec_le_u16(raw, off) < 0x1_0000,
        0 <= spec_le_u32(raw, off) < 0x1_0000_0000,
        0 <= spec_le_u64(raw, off) < 0x1_0000_0000_0000_0000,
{
    assert(0 <= spec_le_u16(raw, off + 2) < 0x1_0000);
    assert(0 <= spec_le_u16(raw, off + 4) < 0x1_0000);
    assert(0 <= spec_le_u16(raw, off + 6) < 0x1_0000);
    assert(0 <= spec_le_u32(raw, off + 4) < 0x1_0000_0000);
}

fn read_u16(raw: &[u8], offset: usize) -> (r: Option<u16>)
    ensures
        r == spec_read_u16(raw@, offset as int),
{
    if offset > raw.len() || raw.len() - offset < 2 {
        return None;
    }
    let lo = raw[offset] as u16;
    let hi = raw[offset + 1] as u16;
    Some(lo + hi * 256)
}

fn read_u32(raw: &[u8], offset: usize) -> (r: Option<u32>)
    ensures
        r == spec_read_u32(raw@, offset as int),
{
    if offset > raw.len() || raw.len() - offset < 4 {
        return None;
    }
    let lo = raw[offset] as u32 + (raw[offset + 1] as u32) * 256;
    let hi = raw[offset + 2] as u32 + (raw[offset + 3] as u32) * 256;
    Some(lo + hi * 65536)
}

fn read_u64(raw: &[u8], offset: usize) -> (r: Option<u64>)
    ensures
        r == spec_read_u64(raw@, offset as int),
{
    if offset > raw.len() || raw.len() - offset < 8 {
        return None;
    }
    let b0 = raw[offset] as u64 + (raw[offset + 1] as u64) * 256;
    let b1 = raw[offset + 2] as u64 + (raw[offset + 3] as u64) * 256;
    let b2 = raw[offset + 4] as u64 + (raw[offset + 5] as u64) * 256;
    let b3 = raw[offset + 6] as u64 + (raw[offset + 7] as u64) * 256;
    let lo = b0 + b1 * 65536;
    let hi = b2 + b3 * 65536;
    Some(lo + hi * 4294967296)
}

// ---------------------------------------------------------------------------
// Parsed shreds
// ---------------------------------------------------------------------------
#[derive(Debug)]
pub enum ShredKind<'a> {
    Data(DataShred<'a>),
    Code(CodeShred<'a>),
}

#[derive(Debug)]
pub struct DataShred<'a> {
    pub slot: u64,
    pub index: u32,
    pub version: u16,
    pub fec_set_index: u32,
    pub parent_offset: u16,
    pub payload: &'a [u8],
    pub batch_complete: bool,
    pub last_in_slot: bool,
    pub variant: VariantKind,
    pub raw_len: usize,
}

#[derive(Debug)]
pub struct CodeShred<'a> {
    pub slot: u64,
    pub index: u32,
    pub version: u16,
    pub fec_set_index: u32,
    pub num_data_shreds: u16,
    pub num_coding_shreds: u16,
    pub position: u16,
    pub coded: &'a [u8],
    pub variant: VariantKind,
}

#[derive(Debug)]
pub struct ParsedShred<'a> {
    pub slot: u64,
    pub index: u32,
    pub payload: &'a [u8],
    pub batch_complete: bool,
    pub last_in_slot: bool,
}

#[derive(Debug, Clone, Copy, PartialEq, Eq, Structural)]
pub enum ParseError {
    TooShort,
    UnknownVariant,
    PayloadInvalid,
}

/// A data shred with its payload as a sequence of bytes.
pub struct DataShredView {
    pub slot: u64,
    pub index: u32,
    pub version: u16,
    pub fec_set_index: u32,
    pub parent_offset: u16,
    pub payload: Seq<u8>,
    pub batch_complete: bool,
    pub last_in_slot: bool,
    pub variant: VariantKind,
    pub raw_len: nat,
}

/// A coding shred with its erasure-coded bytes as a sequence.
pub struct CodeShredView {
    pub slot: u64,
    pub index: u32,
    pub version: u16,
    pub fec_set_index: u32,
    pub num_data_shreds: u16,
    pub num_coding_shreds: u16,
    pub position: u16,
    pub coded: Seq<u8>,
    pub variant: VariantKind,
}

pub enum ShredKindView {
    Data(DataShredView),
    Code(CodeShredView),
}

pub struct ParsedShredView {
    pub slot: u64,
    pub index: u32,
    pub payload: Seq<u8>,
    pub batch_complete: bool,
    pub last_in_slot: bool,
}

impl<'a> View for DataShred<'a> {
    type V = DataShredView;

    open spec fn view(&self) -> DataShredView {
        DataShredView {
            slot: self.slot,
            index: self.index,
            version: self.version,
            fec_set_index: self.fec_set_index,
            parent_offset: self.parent_offset,
            payload: self.payload@,
            batch_complete: self.batch_complete,
            last_in_slot: self.last_in_slot,
            variant: self.variant,
            raw_len: self.raw_len as nat,
        }
    }
}

impl<'a> View for CodeShred<'a> {
    type V = CodeShredView;

    open spec fn view(&self) -> CodeShredView {
        CodeShredView {
            slot: self.slot,
            index: self.index,
            version: self.version,
            fec_set_index: self.fec_set_index,
            num_data_shreds: self.num_data_shreds,
            num_coding_shreds: self.num_coding_shreds,
            position: self.position,
            coded: self.coded@,
            variant: self.variant,
        }
    }
}

impl<'a> View for ShredKind<'a> {
    type V = ShredKindView;

    open spec fn view(&self) -> ShredKindView {
        match self {
            ShredKind::Data(d) => ShredKindView::Data(d@),
            ShredKind::Code(c) => ShredKindView::Code(c@),
        }
    }
}

impl<'a> View for ParsedShred<'a> {
    type V = ParsedShredView;

    open spec fn view(&self) -> ParsedShredView {
        ParsedShredView {
            slot: self.slot,
            index: self.index,
            payload: self.payload@,
            batch_complete: self.batch_complete,
            last_in_slot: self.last_in_slot,
        }
    }
}

// ---------------------------------------------------------------------------
// The wire format
// ---------------------------------------------------------------------------
/// Payload of a data shred whose header announces `size` bytes in all.
pub open spec fn spec_data_payload(raw: Seq<u8>, size: int) -> Seq<u8> {
    if size > DATA_HEADER_SIZE {
        raw.subrange(DATA_HEADER_SIZE as int, size)
    } else {
        Seq::empty()
    }
}

pub open spec fn spec_batch_complete(flags: u8) -> bool {
    flags & DATA_COMPLETE != 0
}

pub open spec fn spec_last_in_slot(flags: u8) -> bool {
    flags & LAST_IN_SLOT == LAST_IN_SLOT
}

/// A data shred read with the legacy layout: no version, no parent offset,
/// and the shred's own index as its erasure set.
pub open spec fn spec_parse_data_legacy(raw: Seq<u8>, slot: u64, index: u32) -> Result<
    ShredKindView,
    ParseError,
> {
    let flags = raw[DATA_FLAGS_OFFSET as int];
    let size = spec_le_u16(raw, DATA_SIZE_OFFSET as int);
    if size > raw.len() {
        Err(ParseError::PayloadInvalid)
    } else {
        Ok(
            ShredKindView::Data(
                DataShredView {
                    slot,
                    index,
                    version: 0,
                    fec_set_index: index,
                    parent_offset: 0,
                    payload: spec_data_payload(raw, size),
                    batch_complete: spec_batch_complete(flags),
                    last_in_slot: spec_last_in_slot(flags),
                    variant: VariantKind::DataLegacy,
                    raw_len: raw.len(),
                },
            ),
        )
    }
}

/// A data shred whose variant byte names a data variant.
pub open spec fn spec_parse_data_with_kind(
    raw: Seq<u8>,
    slot: u64,
    index: u32,
    version: u16,
    fec_set_index: u32,
    variant: VariantKind,
) -> Result<ShredKindView, ParseError> {
    if fec_set_index > index {
        spec_parse_data_legacy(raw, slot, index)
    } else {
        let parent_offset = spec_le_u16(raw, DATA_PARENT_OFFSET as int) as u16;
        let flags = raw[DATA_FLAGS_OFFSET as int];
        let size = spec_le_u16(raw, DATA_SIZE_OFFSET as int);
        if size > MAX_DATA_SHRED_SIZE {
            spec_parse_data_legacy(raw, slot, index)
        } else if size > raw.len() {
            Err(ParseError::PayloadInvalid)
        } else {
            Ok(
                ShredKindView::Data(
                    DataShredView {
                        slot,
                        index,
                        version,
                        fec_set_index,
                        parent_offset,
                        payload: spec_data_payload(raw, size),
                        batch_complete: spec_batch_complete(flags),
                        last_in_slot: spec_last_in_slot(flags),
                        variant,
                        raw_len: raw.len(),
                    },
                ),
            )
        }
    }
}

/// A coding shred: its header counts and its bytes without the Merkle suffix.
pub open spec fn spec_parse_code_with_kind(
    raw: Seq<u8>,
    slot: u64,
    index: u32,
    version: u16,
    fec_set_index: u32,
    variant: VariantKind,
) -> Result<ShredKindView, ParseError> {
    if raw.len() < CODE_HEADER_SIZE {
        Err(ParseError::TooShort)
    } else {
        let num_data = spec_le_u16(raw, CODE_NUM_DATA_OFFSET as int) as u16;
        let num_coding = spec_le_u16(raw, CODE_NUM_CODING_OFFSET as int) as u16;
        let position = spec_le_u16(raw, CODE_POSITION_OFFSET as int) as u16;
        if num_data == 0 || num_coding == 0 || position >= num_coding {
            Err(ParseError::PayloadInvalid)
        } else if variant.spec_merkle_suffix() >= raw.len() {
            Err(ParseError::PayloadInvalid)
        } else {
            Ok(
                ShredKindView::Code(
                    CodeShredView {
                        slot,
                        index,
                        version,
                        fec_set_index,
                        num_data_shreds: num_data,
                        num_coding_shreds: num_coding,
                        position,
                        coded: raw.subrange(0, raw.len() - variant.spec_merkle_suffix()),
                        variant,
                    },
                ),
            )
        }
    }
}

/// What a packet is, read as a shred.
pub open spec fn spec_parse_kind(raw: Seq<u8>) -> Result<ShredKindView, ParseError> {
    if raw.len() < DATA_HEADER_SIZE {
        Err(ParseError::TooShort)
    } else {
        let slot = spec_le_u64(raw, SLOT_OFFSET as int) as u64;
        let index = spec_le_u32(raw, INDEX_OFFSET as int) as u32;
        let version = spec_le_u16(raw, VERSION_OFFSET as int) as u16;
        let fec_set_index = spec_le_u32(raw, FEC_SET_INDEX_OFFSET as int) as u32;
        match spec_classify_variant(raw[VARIANT_OFFSET as int]) {
            Some(kind) => if kind.spec_is_data() {
                spec_parse_data_with_kind(raw, slot, index, version, fec_set_index, kind)
            } else {
                spec_parse_code_with_kind(raw, slot, index, version, fec_set_index, kind)
            },
            None => match spec_parse_data_legacy(raw, slot, index) {
                Ok(k) => Ok(k),
                Err(_) => Err(ParseError::UnknownVariant),
            },
        }
    }
}

/// The data shred a packet holds, if it holds one.
pub open spec fn spec_parse_shred(raw: Seq<u8>) -> Option<ParsedShredView> {
    match spec_parse_kind(raw) {
        Ok(ShredKindView::Data(d)) => Some(
            ParsedShredView {
                slot: d.slot,
                index: d.index,
                payload: d.payload,
                batch_complete: d.batch_complete,
                last_in_slot: d.last_in_slot,
            },
        ),
        _ => None,
    }
}

pub open spec fn kind_result_view(r: Result<ShredKind, ParseError>) -> Result<
    ShredKindView,
    ParseError,
> {
    match r {
        Ok(k) => Ok(k@),
        Err(e) => Err(e),
    }
}

fn data_payload<'a>(raw: &'a [u8], size: usize) -> (r: &'a [u8])
    requires
        size <= raw@.len(),
    ensures
        r@ == spec_data_payload(raw@, size as int),
        DATA_HEADER_SIZE + r@.len() <= if size > DATA_HEADER_SIZE {
            size as int
        } else {
            DATA_HEADER_SIZE as int
        },
{
    if size > DATA_HEADER_SIZE {
        slice_subrange(raw, DATA_HEADER_SIZE, size)
    } else {
        let e = slice_subrange(raw, 0, 0);
        assert(e@ =~= Seq::<u8>::empty());
        e
    }
}

/// Reads a packet as a shred.
pub fn parse_kind(raw: &[u8]) -> (r: Result<ShredKind<'_>, ParseError>)
    ensures
        kind_result_view(r) == spec_parse_kind(raw@),
        r matches Ok(ShredKind::Data(d)) ==> DATA_HEADER_SIZE + d.payload@.len() <= 65535
            && DATA_HEADER_SIZE + d.payload@.len() <= raw@.len(),
{
    if raw.len() < DATA_HEADER_SIZE {
        return Err(ParseError::TooShort);
    }
    proof {
        lemma_le_bounds(raw@, SLOT_OFFSET as int);
        lemma_le_bounds(raw@, INDEX_OFFSET as int - 4);
        lemma_le_bounds(raw@, FEC_SET_INDEX_OFFSET as int - 4);
    }
    let variant_byte = raw[VARIANT_OFFSET];
    let slot = match read_u64(raw, SLOT_OFFSET) {
        Some(v) => v,
        None => return Err(ParseError::PayloadInvalid),
    };
    let index = match read_u32(raw, INDEX_OFFSET) {
        Some(v) => v,
        None => return Err(ParseError::PayloadInvalid),
    };
    let version = match read_u16(raw, VERSION_OFFSET) {
        Some(v) => v,
        None => return Err(ParseError::PayloadInvalid),
    };
    let fec_set_index = match read_u32(raw, FEC_SET_INDEX_OFFSET) {
        Some(v) => v,
        None => return Err(ParseError::PayloadInvalid),
    };
    if let Some(kind) = classify_variant(variant_byte) {
        if kind.is_data() {
            return parse_data_with_kind(raw, slot, index, version, fec_set_index, kind);
        }
        if kind.is_code() {
            return parse_code_with_kind(raw, slot, index, version, fec_set_index, kind);
        }
    }
    match parse_data_legacy_fallback(raw, slot, index) {
        Ok(k) => Ok(k),
        Err(_) => Err(ParseError::UnknownVariant),
    }
}

fn parse_data_with_kind(
    raw: &[u8],
    slot: u64,
    index: u32,
    version: u16,
    fec_set_index: u32,
    variant: VariantKind,
) -> (r: Result<ShredKind<'_>, ParseError>)
    requires
        raw@.len() >= DATA_HEADER_SIZE,
    ensures
        kind_result_view(r) == spec_parse_data_with_kind(
            raw@,
            slot,
            index,
            version,
            fec_set_index,
            variant,
        ),
            r matches Ok(ShredKind::Data(d)) ==> DATA_HEADER_SIZE + d.payload@.len() <= 65535
                && DATA_HEADER_SIZE + d.payload@.len() <= raw@.len(),
{
    if fec_set_index > index {
        return parse_data_legacy_fallback(raw, slot, index);
    }
    let parent_offset = match read_u16(raw, DATA_PARENT_OFFSET) {
        Some(v) => v,
        None => return Err(ParseError::PayloadInvalid),
    };
    let flags = raw[DATA_FLAGS_OFFSET];
    let size = match read_u16(raw, DATA_SIZE_OFFSET) {
        Some(v) => v as usize,
        None => return Err(ParseError::PayloadInvalid),
    };
    if size > MAX_DATA_SHRED_SIZE {
        return parse_data_legacy_fallback(raw, slot, index);
    }
    if size > raw.len() {
        return Err(ParseError::PayloadInvalid);
    }
    let payload = data_payload(raw, size);
    Ok(
        ShredKind::Data(
            DataShred {
                slot,
                index,
                version,
                fec_set_index,
                parent_offset,
                payload,
                batch_complete: flags & DATA_COMPLETE != 0,
                last_in_slot: flags & LAST_IN_SLOT == LAST_IN_SLOT,
                variant,
                raw_len: raw.len(),
            },
        ),
    )
}

fn parse_code_with_kind(
    raw: &[u8],
    slot: u64,
    index: u32,
    version: u16,
    fec_set_index: u32,
    variant: VariantKind,
) -> (r: Result<ShredKind<'_>, ParseError>)
    ensures
        kind_result_view(r) == spec_parse_code_with_kind(
            raw@,
            slot,
            index,
            version,
            fec_set_index,
            variant,
        ),
{
    if raw.len() < CODE_HEADER_SIZE {
        return Err(ParseError::TooShort);
    }
    let num_data_shreds = match read_u16(raw, CODE_NUM_DATA_OFFSET) {
        Some(v) => v,
        None => return Err(ParseError::PayloadInvalid),
    };
    let num_coding_shreds = match read_u16(raw, CODE_NUM_CODING_OFFSET) {
        Some(v) => v,
        None => return Err(ParseError::PayloadInvalid),
    };
    let position = match read_u16(raw, CODE_POSITION_OFFSET) {
        Some(v) => v,
        None => return Err(ParseError::PayloadInvalid),
    };
    if num_data_shreds == 0 || num_coding_shreds == 0 || position >= num_coding_shreds {
        return Err(ParseError::PayloadInvalid);
    }
    let suffix = variant.merkle_suffix();
    if suffix >= raw.len() {
        return Err(ParseError::PayloadInvalid);
    }
    let coded_end = raw.len() - suffix;
    let coded = slice_subrange(raw, 0, coded_end);
    Ok(
        ShredKind::Code(
            CodeShred {
                slot,
                index,
                version,
                fec_set_index,
                num_data_shreds,
                num_coding_shreds,
                position,
                coded,
                variant,
            },
        ),
    )
}

fn parse_data_legacy_fallback(raw: &[u8], slot: u64, index: u32) -> (r: Result<
    ShredKind<'_>,
    ParseError,
>)
    requires
        raw@.len() >= DATA_HEADER_SIZE,
    ensures
        kind_result_view(r) == spec_parse_data_legacy(raw@, slot, index),
            r matches Ok(ShredKind::Data(d)) ==> DATA_HEADER_SIZE + d.payload@.len() <= 65535
                && DATA_HEADER_SIZE + d.payload@.len() <= raw@.len(),
{
    let flags = raw[DATA_FLAGS_OFFSET];
    let size = match read_u16(raw, DATA_SIZE_OFFSET) {
        Some(v) => v as usize,
        None => return Err(ParseError::PayloadInvalid),
    };
    if size > raw.len() {
        return Err(ParseError::PayloadInvalid);
    }
    let payload = data_payload(raw, size);
    Ok(
        ShredKind::Data(
            DataShred {
                slot,
                index,
                version: 0,
                fec_set_index: index,
                parent_offset: 0,
                payload,
                batch_complete: flags & DATA_COMPLETE != 0,
                last_in_slot: flags & LAST_IN_SLOT == LAST_IN_SLOT,
                variant: VariantKind::DataLegacy,
                raw_len: raw.len(),
            },
        ),
    )
}

/// Reads a packet as a data shred; `None` for a coding shred or a packet
/// that is not a shred.
pub fn parse_shred(raw: &[u8]) -> (r: Option<ParsedShred<'_>>)
    ensures
        match r {
            Some(p) => spec_parse_shred(raw@) == Some(p@),
            None => spec_parse_shred(raw@) is None,
        },
{
    match parse_kind(raw) {
        Ok(ShredKind::Data(d)) => Some(
            ParsedShred {
                slot: d.slot,
                index: d.index,
                payload: d.payload,
                batch_complete: d.batch_complete,
                last_in_slot: d.last_in_slot,
            },
        ),
        _ => None,
    }
}


/// `parse_shred` reads exactly the data shreds that `parse_kind` reads, with
/// the same slot, index, payload and flags.
pub proof fn lemma_parse_shred_is_data_kind(raw: Seq<u8>)
    ensures
        spec_parse_shred(raw) is Some <==> spec_parse_kind(raw) matches Ok(ShredKindView::Data(_)),
        spec_parse_kind(raw) matches Ok(ShredKindView::Data(d)) ==> spec_parse_shred(raw) == Some(
            ParsedShredView {
                slot: d.slot,
                index: d.index,
                payload: d.payload,
                batch_complete: d.batch_complete,
                last_in_slot: d.last_in_slot,
            },
        ),
{
}

/// A parsed data shred's payload is the packet's bytes from the end of the
/// header up to its size field: it starts right after the header, lies within
/// the packet, and its end fits in 16 bits.
pub proof fn lemma_data_payload_in_packet(raw: Seq<u8>)
    ensures
        spec_parse_kind(raw) matches Ok(ShredKindView::Data(d)) ==> {
            &&& DATA_HEADER_SIZE + d.payload.len() <= raw.len()
            &&& DATA_HEADER_SIZE + d.payload.len() <= 65535
            &&& d.payload == raw.subrange(
                DATA_HEADER_SIZE as int,
                DATA_HEADER_SIZE + d.payload.len(),
            )
        },
{
    if raw.len() >= DATA_HEADER_SIZE {
        let size = spec_le_u16(raw, DATA_SIZE_OFFSET as int);
        if size <= raw.len() {
            let p = spec_data_payload(raw, size);
            if size > DATA_HEADER_SIZE {
                assert(p.len() == size - DATA_HEADER_SIZE);
            } else {
                assert(raw.subrange(DATA_HEADER_SIZE as int, DATA_HEADER_SIZE as int) =~= p);
            }
        }
    }
}

} // verus!
