use vstd::prelude::*;

verus! {

/// Bytes taken by one node of a Merkle proof.
pub const PROOF_NODE_SIZE: usize = 20;

/// Bytes added to a shred that carries a retransmitter signature.
pub const RESIGNED_EXTRA: usize = 64;

/// Bytes of the Merkle root carried by every Merkle shred.
pub const MERKLE_ROOT_SIZE: usize = 32;

/// The kind of a shred, as told by its variant byte.
#[derive(Debug, Clone, Copy, PartialEq, Eq, Structural)]
pub enum VariantKind {
    DataLegacy,
    CodeLegacy,
    DataMerkle { proof_size: u8, resigned: bool },
    CodeMerkle { proof_size: u8, resigned: bool },
}

/// What a variant byte means: `None` for a byte that names no known variant.
pub open spec fn spec_classify_variant(b: u8) -> Option<VariantKind> {
    if b == 0xA5 {
        Some(VariantKind::DataLegacy)
    } else if b == 0x5A {
        Some(VariantKind::CodeLegacy)
    } else if 0x60 <= b <= 0x6F {
        Some(VariantKind::CodeMerkle { proof_size: (b % 16) as u8, resigned: false })
    } else if 0x70 <= b <= 0x7F {
        Some(VariantKind::CodeMerkle { proof_size: (b % 16) as u8, resigned: true })
    } else if 0x90 <= b <= 0x9F {
        Some(VariantKind::DataMerkle { proof_size: (b % 16) as u8, resigned: false })
    } else if 0xB0 <= b <= 0xBF {
        Some(VariantKind::DataMerkle { proof_size: (b % 16) as u8, resigned: true })
    } else {
        None
    }
}

impl VariantKind {
    pub open spec fn spec_is_data(self) -> bool {
        self is DataLegacy || self is DataMerkle
    }

    pub open spec fn spec_is_code(self) -> bool {
        self is CodeLegacy || self is CodeMerkle
    }

    pub open spec fn spec_proof_size(self) -> u8 {
        match self {
            VariantKind::DataMerkle { proof_size, .. } => proof_size,
            VariantKind::CodeMerkle { proof_size, .. } => proof_size,
            _ => 0,
        }
    }

    pub open spec fn spec_resigned(self) -> bool {
        match self {
            VariantKind::DataMerkle { resigned, .. } => resigned,
            VariantKind::CodeMerkle { resigned, .. } => resigned,
            _ => false,
        }
    }

    /// Bytes at the end of a Merkle shred that follow the erasure-coded part:
    /// the proof nodes, the Merkle root and, when resigned, the signature.
    pub open spec fn spec_merkle_suffix(self) -> nat {
        if self is DataLegacy || self is CodeLegacy {
            0
        } else {
            (self.spec_proof_size() as nat) * (PROOF_NODE_SIZE as nat) + MERKLE_ROOT_SIZE as nat
                + if self.spec_resigned() {
                RESIGNED_EXTRA as nat
            } else {
                0
            }
        }
    }

    pub fn is_data(&self) -> (r: bool)
        ensures
            r == self.spec_is_data(),
    {
        match self {
            VariantKind::DataLegacy => true,
            VariantKind::DataMerkle { .. } => true,
            _ => false,
        }
    }

    pub fn is_code(&self) -> (r: bool)
        ensures
            r == self.spec_is_code(),
    {
        match self {
            VariantKind::CodeLegacy => true,
            VariantKind::CodeMerkle { .. } => true,
            _ => false,
        }
    }

    pub fn merkle_suffix(&self) -> (r: usize)
        ensures
            r == self.spec_merkle_suffix(),
    {
        match self {
            VariantKind::DataLegacy | VariantKind::CodeLegacy => 0,
            VariantKind::DataMerkle { proof_size, resigned }
            | VariantKind::CodeMerkle { proof_size, resigned } => {
                let proof = (*proof_size as usize) * PROOF_NODE_SIZE;
                let resigned_sig = if *resigned {
                    RESIGNED_EXTRA
                } else {
                    0
                };
                proof + MERKLE_ROOT_SIZE + resigned_sig
            },
        }
    }

    pub fn proof_size(&self) -> (r: u8)
        ensures
            r == self.spec_proof_size(),
    {
        match self {
            VariantKind::DataMerkle { proof_size, .. } => *proof_size,
            VariantKind::CodeMerkle { proof_size, .. } => *proof_size,
            _ => 0,
        }
    }

    pub fn resigned(&self) -> (r: bool)
        ensures
            r == self.spec_resigned(),
    {
        match self {
            VariantKind::DataMerkle { resigned, .. } => *resigned,
            VariantKind::CodeMerkle { resigned, .. } => *resigned,
            _ => false,
        }
    }
}

/// Tells the kind of a shred from its variant byte.
pub fn classify_variant(b: u8) -> (r: Option<VariantKind>)
    ensures
        r == spec_classify_variant(b),
{
    assert(b & 0x0F == b % 16) by (bit_vector);
    if b == 0xA5 {
        Some(VariantKind::DataLegacy)
    } else if b == 0x5A {
        Some(VariantKind::CodeLegacy)
    } else if 0x60 <= b && b <= 0x6F {
        Some(VariantKind::CodeMerkle { proof_size: b & 0x0F, resigned: false })
    } else if 0x70 <= b && b <= 0x7F {
        Some(VariantKind::CodeMerkle { proof_size: b & 0x0F, resigned: true })
    } else if 0x90 <= b && b <= 0x9F {
        Some(VariantKind::DataMerkle { proof_size: b & 0x0F, resigned: false })
    } else if 0xB0 <= b && b <= 0xBF {
        Some(VariantKind::DataMerkle { proof_size: b & 0x0F, resigned: true })
    } else {
        None
    }
}

/// Every known variant byte names exactly one of a data shred or a coding
/// shred, and its proof size is the low nibble of the byte.
pub proof fn lemma_classified_variant_is_data_xor_code(b: u8)
    requires
        spec_classify_variant(b) is Some,
    ensures
        spec_classify_variant(b).unwrap().spec_is_data() != spec_classify_variant(
            b,
        ).unwrap().spec_is_code(),
        spec_classify_variant(b).unwrap().spec_proof_size() == b % 16 || b == 0xA5 || b == 0x5A,
        spec_classify_variant(b).unwrap().spec_proof_size() < 16,
{
}

/// The Merkle suffix of a classified variant never exceeds what fifteen proof
/// nodes, the root and a signature take.
pub proof fn lemma_merkle_suffix_bound(v: VariantKind)
    requires
        v.spec_proof_size() < 16,
    ensures
        v.spec_merkle_suffix() <= 15 * PROOF_NODE_SIZE + MERKLE_ROOT_SIZE + RESIGNED_EXTRA,
{
}

} // verus!
