use vstd::prelude::*;
use vstd::slice::slice_subrange;

use crate::ordered_map::OrderedMap;
use crate::variant::VariantKind;
use reed_solomon_erasure::galois_8::ReedSolomon;

verus! {

pub const SIZE_OF_SIGNATURE: usize = 64;

pub const SIZE_OF_CODING_SHRED_HEADERS: usize = 89;

pub const SIZE_OF_MERKLE_ROOT: usize = 32;

pub const SIZE_OF_MERKLE_PROOF_ENTRY: usize = 20;

pub const DATA_SHRED_PAYLOAD_LEN: usize = 1203;

pub const CODE_SHRED_PAYLOAD_LEN: usize = 1228;

/// Bytes of one erasure shard of a Merkle erasure set: what a coding shred's
/// payload leaves once its headers, root, proof and signature are taken out.
pub open spec fn spec_shard_size(proof_size: u8, resigned: bool) -> int {
    CODE_SHRED_PAYLOAD_LEN - SIZE_OF_CODING_SHRED_HEADERS - SIZE_OF_MERKLE_ROOT - (proof_size as int)
        * SIZE_OF_MERKLE_PROOF_ENTRY - if resigned {
        SIZE_OF_SIGNATURE as int
    } else {
        0
    }
}

/// The proof sizes for which a shard has a size at all.
pub open spec fn shard_size_defined(proof_size: u8, resigned: bool) -> bool {
    spec_shard_size(proof_size, resigned) >= 0
}

/// A Merkle variant whose shard size is defined (every variant that a variant
/// byte can name has one).
pub open spec fn variant_shard_ok(v: VariantKind) -> bool {
    match v {
        VariantKind::DataMerkle { proof_size, resigned } => shard_size_defined(proof_size, resigned),
        VariantKind::CodeMerkle { proof_size, resigned } => shard_size_defined(proof_size, resigned),
        _ => true,
    }
}

pub fn shard_size(proof_size: u8, resigned: bool) -> (r: usize)
    requires
        shard_size_defined(proof_size, resigned),
    ensures
        r == spec_shard_size(proof_size, resigned),
{
    CODE_SHRED_PAYLOAD_LEN - SIZE_OF_CODING_SHRED_HEADERS - SIZE_OF_MERKLE_ROOT - (proof_size as usize)
        * SIZE_OF_MERKLE_PROOF_ENTRY - if resigned {
        SIZE_OF_SIGNATURE
    } else {
        0
    }
}

pub open spec fn opt_slice_view(r: Option<&[u8]>) -> Option<Seq<u8>> {
    match r {
        Some(s) => Some(s@),
        None => None,
    }
}

/// The bytes `[start, start + len)` of `raw`, when `raw` reaches that far.
pub open spec fn spec_window(raw: Seq<u8>, start: int, len: int) -> Option<Seq<u8>> {
    if start + len <= raw.len() {
        Some(raw.subrange(start, start + len))
    } else {
        None
    }
}

/// The erasure shard of a Merkle data shred: the bytes after its signature.
pub open spec fn spec_data_shard(raw: Seq<u8>, variant: VariantKind) -> Option<Seq<u8>> {
    match variant {
        VariantKind::DataMerkle { proof_size, resigned } => spec_window(
            raw,
            SIZE_OF_SIGNATURE as int,
            spec_shard_size(proof_size, resigned),
        ),
        _ => None,
    }
}

/// The erasure shard of a Merkle coding shred: the bytes after its headers.
pub open spec fn spec_code_shard(raw: Seq<u8>, variant: VariantKind) -> Option<Seq<u8>> {
    match variant {
        VariantKind::CodeMerkle { proof_size, resigned } => spec_window(
            raw,
            SIZE_OF_CODING_SHRED_HEADERS as int,
            spec_shard_size(proof_size, resigned),
        ),
        _ => None,
    }
}

pub fn data_shard_slice(raw: &[u8], variant: VariantKind) -> (r: Option<&[u8]>)
    requires
        variant_shard_ok(variant),
    ensures
        opt_slice_view(r) == spec_data_shard(raw@, variant),
{
    match variant {
        VariantKind::DataMerkle { proof_size, resigned } => {
            let len = shard_size(proof_size, resigned);
            let end = SIZE_OF_SIGNATURE + len;
            if end <= raw.len() {
                Some(slice_subrange(raw, SIZE_OF_SIGNATURE, end))
            } else {
                None
            }
        },
        _ => None,
    }
}

pub fn code_shard_slice(raw: &[u8], variant: VariantKind) -> (r: Option<&[u8]>)
    requires
        variant_shard_ok(variant),
    ensures
        opt_slice_view(r) == spec_code_shard(raw@, variant),
{
    match variant {
        VariantKind::CodeMerkle { proof_size, resigned } => {
            let len = shard_size(proof_size, resigned);
            let end = SIZE_OF_CODING_SHRED_HEADERS + len;
            if end <= raw.len() {
                Some(slice_subrange(raw, SIZE_OF_CODING_SHRED_HEADERS, end))
            } else {
                None
            }
        },
        _ => None,
    }
}

pub open spec fn spec_variant_as_data(v: VariantKind) -> VariantKind {
    match v {
        VariantKind::CodeMerkle { proof_size, resigned } => VariantKind::DataMerkle {
            proof_size,
            resigned,
        },
        other => other,
    }
}

/// The data variant that belongs to the same erasure set as a coding variant.
pub fn variant_as_data(v: VariantKind) -> (r: VariantKind)
    ensures
        r == spec_variant_as_data(v),
{
    match v {
        VariantKind::CodeMerkle { proof_size, resigned } => VariantKind::DataMerkle {
            proof_size,
            resigned,
        },
        other => other,
    }
}

/// A shard, the Merkle root, the proof and the signature fill a coding
/// shred's payload after its headers.
pub proof fn lemma_shard_size_fills_code_payload(v: VariantKind)
    requires
        v is CodeMerkle,
    ensures
        spec_shard_size(v.spec_proof_size(), v.spec_resigned()) + v.spec_merkle_suffix()
            + SIZE_OF_CODING_SHRED_HEADERS == CODE_SHRED_PAYLOAD_LEN,
{
}

/// The data shards and the coding shards of one Merkle erasure set have the
/// same size: when both windows exist they have equal lengths.
pub proof fn lemma_data_and_code_shards_match(code_raw: Seq<u8>, data_raw: Seq<u8>, v: VariantKind)
    requires
        v is CodeMerkle,
        variant_shard_ok(v),
        spec_code_shard(code_raw, v) is Some,
        spec_data_shard(data_raw, spec_variant_as_data(v)) is Some,
    ensures
        spec_code_shard(code_raw, v).unwrap().len() == spec_data_shard(
            data_raw,
            spec_variant_as_data(v),
        ).unwrap().len(),
        spec_variant_as_data(v).spec_proof_size() == v.spec_proof_size(),
        spec_variant_as_data(v).spec_resigned() == v.spec_resigned(),
        spec_variant_as_data(v).spec_merkle_suffix() == v.spec_merkle_suffix(),
{
}


// ---------------------------------------------------------------------------
// Reed-Solomon codecs
// ---------------------------------------------------------------------------
/// reed_solomon_erasure's codec over GF(2^8). Verus refuses to declare its
/// type, whose parameter is bound by that crate's `Field` trait, so it is held
/// here, hidden from Verus.
#[verifier::external_body]
pub struct RsCodec {
    rs: ReedSolomon,
}

#[verifier::external_type_specification]
#[verifier::external_body]
pub struct ExRsError(reed_solomon_erasure::Error);

/// Shards of an erasure set as byte sequences; `None` for a missing shard.
pub open spec fn shards_view(s: Seq<Option<Vec<u8>>>) -> Seq<Option<Seq<u8>>> {
    s.map_values(
        |o: Option<Vec<u8>>|
            match o {
                Some(v) => Some(v@),
                None => None,
            },
    )
}

/// Number of shards that are present.
pub open spec fn count_present(s: Seq<Option<Seq<u8>>>) -> nat
    decreases s.len(),
{
    if s.len() == 0 {
        0
    } else {
        count_present(s.drop_last()) + if s.last() is Some {
            1nat
        } else {
            0nat
        }
    }
}

/// When `reconstruct_data` of a codec for `data` + `coding` shards accepts a
/// set of shards: one per shard of the codec, the present ones non-empty and
/// of one length, and at least `data` of them present.
pub open spec fn reconstruct_accepts(data: u16, coding: u16, s: Seq<Option<Seq<u8>>>) -> bool {
    &&& s.len() == data + coding
    &&& forall|i: int| 0 <= i < s.len() && s[i] is Some ==> s[i].unwrap().len() > 0
    &&& forall|i: int, j: int|
        0 <= i < s.len() && 0 <= j < s.len() && s[i] is Some && s[j] is Some ==> s[i].unwrap().len()
            == s[j].unwrap().len()
    &&& count_present(s) >= data
}

/// The shards that reed_solomon_erasure's `reconstruct_data`, on a codec for
/// `data` + `coding` shards, leaves in place of `shards` when it succeeds.
pub uninterp spec fn rs_reconstructed(data: u16, coding: u16, shards: Seq<Option<Seq<u8>>>) -> Seq<
    Option<Seq<u8>>,
>;

/// Shard counts that a codec can be built for.
pub open spec fn codec_params_ok(data: u16, coding: u16) -> bool {
    data > 0 && coding > 0 && data + coding <= 256
}

/// A Reed-Solomon codec over GF(2^8), with the shard counts it was built for.
pub struct Codec {
    data: u16,
    coding: u16,
    rs: RsCodec,
}

/// Calls reed_solomon_erasure's `ReedSolomon::new`. Its source refuses a
/// codec without data shards, without parity shards, or with more than 256
/// shards in all, and builds one otherwise.
#[verifier::external_body]
fn rs_new(data: u16, coding: u16) -> (r: Result<RsCodec, reed_solomon_erasure::Error>)
    ensures
        r is Ok <==> (data > 0 && coding > 0 && data + coding <= 256),
{
    ReedSolomon::new(data as usize, coding as usize).map(|rs| RsCodec { rs })
}

/// Calls reed_solomon_erasure's `ReedSolomon::reconstruct_data` on the shards.
/// Its source accepts exactly the shard sets of `reconstruct_accepts`, leaves
/// the shards untouched on an error, and cannot change how many there are;
/// what it computes is named `rs_reconstructed`.
#[verifier::external_body]
fn rs_reconstruct_data(codec: &Codec, shards: &mut Vec<Option<Vec<u8>>>) -> (r: Result<
    (),
    reed_solomon_erasure::Error,
>)
    ensures
        final(shards)@.len() == old(shards)@.len(),
        r is Ok <==> reconstruct_accepts(
            codec.spec_data(),
            codec.spec_coding(),
            shards_view(old(shards)@),
        ),
        r is Ok ==> shards_view(final(shards)@) == rs_reconstructed(
            codec.spec_data(),
            codec.spec_coding(),
            shards_view(old(shards)@),
        ),
        r is Err ==> final(shards)@ == old(shards)@,
{
    codec.rs.rs.reconstruct_data(shards.as_mut_slice())
}

impl Codec {
    pub closed spec fn spec_data(&self) -> u16 {
        self.data
    }

    pub closed spec fn spec_coding(&self) -> u16 {
        self.coding
    }

    /// A codec for `data` data shards and `coding` coding shards.
    pub fn build(data: u16, coding: u16) -> (r: Result<Codec, reed_solomon_erasure::Error>)
        ensures
            r is Ok <==> (data > 0 && coding > 0 && data + coding <= 256),
            r matches Ok(c) ==> c.spec_data() == data && c.spec_coding() == coding,
    {
        match rs_new(data, coding) {
            Ok(rs) => Ok(Codec { data, coding, rs }),
            Err(e) => Err(e),
        }
    }

    pub fn data_shards(&self) -> (r: u16)
        ensures
            r == self.spec_data(),
    {
        self.data
    }

    pub fn coding_shards(&self) -> (r: u16)
        ensures
            r == self.spec_coding(),
    {
        self.coding
    }
}

pub const CACHE_CAPACITY: usize = 32;

/// The codecs built most recently, keyed by their shard counts; the most
/// recently used one is last.
pub struct ReedSolomonCache {
    entries: Vec<Codec>,
}

impl ReedSolomonCache {
    /// The shard counts of the cached codecs, least recently used first.
    pub closed spec fn keys(&self) -> Seq<(u16, u16)> {
        self.entries@.map_values(|c: Codec| (c.data, c.coding))
    }

    pub closed spec fn wf(&self) -> bool {
        &&& self.entries@.len() <= CACHE_CAPACITY
        &&& self.keys().no_duplicates()
        &&& forall|i: int|
            0 <= i < self.keys().len() ==> #[trigger] codec_params_ok(self.keys()[i].0, self.keys()[i].1)
    }

    pub fn new() -> (c: Self)
        ensures
            c.wf(),
            c.keys() == Seq::<(u16, u16)>::empty(),
    {
        let c = ReedSolomonCache { entries: Vec::new() };
        assert(c.keys() =~= Seq::<(u16, u16)>::empty());
        c
    }

    pub fn len(&self) -> (r: usize)
        ensures
            r == self.keys().len(),
    {
        self.entries.len()
    }

    fn find(&self, data: u16, coding: u16) -> (r: Option<usize>)
        ensures
            match r {
                Some(i) => i < self.keys().len() && self.keys()[i as int] == (data, coding),
                None => !self.keys().contains((data, coding)),
            },
    {
        let mut i: usize = 0;
        while i < self.entries.len()
            invariant
                i <= self.entries@.len(),
                forall|j: int| 0 <= j < i ==> self.keys()[j] != (data, coding),
            decreases self.entries@.len() - i,
        {
            if self.entries[i].data == data && self.entries[i].coding == coding {
                return Some(i);
            }
            i = i + 1;
        }
        None
    }

    /// The codec for `data` + `coding` shards, built and cached if it is not
    /// cached yet. A cached codec is moved to the end by swapping it with the
    /// last one; a new codec is appended, dropping the first one when the
    /// cache is full.
    pub fn get_or_build(&mut self, data: u16, coding: u16) -> (r: Result<
        &Codec,
        reed_solomon_erasure::Error,
    >)
        requires
            old(self).wf(),
        ensures
            final(self).wf(),
            r is Ok <==> codec_params_ok(data, coding),
            r is Err ==> final(self).keys() == old(self).keys(),
            r matches Ok(c) ==> {
                &&& c.spec_data() == data
                &&& c.spec_coding() == coding
                &&& final(self).keys().last() == (data, coding)
                &&& final(self).keys().to_set() =~= if old(self).keys().len() >= CACHE_CAPACITY
                    && !old(self).keys().contains((data, coding)) {
                    old(self).keys().to_set().remove(old(self).keys()[0]).insert((data, coding))
                } else {
                    old(self).keys().to_set().insert((data, coding))
                }
            },
    {
        let ghost old_keys = self.keys();
        if let Some(pos) = self.find(data, coding) {
            let entry = self.entries.swap_remove(pos);
            self.entries.push(entry);
            proof {
                let k = self.keys();
                let n = old_keys.len();
                assert(k.len() == n);
                assert forall|x: (u16, u16)| #[trigger] k.contains(x) <==> old_keys.contains(x) by {
                    if k.contains(x) {
                        let j = choose|j: int| 0 <= j < k.len() && k[j] == x;
                        if j == n - 1 {
                            assert(old_keys[pos as int] == x);
                        } else if j == pos {
                            assert(old_keys[n - 1] == x);
                        } else {
                            assert(old_keys[j] == x);
                        }
                    }
                    if old_keys.contains(x) {
                        let j = choose|j: int| 0 <= j < n && old_keys[j] == x;
                        if j == pos {
                            assert(k[n - 1] == x);
                        } else if j == n - 1 {
                            assert(k[pos as int] == x);
                        } else {
                            assert(k[j] == x);
                        }
                    }
                }
                assert forall|a: int, b: int| 0 <= a < b < k.len() implies k[a] != k[b] by {
                    let oa = if a == pos { n - 1 } else if a == n - 1 { pos as int } else { a };
                    let ob = if b == pos { n - 1 } else if b == n - 1 { pos as int } else { b };
                    assert(k[a] == old_keys[oa]);
                    assert(k[b] == old_keys[ob]);
                }
                assert(k.to_set() =~= old_keys.to_set().insert((data, coding)));
                assert(codec_params_ok(old_keys[pos as int].0, old_keys[pos as int].1));
                assert forall|i: int| 0 <= i < k.len() implies #[trigger] codec_params_ok(
                    k[i].0,
                    k[i].1,
                ) by {
                    let oi = if i == pos { n - 1 } else if i == n - 1 { pos as int } else { i };
                    assert(k[i] == old_keys[oi]);
                    assert(codec_params_ok(old_keys[oi].0, old_keys[oi].1));
                }
            }
            let last = self.entries.len() - 1;
            return Ok(&self.entries[last]);
        }
        let codec = match Codec::build(data, coding) {
            Ok(c) => c,
            Err(e) => return Err(e),
        };
        if self.entries.len() >= CACHE_CAPACITY {
            self.entries.remove(0);
        }
        let ghost mid = self.keys();
        proof {
            if old_keys.len() >= CACHE_CAPACITY {
                assert(mid =~= old_keys.subrange(1, old_keys.len() as int));
            } else {
                assert(mid =~= old_keys);
            }
        }
        self.entries.push(codec);
        proof {
            let k = self.keys();
            assert(k =~= mid.push((data, coding)));
            assert(!mid.contains((data, coding))) by {
                if mid.contains((data, coding)) {
                    let j = choose|j: int| 0 <= j < mid.len() && mid[j] == (data, coding);
                    if old_keys.len() >= CACHE_CAPACITY {
                        assert(old_keys[j + 1] == (data, coding));
                    } else {
                        assert(old_keys[j] == (data, coding));
                    }
                }
            }
            assert forall|i: int| 0 <= i < k.len() implies #[trigger] codec_params_ok(
                k[i].0,
                k[i].1,
            ) by {
                if i < mid.len() {
                    if old_keys.len() >= CACHE_CAPACITY {
                        assert(k[i] == old_keys[i + 1]);
                        assert(codec_params_ok(old_keys[i + 1].0, old_keys[i + 1].1));
                    } else {
                        assert(k[i] == old_keys[i]);
                        assert(codec_params_ok(old_keys[i].0, old_keys[i].1));
                    }
                }
            }
            assert forall|a: int, b: int| 0 <= a < b < k.len() implies k[a] != k[b] by {
                if b == k.len() - 1 {
                    assert(mid[a] == k[a]);
                } else if old_keys.len() >= CACHE_CAPACITY {
                    assert(k[a] == old_keys[a + 1]);
                    assert(k[b] == old_keys[b + 1]);
                }
            }
            assert forall|x: (u16, u16)| #[trigger] k.contains(x) <==> (mid.contains(x) || x == (
            data,
            coding,
            )) by {
                if k.contains(x) {
                    let j = choose|j: int| 0 <= j < k.len() && k[j] == x;
                    if j < mid.len() {
                        assert(mid[j] == x);
                    }
                }
                if mid.contains(x) {
                    let j = choose|j: int| 0 <= j < mid.len() && mid[j] == x;
                    assert(k[j] == x);
                }
                assert(k[k.len() - 1] == (data, coding));
            }
            if old_keys.len() >= CACHE_CAPACITY {
                assert forall|x: (u16, u16)| #[trigger] mid.contains(x) <==> (old_keys.contains(x)
                    && x != old_keys[0]) by {
                    if mid.contains(x) {
                        let j = choose|j: int| 0 <= j < mid.len() && mid[j] == x;
                        assert(old_keys[j + 1] == x);
                        assert(old_keys[0] != old_keys[j + 1]);
                    }
                    if old_keys.contains(x) && x != old_keys[0] {
                        let j = choose|j: int| 0 <= j < old_keys.len() && old_keys[j] == x;
                        assert(mid[j - 1] == x);
                    }
                }
                assert(k.to_set() =~= old_keys.to_set().remove(old_keys[0]).insert((data, coding)));
            } else {
                assert(k.to_set() =~= old_keys.to_set().insert((data, coding)));
            }
        }
        let last = self.entries.len() - 1;
        Ok(&self.entries[last])
    }
}


// ---------------------------------------------------------------------------
// Erasure sets
// ---------------------------------------------------------------------------
/// The coding shreds received for one erasure (FEC) set, and what the first
/// of them told about the set.
pub struct FecSetBuffer {
    pub fec_set_index: u32,
    pub num_data: u16,
    pub num_coding: u16,
    pub shard_size: usize,
    pub variant: Option<VariantKind>,
    /// Coding shreds by their position in the set.
    pub code: OrderedMap<Vec<u8>>,
}

/// A data shred handed to reconstruction: its position in the set and bytes.
pub open spec fn data_refs_view(ds: Seq<(u16, &[u8])>) -> Seq<(u16, Seq<u8>)> {
    ds.map_values(|e: (u16, &[u8])| (e.0, e.1@))
}

/// Shard slots after placing the coding shreds: the one at position `p`
/// goes to slot `nd + p` when that slot exists and its shard has length `len`.
pub open spec fn place_code(
    sh: Seq<Option<Seq<u8>>>,
    code: Seq<(u32, Vec<u8>)>,
    nd: int,
    len: int,
    v: VariantKind,
) -> Seq<Option<Seq<u8>>>
    decreases code.len(),
{
    if code.len() == 0 {
        sh
    } else {
        let prev = place_code(sh, code.drop_last(), nd, len, v);
        let idx = nd + code.last().0;
        if idx >= prev.len() {
            prev
        } else {
            match spec_code_shard(code.last().1@, v) {
                Some(s) => if s.len() == len {
                    prev.update(idx, Some(s))
                } else {
                    prev
                },
                None => prev,
            }
        }
    }
}

/// Shard slots after placing the data shreds in order: one at position `p`
/// fills slot `p` when `p < nd`, the slot is still empty, and its shard has
/// length `len`.
pub open spec fn place_data(
    sh: Seq<Option<Seq<u8>>>,
    ds: Seq<(u16, Seq<u8>)>,
    nd: int,
    len: int,
    v: VariantKind,
) -> Seq<Option<Seq<u8>>>
    decreases ds.len(),
{
    if ds.len() == 0 {
        sh
    } else {
        let prev = place_data(sh, ds.drop_last(), nd, len, v);
        let p = ds.last().0 as int;
        if p >= nd || prev[p] is Some {
            prev
        } else {
            match spec_data_shard(ds.last().1, v) {
                Some(s) => if s.len() == len {
                    prev.update(p, Some(s))
                } else {
                    prev
                },
                None => prev,
            }
        }
    }
}

pub open spec fn ds_has_pos(ds: Seq<(u16, Seq<u8>)>, pos: int) -> bool {
    exists|i: int| 0 <= i < ds.len() && ds[i].0 == pos
}

/// A data shred rebuilt from a shard: the shard after a zeroed signature, in
/// a zeroed payload of a data shred's size.
pub open spec fn padded_shred(s: Seq<u8>) -> Seq<u8> {
    Seq::new(
        DATA_SHRED_PAYLOAD_LEN as nat,
        |i: int|
            if SIZE_OF_SIGNATURE <= i < SIZE_OF_SIGNATURE + s.len() {
                s[i - SIZE_OF_SIGNATURE]
            } else {
                0u8
            },
    )
}

/// The data shreds recovered from reconstructed shards: the positions below
/// `upto` that no data shred was handed for and whose shard has length `len`,
/// in increasing order.
pub open spec fn recovered_list(
    r: Seq<Option<Seq<u8>>>,
    ds: Seq<(u16, Seq<u8>)>,
    len: int,
    upto: int,
) -> Seq<(u16, Seq<u8>)>
    decreases upto,
{
    if upto <= 0 {
        Seq::empty()
    } else {
        let prev = recovered_list(r, ds, len, upto - 1);
        let pos = upto - 1;
        if ds_has_pos(ds, pos) || pos >= r.len() {
            prev
        } else {
            match r[pos] {
                Some(s) => if s.len() == len {
                    prev.push((pos as u16, padded_shred(s)))
                } else {
                    prev
                },
                None => prev,
            }
        }
    }
}

/// The positions of the recovered data shreds lie below `upto` and
/// increase strictly.
pub proof fn lemma_recovered_positions_increase(
    r: Seq<Option<Seq<u8>>>,
    ds: Seq<(u16, Seq<u8>)>,
    len: int,
    upto: int,
)
    requires
        upto <= 0x10000,
    ensures
        forall|a: int|
            0 <= a < recovered_list(r, ds, len, upto).len() ==> (#[trigger] recovered_list(
                r,
                ds,
                len,
                upto,
            )[a]).0 < upto,
        forall|a: int, b: int|
            0 <= a < b < recovered_list(r, ds, len, upto).len() ==> (#[trigger] recovered_list(
                r,
                ds,
                len,
                upto,
            )[a]).0 < (#[trigger] recovered_list(r, ds, len, upto)[b]).0,
    decreases upto,
{
    if upto > 0 {
        lemma_recovered_positions_increase(r, ds, len, upto - 1);
        let prev = recovered_list(r, ds, len, upto - 1);
        let cur = recovered_list(r, ds, len, upto);
        assert(cur == prev || (cur.len() == prev.len() + 1 && cur.drop_last() == prev && cur.last().0
            == upto - 1));
        if cur != prev {
            assert forall|a: int, b: int| 0 <= a < b < cur.len() implies #[trigger] cur[a].0
                < #[trigger] cur[b].0 by {
                if b < prev.len() {
                    assert(cur[a] == prev[a] && cur[b] == prev[b]);
                } else {
                    assert(cur[a] == prev[a]);
                }
            }
            assert forall|a: int| 0 <= a < cur.len() implies (#[trigger] cur[a]).0 < upto by {
                if a < prev.len() {
                    assert(cur[a] == prev[a]);
                }
            }
        }
    }
}

pub open spec fn recovered_view(out: Seq<(u16, Vec<u8>)>) -> Seq<(u16, Seq<u8>)> {
    out.map_values(|e: (u16, Vec<u8>)| (e.0, e.1@))
}

impl FecSetBuffer {
    pub open spec fn wf(&self) -> bool {
        &&& self.code.wf()
        &&& (self.variant matches Some(v) ==> variant_shard_ok(v))
        &&& self.shard_size <= CODE_SHRED_PAYLOAD_LEN - SIZE_OF_CODING_SHRED_HEADERS
            - SIZE_OF_MERKLE_ROOT
    }

    /// Whether this set can be reconstructed at all: its first coding shred
    /// gave the counts and a Merkle coding variant.
    pub open spec fn spec_reconstructible(&self) -> bool {
        &&& self.num_data != 0
        &&& self.shard_size != 0
        &&& self.variant matches Some(v) && v is CodeMerkle
    }

    /// The shard slots handed to the codec for data shreds `ds`.
    pub open spec fn spec_initial_shards(&self, ds: Seq<(u16, Seq<u8>)>) -> Seq<Option<Seq<u8>>> {
        let nd = self.num_data as int;
        let v = self.variant.unwrap();
        let empty = Seq::new((self.num_data + self.num_coding) as nat, |i: int| None::<Seq<u8>>);
        let with_code = place_code(empty, self.code.entries(), nd, self.shard_size as int, v);
        place_data(with_code, ds, nd, self.shard_size as int, spec_variant_as_data(v))
    }

    pub fn new(fec_set_index: u32) -> (b: Self)
        ensures
            b.wf(),
            b.fec_set_index == fec_set_index,
            b.num_data == 0,
            b.num_coding == 0,
            b.shard_size == 0,
            b.variant is None,
            b.code@ == Map::<u32, Vec<u8>>::empty(),
            b.code.entries().len() == 0,
    {
        FecSetBuffer {
            fec_set_index,
            num_data: 0,
            num_coding: 0,
            shard_size: 0,
            variant: None,
            code: OrderedMap::new(),
        }
    }

    /// Records a coding shred of the set. The counts, the variant and the
    /// shard size are those of the first coding shred that gives them; a
    /// second coding shred at a position already held is dropped.
    pub fn record_code(
        &mut self,
        position: u16,
        num_data: u16,
        num_coding: u16,
        raw: &[u8],
        variant: VariantKind,
    )
        requires
            old(self).wf(),
            variant_shard_ok(variant),
        ensures
            final(self).wf(),
            final(self).fec_set_index == old(self).fec_set_index,
            final(self).num_data == if old(self).num_data == 0 {
                num_data
            } else {
                old(self).num_data
            },
            final(self).num_coding == if old(self).num_coding == 0 {
                num_coding
            } else {
                old(self).num_coding
            },
            final(self).variant == if old(self).variant is None {
                Some(variant)
            } else {
                old(self).variant
            },
            final(self).shard_size == if old(self).shard_size == 0 && variant is CodeMerkle {
                spec_shard_size(variant.spec_proof_size(), variant.spec_resigned()) as usize
            } else {
                old(self).shard_size
            },
            old(self).code@.contains_key(position as u32) ==> final(self).code@ == old(
                self,
            ).code@,
            !old(self).code@.contains_key(position as u32) ==> {
                &&& final(self).code@.dom() == old(self).code@.dom().insert(position as u32)
                &&& final(self).code@[position as u32]@ == raw@
                &&& forall|k: u32|
                    k != position && old(self).code@.contains_key(k) ==> final(self).code@[k]
                        == old(self).code@[k]
            },
    {
        if self.num_data == 0 {
            self.num_data = num_data;
        }
        if self.num_coding == 0 {
            self.num_coding = num_coding;
        }
        if self.variant.is_none() {
            self.variant = Some(variant);
        }
        if self.shard_size == 0 {
            if let VariantKind::CodeMerkle { proof_size, resigned } = variant {
                self.shard_size = shard_size(proof_size, resigned);
            }
        }
        if !self.code.contains_key(position as u32) {
            let bytes = vstd::slice::slice_to_vec(raw);
            self.code.insert(position as u32, bytes);
        }
    }

    /// Whether `data_received` data shreds and the coding shreds held are
    /// enough to rebuild the set.
    pub fn can_recover_with(&self, data_received: usize) -> (r: bool)
        requires
            self.wf(),
        ensures
            r == (self.num_data > 0 && data_received + self.code.entries().len()
                >= self.num_data),
    {
        self.num_data > 0 && (data_received >= self.num_data as usize || self.code.len()
            >= self.num_data as usize - data_received)
    }

    /// Rebuilds the data shreds of the set that were not handed in `data_shards`.
    ///
    /// Returns nothing when the set cannot be rebuilt (see
    /// `spec_reconstructible`) or fewer than `num_data` shards are at hand;
    /// an error when the codec cannot be built or refuses the shards; and
    /// otherwise the missing data shreds, each a zeroed data shred with the
    /// rebuilt shard after its signature.
    pub fn try_reconstruct(&self, data_shards: &[(u16, &[u8])], cache: &mut ReedSolomonCache) -> (r:
        Result<Vec<(u16, Vec<u8>)>, reed_solomon_erasure::Error>)
        requires
            self.wf(),
            old(cache).wf(),
        ensures
            final(cache).wf(),
            !self.spec_reconstructible() ==> (r matches Ok(v) && v@.len() == 0),
            self.spec_reconstructible() && count_present(
                self.spec_initial_shards(data_refs_view(data_shards@)),
            ) < self.num_data ==> (r matches Ok(v) && v@.len() == 0),
            self.spec_reconstructible() && count_present(
                self.spec_initial_shards(data_refs_view(data_shards@)),
            ) >= self.num_data ==> {
                &&& (r is Err <==> !(self.num_coding > 0 && self.num_data + self.num_coding <= 256
                    && reconstruct_accepts(
                    self.num_data,
                    self.num_coding,
                    self.spec_initial_shards(data_refs_view(data_shards@)),
                )))
                &&& r matches Ok(out) ==> recovered_view(out@) == recovered_list(
                    rs_reconstructed(
                        self.num_data,
                        self.num_coding,
                        self.spec_initial_shards(data_refs_view(data_shards@)),
                    ),
                    data_refs_view(data_shards@),
                    self.shard_size as int,
                    self.num_data as int,
                )
            },
    {
        if self.num_data == 0 || self.shard_size == 0 {
            return Ok(Vec::new());
        }
        let variant = match self.variant {
            Some(v) => v,
            None => return Ok(Vec::new()),
        };
        match variant {
            VariantKind::CodeMerkle { .. } => {},
            _ => return Ok(Vec::new()),
        }
        let nd = self.num_data as usize;
        let nc = self.num_coding as usize;
        let total = nd + nc;
        let shard_len = self.shard_size;
        let ghost ds = data_refs_view(data_shards@);
        let mut shards: Vec<Option<Vec<u8>>> = Vec::new();
        let mut t: usize = 0;
        while t < total
            invariant
                t <= total,
                shards@.len() == t,
                forall|i: int| 0 <= i < shards@.len() ==> shards@[i] is None,
            decreases total - t,
        {
            shards.push(None);
            t = t + 1;
        }
        assert(shards_view(shards@) =~= Seq::new(total as nat, |i: int| None::<Seq<u8>>));
        let ghost empty = shards_view(shards@);
        let mut ci: usize = 0;
        while ci < self.code.len()
            invariant
                self.wf(),
                self.variant == Some(variant),
                nd == self.num_data,
                shard_len == self.shard_size,
                total == nd + self.num_coding,
                nc == self.num_coding,
                ci <= self.code.entries().len(),
                shards@.len() == total,
                shards_view(shards@) == place_code(
                    empty,
                    self.code.entries().subrange(0, ci as int),
                    nd as int,
                    shard_len as int,
                    variant,
                ),
                empty.len() == total,
            decreases self.code.entries().len() - ci,
        {
            let (pos, raw) = self.code.entry_at(ci);
            proof {
                let sub = self.code.entries().subrange(0, ci + 1);
                assert(sub.drop_last() =~= self.code.entries().subrange(0, ci as int));
                assert(sub.last() == self.code.entries()[ci as int]);
                lemma_place_code_len(empty, self.code.entries().subrange(0, ci as int), nd as int, shard_len as int, variant);
            }
            ci = ci + 1;
            if pos as usize >= nc {
                continue;
            }
            let idx = nd + pos as usize;
            match code_shard_slice(raw.as_slice(), variant) {
                Some(s) => {
                    if s.len() == shard_len {
                        let v = vstd::slice::slice_to_vec(s);
                        let ghost before = shards@;
                        shards.set(idx, Some(v));
                        assert(shards_view(shards@) =~= shards_view(before).update(idx as int, Some(s@)));
                    }
                },
                None => {},
            }
        }
        proof {
            assert(self.code.entries().subrange(0, ci as int) =~= self.code.entries());
        }
        let ghost with_code = shards_view(shards@);
        let data_variant = variant_as_data(variant);
        let mut di: usize = 0;
        while di < data_shards.len()
            invariant
                nd == self.num_data,
                shard_len == self.shard_size,
                variant_shard_ok(data_variant),
                ds == data_refs_view(data_shards@),
                di <= data_shards@.len(),
                shards@.len() == total,
                with_code.len() == total,
                total >= nd,
                shards_view(shards@) == place_data(
                    with_code,
                    ds.subrange(0, di as int),
                    nd as int,
                    shard_len as int,
                    data_variant,
                ),
            decreases data_shards@.len() - di,
        {
            let (pos, raw) = data_shards[di];
            proof {
                let sub = ds.subrange(0, di + 1);
                assert(sub.drop_last() =~= ds.subrange(0, di as int));
                assert(sub.last() == ds[di as int]);
                lemma_place_data_len(with_code, ds.subrange(0, di as int), nd as int, shard_len as int, data_variant);
            }
            let p = pos as usize;
            di = di + 1;
            if p >= nd || shards[p].is_some() {
                continue;
            }
            match data_shard_slice(raw, data_variant) {
                Some(s) => {
                    if s.len() == shard_len {
                        let v = vstd::slice::slice_to_vec(s);
                        let ghost before = shards@;
                        shards.set(p, Some(v));
                        assert(shards_view(shards@) =~= shards_view(before).update(p as int, Some(s@)));
                    }
                },
                None => {},
            }
        }
        proof {
            assert(ds.subrange(0, di as int) =~= ds);
            assert(shards_view(shards@) == self.spec_initial_shards(ds));
        }
        let ghost initial = shards_view(shards@);
        let mut have: usize = 0;
        let mut hi: usize = 0;
        while hi < shards.len()
            invariant
                hi <= shards@.len(),
                have <= hi,
                initial == shards_view(shards@),
                have == count_present(initial.subrange(0, hi as int)),
            decreases shards@.len() - hi,
        {
            proof {
                let sub = initial.subrange(0, hi + 1);
                assert(sub.drop_last() =~= initial.subrange(0, hi as int));
            }
            if shards[hi].is_some() {
                have = have + 1;
            }
            hi = hi + 1;
        }
        proof {
            assert(initial.subrange(0, hi as int) =~= initial);
        }
        if have < nd {
            return Ok(Vec::new());
        }
        let codec = match cache.get_or_build(self.num_data, self.num_coding) {
            Ok(c) => c,
            Err(e) => return Err(e),
        };
        match rs_reconstruct_data(codec, &mut shards) {
            Ok(()) => {},
            Err(e) => return Err(e),
        }
        let ghost rebuilt = shards_view(shards@);
        let mut out: Vec<(u16, Vec<u8>)> = Vec::new();
        let mut pos: usize = 0;
        while pos < nd
            invariant
                pos <= nd,
                nd <= total,
                nd <= u16::MAX,
                shards@.len() == total,
                rebuilt == shards_view(shards@),
                ds == data_refs_view(data_shards@),
                shard_len <= CODE_SHRED_PAYLOAD_LEN - SIZE_OF_CODING_SHRED_HEADERS - SIZE_OF_MERKLE_ROOT,
                recovered_view(out@) == recovered_list(rebuilt, ds, shard_len as int, pos as int),
            decreases nd - pos,
        {
            let present = position_listed(data_shards, pos as u16);
            if !present {
                match &shards[pos] {
                    Some(s) => {
                        if s.len() == shard_len {
                            let raw = padded_copy(s.as_slice());
                            let ghost before = out@;
                            out.push((pos as u16, raw));
                            assert(recovered_view(out@) =~= recovered_view(before).push((pos as u16, padded_shred(s@))));
                        }
                    },
                    None => {},
                }
            }
            pos = pos + 1;
        }
        Ok(out)
    }
}

proof fn lemma_place_code_len(sh: Seq<Option<Seq<u8>>>, code: Seq<(u32, Vec<u8>)>, nd: int, len: int, v: VariantKind)
    requires
        0 <= nd,
    ensures
        place_code(sh, code, nd, len, v).len() == sh.len(),
    decreases code.len(),
{
    if code.len() > 0 {
        lemma_place_code_len(sh, code.drop_last(), nd, len, v);
    }
}

proof fn lemma_place_data_len(sh: Seq<Option<Seq<u8>>>, ds: Seq<(u16, Seq<u8>)>, nd: int, len: int, v: VariantKind)
    requires
        0 <= nd <= sh.len(),
    ensures
        place_data(sh, ds, nd, len, v).len() == sh.len(),
    decreases ds.len(),
{
    if ds.len() > 0 {
        lemma_place_data_len(sh, ds.drop_last(), nd, len, v);
    }
}

/// Whether a data shred at `pos` was handed.
fn position_listed(data_shards: &[(u16, &[u8])], pos: u16) -> (r: bool)
    ensures
        r == ds_has_pos(data_refs_view(data_shards@), pos as int),
{
    let mut i: usize = 0;
    while i < data_shards.len()
        invariant
            i <= data_shards@.len(),
            forall|j: int| 0 <= j < i ==> data_shards@[j].0 != pos,
        decreases data_shards@.len() - i,
    {
        if data_shards[i].0 == pos {
            assert(data_refs_view(data_shards@)[i as int].0 == pos);
            return true;
        }
        i = i + 1;
    }
    false
}

/// A zeroed data shred with `shard` after its signature.
fn padded_copy(shard: &[u8]) -> (r: Vec<u8>)
    requires
        SIZE_OF_SIGNATURE + shard@.len() <= DATA_SHRED_PAYLOAD_LEN,
    ensures
        r@ == padded_shred(shard@),
{
    let mut raw: Vec<u8> = Vec::new();
    let mut i: usize = 0;
    while i < DATA_SHRED_PAYLOAD_LEN
        invariant
            i <= DATA_SHRED_PAYLOAD_LEN,
            SIZE_OF_SIGNATURE + shard@.len() <= DATA_SHRED_PAYLOAD_LEN,
            raw@ == padded_shred(shard@).subrange(0, i as int),
        decreases DATA_SHRED_PAYLOAD_LEN - i,
    {
        let b = if SIZE_OF_SIGNATURE <= i && i < SIZE_OF_SIGNATURE + shard.len() {
            shard[i - SIZE_OF_SIGNATURE]
        } else {
            0u8
        };
        raw.push(b);
        i = i + 1;
        assert(raw@ =~= padded_shred(shard@).subrange(0, i as int));
    }
    assert(raw@ =~= padded_shred(shard@));
    raw
}


impl Default for ReedSolomonCache {
    fn default() -> (c: Self)
        ensures
            c.wf(),
            c.keys() == Seq::<(u16, u16)>::empty(),
    {
        Self::new()
    }
}

} // verus!
