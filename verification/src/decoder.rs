use vstd::prelude::*;

use crate::error::DecodeError;
use crate::parser::spec_le_u64;
use solana_transaction::versioned::VersionedTransaction;

verus! {

#[verifier::external_type_specification]
#[verifier::external_body]
pub struct ExVersionedTransaction(VersionedTransaction);

/// Most entries a batch may announce.
pub const MAX_ENTRY_COUNT: u64 = 50_000;

/// Fewest bytes one serialized entry takes.
pub const MIN_ENTRY_BYTES: u64 = 48;

pub const INITIAL_BUFFER_CAPACITY: usize = 64 * 1024;

/// What reading one entry from the front of some bytes gave.
pub enum EntryRead {
    /// An entry that took `consumed` bytes, and its transactions.
    Entry { consumed: u64, transactions: Vec<VersionedTransaction> },
    /// The bytes end before the entry does.
    Truncated,
    /// The bytes are not an entry; why not.
    Invalid(String),
}

/// Reads the ledger entries that the data shreds of a batch carry.
///
/// The library takes what it returns as it comes: its contracts hold for any
/// result.
pub trait EntryCodec {
    /// Reads one entry from the front of `bytes`.
    fn read_entry(&self, bytes: &[u8]) -> EntryRead;

    /// Reads a length-prefixed list of entries from the front of `bytes`:
    /// how many bytes it took and the transactions of all its entries.
    fn read_entry_list(&self, bytes: &[u8]) -> Option<(u64, Vec<VersionedTransaction>)>;
}

/// The entry count that starts a batch, when the first 8 bytes are there.
pub open spec fn spec_entry_count(bytes: Seq<u8>) -> int {
    spec_le_u64(bytes, 0)
}

/// Whether `bytes` may hold a list of entries: a count of at most
/// `MAX_ENTRY_COUNT` entries, of which each takes at least 48 bytes.
pub open spec fn spec_valid_vec_prefix(bytes: Seq<u8>) -> bool {
    &&& bytes.len() >= 8
    &&& spec_entry_count(bytes) <= MAX_ENTRY_COUNT
    &&& spec_entry_count(bytes) * MIN_ENTRY_BYTES <= bytes.len()
}

fn read_count(bytes: &[u8], at: usize) -> (r: u64)
    requires
        at + 8 <= bytes@.len(),
    ensures
        r == spec_le_u64(bytes@, at as int),
{
    let b0 = bytes[at] as u64 + (bytes[at + 1] as u64) * 256;
    let b1 = bytes[at + 2] as u64 + (bytes[at + 3] as u64) * 256;
    let b2 = bytes[at + 4] as u64 + (bytes[at + 5] as u64) * 256;
    let b3 = bytes[at + 6] as u64 + (bytes[at + 7] as u64) * 256;
    let lo = b0 + b1 * 65536;
    let hi = b2 + b3 * 65536;
    lo + hi * 4294967296
}

pub fn validate_vec_prefix(bytes: &[u8]) -> (r: bool)
    ensures
        r == spec_valid_vec_prefix(bytes@),
{
    if bytes.len() < 8 {
        return false;
    }
    let count = read_count(bytes, 0);
    if count > MAX_ENTRY_COUNT {
        return false;
    }
    if count * MIN_ENTRY_BYTES > bytes.len() as u64 {
        return false;
    }
    true
}

/// The transactions of one complete batch, read as a single list of entries;
/// `None` when the prefix announces no plausible list or the codec cannot
/// read one.
pub fn decode_batch<C: EntryCodec>(codec: &C, bytes: &[u8]) -> (r: Option<
    Vec<VersionedTransaction>,
>)
    ensures
        !spec_valid_vec_prefix(bytes@) ==> r is None,
{
    if !validate_vec_prefix(bytes) {
        return None;
    }
    match codec.read_entry_list(bytes) {
        Some((_, txs)) => Some(txs),
        None => None,
    }
}

/// Applies what the codec read as a list of entries at `offset` of bytes
/// `len` long: a list that took at least one byte and no more than remain
/// appends its transactions to `out` and gives the offset past it; no list,
/// or one of impossible size, gives `None` and appends nothing.
pub fn apply_list_read(
    len: usize,
    offset: usize,
    read: Option<(u64, Vec<VersionedTransaction>)>,
    out: &mut Vec<VersionedTransaction>,
) -> (r: Option<usize>)
    requires
        offset <= len,
    ensures
        match read {
            Some((consumed, txs)) => if 0 < consumed && offset + consumed <= len {
                &&& r == Some((offset + consumed) as usize)
                &&& final(out)@ == old(out)@ + txs@
            } else {
                &&& r is None
                &&& final(out)@ == old(out)@
            },
            None => r is None && final(out)@ == old(out)@,
        },
{
    match read {
        Some((consumed, txs)) => {
            if consumed == 0 || consumed > (len - offset) as u64 {
                return None;
            }
            let mut t = txs;
            out.append(&mut t);
            Some(offset + consumed as usize)
        },
        None => None,
    }
}

/// The transactions of consecutive lists of entries, read until one cannot
/// be read.
pub fn decode_concatenated<C: EntryCodec>(codec: &C, bytes: &[u8]) -> (r: Vec<
    VersionedTransaction,
>)
    ensures
        !spec_valid_vec_prefix(bytes@) ==> r@.len() == 0,
{
    let mut out: Vec<VersionedTransaction> = Vec::new();
    let mut offset: usize = 0;
    while offset <= bytes.len() && bytes.len() - offset >= 8
        invariant
            offset <= bytes@.len(),
            !spec_valid_vec_prefix(bytes@) ==> offset == 0 && out@.len() == 0,
        decreases bytes@.len() - offset,
    {
        let remaining = vstd::slice::slice_subrange(bytes, offset, bytes.len());
        assert(offset == 0 ==> remaining@ =~= bytes@);
        if !validate_vec_prefix(remaining) {
            break;
        }
        let read = codec.read_entry_list(remaining);
        match apply_list_read(bytes.len(), offset, read, &mut out) {
            Some(next) => {
                offset = next;
            },
            None => break,
        }
    }
    out
}

/// Decodes the entries of a batch as its data shreds arrive in order.
///
/// The batch starts with an 8-byte entry count; the entries follow. Each
/// push appends a payload and reads every entry that is complete.
pub struct StreamingDecoder {
    buffer: Vec<u8>,
    cursor: usize,
    expected_count: Option<u64>,
    entries_yielded: u64,
    /// The entries read since the last reset, in order: the bytes each took
    /// and its transactions.
    reads: Ghost<Seq<(nat, Seq<VersionedTransaction>)>>,
}

/// The bytes that the entries `reads` took, added up.
pub open spec fn consumed_total(reads: Seq<(nat, Seq<VersionedTransaction>)>) -> nat
    decreases reads.len(),
{
    if reads.len() == 0 {
        0
    } else {
        consumed_total(reads.drop_last()) + reads.last().0
    }
}

/// The transactions of the entries `reads`, entry after entry.
pub open spec fn flatten_reads(reads: Seq<(nat, Seq<VersionedTransaction>)>) -> Seq<
    VersionedTransaction,
>
    decreases reads.len(),
{
    if reads.len() == 0 {
        Seq::empty()
    } else {
        flatten_reads(reads.drop_last()) + reads.last().1
    }
}

/// Reading the entries of `a` and then those of `b` gives their
/// transactions one after the other.
pub proof fn lemma_flatten_reads_add(
    a: Seq<(nat, Seq<VersionedTransaction>)>,
    b: Seq<(nat, Seq<VersionedTransaction>)>,
)
    ensures
        flatten_reads(a + b) == flatten_reads(a) + flatten_reads(b),
    decreases b.len(),
{
    if b.len() == 0 {
        assert(a + b =~= a);
        assert(flatten_reads(a) + flatten_reads(b) =~= flatten_reads(a));
    } else {
        lemma_flatten_reads_add(a, b.drop_last());
        assert((a + b).drop_last() =~= a + b.drop_last());
        assert((a + b).last() == b.last());
        assert(flatten_reads(a + b) =~= flatten_reads(a) + flatten_reads(b));
    }
}

impl StreamingDecoder {
    /// The bytes pushed since the last reset.
    pub closed spec fn spec_buffer(&self) -> Seq<u8> {
        self.buffer@
    }

    /// How many of those bytes have been read.
    pub closed spec fn spec_cursor(&self) -> nat {
        self.cursor as nat
    }

    /// The entry count of the batch, once its first 8 bytes are in.
    pub closed spec fn spec_expected(&self) -> Option<u64> {
        self.expected_count
    }

    /// How many entries have been read.
    pub closed spec fn spec_yielded(&self) -> u64 {
        self.entries_yielded
    }

    /// The entries read since the last reset, in order: the bytes each took
    /// and its transactions.
    pub closed spec fn spec_reads(&self) -> Seq<(nat, Seq<VersionedTransaction>)> {
        self.reads@
    }

    /// Whether, from `self` to `later`, the entries read so far stay read and
    /// `v` holds the transactions of the entries read since, in order.
    pub open spec fn hands_out_reads(&self, later: &Self, v: Seq<VersionedTransaction>) -> bool {
        &&& self.spec_reads().len() <= later.spec_reads().len()
        &&& later.spec_reads().subrange(0, self.spec_reads().len() as int) == self.spec_reads()
        &&& v == flatten_reads(
            later.spec_reads().subrange(self.spec_reads().len() as int, later.spec_reads().len() as int),
        )
    }

    /// A decoder that has read nothing.
    pub open spec fn is_fresh(&self) -> bool {
        &&& self.spec_buffer().len() == 0
        &&& self.spec_cursor() == 0
        &&& self.spec_expected() is None
        &&& self.spec_yielded() == 0
        &&& self.spec_reads().len() == 0
    }

    /// The decoder's invariant. Once the count is in, the entries read lie
    /// back to back from byte 8 to the cursor, one per entry counted, each
    /// taking at least one byte.
    pub open spec fn wf(&self) -> bool {
        &&& self.spec_cursor() <= self.spec_buffer().len()
        &&& self.spec_reads().len() == self.spec_yielded()
        &&& forall|i: int| 0 <= i < self.spec_reads().len() ==> (#[trigger] self.spec_reads()[i]).0 > 0
        &&& match self.spec_expected() {
            None => self.spec_cursor() == 0 && self.spec_yielded() == 0,
            Some(c) => {
                &&& c <= MAX_ENTRY_COUNT
                &&& self.spec_yielded() <= c
                &&& self.spec_cursor() >= 8
                &&& c == spec_le_u64(self.spec_buffer(), 0)
                &&& self.spec_cursor() == 8 + consumed_total(self.spec_reads())
            },
        }
    }

    pub fn new() -> (d: Self)
        ensures
            d.wf(),
            d.is_fresh(),
    {
        StreamingDecoder {
            buffer: Vec::with_capacity(INITIAL_BUFFER_CAPACITY),
            cursor: 0,
            expected_count: None,
            entries_yielded: 0,
            reads: Ghost(Seq::empty()),
        }
    }

    /// Appends a payload and reads the entries that are now complete.
    ///
    /// The first 8 bytes of the batch give the entry count: a count above
    /// `MAX_ENTRY_COUNT` is an error. Entries are read until the count is
    /// reached, the bytes run out, or an entry is truncated; an entry that is
    /// not one is an error.
    pub fn push<C: EntryCodec>(&mut self, codec: &C, payload: &[u8]) -> (r: Result<
        Vec<VersionedTransaction>,
        DecodeError,
    >)
        requires
            old(self).wf(),
        ensures
            final(self).wf(),
            old(self).spec_reads().len() <= final(self).spec_reads().len(),
            final(self).spec_reads().subrange(0, old(self).spec_reads().len() as int) == old(
                self,
            ).spec_reads(),
            r matches Ok(v) ==> old(self).hands_out_reads(&*final(self), v@),
            final(self).spec_buffer() == old(self).spec_buffer() + payload@,
            final(self).spec_cursor() >= old(self).spec_cursor(),
            final(self).spec_yielded() >= old(self).spec_yielded(),
            old(self).spec_expected() is Some ==> final(self).spec_expected() == old(
                self,
            ).spec_expected(),
            old(self).spec_expected() is None && final(self).spec_buffer().len() >= 8 ==> {
                let count = spec_le_u64(final(self).spec_buffer(), 0);
                &&& count > MAX_ENTRY_COUNT ==> final(self).spec_expected() is None && (r matches Err(
                    DecodeError::Corruption(m),
                ) && m@ == "invalid entry count"@)
                &&& count <= MAX_ENTRY_COUNT ==> final(self).spec_expected() == Some(count as u64)
                &&& count <= MAX_ENTRY_COUNT && final(self).spec_buffer().len() == 8 ==> (r matches Ok(
                    v,
                ) && v@.len() == 0)
            },
            old(self).spec_expected() is None && final(self).spec_buffer().len() < 8 ==> {
                &&& r matches Ok(v) && v@.len() == 0
                &&& final(self).spec_cursor() == old(self).spec_cursor()
                &&& final(self).spec_expected() is None
                &&& final(self).spec_yielded() == old(self).spec_yielded()
            },
    {
        self.buffer.extend_from_slice(payload);
        self.try_deserialize(codec)
    }

    /// Two pushes hand out, one after the other, the transactions of every
    /// entry read across both: splitting the reads between pushes loses and
    /// repeats nothing.
    pub proof fn lemma_pushes_concatenate(
        d0: &Self,
        d1: &Self,
        d2: &Self,
        v1: Seq<VersionedTransaction>,
        v2: Seq<VersionedTransaction>,
    )
        requires
            d0.hands_out_reads(d1, v1),
            d1.hands_out_reads(d2, v2),
        ensures
            d0.hands_out_reads(d2, v1 + v2),
    {
        let r0 = d0.spec_reads();
        let r1 = d1.spec_reads();
        let r2 = d2.spec_reads();
        let a = r1.subrange(r0.len() as int, r1.len() as int);
        let b = r2.subrange(r1.len() as int, r2.len() as int);
        assert(r2.subrange(0, r1.len() as int) == r1);
        assert(r2.subrange(0, r0.len() as int) =~= r1.subrange(0, r0.len() as int));
        assert(r2.subrange(r0.len() as int, r2.len() as int) =~= a + b);
        lemma_flatten_reads_add(a, b);
    }

    /// Two fresh decoders look the same through every view, so a decoder
    /// that was reset behaves as a new one.
    pub proof fn lemma_fresh_alike(a: &Self, b: &Self)
        requires
            a.is_fresh(),
            b.is_fresh(),
        ensures
            a.spec_buffer() == b.spec_buffer(),
            a.spec_cursor() == b.spec_cursor(),
            a.spec_expected() == b.spec_expected(),
            a.spec_yielded() == b.spec_yielded(),
            a.spec_reads() == b.spec_reads(),
    {
        assert(a.spec_buffer() =~= b.spec_buffer());
        assert(a.spec_reads() =~= b.spec_reads());
    }

    /// Applies what the codec read at the cursor. An entry that took at least
    /// one byte and no more than remain moves the cursor past it, counts it,
    /// appends its transactions to `txs` and gives `Ok(true)`. A truncated
    /// entry gives `Ok(false)`. An entry of impossible size, or bytes that
    /// are not an entry, give an error. Only the first case changes anything.
    pub fn apply_entry_read(&mut self, read: EntryRead, txs: &mut Vec<VersionedTransaction>) -> (r:
        Result<bool, DecodeError>)
        requires
            old(self).wf(),
            old(self).spec_expected() is Some,
            old(self).spec_yielded() < old(self).spec_expected()->0,
        ensures
            final(self).wf(),
            final(self).spec_buffer() == old(self).spec_buffer(),
            final(self).spec_expected() == old(self).spec_expected(),
            match read {
                EntryRead::Entry { consumed, transactions } => if 0 < consumed && old(
                    self,
                ).spec_cursor() + consumed <= old(self).spec_buffer().len() {
                    &&& r == Ok::<bool, DecodeError>(true)
                    &&& final(self).spec_cursor() == old(self).spec_cursor() + consumed
                    &&& final(self).spec_yielded() == old(self).spec_yielded() + 1
                    &&& final(txs)@ == old(txs)@ + transactions@
                    &&& final(self).spec_reads() == old(self).spec_reads().push(
                        (consumed as nat, transactions@),
                    )
                } else {
                    &&& r matches Err(DecodeError::Corruption(m)) && m@ == "entry size out of range"@
                    &&& *final(self) == *old(self)
                    &&& final(txs)@ == old(txs)@
                },
                EntryRead::Truncated => {
                    &&& r == Ok::<bool, DecodeError>(false)
                    &&& *final(self) == *old(self)
                    &&& final(txs)@ == old(txs)@
                },
                EntryRead::Invalid(why) => {
                    &&& r == Err::<bool, DecodeError>(DecodeError::Corruption(why))
                    &&& *final(self) == *old(self)
                    &&& final(txs)@ == old(txs)@
                },
            },
    {
        match read {
            EntryRead::Entry { consumed, transactions } => {
                let remaining = (self.buffer.len() - self.cursor) as u64;
                if consumed == 0 || consumed > remaining {
                    return Err(DecodeError::Corruption("entry size out of range".to_owned()));
                }
                self.cursor = self.cursor + consumed as usize;
                self.entries_yielded = self.entries_yielded + 1;
                let ghost tv = transactions@;
                proof {
                    self.reads@ = self.reads@.push((consumed as nat, tv));
                    assert(self.reads@.drop_last() =~= old(self).reads@);
                }
                let mut t = transactions;
                txs.append(&mut t);
                Ok(true)
            },
            EntryRead::Truncated => Ok(false),
            EntryRead::Invalid(why) => Err(DecodeError::Corruption(why)),
        }
    }

    /// Forgets the batch.
    pub fn reset(&mut self)
        ensures
            final(self).wf(),
            final(self).is_fresh(),
    {
        self.buffer.clear();
        self.cursor = 0;
        self.expected_count = None;
        self.entries_yielded = 0;
        self.reads = Ghost(Seq::empty());
    }

    fn try_deserialize<C: EntryCodec>(&mut self, codec: &C) -> (r: Result<
        Vec<VersionedTransaction>,
        DecodeError,
    >)
        requires
            old(self).spec_cursor() <= old(self).spec_buffer().len(),
            match old(self).spec_expected() {
                None => old(self).spec_cursor() == 0 && old(self).spec_yielded() == 0,
                Some(c) => {
                    &&& c <= MAX_ENTRY_COUNT
                    &&& old(self).spec_yielded() <= c
                    &&& old(self).spec_cursor() >= 8
                    &&& c == spec_le_u64(old(self).spec_buffer(), 0)
                    &&& old(self).spec_cursor() == 8 + consumed_total(old(self).spec_reads())
                },
            },
            old(self).spec_reads().len() == old(self).spec_yielded(),
            forall|i: int|
                0 <= i < old(self).spec_reads().len() ==> (#[trigger] old(self).spec_reads()[i]).0 > 0,
        ensures
            final(self).wf(),
            old(self).spec_reads().len() <= final(self).spec_reads().len(),
            final(self).spec_reads().subrange(0, old(self).spec_reads().len() as int) == old(
                self,
            ).spec_reads(),
            r matches Ok(v) ==> old(self).hands_out_reads(&*final(self), v@),
            final(self).spec_buffer() == old(self).spec_buffer(),
            final(self).spec_cursor() >= old(self).spec_cursor(),
            final(self).spec_yielded() >= old(self).spec_yielded(),
            old(self).spec_expected() is Some ==> final(self).spec_expected() == old(
                self,
            ).spec_expected(),
            old(self).spec_expected() is None && old(self).spec_buffer().len() >= 8 ==> {
                let count = spec_le_u64(old(self).spec_buffer(), 0);
                &&& count > MAX_ENTRY_COUNT ==> final(self).spec_expected() is None && (r matches Err(
                    DecodeError::Corruption(m),
                ) && m@ == "invalid entry count"@)
                &&& count <= MAX_ENTRY_COUNT ==> final(self).spec_expected() == Some(count as u64)
                &&& count <= MAX_ENTRY_COUNT && old(self).spec_buffer().len() == 8 ==> (r matches Ok(
                    v,
                ) && v@.len() == 0)
            },
            old(self).spec_expected() is None && old(self).spec_buffer().len() < 8 ==> {
                &&& r matches Ok(v) && v@.len() == 0
                &&& *final(self) == *old(self)
            },
    {
        proof {
            assert(self.reads@.subrange(0, self.reads@.len() as int) =~= self.reads@);
            assert(self.reads@.subrange(self.reads@.len() as int, self.reads@.len() as int)
                =~= Seq::<(nat, Seq<VersionedTransaction>)>::empty());
        }
        if self.expected_count.is_none() && self.buffer.len() >= self.cursor + 8 {
            let count = read_count(self.buffer.as_slice(), self.cursor);
            if count > MAX_ENTRY_COUNT {
                return Err(DecodeError::Corruption("invalid entry count".to_owned()));
            }
            self.cursor = self.cursor + 8;
            self.expected_count = Some(count);
        }
        let expected = match self.expected_count {
            Some(c) => c,
            None => return Ok(Vec::new()),
        };
        let mut txs: Vec<VersionedTransaction> = Vec::new();
        proof {
            assert(self.reads@.subrange(0, old(self).reads@.len() as int) =~= old(self).reads@);
            assert(self.reads@.subrange(old(self).reads@.len() as int, self.reads@.len() as int)
                =~= Seq::<(nat, Seq<VersionedTransaction>)>::empty());
        }
        while self.entries_yielded < expected
            invariant
                self.buffer@ == old(self).buffer@,
                old(self).reads@.len() <= self.reads@.len(),
                self.reads@.subrange(0, old(self).reads@.len() as int) == old(self).reads@,
                txs@ == flatten_reads(
                    self.reads@.subrange(old(self).reads@.len() as int, self.reads@.len() as int),
                ),
                self.reads@.len() == self.entries_yielded,
                forall|i: int| 0 <= i < self.reads@.len() ==> (#[trigger] self.reads@[i]).0 > 0,
                self.cursor == 8 + consumed_total(self.reads@),
                self.expected_count == Some(expected),
                expected <= MAX_ENTRY_COUNT,
                expected == spec_le_u64(self.buffer@, 0),
                self.entries_yielded <= expected,
                8 <= self.cursor <= self.buffer@.len(),
                self.cursor >= old(self).cursor,
                self.entries_yielded >= old(self).entries_yielded,
                old(self).expected_count is Some ==> self.expected_count == old(self).expected_count,
                old(self).expected_count is None && old(self).buffer@.len() == 8 ==> self.cursor == 8
                    && txs@.len() == 0,
            decreases expected - self.entries_yielded,
        {
            let remaining = vstd::slice::slice_subrange(
                self.buffer.as_slice(),
                self.cursor,
                self.buffer.len(),
            );
            if remaining.len() == 0 {
                break;
            }
            let read = codec.read_entry(remaining);
            let ghost before = self.reads@;
            let ghost txs_before = txs@;
            match self.apply_entry_read(read, &mut txs) {
                Ok(true) => {
                    proof {
                        let o = old(self).reads@.len() as int;
                        let n = self.reads@.len() as int;
                        assert(self.reads@.subrange(o, n).drop_last() =~= before.subrange(o, n - 1));
                        assert(self.reads@.subrange(0, o) =~= before.subrange(0, o));
                    }
                },
                Ok(false) => break,
                Err(e) => return Err(e),
            }
        }
        Ok(txs)
    }
}


impl Default for StreamingDecoder {
    fn default() -> (d: Self)
        ensures
            d.wf(),
            d.is_fresh(),
    {
        Self::new()
    }
}

} // verus!
