use vstd::prelude::*;

use crate::decoder::{decode_batch, decode_concatenated, EntryCodec, StreamingDecoder};
use crate::fec::{
    count_present, data_refs_view, lemma_recovered_positions_increase, reconstruct_accepts,
    recovered_list, recovered_view,
    rs_reconstructed, variant_shard_ok, FecSetBuffer, ReedSolomonCache,
};
use crate::ordered_map::{keys_increasing, OrderedMap};
use crate::parser::{
    self, lemma_data_payload_in_packet, spec_parse_kind, ShredKindView, DATA_HEADER_SIZE,
};
use crate::pool::BufferHandle;
use crate::sigset::{
    all_signed, filter_all, first_signature, fresh_sigs, seen_all, lemma_fresh_sigs_concat, lemma_new_sig_filter,
    lemma_new_sig_filter_fresh, new_sig_filter, sigs_seen, tx_first_signature, SignatureSet,
};
use crate::variant::VariantKind;
use solana_transaction::versioned::VersionedTransaction;

verus! {

pub const DEFAULT_MAX_FEC_SETS_PER_SLOT: usize = 32;

/// Nanoseconds (50 ms) after which a batch that still misses shreds is
/// given up.
pub const DEFAULT_STUCK_BATCH_TIMEOUT_NS: u64 = 50_000_000;

/// How a slot's accumulator buffers erasure sets and waits for batches.
#[derive(Clone, Copy, Debug)]
pub struct AccumulatorConfig {
    pub max_fec_sets_per_slot: usize,
    /// Nanoseconds a batch may wait for missing shreds before it is
    /// finalized with what is there.
    pub stuck_batch_timeout_ns: u64,
}

impl Default for AccumulatorConfig {
    fn default() -> (r: Self)
        ensures
            r.max_fec_sets_per_slot == DEFAULT_MAX_FEC_SETS_PER_SLOT,
            r.stuck_batch_timeout_ns == DEFAULT_STUCK_BATCH_TIMEOUT_NS,
    {
        AccumulatorConfig {
            max_fec_sets_per_slot: DEFAULT_MAX_FEC_SETS_PER_SLOT,
            stuck_batch_timeout_ns: DEFAULT_STUCK_BATCH_TIMEOUT_NS,
        }
    }
}

/// Where the bytes of a pending data shred live.
pub enum PayloadSource {
    /// A packet buffer taken from the listener's pool.
    Pool(BufferHandle),
    /// A shred rebuilt from its erasure set.
    Recovered(Vec<u8>),
}

impl PayloadSource {
    pub open spec fn wf(&self) -> bool {
        match self {
            PayloadSource::Pool(h) => h.wf(),
            PayloadSource::Recovered(_) => true,
        }
    }

    pub open spec fn bytes(&self) -> Seq<u8> {
        match self {
            PayloadSource::Pool(h) => h.contents(),
            PayloadSource::Recovered(v) => v@,
        }
    }

    pub fn slice(&self) -> (r: &[u8])
        requires
            self.wf(),
        ensures
            r@ == self.bytes(),
    {
        match self {
            PayloadSource::Pool(h) => h.as_slice(),
            PayloadSource::Recovered(v) => v.as_slice(),
        }
    }
}

/// A data shred waiting for its batch.
pub struct PendingShred {
    pub source: PayloadSource,
    /// Where the shred's payload ends (its `size` field).
    pub payload_end: u16,
    pub batch_complete: bool,
    pub fec_set_index: u32,
}

/// The payload of a shred whose bytes are `bytes` and whose payload ends at
/// `end`: `None` when `end` lies before the header's end or past the bytes.
pub open spec fn spec_payload(bytes: Seq<u8>, end: u16) -> Option<Seq<u8>> {
    if end < DATA_HEADER_SIZE || end > bytes.len() {
        None
    } else {
        Some(bytes.subrange(DATA_HEADER_SIZE as int, end as int))
    }
}

impl PendingShred {
    pub open spec fn wf(&self) -> bool {
        self.source.wf()
    }

    /// Whether the shred's bytes parse as a data shred whose payload is the
    /// shred's payload and whose batch-complete flag is the shred's.
    pub open spec fn reads_as_parsed(&self) -> bool {
        spec_parse_kind(self.source.bytes()) matches Ok(ShredKindView::Data(d))
            && self.spec_payload() == Some(d.payload) && self.batch_complete == d.batch_complete
    }

    pub open spec fn spec_payload(&self) -> Option<Seq<u8>> {
        spec_payload(self.source.bytes(), self.payload_end)
    }

    pub fn payload(&self) -> (r: Option<&[u8]>)
        requires
            self.wf(),
        ensures
            match r {
                Some(p) => self.spec_payload() == Some(p@),
                None => self.spec_payload() is None,
            },
    {
        let buf = self.source.slice();
        let end = self.payload_end as usize;
        if end < DATA_HEADER_SIZE || end > buf.len() {
            return None;
        }
        Some(vstd::slice::slice_subrange(buf, DATA_HEADER_SIZE, end))
    }

    pub fn is_recovered(&self) -> (r: bool)
        ensures
            r == (self.source is Recovered),
    {
        match self.source {
            PayloadSource::Recovered(_) => true,
            PayloadSource::Pool(_) => false,
        }
    }
}

/// The data shreds, coding shreds and batch boundaries of one slot, and the
/// transactions decoded from them so far.
///
/// Data shreds wait in `pending` by index. Batches are the runs of shreds
/// from `batch_start` to the next shred flagged batch-complete; a batch is
/// decoded as its shreds arrive in order (streaming), or whole once all its
/// shreds are there, or in pieces once it is given up. Erasure sets rebuild
/// missing data shreds.
pub struct SlotAccumulator {
    cfg: AccumulatorConfig,
    pending: OrderedMap<PendingShred>,
    fec_sets: OrderedMap<FecSetBuffer>,
    /// Indices of batch-complete shreds, with when each was first seen.
    batch_complete_indices: OrderedMap<u64>,
    streaming_cursor: u32,
    streaming_decoder: StreamingDecoder,
    yielded_sigs: SignatureSet,
    batch_start: u32,
    pub slot_complete: bool,
    decode_errors: u32,
    recoveries_done: u64,
    recovery_failures: u64,
    batches_decoded_streaming: u64,
    batches_decoded_fallback: u64,
    batches_skipped: u64,
    fec_sets_discarded_unused: u64,
    fec_sets_evicted_early: u64,
    salvaged_tail_tx: u64,
    batches_force_finalized_corrupted: u64,
    batches_force_finalized_timeout: u64,
    combined_scratch: Vec<u8>,
    /// Pool buffers of shreds that were dropped, to be given back.
    released: Vec<BufferHandle>,
}

pub open spec fn sat_succ(x: u64) -> u64 {
    if x == u64::MAX {
        x
    } else {
        (x + 1) as u64
    }
}

impl SlotAccumulator {
    /// The accumulator's invariant.
    pub closed spec fn wf(&self) -> bool {
        &&& self.pending.wf()
        &&& self.fec_sets.wf()
        &&& self.batch_complete_indices.wf()
        &&& forall|k: u32| #[trigger]
            self.pending@.contains_key(k) ==> k >= self.batch_start && self.pending@[k].wf()
        &&& forall|k: u32| #[trigger]
            self.pending@.contains_key(k) && self.pending@[k].source is Recovered
                ==> self.pending@[k].reads_as_parsed()
        &&& forall|k: u32| #[trigger]
            self.batch_complete_indices@.contains_key(k) ==> k >= self.batch_start
        &&& forall|k: u32| #[trigger] self.fec_sets@.contains_key(k) ==> self.fec_sets@[k].wf()
        &&& self.fec_sets.entries().len() <= self.cfg.max_fec_sets_per_slot
        &&& self.streaming_cursor >= self.batch_start
        &&& self.streaming_decoder.wf()
        &&& forall|i: int| 0 <= i < self.released@.len() ==> (#[trigger] self.released@[i]).wf()
    }

    pub closed spec fn spec_cfg(&self) -> AccumulatorConfig {
        self.cfg
    }

    /// The index of the first shred of the batch being assembled.
    pub closed spec fn spec_batch_start(&self) -> u32 {
        self.batch_start
    }

    /// The index of the next shred for the streaming decoder.
    pub closed spec fn spec_streaming_cursor(&self) -> u32 {
        self.streaming_cursor
    }

    /// The indices of the data shreds that wait.
    pub closed spec fn pending_indices(&self) -> Set<u32> {
        self.pending@.dom()
    }

    /// The indices of the waiting shreds flagged batch-complete.
    pub closed spec fn batch_boundaries(&self) -> Set<u32> {
        self.batch_complete_indices@.dom()
    }

    /// The erasure sets being buffered, by their first index.
    pub closed spec fn fec_set_indices(&self) -> Set<u32> {
        self.fec_sets@.dom()
    }

    pub closed spec fn fec_set_count(&self) -> nat {
        self.fec_sets.entries().len()
    }

    /// Number of pool buffers held by the accumulator to be given back.
    pub closed spec fn released_count(&self) -> nat {
        self.released@.len()
    }

    /// Whether the last shred of the slot has been seen.
    pub closed spec fn spec_slot_complete(&self) -> bool {
        self.slot_complete
    }

    pub closed spec fn spec_decode_errors(&self) -> u32 {
        self.decode_errors
    }

    pub closed spec fn spec_recoveries_done(&self) -> u64 {
        self.recoveries_done
    }

    pub closed spec fn spec_recovery_failures(&self) -> u64 {
        self.recovery_failures
    }

    pub closed spec fn spec_batches_decoded_streaming(&self) -> u64 {
        self.batches_decoded_streaming
    }

    pub closed spec fn spec_batches_decoded_fallback(&self) -> u64 {
        self.batches_decoded_fallback
    }

    pub closed spec fn spec_batches_skipped(&self) -> u64 {
        self.batches_skipped
    }

    pub closed spec fn spec_fec_sets_discarded_unused(&self) -> u64 {
        self.fec_sets_discarded_unused
    }

    pub closed spec fn spec_fec_sets_evicted_early(&self) -> u64 {
        self.fec_sets_evicted_early
    }

    pub closed spec fn spec_salvaged_tail_tx(&self) -> u64 {
        self.salvaged_tail_tx
    }

    pub closed spec fn spec_batches_force_finalized_corrupted(&self) -> u64 {
        self.batches_force_finalized_corrupted
    }

    pub closed spec fn spec_batches_force_finalized_timeout(&self) -> u64 {
        self.batches_force_finalized_timeout
    }

    /// What every operation keeps: the configuration; and what only grows:
    /// the batch start, the streaming cursor, the completion flag and every
    /// counter.
    pub closed spec fn progressed(&self, later: &Self) -> bool {
        &&& later.cfg == self.cfg
        &&& later.batch_start >= self.batch_start
        &&& later.streaming_cursor >= self.streaming_cursor
        &&& self.slot_complete ==> later.slot_complete
        &&& later.decode_errors >= self.decode_errors
        &&& later.recoveries_done >= self.recoveries_done
        &&& later.recovery_failures >= self.recovery_failures
        &&& later.batches_decoded_streaming >= self.batches_decoded_streaming
        &&& later.batches_decoded_fallback >= self.batches_decoded_fallback
        &&& later.batches_skipped >= self.batches_skipped
        &&& later.fec_sets_discarded_unused >= self.fec_sets_discarded_unused
        &&& later.fec_sets_evicted_early >= self.fec_sets_evicted_early
        &&& later.salvaged_tail_tx >= self.salvaged_tail_tx
        &&& later.batches_force_finalized_corrupted >= self.batches_force_finalized_corrupted
        &&& later.batches_force_finalized_timeout >= self.batches_force_finalized_timeout
        &&& later.released@.len() >= self.released@.len()
        &&& forall|k: u32| #[trigger] self.holds_or_passed(k) ==> later.holds_or_passed(k)
    }

    /// Progress composes: what holds from `a` to `b` and from `b` to `c`
    /// holds from `a` to `c`, so it holds across any sequence of operations.
    pub proof fn lemma_progressed_trans(a: &Self, b: &Self, c: &Self)
        requires
            a.progressed(b),
            b.progressed(c),
        ensures
            a.progressed(c),
    {
        assert forall|k: u32| #[trigger] a.holds_or_passed(k) implies c.holds_or_passed(k) by {
            assert(b.holds_or_passed(k));
        }
    }

    /// What a well-formed accumulator holds: no pending shred and no batch
    /// boundary lies before the batch start, the streaming cursor is not
    /// behind it, and at most `max_fec_sets_per_slot` erasure sets are
    /// buffered.
    pub proof fn lemma_wf_facts(a: &Self)
        requires
            a.wf(),
        ensures
            a.spec_streaming_cursor() >= a.spec_batch_start(),
            a.fec_set_count() <= a.spec_cfg().max_fec_sets_per_slot,
            forall|k: u32| #[trigger] a.pending_indices().contains(k) ==> k >= a.spec_batch_start(),
            forall|k: u32| #[trigger] a.batch_boundaries().contains(k) ==> k >= a.spec_batch_start(),
    {
    }

    /// What every operation on an accumulator keeps: the configuration stays;
    /// the batch start and the streaming cursor never go back; a complete
    /// slot stays complete; no counter goes back; and a shred that was
    /// pending, or that the streaming cursor had passed, stays so.
    pub proof fn lemma_progress_keeps(a: &Self, b: &Self)
        requires
            a.progressed(b),
        ensures
            b.spec_cfg() == a.spec_cfg(),
            b.spec_batch_start() >= a.spec_batch_start(),
            b.spec_streaming_cursor() >= a.spec_streaming_cursor(),
            a.spec_slot_complete() ==> b.spec_slot_complete(),
            b.spec_decode_errors() >= a.spec_decode_errors(),
            b.spec_recoveries_done() >= a.spec_recoveries_done(),
            b.spec_recovery_failures() >= a.spec_recovery_failures(),
            b.spec_batches_decoded_streaming() >= a.spec_batches_decoded_streaming(),
            b.spec_batches_decoded_fallback() >= a.spec_batches_decoded_fallback(),
            b.spec_batches_skipped() >= a.spec_batches_skipped(),
            b.spec_fec_sets_discarded_unused() >= a.spec_fec_sets_discarded_unused(),
            b.spec_fec_sets_evicted_early() >= a.spec_fec_sets_evicted_early(),
            b.spec_salvaged_tail_tx() >= a.spec_salvaged_tail_tx(),
            b.spec_batches_force_finalized_corrupted() >= a.spec_batches_force_finalized_corrupted(),
            b.spec_batches_force_finalized_timeout() >= a.spec_batches_force_finalized_timeout(),
            forall|k: u32| #[trigger] a.holds_or_passed(k) ==> b.holds_or_passed(k),
    {
    }

    /// Whether the counters that only taking coding shreds and harvesting the
    /// tail move are the same in `later`.
    pub closed spec fn keeps_tail_counters(&self, later: &Self) -> bool {
        &&& later.fec_sets_evicted_early == self.fec_sets_evicted_early
        &&& later.fec_sets_discarded_unused == self.fec_sets_discarded_unused
        &&& later.salvaged_tail_tx == self.salvaged_tail_tx
    }

    /// Whether the shred at index `k` is pending, or the streaming cursor has
    /// passed it or reached the last index.
    pub closed spec fn holds_or_passed(&self, k: u32) -> bool {
        self.pending@.contains_key(k) || k < self.streaming_cursor || self.streaming_cursor
            == u32::MAX
    }

    /// Equal but for the pool buffers to be given back, of which there is
    /// one more.
    pub closed spec fn same_but_one_released(&self, later: &Self) -> bool {
        &&& later.released@.len() == self.released@.len() + 1
        &&& later == (SlotAccumulator { released: later.released, ..*self })
    }

    /// Equal but for the pending shreds and the pool buffers to be given
    /// back.
    pub closed spec fn only_pending_and_released_differ(&self, later: &Self) -> bool {
        *later == (SlotAccumulator { pending: later.pending, released: later.released, ..*self })
    }

    /// Equal but for the pool buffers to be given back.
    pub closed spec fn only_released_differs(&self, later: &Self) -> bool {
        *later == (SlotAccumulator { released: later.released, ..*self })
    }

    /// An accumulator that has seen nothing.
    pub closed spec fn is_fresh(&self, cfg: AccumulatorConfig) -> bool {
        &&& self.cfg == cfg
        &&& self.pending@ == Map::<u32, PendingShred>::empty()
        &&& self.fec_sets@ == Map::<u32, FecSetBuffer>::empty()
        &&& self.batch_complete_indices@ == Map::<u32, u64>::empty()
        &&& self.batch_start == 0
        &&& self.streaming_cursor == 0
        &&& !self.slot_complete
        &&& self.decode_errors == 0
        &&& self.recoveries_done == 0
        &&& self.recovery_failures == 0
        &&& self.batches_decoded_streaming == 0
        &&& self.batches_decoded_fallback == 0
        &&& self.batches_skipped == 0
        &&& self.fec_sets_discarded_unused == 0
        &&& self.fec_sets_evicted_early == 0
        &&& self.salvaged_tail_tx == 0
        &&& self.batches_force_finalized_corrupted == 0
        &&& self.batches_force_finalized_timeout == 0
        &&& self.released@.len() == 0
    }

    pub fn with_config(cfg: AccumulatorConfig) -> (a: Self)
        ensures
            a.wf(),
            a.is_fresh(cfg),
            a.spec_cfg() == cfg,
    {
        SlotAccumulator {
            cfg,
            pending: OrderedMap::new(),
            fec_sets: OrderedMap::new(),
            batch_complete_indices: OrderedMap::new(),
            streaming_cursor: 0,
            streaming_decoder: StreamingDecoder::new(),
            yielded_sigs: SignatureSet::new(),
            batch_start: 0,
            slot_complete: false,
            decode_errors: 0,
            recoveries_done: 0,
            recovery_failures: 0,
            batches_decoded_streaming: 0,
            batches_decoded_fallback: 0,
            batches_skipped: 0,
            fec_sets_discarded_unused: 0,
            fec_sets_evicted_early: 0,
            salvaged_tail_tx: 0,
            batches_force_finalized_corrupted: 0,
            batches_force_finalized_timeout: 0,
            combined_scratch: Vec::new(),
            released: Vec::new(),
        }
    }

    pub fn new() -> (a: Self)
        ensures
            a.wf(),
            a.is_fresh(
                AccumulatorConfig {
                    max_fec_sets_per_slot: DEFAULT_MAX_FEC_SETS_PER_SLOT,
                    stuck_batch_timeout_ns: DEFAULT_STUCK_BATCH_TIMEOUT_NS,
                },
            ),
    {
        Self::with_config(AccumulatorConfig::default())
    }

    /// Whether the last shred of the slot has been seen.
    pub fn is_slot_complete(&self) -> (r: bool)
        ensures
            r == self.spec_slot_complete(),
    {
        self.slot_complete
    }

    pub fn decode_errors(&self) -> (r: u32)
        ensures
            r == self.spec_decode_errors(),
    {
        self.decode_errors
    }

    pub fn recoveries_done(&self) -> (r: u64)
        ensures
            r == self.spec_recoveries_done(),
    {
        self.recoveries_done
    }

    pub fn recovery_failures(&self) -> (r: u64)
        ensures
            r == self.spec_recovery_failures(),
    {
        self.recovery_failures
    }

    pub fn batches_decoded_streaming(&self) -> (r: u64)
        ensures
            r == self.spec_batches_decoded_streaming(),
    {
        self.batches_decoded_streaming
    }

    pub fn batches_decoded_fallback(&self) -> (r: u64)
        ensures
            r == self.spec_batches_decoded_fallback(),
    {
        self.batches_decoded_fallback
    }

    pub fn batches_skipped(&self) -> (r: u64)
        ensures
            r == self.spec_batches_skipped(),
    {
        self.batches_skipped
    }

    pub fn fec_sets_discarded_unused(&self) -> (r: u64)
        ensures
            r == self.spec_fec_sets_discarded_unused(),
    {
        self.fec_sets_discarded_unused
    }

    pub fn fec_sets_evicted_early(&self) -> (r: u64)
        ensures
            r == self.spec_fec_sets_evicted_early(),
    {
        self.fec_sets_evicted_early
    }

    pub fn salvaged_tail_tx(&self) -> (r: u64)
        ensures
            r == self.spec_salvaged_tail_tx(),
    {
        self.salvaged_tail_tx
    }

    pub fn batches_force_finalized_corrupted(&self) -> (r: u64)
        ensures
            r == self.spec_batches_force_finalized_corrupted(),
    {
        self.batches_force_finalized_corrupted
    }

    pub fn batches_force_finalized_timeout(&self) -> (r: u64)
        ensures
            r == self.spec_batches_force_finalized_timeout(),
    {
        self.batches_force_finalized_timeout
    }

    /// Hands out the pool buffers of dropped shreds, to be given back to the
    /// pool.
    pub fn take_released(&mut self) -> (r: Vec<BufferHandle>)
        requires
            old(self).wf(),
        ensures
            final(self).wf(),
            r@.len() == old(self).released_count(),
            forall|i: int| 0 <= i < r@.len() ==> (#[trigger] r@[i]).wf(),
            final(self).released_count() == 0,
            old(self).only_released_differs(&*final(self)),
            final(self).spec_cfg() == old(self).spec_cfg(),
    {
        let mut r: Vec<BufferHandle> = Vec::new();
        std::mem::swap(&mut r, &mut self.released);
        r
    }

    /// Records that a transaction with this first signature is handed out;
    /// `false` when it has none or was already handed out in this batch.
    fn record_sig(&mut self, sig: Option<[u8; 64]>) -> (r: bool)
        ensures
            *final(self) == (SlotAccumulator { yielded_sigs: final(self).yielded_sigs, ..*old(self) }),
            match sig {
                None => !r && final(self).yielded_sigs.contents() == old(self).yielded_sigs.contents(),
                Some(s) => r == !old(self).yielded_sigs.contents().contains(s)
                    && final(self).yielded_sigs.contents() == old(self).yielded_sigs.contents().insert(s),
            },
    {
        match sig {
            None => false,
            Some(s) => self.yielded_sigs.insert(s),
        }
    }

    /// The first signatures of the transactions handed out in the current
    /// batch.
    pub closed spec fn batch_signatures(&self) -> Set<[u8; 64]> {
        self.yielded_sigs.contents()
    }

    /// Whether, from `self` to `later`, the transactions handed out go from
    /// `o0` to `o1` by appending; and, when no batch was finalized on the way,
    /// the appended ones have first signatures new to the batch, no two the
    /// same, now recorded as handed out.
    pub closed spec fn hands_out_fresh(
        &self,
        later: &Self,
        o0: Seq<VersionedTransaction>,
        o1: Seq<VersionedTransaction>,
    ) -> bool {
        &&& o0.len() <= o1.len()
        &&& o1.subrange(0, o0.len() as int) == o0
        &&& later.batch_start == self.batch_start && self.batch_start < u32::MAX ==> {
            &&& self.yielded_sigs.contents().subset_of(later.yielded_sigs.contents())
            &&& fresh_sigs(
                o1.subrange(o0.len() as int, o1.len() as int),
                self.yielded_sigs.contents(),
                later.yielded_sigs.contents(),
            )
        }
    }

    /// Handing out nothing, with the batch's signatures kept or the batch
    /// finalized, hands out nothing stale.
    proof fn lemma_hands_out_nothing(a: &Self, b: &Self, o: Seq<VersionedTransaction>)
        requires
            b.yielded_sigs.contents() == a.yielded_sigs.contents() || b.batch_start
                != a.batch_start || a.batch_start == u32::MAX,
        ensures
            a.hands_out_fresh(b, o, o),
    {
        assert(o.subrange(0, o.len() as int) =~= o);
        assert(o.subrange(o.len() as int, o.len() as int) =~= Seq::<VersionedTransaction>::empty());
    }

    /// `hands_out_fresh` composes along a run of operations.
    proof fn lemma_hands_out_trans(
        a: &Self,
        b: &Self,
        c: &Self,
        o0: Seq<VersionedTransaction>,
        o1: Seq<VersionedTransaction>,
        o2: Seq<VersionedTransaction>,
    )
        requires
            a.hands_out_fresh(b, o0, o1),
            b.hands_out_fresh(c, o1, o2),
            a.batch_start <= b.batch_start <= c.batch_start,
        ensures
            a.hands_out_fresh(c, o0, o2),
    {
        assert(o2.subrange(0, o0.len() as int) =~= o2.subrange(0, o1.len() as int).subrange(
            0,
            o0.len() as int,
        ));
        if c.batch_start == a.batch_start && a.batch_start < u32::MAX {
            let x = o1.subrange(o0.len() as int, o1.len() as int);
            let y = o2.subrange(o1.len() as int, o2.len() as int);
            assert(o2.subrange(o0.len() as int, o2.len() as int) =~= x + y) by {
                assert(o2.subrange(0, o1.len() as int) == o1);
            }
            lemma_fresh_sigs_concat(
                x,
                y,
                a.yielded_sigs.contents(),
                b.yielded_sigs.contents(),
                c.yielded_sigs.contents(),
            );
        }
    }

    /// Appends to `out` the transactions whose first signature is new in this
    /// batch, in order (`new_sig_filter`), and records their signatures;
    /// returns how many.
    fn emit_new(&mut self, txs: Vec<VersionedTransaction>, out: &mut Vec<VersionedTransaction>) -> (added: usize)
        ensures
            *final(self) == (SlotAccumulator { yielded_sigs: final(self).yielded_sigs, ..*old(self) }),
            final(out)@ == old(out)@ + new_sig_filter(txs@, old(self).yielded_sigs.contents()),
            final(self).yielded_sigs.contents() == sigs_seen(txs@, old(self).yielded_sigs.contents()),
            added == new_sig_filter(txs@, old(self).yielded_sigs.contents()).len(),
            all_signed(old(out)@) ==> all_signed(final(out)@),
            old(self).hands_out_fresh(&*final(self), old(out)@, final(out)@),
    {
        let ghost orig = txs@;
        let ghost seen0 = self.yielded_sigs.contents();
        let mut txs = txs;
        let mut rev: Vec<VersionedTransaction> = Vec::new();
        let n = txs.len();
        while txs.len() > 0
            invariant
                txs@.len() + rev@.len() == n,
                n == orig.len(),
                txs@ == orig.subrange(0, txs@.len() as int),
                forall|i: int| 0 <= i < rev@.len() ==> rev@[i] == orig[n - 1 - i],
            decreases txs@.len(),
        {
            let t = txs.pop().unwrap();
            rev.push(t);
            proof {
                assert(txs@ =~= orig.subrange(0, txs@.len() as int));
            }
        }
        let mut added: usize = 0;
        proof {
            assert(orig.subrange(0, 0) =~= Seq::<VersionedTransaction>::empty());
            assert(out@ =~= old(out)@ + new_sig_filter(orig.subrange(0, 0), seen0));
        }
        while rev.len() > 0
            invariant
                rev@.len() <= n,
                n == orig.len(),
                forall|i: int| 0 <= i < rev@.len() ==> rev@[i] == orig[n - 1 - i],
                seen0 == old(self).yielded_sigs.contents(),
                out@ == old(out)@ + new_sig_filter(orig.subrange(0, n - rev@.len()), seen0),
                self.yielded_sigs.contents() == sigs_seen(orig.subrange(0, n - rev@.len()), seen0),
                added == new_sig_filter(orig.subrange(0, n - rev@.len()), seen0).len(),
                *self == (SlotAccumulator { yielded_sigs: self.yielded_sigs, ..*old(self) }),
            decreases rev@.len(),
        {
            let ghost p = n - rev@.len();
            let ghost before = out@;
            let tx = rev.pop().unwrap();
            proof {
                assert(tx == orig[p]);
                let next = orig.subrange(0, p + 1);
                assert(next.drop_last() =~= orig.subrange(0, p));
                assert(next.last() == tx);
                lemma_new_sig_filter(orig.subrange(0, p), seen0);
            }
            let sig = first_signature(&tx);
            if self.record_sig(sig) {
                out.push(tx);
                added = added + 1;
                proof {
                    assert(out@ =~= old(out)@ + new_sig_filter(orig.subrange(0, p + 1), seen0));
                }
            } else {
                proof {
                    assert(out@ =~= old(out)@ + new_sig_filter(orig.subrange(0, p + 1), seen0));
                }
            }
        }
        proof {
            assert(orig.subrange(0, n as int) =~= orig);
            lemma_new_sig_filter(orig, seen0);
            lemma_new_sig_filter_fresh(orig, seen0);
            let f = new_sig_filter(orig, seen0);
            assert(out@.subrange(0, old(out)@.len() as int) =~= old(out)@);
            assert(out@.subrange(old(out)@.len() as int, out@.len() as int) =~= f);
            if all_signed(old(out)@) {
                assert forall|i: int| 0 <= i < out@.len() implies (#[trigger] tx_first_signature(
                    out@[i],
                )) is Some by {
                    if i < old(out)@.len() {
                        assert(out@[i] == old(out)@[i]);
                    } else {
                        assert(out@[i] == f[i - old(out)@.len()]);
                    }
                }
            }
        }
        added
    }
}

/// The pool buffers held by `entries`, from the last entry to the first.
pub open spec fn pool_handles_rev(entries: Seq<(u32, PendingShred)>) -> Seq<BufferHandle>
    decreases entries.len(),
{
    if entries.len() == 0 {
        Seq::empty()
    } else {
        pool_handles_rev(entries.subrange(1, entries.len() as int)) + match entries[0].1.source {
            PayloadSource::Pool(h) => seq![h],
            PayloadSource::Recovered(_) => Seq::empty(),
        }
    }
}

/// The payloads of the shreds with indices in `[start, end]`, in order of
/// index, joined; a shred whose payload bounds are off adds nothing.
pub open spec fn joined_payloads(entries: Seq<(u32, PendingShred)>, start: u32, end: u32) -> Seq<u8>
    decreases entries.len(),
{
    if entries.len() == 0 {
        Seq::empty()
    } else {
        let prev = joined_payloads(entries.drop_last(), start, end);
        let (k, ps) = entries.last();
        if start <= k <= end {
            match ps.spec_payload() {
                Some(p) => prev + p,
                None => prev,
            }
        } else {
            prev
        }
    }
}

/// The bytes a pending shred adds to a salvage read: its payload, or
/// nothing when its bounds are off.
pub open spec fn payload_or_empty(ps: PendingShred) -> Seq<u8> {
    match ps.spec_payload() {
        Some(p) => p,
        None => Seq::empty(),
    }
}

/// The runs of consecutive indices among the pending shreds `entries` (in
/// increasing order of index) that lie in `[start, end]`, each one the
/// payloads of its shreds joined in order. A shred starts a new run unless
/// the entry before it is also in `[start, end]` and has the index just
/// below.
pub open spec fn salvage_runs(entries: Seq<(u32, PendingShred)>, start: u32, end: u32) -> Seq<
    Seq<u8>,
>
    decreases entries.len(),
{
    if entries.len() == 0 {
        Seq::empty()
    } else {
        let prev = salvage_runs(entries.drop_last(), start, end);
        let (k, ps) = entries.last();
        if !(start <= k <= end) {
            prev
        } else if entries.len() >= 2 && start <= entries[entries.len() - 2].0 <= end
            && entries[entries.len() - 2].0 + 1 == k && prev.len() > 0 {
            prev.update(prev.len() - 1, prev.last() + payload_or_empty(ps))
        } else {
            prev.push(payload_or_empty(ps))
        }
    }
}

/// The runs that hold at least one byte: those that are read.
pub open spec fn nonempty_runs(runs: Seq<Seq<u8>>) -> Seq<Seq<u8>>
    decreases runs.len(),
{
    if runs.len() == 0 {
        Seq::empty()
    } else {
        let p = nonempty_runs(runs.drop_last());
        if runs.last().len() > 0 {
            p.push(runs.last())
        } else {
            p
        }
    }
}

/// The runs joined back together.
pub open spec fn join_runs(runs: Seq<Seq<u8>>) -> Seq<u8>
    decreases runs.len(),
{
    if runs.len() == 0 {
        Seq::empty()
    } else {
        join_runs(runs.drop_last()) + runs.last()
    }
}

/// Salvage loses, repeats and reorders no bytes: the runs, joined back
/// together, are the payloads of the pending shreds in `[start, end]`
/// joined in index order.
pub proof fn lemma_salvage_runs_join(entries: Seq<(u32, PendingShred)>, start: u32, end: u32)
    ensures
        join_runs(salvage_runs(entries, start, end)) == joined_payloads(entries, start, end),
    decreases entries.len(),
{
    if entries.len() > 0 {
        lemma_salvage_runs_join(entries.drop_last(), start, end);
        let prev = salvage_runs(entries.drop_last(), start, end);
        let (k, ps) = entries.last();
        let cur = salvage_runs(entries, start, end);
        if start <= k <= end {
            if cur != prev.push(payload_or_empty(ps)) {
                let q = prev.drop_last();
                assert(prev =~= q.push(prev.last()));
                assert(cur =~= q.push(prev.last() + payload_or_empty(ps)));
                assert(cur.drop_last() =~= q);
                assert(join_runs(prev) == join_runs(q) + prev.last());
                assert(join_runs(cur) =~= join_runs(q) + prev.last() + payload_or_empty(ps));
            } else {
                assert(cur.drop_last() =~= prev);
            }
            match ps.spec_payload() {
                Some(p) => {},
                None => {
                    assert(joined_payloads(entries.drop_last(), start, end) + Seq::<u8>::empty()
                        =~= joined_payloads(entries.drop_last(), start, end));
                },
            }
        }
    }
}

/// A span of pending shreds with no gap in their indices is read as one:
/// when the pending shreds in `[start, end]` have consecutive indices, they
/// form a single run.
pub proof fn lemma_salvage_gap_free_is_one_run(
    entries: Seq<(u32, PendingShred)>,
    start: u32,
    end: u32,
)
    requires
        forall|i: int|
            1 <= i < entries.len() && start <= #[trigger] entries[i].0 <= end ==> start
                <= entries[i - 1].0 <= end && entries[i - 1].0 + 1 == entries[i].0,
    ensures
        salvage_runs(entries, start, end).len() <= 1,
    decreases entries.len(),
{
    if entries.len() > 0 {
        let d = entries.drop_last();
        assert forall|i: int| 1 <= i < d.len() && start <= #[trigger] d[i].0 <= end implies start
            <= d[i - 1].0 <= end && d[i - 1].0 + 1 == d[i].0 by {
            assert(d[i] == entries[i] && d[i - 1] == entries[i - 1]);
        }
        lemma_salvage_gap_free_is_one_run(d, start, end);
        let (k, ps) = entries.last();
        if start <= k <= end && entries.len() >= 2 {
            assert(entries[entries.len() - 1].0 == k);
            lemma_salvage_runs_nonempty_when_in_span(d, start, end);
        }
    }
}

/// An entry in `[start, end]` makes at least one run.
proof fn lemma_salvage_runs_nonempty_when_in_span(
    entries: Seq<(u32, PendingShred)>,
    start: u32,
    end: u32,
)
    requires
        entries.len() > 0,
        start <= entries.last().0 <= end,
    ensures
        salvage_runs(entries, start, end).len() > 0,
{
}

impl SlotAccumulator {
    /// Equal but for the scratch buffer and the signatures handed out.
    pub closed spec fn same_but_scratch_and_sigs(&self, later: &Self) -> bool {
        *later == (SlotAccumulator {
            combined_scratch: later.combined_scratch,
            yielded_sigs: later.yielded_sigs,
            ..*self
        })
    }

    /// Moves the pool buffers of dropped shreds to the ones to give back,
    /// taking the shreds from the last to the first.
    fn release_dropped(&mut self, dropped: Vec<(u32, PendingShred)>)
        requires
            old(self).wf(),
            forall|i: int| 0 <= i < dropped@.len() ==> (#[trigger] dropped@[i]).1.wf(),
        ensures
            final(self).wf(),
            old(self).progressed(&*final(self)),
            old(self).only_released_differs(&*final(self)),
            final(self).released@ == old(self).released@ + pool_handles_rev(dropped@),
    {
        let ghost orig = dropped@;
        let mut dropped = dropped;
        proof {
            assert(orig.subrange(orig.len() as int, orig.len() as int) =~= Seq::<(u32, PendingShred)>::empty());
            assert(self.released@ =~= old(self).released@ + pool_handles_rev(
                orig.subrange(orig.len() as int, orig.len() as int),
            ));
        }
        while dropped.len() > 0
            invariant
                self.wf(),
                old(self).progressed(&*self),
                old(self).only_released_differs(&*self),
                forall|i: int| 0 <= i < dropped@.len() ==> (#[trigger] dropped@[i]).1.wf(),
                dropped@.len() <= orig.len(),
                dropped@ == orig.subrange(0, dropped@.len() as int),
                self.released@ == old(self).released@ + pool_handles_rev(
                    orig.subrange(dropped@.len() as int, orig.len() as int),
                ),
            decreases dropped@.len(),
        {
            let ghost k = dropped@.len() as int;
            let (i, ps) = dropped.pop().unwrap();
            proof {
                let suffix = orig.subrange(k - 1, orig.len() as int);
                assert(suffix.subrange(1, suffix.len() as int) =~= orig.subrange(k, orig.len() as int));
                assert(suffix[0] == (i, ps));
                assert(dropped@ =~= orig.subrange(0, k - 1));
            }
            let ghost before = self.released@;
            match ps.source {
                PayloadSource::Pool(h) => {
                    self.released.push(h);
                    assert(self.released@ =~= before + seq![h]);
                },
                PayloadSource::Recovered(_) => {},
            }
            proof {
                assert(self.released@ =~= old(self).released@ + pool_handles_rev(
                    orig.subrange(k - 1, orig.len() as int),
                ));
            }
        }
        proof {
            assert(orig.subrange(0, orig.len() as int) =~= orig);
        }
    }

    /// Drops the pending shred at `k`, keeping its pool buffer to give back.
    fn discard_pending(&mut self, k: u32)
        requires
            old(self).wf(),
            k < old(self).streaming_cursor || old(self).streaming_cursor == u32::MAX,
        ensures
            final(self).wf(),
            old(self).progressed(&*final(self)),
            final(self).pending@ == old(self).pending@.remove(k),
            *final(self) == (SlotAccumulator {
                pending: final(self).pending,
                released: final(self).released,
                ..*old(self)
            }),
    {
        if let Some(ps) = self.pending.remove(k) {
            match ps.source {
                PayloadSource::Pool(h) => {
                    self.released.push(h);
                },
                PayloadSource::Recovered(_) => {},
            }
        }
    }

    /// Joins the payloads of the pending shreds in `[start, end]` into the
    /// scratch buffer.
    fn join_payloads(&mut self, start: u32, end: u32)
        requires
            old(self).wf(),
        ensures
            final(self).wf(),
            *final(self) == (SlotAccumulator { combined_scratch: final(self).combined_scratch, ..*old(self) }),
            final(self).combined_scratch@ == joined_payloads(old(self).pending.entries(), start, end),
    {
        self.combined_scratch.clear();
        let mut i: usize = 0;
        while i < self.pending.len()
            invariant
                self.wf(),
                *self == (SlotAccumulator { combined_scratch: self.combined_scratch, ..*old(self) }),
                i <= self.pending.entries().len(),
                self.combined_scratch@ == joined_payloads(
                    self.pending.entries().subrange(0, i as int),
                    start,
                    end,
                ),
            decreases self.pending.entries().len() - i,
        {
            let (k, ps) = self.pending.entry_at(i);
            proof {
                let sub = self.pending.entries().subrange(0, i + 1);
                assert(sub.drop_last() =~= self.pending.entries().subrange(0, i as int));
                assert(self.pending@.contains_key(k));
            }
            if start <= k && k <= end {
                match ps.payload() {
                    Some(p) => {
                        self.combined_scratch.extend_from_slice(p);
                    },
                    None => {},
                }
            }
            i = i + 1;
        }
        proof {
            assert(self.pending.entries().subrange(0, i as int) =~= self.pending.entries());
        }
    }

    /// Ends the batch that ends at `bc_idx`: drops everything up to it and
    /// starts the next batch after it.
    fn complete_batch(&mut self, bc_idx: u32)
        requires
            old(self).wf(),
            bc_idx >= old(self).batch_start,
        ensures
            final(self).wf(),
            old(self).progressed(&*final(self)),
            old(self).keeps_tail_counters(&*final(self)),
            final(self).batch_start == if bc_idx == u32::MAX {
                bc_idx
            } else {
                (bc_idx + 1) as u32
            },
            forall|k: u32| #[trigger]
                final(self).batch_complete_indices@.contains_key(k) ==> k > bc_idx
                    && old(self).batch_complete_indices@.contains_key(k),
            old(self).boundaries_kept(&*final(self)),
            old(self).sets_kept(&*final(self)),
            old(self).pool_shreds_kept(&*final(self)),
            final(self).batches_force_finalized_timeout == old(self).batches_force_finalized_timeout,
            forall|k: u32| #[trigger]
                final(self).pending@.contains_key(k) ==> k > bc_idx && old(self).pending@.contains_key(k)
                    && final(self).pending@[k] == old(self).pending@[k],
            final(self).slot_complete == old(self).slot_complete,
    {
        let next_start = bc_idx.saturating_add(1);
        if self.streaming_cursor < next_start {
            self.streaming_cursor = next_start;
        }
        let dropped = self.pending.retain_at_least(next_start);
        proof {
            assert forall|i: int| 0 <= i < dropped@.len() implies (#[trigger] dropped@[i]).1.wf() by {
                assert(old(self).pending@.contains_key(dropped@[i].0));
            }
            assert forall|k: u32| #[trigger] old(self).holds_or_passed(k) implies self.holds_or_passed(
                k,
            ) by {
                if old(self).pending@.contains_key(k) && k >= next_start {
                    assert(self.pending@.contains_key(k));
                }
            }
        }
        self.release_dropped(dropped);
        if bc_idx == u32::MAX {
            self.discard_pending(bc_idx);
        }
        let _ = self.batch_complete_indices.retain_at_least(next_start);
        if bc_idx == u32::MAX {
            let _ = self.batch_complete_indices.remove(bc_idx);
        }
        let keys = self.fec_sets.keys();
        let mut i: usize = 0;
        while i < keys.len()
            invariant
                self.wf(),
                old(self).progressed(&*self),
                old(self).keeps_tail_counters(&*self),
                self.batch_start == old(self).batch_start,
                self.streaming_cursor >= next_start,
                self.slot_complete == old(self).slot_complete,
                forall|k: u32| #[trigger]
                    self.batch_complete_indices@.contains_key(k) ==> k > bc_idx
                        && old(self).batch_complete_indices@.contains_key(k),
                old(self).boundaries_kept(&*self),
                old(self).sets_kept(&*self),
                self.batches_force_finalized_timeout == old(self).batches_force_finalized_timeout,
                forall|k: u32| #[trigger]
                    self.pending@.contains_key(k) ==> k > bc_idx && old(self).pending@.contains_key(k)
                        && self.pending@[k] == old(self).pending@[k],
            decreases keys@.len() - i,
        {
            let key = keys[i];
            let drop_set = match self.fec_sets.get(key) {
                Some(fec) => {
                    let nd = fec.num_data as u32;
                    nd > 0 && key.saturating_add(nd) <= next_start
                },
                None => false,
            };
            if drop_set {
                let _ = self.fec_sets.remove(key);
            }
            i = i + 1;
        }
        self.batch_start = next_start;
        self.streaming_decoder.reset();
        self.yielded_sigs.clear();
    }
}


impl SlotAccumulator {
    /// Decodes what can be read of the pending shreds in `[start, end]`:
    /// each maximal run of consecutive indices is joined and read as
    /// consecutive lists of entries (`salvage_runs`; a run with no bytes is
    /// not read). Appends the transactions not handed out yet in this batch
    /// to `out`, and returns how many, with the byte strings read and what
    /// each read gave.
    fn salvage_contiguous_runs_in<C: EntryCodec>(
        &mut self,
        codec: &C,
        start: u32,
        end: u32,
        out: &mut Vec<VersionedTransaction>,
    ) -> (r: (usize, Ghost<Seq<Seq<u8>>>, Ghost<Seq<Seq<VersionedTransaction>>>))
        requires
            old(self).wf(),
        ensures
            final(self).wf(),
            old(self).same_but_scratch_and_sigs(&*final(self)),
            final(out)@.len() == old(out)@.len() + r.0,
            all_signed(old(out)@) ==> all_signed(final(out)@),
            old(self).hands_out_fresh(&*final(self), old(out)@, final(out)@),
            (forall|k: u32| start <= k <= end ==> !old(self).pending@.contains_key(k)) ==> r.0 == 0,
            r.1@ == nonempty_runs(salvage_runs(old(self).pending.entries(), start, end)),
            r.2@.len() == r.1@.len(),
            final(out)@ == old(out)@ + filter_all(r.2@, old(self).yielded_sigs.contents()),
            final(self).yielded_sigs.contents() == seen_all(r.2@, old(self).yielded_sigs.contents()),
    {
        let before = out.len();
        proof {
            Self::lemma_hands_out_nothing(&*self, &*self, out@);
            self.pending.lemma_entries();
        }
        let ghost es = self.pending.entries();
        let ghost seen0 = self.yielded_sigs.contents();
        let ghost mut reads: Seq<Seq<u8>> = Seq::empty();
        let ghost mut outs: Seq<Seq<VersionedTransaction>> = Seq::empty();
        let n = self.pending.len();
        let mut i: usize = 0;
        proof {
            assert(es.subrange(0, 0) =~= Seq::<(u32, PendingShred)>::empty());
            assert(out@ =~= old(out)@ + filter_all(outs, seen0));
        }
        while i < n
            invariant
                all_signed(old(out)@) ==> all_signed(out@),
                old(self).hands_out_fresh(&*self, old(out)@, out@),
                self.wf(),
                old(self).same_but_scratch_and_sigs(&*self),
                es == old(self).pending.entries(),
                es == self.pending.entries(),
                keys_increasing(es),
                seen0 == old(self).yielded_sigs.contents(),
                n == es.len(),
                i <= n,
                before == old(out)@.len(),
                out@.len() >= before,
                out@.len() > before ==> exists|k: u32|
                    start <= k <= end && #[trigger] old(self).pending@.contains_key(k),
                reads == nonempty_runs(salvage_runs(es.subrange(0, i as int), start, end)),
                outs.len() == reads.len(),
                out@ == old(out)@ + filter_all(outs, seen0),
                self.yielded_sigs.contents() == seen_all(outs, seen0),
                0 < i < n && start <= es[i - 1].0 <= end && start <= es[i as int].0 <= end
                    ==> es[i - 1].0 + 1 != es[i as int].0,
            decreases n - i,
        {
            let (k, ps) = self.pending.entry_at(i);
            proof {
                let next = es.subrange(0, i + 1);
                assert(next.drop_last() =~= es.subrange(0, i as int));
                assert(next.last() == es[i as int]);
            }
            if k < start || k > end {
                i = i + 1;
            } else {
                proof {
                    assert(old(self).pending@.contains_key(k));
                }
                let ghost base = salvage_runs(es.subrange(0, i as int), start, end);
                self.combined_scratch.clear();
                match ps.payload() {
                    Some(p) => {
                        self.combined_scratch.extend_from_slice(p);
                    },
                    None => {},
                }
                proof {
                    assert(self.combined_scratch@ =~= payload_or_empty(es[i as int].1));
                    assert(salvage_runs(es.subrange(0, i + 1), start, end) =~= base.push(
                        self.combined_scratch@,
                    ));
                }
                i = i + 1;
                let ghost ys = self.yielded_sigs;
                if k < end {
                    let mut expected: u32 = k + 1;
                    let i0 = i;
                    loop
                        invariant_except_break
                            es[i - 1].0 + 1 == expected,
                            expected <= end,
                        invariant
                            self.yielded_sigs == ys,
                            all_signed(old(out)@) ==> all_signed(out@),
                            old(self).hands_out_fresh(&*self, old(out)@, out@),
                            i >= i0,
                            i0 >= 1,
                            self.wf(),
                            old(self).same_but_scratch_and_sigs(&*self),
                            es == self.pending.entries(),
                            keys_increasing(es),
                            n == es.len(),
                            i <= n,
                            start <= es[i - 1].0 <= end,
                            salvage_runs(es.subrange(0, i as int), start, end) == base.push(
                                self.combined_scratch@,
                            ),
                        ensures
                            i <= n,
                            start <= es[i - 1].0 <= end,
                            salvage_runs(es.subrange(0, i as int), start, end) == base.push(
                                self.combined_scratch@,
                            ),
                            0 < i < n && start <= es[i as int].0 <= end ==> es[i - 1].0 + 1
                                != es[i as int].0,
                        decreases n - i,
                    {
                        if i >= n {
                            break;
                        }
                        let (k2, ps2) = self.pending.entry_at(i);
                        if k2 != expected || k2 > end {
                            break;
                        }
                        let ghost run_before = self.combined_scratch@;
                        match ps2.payload() {
                            Some(p) => {
                                self.combined_scratch.extend_from_slice(p);
                            },
                            None => {},
                        }
                        proof {
                            let next = es.subrange(0, i + 1);
                            assert(next.drop_last() =~= es.subrange(0, i as int));
                            assert(next.last() == es[i as int]);
                            assert(next[next.len() - 2] == es[i - 1]);
                            assert(self.combined_scratch@ =~= run_before + payload_or_empty(
                                es[i as int].1,
                            ));
                            assert(salvage_runs(next, start, end) =~= base.push(
                                self.combined_scratch@,
                            ));
                        }
                        i = i + 1;
                        if expected >= end {
                            proof {
                                if i < n {
                                    assert(es[i - 1].0 < es[i as int].0);
                                }
                            }
                            break;
                        }
                        expected = expected + 1;
                    }
                } else {
                    proof {
                        if i < n {
                            assert(es[i - 1].0 < es[i as int].0);
                        }
                    }
                }
                if self.combined_scratch.len() > 0 {
                    let txs = decode_concatenated(codec, self.combined_scratch.as_slice());
                    let ghost mid = *self;
                    let ghost mid_out = out@;
                    let ghost read = self.combined_scratch@;
                    let ghost got = txs@;
                    let _ = self.emit_new(txs, out);
                    proof {
                        Self::lemma_hands_out_trans(
                            &*old(self),
                            &mid,
                            &*self,
                            old(out)@,
                            mid_out,
                            out@,
                        );
                        let runs = base.push(read);
                        assert(runs.drop_last() =~= base);
                        reads = reads.push(read);
                        let outs2 = outs.push(got);
                        assert(outs2.drop_last() =~= outs);
                        assert(outs2.last() == got);
                        assert(mid.yielded_sigs.contents() == seen_all(outs, seen0));
                        assert(seen_all(outs2, seen0) == sigs_seen(got, seen_all(outs, seen0)));
                        assert(filter_all(outs2, seen0) == filter_all(outs, seen0) + new_sig_filter(
                            got,
                            seen_all(outs, seen0),
                        ));
                        assert(out@ == mid_out + new_sig_filter(got, mid.yielded_sigs.contents()));
                        assert(out@ =~= old(out)@ + filter_all(outs2, seen0));
                        outs = outs2;
                    }
                } else {
                    proof {
                        let runs = base.push(self.combined_scratch@);
                        assert(runs.drop_last() =~= base);
                    }
                }
            }
        }
        proof {
            assert(es.subrange(0, n as int) =~= es);
        }
        (out.len() - before, Ghost(reads), Ghost(outs))
    }

    /// Whether the shred at the streaming cursor is pending and held in a
    /// pool buffer, so that the streaming decoder can take it.
    pub closed spec fn stream_can_take(&self) -> bool {
        &&& self.pending@.contains_key(self.streaming_cursor)
        &&& !(self.pending@[self.streaming_cursor].source is Recovered)
    }

    /// Whether the streaming decoder has stopped where it must: at the last
    /// index, at a shred it cannot take, after a decoding error (the decoder
    /// is then reset), or after a pending shred that ends a batch.
    pub closed spec fn stream_stopped(&self) -> bool {
        ||| self.streaming_cursor == u32::MAX
        ||| !self.stream_can_take()
        ||| self.streaming_decoder.is_fresh()
        ||| (self.streaming_cursor > 0 && self.pending@.contains_key((self.streaming_cursor - 1) as u32)
            && self.pending@[(self.streaming_cursor - 1) as u32].batch_complete)
    }

    /// Feeds the streaming decoder the shreds that follow the cursor in
    /// order, appending the new transactions to `out`. It stops at a missing
    /// or rebuilt shred, at the end of a batch, and at a decoding error (after
    /// which the batch is read whole once complete). A shred whose payload
    /// bounds are off is dropped; if it ended a batch, the batch is salvaged
    /// and finalized.
    fn advance_streaming<C: EntryCodec>(&mut self, codec: &C, out: &mut Vec<VersionedTransaction>)
        requires
            old(self).wf(),
        ensures
            final(self).wf(),
            old(self).progressed(&*final(self)),
            old(self).keeps_tail_counters(&*final(self)),
            final(self).slot_complete == old(self).slot_complete,
            final(out)@.len() >= old(out)@.len(),
            !old(self).stream_can_take() ==> *final(self) == *old(self) && final(out)@ == old(
                out,
            )@,
            old(self).stream_can_take() && old(self).streaming_cursor < u32::MAX
                ==> final(self).streaming_cursor > old(self).streaming_cursor,
            final(self).stream_stopped(),
            old(self).boundaries_kept(&*final(self)),
            old(self).sets_kept(&*final(self)),
            final(self).batches_force_finalized_timeout == old(self).batches_force_finalized_timeout,
            all_signed(old(out)@) ==> all_signed(final(out)@),
            old(self).hands_out_fresh(&*final(self), old(out)@, final(out)@),
            old(self).pool_shreds_kept(&*final(self)),
    {
        proof {
            Self::lemma_hands_out_nothing(&*self, &*self, out@);
        }
        loop
            invariant
                all_signed(old(out)@) ==> all_signed(out@),
                old(self).hands_out_fresh(&*self, old(out)@, out@),
                old(self).pool_shreds_kept(&*self),
                self.wf(),
                old(self).progressed(&*self),
                old(self).keeps_tail_counters(&*self),
                old(self).boundaries_kept(&*self),
                old(self).sets_kept(&*self),
                self.batches_force_finalized_timeout == old(self).batches_force_finalized_timeout,
                self.slot_complete == old(self).slot_complete,
                out@.len() >= old(out)@.len(),
                !old(self).stream_can_take() ==> *self == *old(self) && out@ == old(out)@,
                self.streaming_cursor > old(self).streaming_cursor || (*self == *old(self)
                    && out@ == old(out)@),
            decreases u32::MAX - self.streaming_cursor,
        {
            let cur = self.streaming_cursor;
            let ps = match self.pending.get(cur) {
                Some(ps) => ps,
                None => {
                    return;
                },
            };
            if ps.is_recovered() {
                return;
            }
            let flag = ps.batch_complete;
            let at_end = cur == u32::MAX;
            match ps.payload() {
                None => {
                    let ghost s0 = *self;
                    self.streaming_cursor = cur.saturating_add(1);
                    let ghost s1 = *self;
                    assert(s0.progressed(&s1));
                    self.discard_pending(cur);
                    if flag {
                        let _ = self.batch_complete_indices.remove(cur);
                    }
                    self.decode_errors = self.decode_errors.saturating_add(1);
                    proof {
                        Self::lemma_progressed_trans(&*old(self), &s0, &s1);
                        assert(s1.progressed(&*self));
                        Self::lemma_progressed_trans(&*old(self), &s1, &*self);
                    }
                    if flag && cur > self.batch_start {
                        let start = self.batch_start;
                        let ghost s2 = *self;
                        let ghost o2 = out@;
                        let (salvaged, _, _) = self.salvage_contiguous_runs_in(codec, start, cur - 1, out);
                        proof {
                            Self::lemma_hands_out_trans(&*old(self), &s2, &*self, old(out)@, o2, out@);
                        }
                        if salvaged > 0 {
                            self.batches_decoded_fallback = self.batches_decoded_fallback.saturating_add(1);
                        } else {
                            self.batches_skipped = self.batches_skipped.saturating_add(1);
                        }
                        self.batches_force_finalized_corrupted =
                            self.batches_force_finalized_corrupted.saturating_add(1);
                        let ghost mid = *self;
                        assert(old(self).progressed(&mid));
                        self.complete_batch(cur);
                        proof {
                            Self::lemma_progressed_trans(&*old(self), &mid, &*self);
                            Self::lemma_hands_out_nothing(&mid, &*self, out@);
                            Self::lemma_hands_out_trans(&*old(self), &mid, &*self, old(out)@, out@, out@);
                        }
                    }
                    if at_end {
                        return;
                    }
                },
                Some(p) => {
                    let pushed = self.streaming_decoder.push(codec, p);
                    self.streaming_cursor = cur.saturating_add(1);
                    match pushed {
                        Ok(txs) => {
                            let ghost s3 = *self;
                            let ghost o3 = out@;
                            let _ = self.emit_new(txs, out);
                            proof {
                                Self::lemma_hands_out_trans(
                                    &*old(self),
                                    &s3,
                                    &*self,
                                    old(out)@,
                                    o3,
                                    out@,
                                );
                            }
                        },
                        Err(_) => {
                            self.decode_errors = self.decode_errors.saturating_add(1);
                            self.streaming_decoder.reset();
                            return;
                        },
                    }
                    if flag || at_end {
                        return;
                    }
                },
            }
        }
    }
}


/// Where the data indices of the erasure set that starts at `set_idx` and
/// has `nd` data shreds end (exclusive), capped at the largest index.
pub open spec fn set_data_end(set_idx: u32, nd: u16) -> int {
    if set_idx + nd > u32::MAX {
        u32::MAX as int
    } else {
        set_idx + nd
    }
}

/// How many of the pending shreds `entries` belong to the erasure set at
/// `set_idx` and lie among its data indices.
pub open spec fn set_data_count(entries: Seq<(u32, PendingShred)>, set_idx: u32, nd: u16) -> nat
    decreases entries.len(),
{
    if entries.len() == 0 {
        0
    } else {
        let e = entries.last();
        set_data_count(entries.drop_last(), set_idx, nd) + if set_idx <= e.0 && e.0 < set_data_end(
            set_idx,
            nd,
        ) && e.1.fec_set_index == set_idx {
            1nat
        } else {
            0nat
        }
    }
}

impl SlotAccumulator {
    /// Whether the erasure set at `s` is buffered and, with the data shreds
    /// pending for it, holds enough shards to be rebuilt.
    pub closed spec fn set_recoverable(&self, s: u32) -> bool {
        &&& self.fec_sets@.contains_key(s)
        &&& self.fec_sets@[s].num_data > 0
        &&& set_data_count(self.pending.entries(), s, self.fec_sets@[s].num_data)
            + self.fec_sets@[s].code.entries().len() >= self.fec_sets@[s].num_data
    }

    /// Whether the data indices of the set at `s` cover the streaming cursor.
    pub closed spec fn set_covers_cursor(&self, s: u32) -> bool {
        s <= self.streaming_cursor < s + self.fec_sets@[s].num_data
    }

    fn data_count_for(&self, set_idx: u32, nd: u16) -> (r: usize)
        requires
            self.wf(),
        ensures
            r == set_data_count(self.pending.entries(), set_idx, nd),
    {
        let n = self.pending.len();
        let mut c: usize = 0;
        let mut i: usize = 0;
        while i < n
            invariant
                self.wf(),
                n == self.pending.entries().len(),
                i <= n,
                c <= i,
                c == set_data_count(self.pending.entries().subrange(0, i as int), set_idx, nd),
            decreases n - i,
        {
            let (k, ps) = self.pending.entry_at(i);
            proof {
                let sub = self.pending.entries().subrange(0, i + 1);
                assert(sub.drop_last() =~= self.pending.entries().subrange(0, i as int));
            }
            if set_idx <= k && (k as u64) < (set_idx as u64) + (nd as u64) && k < u32::MAX
                && ps.fec_set_index == set_idx {
                c = c + 1;
            }
            i = i + 1;
        }
        proof {
            assert(self.pending.entries().subrange(0, i as int) =~= self.pending.entries());
        }
        c
    }

    /// The erasure set to rebuild: the one at `hint` if it can be rebuilt,
    /// else the first set that can and whose data indices cover the
    /// streaming cursor.
    fn select_recoverable_set(&self, hint: u32) -> (r: Option<u32>)
        requires
            self.wf(),
        ensures
            self.set_recoverable(hint) ==> r == Some(hint),
            !self.set_recoverable(hint) ==> match r {
                Some(s) => {
                    &&& self.set_recoverable(s)
                    &&& self.set_covers_cursor(s)
                    &&& forall|s2: u32|
                        s2 < s ==> !(#[trigger] self.set_recoverable(s2) && self.set_covers_cursor(
                            s2,
                        ))
                },
                None => forall|s2: u32|
                    !(#[trigger] self.set_recoverable(s2) && self.set_covers_cursor(s2)),
            },
    {
        match self.fec_sets.get(hint) {
            Some(fec) => {
                let c = self.data_count_for(hint, fec.num_data);
                if fec.can_recover_with(c) {
                    return Some(hint);
                }
            },
            None => {},
        }
        proof {
            self.fec_sets.lemma_entries();
        }
        let cursor = self.streaming_cursor;
        let n = self.fec_sets.len();
        let mut i: usize = 0;
        while i < n
            invariant
                self.wf(),
                !self.set_recoverable(hint),
                n == self.fec_sets.entries().len(),
                cursor == self.streaming_cursor,
                i <= n,
                keys_increasing(self.fec_sets.entries()),
                forall|j: int|
                    0 <= j < self.fec_sets.entries().len() ==> self.fec_sets@.contains_key(
                        #[trigger] self.fec_sets.entries()[j].0,
                    ) && self.fec_sets@[self.fec_sets.entries()[j].0] == self.fec_sets.entries()[j].1,
                forall|j: int|
                    0 <= j < i ==> !(self.set_recoverable(#[trigger] self.fec_sets.entries()[j].0)
                        && self.set_covers_cursor(self.fec_sets.entries()[j].0)),
            decreases n - i,
        {
            let (s, fec) = self.fec_sets.entry_at(i);
            let nd = fec.num_data;
            if nd != 0 && s <= cursor && (cursor as u64) < (s as u64) + (nd as u64) {
                let c = self.data_count_for(s, nd);
                if fec.can_recover_with(c) {
                    proof {
                        self.fec_sets.lemma_entries();
                        assert forall|s2: u32| s2 < s implies !(#[trigger] self.set_recoverable(s2)
                            && self.set_covers_cursor(s2)) by {
                            if self.fec_sets@.contains_key(s2) {
                                let j = choose|j: int|
                                    0 <= j < self.fec_sets.entries().len() && (
                                    #[trigger] self.fec_sets.entries()[j]).0 == s2;
                                if j >= i {
                                    if j > i {
                                        assert(self.fec_sets.entries()[i as int].0
                                            < self.fec_sets.entries()[j].0);
                                    }
                                }
                            }
                        }
                    }
                    return Some(s);
                }
            }
            i = i + 1;
        }
        proof {
            self.fec_sets.lemma_entries();
            assert forall|s2: u32| !(#[trigger] self.set_recoverable(s2) && self.set_covers_cursor(
                s2,
            )) by {
                if self.fec_sets@.contains_key(s2) {
                    let j = choose|j: int|
                        0 <= j < self.fec_sets.entries().len() && (
                        #[trigger] self.fec_sets.entries()[j]).0 == s2;
                    assert(j < i);
                }
            }
        }
        None
    }
}


/// The pending shreds of `entries` that belong to the erasure set at
/// `set_idx` with `nd` data shreds, as handed to reconstruction: their
/// position in the set and their bytes, in order of index.
pub open spec fn set_refs(entries: Seq<(u32, PendingShred)>, set_idx: u32, nd: u16) -> Seq<
    (u16, Seq<u8>),
>
    decreases entries.len(),
{
    if entries.len() == 0 {
        Seq::empty()
    } else {
        let prev = set_refs(entries.drop_last(), set_idx, nd);
        let (k, ps) = entries.last();
        if k >= set_idx && k - set_idx < nd && ps.fec_set_index == set_idx {
            prev.push(((k - set_idx) as u16, ps.source.bytes()))
        } else {
            prev
        }
    }
}

impl SlotAccumulator {
    /// Whether the set at `s` can be rebuilt and its data indices cover the
    /// streaming cursor.
    pub closed spec fn selectable(&self, s: u32) -> bool {
        self.set_recoverable(s) && self.set_covers_cursor(s)
    }

    /// Whether `s` is the first set that `selectable` admits.
    pub closed spec fn first_selectable(&self, s: u32) -> bool {
        self.selectable(s) && forall|s2: u32| s2 < s ==> !#[trigger] self.selectable(s2)
    }

    /// The erasure set that a rebuild for `hint` picks: `hint` if it can be
    /// rebuilt, else the first set that can and covers the streaming cursor.
    pub closed spec fn selected_set(&self, hint: u32) -> Option<u32> {
        if self.set_recoverable(hint) {
            Some(hint)
        } else if exists|s: u32| #[trigger] self.first_selectable(s) {
            Some(choose|s: u32| #[trigger] self.first_selectable(s))
        } else {
            None
        }
    }

    /// The shard slots handed to the codec for the set at `s`.
    pub closed spec fn rebuild_input(&self, s: u32) -> Seq<Option<Seq<u8>>> {
        let fec = self.fec_sets@[s];
        fec.spec_initial_shards(set_refs(self.pending.entries(), s, fec.num_data))
    }

    /// Whether rebuilding the set at `s` gives its missing data shreds: the
    /// set is reconstructible, enough shards are at hand, and the codec is
    /// built and accepts them.
    pub closed spec fn rebuild_succeeds(&self, s: u32) -> bool {
        let fec = self.fec_sets@[s];
        &&& fec.spec_reconstructible()
        &&& count_present(self.rebuild_input(s)) >= fec.num_data
        &&& fec.num_coding > 0
        &&& fec.num_data + fec.num_coding <= 256
        &&& reconstruct_accepts(fec.num_data, fec.num_coding, self.rebuild_input(s))
    }

    /// The data shreds that rebuilding the set at `s` gives, with their
    /// positions in the set.
    pub closed spec fn spec_recovered(&self, s: u32) -> Seq<(u16, Seq<u8>)> {
        let fec = self.fec_sets@[s];
        recovered_list(
            rs_reconstructed(fec.num_data, fec.num_coding, self.rebuild_input(s)),
            set_refs(self.pending.entries(), s, fec.num_data),
            fec.shard_size as int,
            fec.num_data as int,
        )
    }

    /// Whether a shred rebuilt at position `item.0` of the set at `s` is
    /// taken: its index exists, lies in this batch or a later one, is not
    /// pending, and its bytes read as a data shred that does not end the slot.
    pub closed spec fn rebuilt_shred_usable(&self, s: u32, item: (u16, Seq<u8>)) -> bool {
        &&& s + item.0 <= u32::MAX
        &&& s + item.0 >= self.batch_start
        &&& !self.pending@.contains_key((s + item.0) as u32)
        &&& spec_parse_kind(item.1) matches Ok(ShredKindView::Data(d)) && !d.last_in_slot
    }

    /// Whether a shred rebuilt at position `item.0` of the set at `s` ends
    /// the slot: its index exists, lies in this batch or a later one, is not
    /// pending, and its bytes read as a data shred flagged last-in-slot.
    pub closed spec fn rebuilt_shred_ends_slot(&self, s: u32, item: (u16, Seq<u8>)) -> bool {
        &&& s + item.0 <= u32::MAX
        &&& s + item.0 >= self.batch_start
        &&& !self.pending@.contains_key((s + item.0) as u32)
        &&& spec_parse_kind(item.1) matches Ok(ShredKindView::Data(d)) && d.last_in_slot
    }

    /// Whether a rebuild for `hint` gives a shred that ends the slot.
    pub closed spec fn fill_ends_slot(&self, hint: u32) -> bool {
        match self.selected_set(hint) {
            Some(s) => self.rebuild_succeeds(s) && exists|j: int|
                0 <= j < self.spec_recovered(s).len() && #[trigger] self.rebuilt_shred_ends_slot(
                    s,
                    self.spec_recovered(s)[j],
                ),
            None => false,
        }
    }

    /// Whether a rebuild for `hint` is tried and the codec fails: a set is
    /// selected that can be rebuilt and has enough shards at hand, but the
    /// codec cannot be built or refuses the shards.
    pub closed spec fn rebuild_fails(&self, hint: u32) -> bool {
        match self.selected_set(hint) {
            Some(s) => {
                let fec = self.fec_sets@[s];
                &&& fec.spec_reconstructible()
                &&& count_present(self.rebuild_input(s)) >= fec.num_data
                &&& !(fec.num_coding > 0 && fec.num_data + fec.num_coding <= 256
                    && reconstruct_accepts(fec.num_data, fec.num_coding, self.rebuild_input(s)))
            },
            None => false,
        }
    }

    /// Whether a rebuild for `hint` adds a pending shred: a set is selected,
    /// rebuilding it succeeds, and one of the shreds it gives is taken.
    pub closed spec fn fill_adds(&self, hint: u32) -> bool {
        match self.selected_set(hint) {
            Some(s) => self.rebuild_succeeds(s) && exists|j: int|
                0 <= j < self.spec_recovered(s).len() && #[trigger] self.rebuilt_shred_usable(
                    s,
                    self.spec_recovered(s)[j],
                ),
            None => false,
        }
    }

    proof fn lemma_selection(&self, hint: u32, r: Option<u32>)
        requires
            self.set_recoverable(hint) ==> r == Some(hint),
            !self.set_recoverable(hint) ==> match r {
                Some(s) => {
                    &&& self.set_recoverable(s)
                    &&& self.set_covers_cursor(s)
                    &&& forall|s2: u32|
                        s2 < s ==> !(#[trigger] self.set_recoverable(s2) && self.set_covers_cursor(
                            s2,
                        ))
                },
                None => forall|s2: u32|
                    !(#[trigger] self.set_recoverable(s2) && self.set_covers_cursor(s2)),
            },
        ensures
            r == self.selected_set(hint),
    {
        if !self.set_recoverable(hint) {
            match r {
                Some(s) => {
                    assert forall|s2: u32| s2 < s implies !#[trigger] self.selectable(s2) by {
                        assert(!(self.set_recoverable(s2) && self.set_covers_cursor(s2)));
                    }
                    assert(self.first_selectable(s));
                    let c = choose|c: u32| #[trigger] self.first_selectable(c);
                    if c < s {
                        assert(self.selectable(c));
                        assert(!(self.set_recoverable(c) && self.set_covers_cursor(c)));
                    }
                    if s < c {
                        assert(!self.selectable(s));
                    }
                },
                None => {
                    assert forall|c: u32| !#[trigger] self.first_selectable(c) by {
                        assert(!(self.set_recoverable(c) && self.set_covers_cursor(c)));
                    }
                },
            }
        }
    }
}

impl SlotAccumulator {
    /// Rebuilds the missing data shreds of the erasure set that
    /// `select_recoverable_set` picks for `hint`, and adds to the pending
    /// shreds those that are data shreds of this batch or a later one and not
    /// pending yet; a rebuilt shred flagged last-in-slot marks the slot
    /// complete instead. Returns whether any shred was added; if so, the set
    /// is dropped and counted as recovered.
    fn try_fec_fill(&mut self, hint: u32, rs_cache: &mut ReedSolomonCache, now_ns: u64) -> (r: bool)
        requires
            old(self).wf(),
            old(rs_cache).wf(),
        ensures
            final(self).wf(),
            final(rs_cache).wf(),
            old(self).progressed(&*final(self)),
            old(self).keeps_tail_counters(&*final(self)),
            final(self).batch_start == old(self).batch_start,
            final(self).streaming_cursor == old(self).streaming_cursor,
            final(self).streaming_decoder == old(self).streaming_decoder,
            final(self).released == old(self).released,
            forall|k: u32| #[trigger]
                old(self).pending@.contains_key(k) ==> final(self).pending@.contains_key(k)
                    && final(self).pending@[k] == old(self).pending@[k],
            forall|k: u32| #[trigger]
                final(self).pending@.contains_key(k) && !old(self).pending@.contains_key(k)
                    ==> final(self).pending@[k].source is Recovered,
            forall|k: u32| #[trigger]
                old(self).batch_complete_indices@.contains_key(k)
                    ==> final(self).batch_complete_indices@.contains_key(k)
                    && final(self).batch_complete_indices@[k] == old(self).batch_complete_indices@[k],
            r == exists|k: u32| #[trigger]
                final(self).pending@.contains_key(k) && !old(self).pending@.contains_key(k),
            !r ==> {
                &&& final(self).pending@ == old(self).pending@
                &&& final(self).fec_sets@ == old(self).fec_sets@
                &&& final(self).batch_complete_indices@ == old(self).batch_complete_indices@
                &&& final(self).recoveries_done == old(self).recoveries_done
            },
            r ==> {
                &&& final(self).recoveries_done == sat_succ(old(self).recoveries_done)
                &&& exists|s: u32| #[trigger]
                    old(self).set_recoverable(s) && final(self).fec_sets@ == old(
                        self,
                    ).fec_sets@.remove(s)
            },
            !old(self).set_recoverable(hint) && (forall|s: u32|
                !(#[trigger] old(self).set_recoverable(s) && old(self).set_covers_cursor(s)))
                ==> *final(self) == *old(self),
            r == old(self).fill_adds(hint),
            final(self).recovery_failures == if old(self).rebuild_fails(hint) {
                sat_succ(old(self).recovery_failures)
            } else {
                old(self).recovery_failures
            },
            final(self).slot_complete == (old(self).slot_complete || old(self).fill_ends_slot(hint)),
            final(self).batches_force_finalized_timeout == old(self).batches_force_finalized_timeout,
            final(self).yielded_sigs == old(self).yielded_sigs,
            old(self).pool_shreds_kept(&*final(self)),
            forall|k: u32| #[trigger]
                final(self).batch_complete_indices@.contains_key(k)
                    && !old(self).batch_complete_indices@.contains_key(k)
                    ==> final(self).batch_complete_indices@[k] == now_ns,
            forall|k: u32| #[trigger]
                final(self).pending@.contains_key(k) && !old(self).pending@.contains_key(k)
                    && final(self).pending@[k].batch_complete
                    ==> final(self).batch_complete_indices@.contains_key(k),
    {
        let selected = self.select_recoverable_set(hint);
        proof {
            self.lemma_selection(hint, selected);
        }
        let set_idx = match selected {
            Some(s) => s,
            None => {
                return false;
            },
        };
        let recovered = {
            let fec = match self.fec_sets.get(set_idx) {
                Some(f) => f,
                None => {
                    return false;
                },
            };
            let nd = fec.num_data;
            if nd == 0 {
                return false;
            }
            let mut refs: Vec<(u16, &[u8])> = Vec::new();
            let n = self.pending.len();
            let mut i: usize = 0;
            while i < n
                invariant
                    self.wf(),
                    *self == *old(self),
                    n == self.pending.entries().len(),
                    i <= n,
                    data_refs_view(refs@) == set_refs(
                        self.pending.entries().subrange(0, i as int),
                        set_idx,
                        nd,
                    ),
                decreases n - i,
            {
                let (idx, ps) = self.pending.entry_at(i);
                proof {
                    let sub = self.pending.entries().subrange(0, i + 1);
                    assert(sub.drop_last() =~= self.pending.entries().subrange(0, i as int));
                }
                let ghost before = refs@;
                if idx >= set_idx && ((idx - set_idx) as u64) < (nd as u64) && ps.fec_set_index
                    == set_idx {
                    refs.push(((idx - set_idx) as u16, ps.source.slice()));
                    assert(data_refs_view(refs@) =~= data_refs_view(before).push(
                        ((idx - set_idx) as u16, ps.source.bytes()),
                    ));
                }
                i = i + 1;
            }
            proof {
                assert(self.pending.entries().subrange(0, i as int) =~= self.pending.entries());
            }
            match fec.try_reconstruct(refs.as_slice(), rs_cache) {
                Ok(v) => v,
                Err(_) => {
                    self.recovery_failures = self.recovery_failures.saturating_add(1);
                    return false;
                },
            }
        };
        if recovered.len() == 0 {
            return false;
        }
        let ghost orig = recovered_view(recovered@);
        assert(old(self).rebuild_succeeds(set_idx));
        assert(orig == old(self).spec_recovered(set_idx));
        proof {
            let fec = old(self).fec_sets@[set_idx];
            lemma_recovered_positions_increase(
                rs_reconstructed(fec.num_data, fec.num_coding, old(self).rebuild_input(set_idx)),
                set_refs(old(self).pending.entries(), set_idx, fec.num_data),
                fec.shard_size as int,
                fec.num_data as int,
            );
            assert(!old(self).rebuild_fails(hint));
        }
        let mut rec = recovered;
        let mut any = false;
        let ghost mut witness: u32 = 0;
        let ghost mut wj: int = 0;
        while rec.len() > 0
            invariant
                rec@.len() <= orig.len(),
                recovered_view(rec@) == orig.subrange(0, rec@.len() as int),
                any ==> rec@.len() <= wj < orig.len() && old(self).rebuilt_shred_usable(
                    set_idx,
                    orig[wj],
                ),
                forall|j: int|
                    rec@.len() <= j < orig.len() && #[trigger] old(self).rebuilt_shred_usable(
                        set_idx,
                        orig[j],
                    ) ==> any,
                self.wf(),
                old(self).progressed(&*self),
                old(self).keeps_tail_counters(&*self),
                self.batch_start == old(self).batch_start,
                self.streaming_cursor == old(self).streaming_cursor,
                self.streaming_decoder == old(self).streaming_decoder,
                self.released == old(self).released,
                self.fec_sets == old(self).fec_sets,
                self.recoveries_done == old(self).recoveries_done,
                old(self).set_recoverable(set_idx),
                forall|k: u32| #[trigger]
                    old(self).pending@.contains_key(k) ==> self.pending@.contains_key(k)
                        && self.pending@[k] == old(self).pending@[k],
                forall|k: u32| #[trigger]
                    self.pending@.contains_key(k) && !old(self).pending@.contains_key(k)
                        ==> self.pending@[k].source is Recovered,
                forall|k: u32| #[trigger]
                    old(self).batch_complete_indices@.contains_key(k)
                        ==> self.batch_complete_indices@.contains_key(k)
                        && self.batch_complete_indices@[k] == old(self).batch_complete_indices@[k],
                any ==> self.pending@.contains_key(witness) && !old(self).pending@.contains_key(
                    witness,
                ),
                forall|a: int, b: int|
                    0 <= a < b < orig.len() ==> (#[trigger] orig[a]).0 < (#[trigger] orig[b]).0,
                self.recovery_failures == old(self).recovery_failures,
                self.batches_force_finalized_timeout == old(self).batches_force_finalized_timeout,
                self.yielded_sigs == old(self).yielded_sigs,
                forall|k: u32| #[trigger]
                    self.pending@.contains_key(k) && !old(self).pending@.contains_key(k)
                        ==> exists|j: int|
                        rec@.len() <= j < orig.len() && k == set_idx + (#[trigger] orig[j]).0,
                self.slot_complete == (old(self).slot_complete || exists|j: int|
                    rec@.len() <= j < orig.len() && #[trigger] old(self).rebuilt_shred_ends_slot(
                        set_idx,
                        orig[j],
                    )),
                forall|k: u32| #[trigger]
                    self.batch_complete_indices@.contains_key(k)
                        && !old(self).batch_complete_indices@.contains_key(k)
                        ==> self.batch_complete_indices@[k] == now_ns,
                forall|k: u32| #[trigger]
                    self.pending@.contains_key(k) && !old(self).pending@.contains_key(k)
                        && self.pending@[k].batch_complete ==> self.batch_complete_indices@.contains_key(k),
                !any ==> self.pending@ == old(self).pending@ && self.batch_complete_indices@ == old(
                    self,
                ).batch_complete_indices@,
            decreases rec@.len(),
        {
            let ghost k = rec@.len() as int;
            let ghost rec_before = rec@;
            let (pos, bytes) = rec.pop().unwrap();
            proof {
                assert(recovered_view(rec_before)[k - 1] == (pos, bytes@));
                assert(orig[k - 1] == (pos, bytes@));
                assert(recovered_view(rec@) =~= orig.subrange(0, k - 1));
            }
            let g = match set_idx.checked_add(pos as u32) {
                Some(g) => g,
                None => {
                    continue;
                },
            };
            if g < self.batch_start || self.pending.contains_key(g) {
                continue;
            }
            proof {
                lemma_data_payload_in_packet(bytes@);
            }
            let (payload_end, bc, lis) = match parser::parse_kind(bytes.as_slice()) {
                Ok(parser::ShredKind::Data(d)) => (
                    (DATA_HEADER_SIZE + d.payload.len()) as u16,
                    d.batch_complete,
                    d.last_in_slot,
                ),
                _ => {
                    continue;
                },
            };
            if lis {
                proof {
                    assert(old(self).rebuilt_shred_ends_slot(set_idx, orig[k - 1]));
                }
                self.slot_complete = true;
                continue;
            }
            let _ = self.pending.insert(
                g,
                PendingShred {
                    source: PayloadSource::Recovered(bytes),
                    payload_end,
                    batch_complete: bc,
                    fec_set_index: set_idx,
                },
            );
            if bc && !self.batch_complete_indices.contains_key(g) {
                let _ = self.batch_complete_indices.insert(g, now_ns);
            }
            any = true;
            proof {
                witness = g;
                wj = k - 1;
            }
        }
        if any {
            self.recoveries_done = self.recoveries_done.saturating_add(1);
            let _ = self.fec_sets.remove(set_idx);
        }
        proof {
            if any {
                assert(self.pending@.contains_key(witness));
            }
            assert(old(self).selected_set(hint) == Some(set_idx));
            if any {
                assert(old(self).rebuilt_shred_usable(set_idx, old(self).spec_recovered(set_idx)[wj]));
            }
        }
        any
    }
}


/// Whether the data indices `[f, f + nd)` of an erasure set reach into the
/// batch `[start, end]`.
pub open spec fn set_overlaps(f: u32, nd: u16, start: u32, end: u32) -> bool {
    nd != 0 && f + nd > start && f <= end
}

impl SlotAccumulator {
    /// Whether every batch boundary known to `later` was known to `self`,
    /// first seen at the same time.
    pub closed spec fn boundaries_kept(&self, later: &Self) -> bool {
        forall|k: u32| #[trigger]
            later.batch_complete_indices@.contains_key(k) ==> self.batch_complete_indices@.contains_key(k)
                && later.batch_complete_indices@[k] == self.batch_complete_indices@[k]
    }

    /// Whether every pending shred of `later` held in a pool buffer was
    /// pending in `self`, unchanged.
    pub closed spec fn pool_shreds_kept(&self, later: &Self) -> bool {
        forall|k: u32| #[trigger]
            later.pending@.contains_key(k) && later.pending@[k].source is Pool
                ==> self.pending@.contains_key(k) && later.pending@[k] == self.pending@[k]
    }

    /// Whether the pending shred at `k` of `later`, if held in a pool buffer,
    /// was pending in `self` unchanged, or is `taken`, placed at `index`.
    pub closed spec fn keeps_or_takes(
        &self,
        later: &Self,
        k: u32,
        index: u32,
        taken: PendingShred,
    ) -> bool {
        later.pending@[k].source is Pool ==> (self.pending@.contains_key(k) && later.pending@[k]
            == self.pending@[k]) || (k == index && later.pending@[k] == taken)
    }

    /// The pending shreds, by index.
    pub closed spec fn pending_shreds(&self) -> Map<u32, PendingShred> {
        self.pending@
    }

    /// Whether every erasure set buffered in `later` was buffered in `self`.
    pub closed spec fn sets_kept(&self, later: &Self) -> bool {
        forall|k: u32| #[trigger] later.fec_sets@.contains_key(k) ==> self.fec_sets@.contains_key(k)
    }

    /// Whether no known batch boundary was first seen the timeout or more
    /// before `now_ns`.
    pub closed spec fn none_timed_out(&self, now_ns: u64) -> bool {
        forall|k: u32| #[trigger]
            self.batch_complete_indices@.contains_key(k) ==> now_ns.saturating_sub(
                self.batch_complete_indices@[k],
            ) < self.cfg.stuck_batch_timeout_ns
    }

    /// Whether the batch that ends at the boundary `b` still misses shreds
    /// and has waited less than the timeout since `b` was first seen.
    pub closed spec fn batch_waits(&self, b: u32, now_ns: u64) -> bool {
        &&& self.batch_complete_indices@.contains_key(b)
        &&& self.pending.spec_count_in(self.batch_start, b) < b - self.batch_start + 1
        &&& now_ns.saturating_sub(self.batch_complete_indices@[b]) < self.cfg.stuck_batch_timeout_ns
    }

    /// Whether nothing that could be finalized waits: no batch boundary is
    /// known, or the batches were finalized in order up to one that still
    /// misses shreds and has not timed out.
    pub closed spec fn settled(&self, now_ns: u64) -> bool {
        self.batch_complete_indices@.dom().is_empty() || exists|b: u32| #[trigger]
            self.batch_waits(b, now_ns)
    }

    /// The buffered erasure sets whose data indices reach into `[start, end]`,
    /// in increasing order.
    fn fec_hints_for(&self, start: u32, end: u32) -> (r: Vec<u32>)
        requires
            self.wf(),
        ensures
            forall|i: int|
                0 <= i < r@.len() ==> self.fec_sets@.contains_key(#[trigger] r@[i]) && set_overlaps(
                    r@[i],
                    self.fec_sets@[r@[i]].num_data,
                    start,
                    end,
                ),
            forall|f: u32| #[trigger]
                self.fec_sets@.contains_key(f) && set_overlaps(
                    f,
                    self.fec_sets@[f].num_data,
                    start,
                    end,
                ) ==> r@.contains(f),
    {
        proof {
            self.fec_sets.lemma_entries();
        }
        let mut r: Vec<u32> = Vec::new();
        let n = self.fec_sets.len();
        let mut i: usize = 0;
        while i < n
            invariant
                self.wf(),
                n == self.fec_sets.entries().len(),
                i <= n,
                forall|j: int|
                    0 <= j < self.fec_sets.entries().len() ==> self.fec_sets@.contains_key(
                        #[trigger] self.fec_sets.entries()[j].0,
                    ) && self.fec_sets@[self.fec_sets.entries()[j].0] == self.fec_sets.entries()[j].1,
                forall|j: int|
                    0 <= j < r@.len() ==> self.fec_sets@.contains_key(#[trigger] r@[j])
                        && set_overlaps(r@[j], self.fec_sets@[r@[j]].num_data, start, end),
                forall|j: int|
                    0 <= j < i && set_overlaps(
                        #[trigger] self.fec_sets.entries()[j].0,
                        self.fec_sets.entries()[j].1.num_data,
                        start,
                        end,
                    ) ==> r@.contains(self.fec_sets.entries()[j].0),
            decreases n - i,
        {
            let (f, fec) = self.fec_sets.entry_at(i);
            let nd = fec.num_data;
            if nd != 0 && (f as u64) + (nd as u64) > (start as u64) && f <= end {
                let ghost before = r@;
                r.push(f);
                proof {
                    assert(r@[r@.len() - 1] == f);
                    assert forall|x: u32| before.contains(x) implies r@.contains(x) by {
                        let m = choose|m: int| 0 <= m < before.len() && before[m] == x;
                        assert(r@[m] == x);
                    }
                }
            }
            i = i + 1;
        }
        proof {
            assert forall|f: u32| #[trigger]
                self.fec_sets@.contains_key(f) && set_overlaps(
                    f,
                    self.fec_sets@[f].num_data,
                    start,
                    end,
                ) implies r@.contains(f) by {
                let j = choose|j: int|
                    0 <= j < self.fec_sets.entries().len() && (#[trigger] self.fec_sets.entries()[j]).0
                        == f;
                assert(self.fec_sets.entries()[j].0 == f);
            }
        }
        r
    }

    /// Finalizes, in order, the batches whose boundary is known. A batch
    /// that misses shreds first gets its overlapping erasure sets rebuilt;
    /// one that is then complete is read whole; one still incomplete once the
    /// timeout has passed since its boundary was first seen is salvaged;
    /// and the first one that is incomplete and not timed out stops the walk.
    fn try_flush_batches<C: EntryCodec>(
        &mut self,
        codec: &C,
        rs_cache: &mut ReedSolomonCache,
        now_ns: u64,
        out: &mut Vec<VersionedTransaction>,
    )
        requires
            old(self).wf(),
            old(rs_cache).wf(),
        ensures
            final(self).wf(),
            final(rs_cache).wf(),
            old(self).progressed(&*final(self)),
            old(self).keeps_tail_counters(&*final(self)),
            final(out)@.len() >= old(out)@.len(),
            final(self).settled(now_ns),
            old(self).sets_kept(&*final(self)),
            all_signed(old(out)@) ==> all_signed(final(out)@),
            old(self).hands_out_fresh(&*final(self), old(out)@, final(out)@),
            old(self).pool_shreds_kept(&*final(self)),
            old(self).spec_cfg().stuck_batch_timeout_ns > 0 && old(self).none_timed_out(now_ns)
                ==> final(self).spec_batches_force_finalized_timeout() == old(
                self,
            ).spec_batches_force_finalized_timeout(),
    {
        let ghost calm = old(self).cfg.stuck_batch_timeout_ns > 0 && old(self).none_timed_out(now_ns);
        proof {
            Self::lemma_hands_out_nothing(&*self, &*self, out@);
        }
        loop
            invariant
                all_signed(old(out)@) ==> all_signed(out@),
                old(self).hands_out_fresh(&*self, old(out)@, out@),
                old(self).pool_shreds_kept(&*self),
                self.wf(),
                rs_cache.wf(),
                old(self).progressed(&*self),
                old(self).keeps_tail_counters(&*self),
                out@.len() >= old(out)@.len(),
                calm == (old(self).cfg.stuck_batch_timeout_ns > 0 && old(self).none_timed_out(now_ns)),
                calm ==> self.none_timed_out(now_ns) && self.batches_force_finalized_timeout
                    == old(self).batches_force_finalized_timeout,
                old(self).sets_kept(&*self),
            decreases u32::MAX - self.batch_start, if self.batch_complete_indices@.dom().is_empty() {
                0int
            } else {
                1int
            },
        {
            let start = self.batch_start;
            let bc_idx = match self.batch_complete_indices.first_key_at_least(start) {
                Some(k) => k,
                None => {
                    proof {
                        assert(self.batch_complete_indices@.dom() =~= Set::<u32>::empty());
                    }
                    return;
                },
            };
            let first_seen = match self.batch_complete_indices.get(bc_idx) {
                Some(t) => *t,
                None => {
                    return;
                },
            };
            let expected: u64 = (bc_idx - start) as u64 + 1;
            let mut present = self.pending.count_in(start, bc_idx);
            if (present as u64) < expected {
                let hints = self.fec_hints_for(start, bc_idx);
                let mut j: usize = 0;
                while j < hints.len()
                    invariant
                        all_signed(old(out)@) ==> all_signed(out@),
                        old(self).hands_out_fresh(&*self, old(out)@, out@),
                        old(self).pool_shreds_kept(&*self),
                        self.wf(),
                        rs_cache.wf(),
                        old(self).progressed(&*self),
                        old(self).keeps_tail_counters(&*self),
                        self.batch_start == start,
                        self.batch_complete_indices@.contains_key(bc_idx),
                        self.batch_complete_indices@[bc_idx] == first_seen,
                        out@.len() >= old(out)@.len(),
                        calm == (old(self).cfg.stuck_batch_timeout_ns > 0 && old(self).none_timed_out(
                            now_ns,
                        )),
                        calm ==> self.none_timed_out(now_ns) && self.batches_force_finalized_timeout
                            == old(self).batches_force_finalized_timeout,
                        old(self).sets_kept(&*self),
                    decreases hints@.len() - j,
                {
                    let ghost before = *self;
                    let _ = self.try_fec_fill(hints[j], rs_cache, now_ns);
                    proof {
                        if calm {
                            assert forall|k: u32| #[trigger]
                                self.batch_complete_indices@.contains_key(k) implies now_ns.saturating_sub(
                                self.batch_complete_indices@[k],
                            ) < self.cfg.stuck_batch_timeout_ns by {
                                if before.batch_complete_indices@.contains_key(k) {
                                    assert(before.none_timed_out(now_ns));
                                }
                            }
                        }
                    }
                    j = j + 1;
                }
                present = self.pending.count_in(start, bc_idx);
            }
            if (present as u64) < expected {
                if now_ns.saturating_sub(first_seen) >= self.cfg.stuck_batch_timeout_ns {
                    let ghost s1 = *self;
                    let ghost o1 = out@;
                    let (salvaged, _, _) = self.salvage_contiguous_runs_in(codec, start, bc_idx, out);
                    proof {
                        Self::lemma_hands_out_trans(&*old(self), &s1, &*self, old(out)@, o1, out@);
                    }
                    if salvaged > 0 {
                        self.batches_decoded_fallback = self.batches_decoded_fallback.saturating_add(1);
                    } else {
                        self.batches_skipped = self.batches_skipped.saturating_add(1);
                    }
                    self.batches_force_finalized_timeout =
                        self.batches_force_finalized_timeout.saturating_add(1);
                    let ghost mid = *self;
                    assert(old(self).progressed(&mid));
                    self.complete_batch(bc_idx);
                    proof {
                        Self::lemma_progressed_trans(&*old(self), &mid, &*self);
                        Self::lemma_hands_out_nothing(&mid, &*self, out@);
                        Self::lemma_hands_out_trans(&*old(self), &mid, &*self, old(out)@, out@, out@);
                    }
                    proof {
                        if bc_idx == u32::MAX {
                            assert(self.batch_complete_indices@.dom() =~= Set::<u32>::empty());
                        }
                    }
                    continue;
                }
                proof {
                    assert(self.batch_waits(bc_idx, now_ns));
                }
                return;
            }
            self.join_payloads(start, bc_idx);
            match decode_batch(codec, self.combined_scratch.as_slice()) {
                Some(txs) => {
                    let ghost s2 = *self;
                    let ghost o2 = out@;
                    let added = self.emit_new(txs, out);
                    proof {
                        Self::lemma_hands_out_trans(&*old(self), &s2, &*self, old(out)@, o2, out@);
                    }
                    if added > 0 {
                        self.batches_decoded_fallback = self.batches_decoded_fallback.saturating_add(1);
                    } else {
                        self.batches_decoded_streaming =
                            self.batches_decoded_streaming.saturating_add(1);
                    }
                },
                None => {
                    self.decode_errors = self.decode_errors.saturating_add(1);
                    self.batches_skipped = self.batches_skipped.saturating_add(1);
                },
            }
            let ghost mid = *self;
            assert(old(self).progressed(&mid));
            self.complete_batch(bc_idx);
            proof {
                Self::lemma_progressed_trans(&*old(self), &mid, &*self);
                Self::lemma_hands_out_nothing(&mid, &*self, out@);
                Self::lemma_hands_out_trans(&*old(self), &mid, &*self, old(out)@, out@, out@);
                if bc_idx == u32::MAX {
                    assert(self.batch_complete_indices@.dom() =~= Set::<u32>::empty());
                }
            }
        }
    }
}


impl SlotAccumulator {
    /// Takes a data shred of the slot, held in a pool buffer, and returns the
    /// transactions that became available.
    ///
    /// A shred flagged last-in-slot marks the slot complete (its payload is
    /// not read) and finalizes what can be. A shred of a batch already
    /// finalized, or at an index already pending, is dropped. Any other is
    /// added; the streaming decoder reads on, the erasure set of the shred is
    /// rebuilt if the cursor has not passed it, and complete or timed-out
    /// batches are finalized. Dropped pool buffers are kept to be given back.
    /// Every transaction returned has a first signature, and within a batch
    /// none is returned whose first signature was already handed out.
    ///
    /// `now_ns` is the time on a monotonic clock in nanoseconds; a batch
    /// times out once `stuck_batch_timeout_ns` have passed since its boundary
    /// shred was first seen.
    pub fn push_data<C: EntryCodec>(
        &mut self,
        codec: &C,
        index: u32,
        fec_set_index: u32,
        handle: BufferHandle,
        payload_end: u16,
        batch_complete: bool,
        last_in_slot: bool,
        rs_cache: &mut ReedSolomonCache,
        now_ns: u64,
    ) -> (r: Vec<VersionedTransaction>)
        requires
            old(self).wf(),
            handle.wf(),
            old(rs_cache).wf(),
        ensures
            final(self).wf(),
            final(rs_cache).wf(),
            old(self).progressed(&*final(self)),
            all_signed(r@),
            old(self).hands_out_fresh(&*final(self), Seq::empty(), r@),
            last_in_slot ==> old(self).pool_shreds_kept(&*final(self)),
            !last_in_slot ==> forall|k: u32| #[trigger]
                final(self).pending_shreds().contains_key(k) ==> old(self).keeps_or_takes(
                    &*final(self),
                    k,
                    index,
                    (PendingShred {
                        source: PayloadSource::Pool(handle),
                        payload_end,
                        batch_complete,
                        fec_set_index,
                    }),
                ),
            final(self).spec_cfg() == old(self).spec_cfg(),
            last_in_slot ==> final(self).spec_slot_complete() && final(self).settled(now_ns)
                && final(self).released_count() > old(self).released_count(),
            !last_in_slot && (index < old(self).spec_batch_start()
                || old(self).pending_indices().contains(index)) ==> {
                &&& r@.len() == 0
                &&& old(self).same_but_one_released(&*final(self))
            },
            !last_in_slot && index >= old(self).spec_batch_start()
                && !old(self).pending_indices().contains(index) ==> {
                &&& final(self).holds_or_passed(index)
                &&& final(self).settled(now_ns)
            },
            old(self).spec_cfg().stuck_batch_timeout_ns > 0 && old(self).none_timed_out(now_ns)
                ==> final(self).spec_batches_force_finalized_timeout() == old(
                self,
            ).spec_batches_force_finalized_timeout(),
    {
        if last_in_slot {
            self.released.push(handle);
            self.slot_complete = true;
            let mut out: Vec<VersionedTransaction> = Vec::new();
            let ghost mid = *self;
            assert(old(self).progressed(&mid));
            proof {
                Self::lemma_hands_out_nothing(&*old(self), &mid, out@);
            }
            self.try_flush_batches(codec, rs_cache, now_ns, &mut out);
            proof {
                Self::lemma_progressed_trans(&*old(self), &mid, &*self);
                Self::lemma_hands_out_trans(
                    &*old(self),
                    &mid,
                    &*self,
                    Seq::empty(),
                    Seq::empty(),
                    out@,
                );
            }
            return out;
        }
        if index < self.batch_start || self.pending.contains_key(index) {
            self.released.push(handle);
            proof {
                Self::lemma_hands_out_nothing(&*old(self), &*self, Seq::empty());
            }
            return Vec::new();
        }
        let _ = self.pending.insert(
            index,
            PendingShred {
                source: PayloadSource::Pool(handle),
                payload_end,
                batch_complete,
                fec_set_index,
            },
        );
        if batch_complete && !self.batch_complete_indices.contains_key(index) {
            let _ = self.batch_complete_indices.insert(index, now_ns);
        }
        let ghost s1 = *self;
        assert(old(self).progressed(&s1));
        assert(s1.holds_or_passed(index));
        let mut out: Vec<VersionedTransaction> = Vec::new();
        proof {
            Self::lemma_hands_out_nothing(&*old(self), &s1, out@);
        }
        self.advance_streaming(codec, &mut out);
        let ghost s2 = *self;
        let ghost o2 = out@;
        proof {
            Self::lemma_progressed_trans(&*old(self), &s1, &s2);
            Self::lemma_hands_out_trans(&*old(self), &s1, &s2, Seq::empty(), Seq::empty(), out@);
        }
        if self.streaming_cursor <= index && self.try_fec_fill(fec_set_index, rs_cache, now_ns) {
            let ghost s3 = *self;
            proof {
                Self::lemma_hands_out_nothing(&s2, &s3, o2);
                Self::lemma_hands_out_trans(&*old(self), &s2, &s3, Seq::empty(), o2, o2);
            }
            self.advance_streaming(codec, &mut out);
            proof {
                Self::lemma_progressed_trans(&*old(self), &s2, &s3);
                Self::lemma_progressed_trans(&*old(self), &s3, &*self);
                Self::lemma_hands_out_trans(&*old(self), &s3, &*self, Seq::empty(), o2, out@);
            }
        } else {
            proof {
                Self::lemma_progressed_trans(&*old(self), &s2, &*self);
                Self::lemma_hands_out_nothing(&s2, &*self, o2);
                Self::lemma_hands_out_trans(&*old(self), &s2, &*self, Seq::empty(), o2, o2);
            }
        }
        let ghost s4 = *self;
        let ghost o4 = out@;
        self.try_flush_batches(codec, rs_cache, now_ns, &mut out);
        proof {
            Self::lemma_progressed_trans(&*old(self), &s4, &*self);
            Self::lemma_hands_out_trans(&*old(self), &s4, &*self, Seq::empty(), o4, out@);
            assert(s1.holds_or_passed(index));
        }
        out
    }
}


impl SlotAccumulator {
    /// Whether taking a coding shred of the set at `fec_set_index` evicts a
    /// set: as many sets as the configuration allows are buffered, this one
    /// is not among them, and one starts before it.
    pub closed spec fn evicts_for(&self, fec_set_index: u32) -> bool {
        &&& self.fec_sets.entries().len() >= self.cfg.max_fec_sets_per_slot
        &&& !self.fec_sets@.contains_key(fec_set_index)
        &&& exists|m: u32| #[trigger] self.fec_sets@.contains_key(m) && m < fec_set_index
    }

    /// Whether a coding shred of the set at `fec_set_index` is dropped: as
    /// many sets as the configuration allows are buffered, this one is not
    /// among them, and none starts before it.
    pub closed spec fn drops_code_shred(&self, fec_set_index: u32) -> bool {
        &&& self.fec_sets.entries().len() >= self.cfg.max_fec_sets_per_slot
        &&& !self.fec_sets@.contains_key(fec_set_index)
        &&& !exists|m: u32| #[trigger] self.fec_sets@.contains_key(m) && m < fec_set_index
    }

    /// Makes room for the erasure set at `fec_set_index`: drops the oldest
    /// buffered set when `evicts_for` says so. Returns whether the set is
    /// buffered or may be added without passing the configured cap.
    fn make_room_for_set(&mut self, fec_set_index: u32) -> (r: bool)
        requires
            old(self).wf(),
        ensures
            r == !old(self).drops_code_shred(fec_set_index),
            r ==> final(self).fec_sets@.contains_key(fec_set_index)
                || final(self).fec_sets.entries().len() < final(self).cfg.max_fec_sets_per_slot,
            final(self).wf(),
            old(self).progressed(&*final(self)),
            old(self).evicts_for(fec_set_index) ==> {
                &&& exists|m: u32| #[trigger]
                    old(self).fec_sets@.contains_key(m) && m < fec_set_index && (forall|j: u32|
                        #[trigger] old(self).fec_sets@.contains_key(j) ==> m <= j)
                        && final(self).fec_sets@ == old(self).fec_sets@.remove(m)
                &&& final(self).fec_sets_evicted_early == sat_succ(old(self).fec_sets_evicted_early)
                &&& *final(self) == (SlotAccumulator {
                    fec_sets: final(self).fec_sets,
                    fec_sets_evicted_early: final(self).fec_sets_evicted_early,
                    ..*old(self)
                })
            },
            !old(self).evicts_for(fec_set_index) ==> *final(self) == *old(self),
    {
        if self.fec_sets.contains_key(fec_set_index) {
            return true;
        }
        if self.fec_sets.len() < self.cfg.max_fec_sets_per_slot {
            return true;
        }
        match self.fec_sets.first_key() {
            Some(oldest) => {
                if oldest < fec_set_index {
                    let _ = self.fec_sets.remove(oldest);
                    self.fec_sets_evicted_early = self.fec_sets_evicted_early.saturating_add(1);
                    return true;
                }
            },
            None => {},
        }
        false
    }

    /// Records a coding shred in the buffer of its erasure set, creating the
    /// buffer if needed.
    fn record_code_shred(
        &mut self,
        fec_set_index: u32,
        num_data: u16,
        num_coding: u16,
        position: u16,
        coded: &[u8],
        variant: VariantKind,
    )
        requires
            old(self).wf(),
            variant_shard_ok(variant),
            old(self).fec_sets@.contains_key(fec_set_index) || old(self).fec_sets.entries().len()
                < old(self).cfg.max_fec_sets_per_slot,
        ensures
            final(self).wf(),
            old(self).progressed(&*final(self)),
            *final(self) == (SlotAccumulator { fec_sets: final(self).fec_sets, ..*old(self) }),
            final(self).fec_sets@.dom() == old(self).fec_sets@.dom().insert(fec_set_index),
            forall|k: u32| #[trigger]
                old(self).fec_sets@.contains_key(k) && k != fec_set_index ==> final(self).fec_sets@[k]
                    == old(self).fec_sets@[k],
            final(self).fec_sets@[fec_set_index].code@.contains_key(position as u32),
            !old(self).fec_sets@.contains_key(fec_set_index) ==> {
                let b = final(self).fec_sets@[fec_set_index];
                &&& b.num_data == num_data
                &&& b.num_coding == num_coding
                &&& b.variant == Some(variant)
                &&& b.code@.dom() == set![position as u32]
                &&& b.code@[position as u32]@ == coded@
            },
    {
        let mut buf = match self.fec_sets.remove(fec_set_index) {
            Some(b) => b,
            None => FecSetBuffer::new(fec_set_index),
        };
        buf.record_code(position, num_data, num_coding, coded, variant);
        let _ = self.fec_sets.insert(fec_set_index, buf);
        proof {
            let m = self.fec_sets@;
            if !old(self).fec_sets@.contains_key(fec_set_index) {
                assert(m[fec_set_index].code@.dom() =~= set![position as u32]);
            }
            assert(m.dom() =~= old(self).fec_sets@.dom().insert(fec_set_index));
        }
    }

    /// Takes a coding shred of the slot and returns the transactions that
    /// became available.
    ///
    /// A slot buffers at most `max_fec_sets_per_slot` erasure sets. When it
    /// buffers that many and the shred's set is new, the oldest set is
    /// dropped if it starts before the shred's, and otherwise the shred is
    /// dropped. A shred that is kept is recorded in its set; then a set is
    /// rebuilt if one can be, the streaming decoder reads on, and complete or
    /// timed-out batches are finalized. `now_ns` is as for `push_data`.
    pub fn push_code<C: EntryCodec>(
        &mut self,
        codec: &C,
        fec_set_index: u32,
        num_data: u16,
        num_coding: u16,
        position: u16,
        coded: &[u8],
        variant: VariantKind,
        rs_cache: &mut ReedSolomonCache,
        now_ns: u64,
    ) -> (r: Vec<VersionedTransaction>)
        requires
            old(self).wf(),
            old(rs_cache).wf(),
            variant_shard_ok(variant),
        ensures
            final(self).wf(),
            final(rs_cache).wf(),
            old(self).progressed(&*final(self)),
            all_signed(r@),
            old(self).hands_out_fresh(&*final(self), Seq::empty(), r@),
            old(self).pool_shreds_kept(&*final(self)),
            final(self).spec_fec_sets_discarded_unused() == old(self).spec_fec_sets_discarded_unused(),
            final(self).spec_cfg() == old(self).spec_cfg(),
            final(self).settled(now_ns),
            old(self).evicts_for(fec_set_index) ==> final(self).spec_fec_sets_evicted_early()
                == sat_succ(old(self).spec_fec_sets_evicted_early()),
            !old(self).evicts_for(fec_set_index) ==> final(self).spec_fec_sets_evicted_early()
                == old(self).spec_fec_sets_evicted_early(),
            old(self).spec_cfg().stuck_batch_timeout_ns > 0 && old(self).none_timed_out(now_ns)
                ==> final(self).spec_batches_force_finalized_timeout() == old(
                self,
            ).spec_batches_force_finalized_timeout(),
            final(self).fec_set_count() <= final(self).spec_cfg().max_fec_sets_per_slot,
            old(self).drops_code_shred(fec_set_index) ==> !final(self).fec_set_indices().contains(
                fec_set_index,
            ),
    {
        let room = self.make_room_for_set(fec_set_index);
        let ghost s1 = *self;
        if room {
            self.record_code_shred(fec_set_index, num_data, num_coding, position, coded, variant);
        }
        let ghost s2 = *self;
        proof {
            Self::lemma_progressed_trans(&*old(self), &s1, &s2);
        }
        let mut out: Vec<VersionedTransaction> = Vec::new();
        if self.try_fec_fill(fec_set_index, rs_cache, now_ns) {
            let ghost s3 = *self;
            proof {
                Self::lemma_hands_out_nothing(&*old(self), &s3, out@);
            }
            self.advance_streaming(codec, &mut out);
            proof {
                Self::lemma_progressed_trans(&*old(self), &s2, &s3);
                Self::lemma_progressed_trans(&*old(self), &s3, &*self);
                Self::lemma_hands_out_trans(
                    &*old(self),
                    &s3,
                    &*self,
                    Seq::empty(),
                    Seq::empty(),
                    out@,
                );
            }
        } else {
            proof {
                Self::lemma_progressed_trans(&*old(self), &s2, &*self);
                Self::lemma_hands_out_nothing(&*old(self), &*self, out@);
            }
        }
        let ghost s4 = *self;
        let ghost o4 = out@;
        self.try_flush_batches(codec, rs_cache, now_ns, &mut out);
        proof {
            Self::lemma_progressed_trans(&*old(self), &s4, &*self);
            Self::lemma_hands_out_trans(&*old(self), &s4, &*self, Seq::empty(), o4, out@);
        }
        out
    }
}


impl SlotAccumulator {
    /// Whether a shred flagged batch-complete is pending at `k`.
    pub closed spec fn boundary_pending(&self, k: u32) -> bool {
        self.pending@.contains_key(k) && self.pending@[k].batch_complete
    }

    /// The indices of the pending shreds flagged batch-complete, in
    /// increasing order.
    fn pending_boundaries(&self) -> (r: Vec<u32>)
        requires
            self.wf(),
        ensures
            forall|i: int| 0 <= i < r@.len() ==> self.boundary_pending(#[trigger] r@[i]),
            forall|k: u32| #[trigger] self.boundary_pending(k) ==> r@.contains(k),
    {
        proof {
            self.pending.lemma_entries();
        }
        let mut r: Vec<u32> = Vec::new();
        let n = self.pending.len();
        let mut i: usize = 0;
        while i < n
            invariant
                self.wf(),
                n == self.pending.entries().len(),
                i <= n,
                forall|j: int|
                    0 <= j < self.pending.entries().len() ==> self.pending@.contains_key(
                        #[trigger] self.pending.entries()[j].0,
                    ) && self.pending@[self.pending.entries()[j].0] == self.pending.entries()[j].1,
                forall|j: int| 0 <= j < r@.len() ==> self.boundary_pending(#[trigger] r@[j]),
                forall|j: int|
                    0 <= j < i && (#[trigger] self.pending.entries()[j]).1.batch_complete
                        ==> r@.contains(self.pending.entries()[j].0),
            decreases n - i,
        {
            let (k, ps) = self.pending.entry_at(i);
            if ps.batch_complete {
                let ghost before = r@;
                r.push(k);
                proof {
                    assert(r@[r@.len() - 1] == k);
                    assert forall|x: u32| before.contains(x) implies r@.contains(x) by {
                        let m = choose|m: int| 0 <= m < before.len() && before[m] == x;
                        assert(r@[m] == x);
                    }
                }
            }
            i = i + 1;
        }
        proof {
            assert forall|k: u32| #[trigger] self.boundary_pending(k) implies r@.contains(k) by {
                let j = choose|j: int|
                    0 <= j < self.pending.entries().len() && (#[trigger] self.pending.entries()[j]).0
                        == k;
                assert(self.pending.entries()[j].0 == k);
            }
        }
        r
    }

    /// Harvests what can still be read from a slot that is given up: rebuilds
    /// every erasure set that can be, finalizes in order each batch whose
    /// boundary shred is pending (read whole if all its shreds are there,
    /// salvaged otherwise), then salvages the runs of shreds that remain.
    /// Counts the erasure sets left unused and the transactions harvested.
    /// `now_ns` is as for `push_data`.
    pub fn try_harvest_tail<C: EntryCodec>(
        &mut self,
        codec: &C,
        rs_cache: &mut ReedSolomonCache,
        now_ns: u64,
    ) -> (r: Vec<VersionedTransaction>)
        requires
            old(self).wf(),
            old(rs_cache).wf(),
        ensures
            final(self).wf(),
            final(rs_cache).wf(),
            old(self).progressed(&*final(self)),
            all_signed(r@),
            old(self).hands_out_fresh(&*final(self), Seq::empty(), r@),
            final(self).spec_cfg() == old(self).spec_cfg(),
            forall|k: u32| !(#[trigger] final(self).boundary_pending(k)),
            final(self).spec_fec_sets_evicted_early() == old(self).spec_fec_sets_evicted_early(),
            final(self).spec_fec_sets_discarded_unused() == old(
                self,
            ).spec_fec_sets_discarded_unused().saturating_add(final(self).fec_set_count() as u64),
            final(self).spec_salvaged_tail_tx() == old(self).spec_salvaged_tail_tx().saturating_add(
                r@.len() as u64,
            ),
    {
        let mut out: Vec<VersionedTransaction> = Vec::new();
        proof {
            Self::lemma_hands_out_nothing(&*self, &*self, out@);
        }
        let hints = self.fec_sets.keys();
        let mut j: usize = 0;
        while j < hints.len()
            invariant
                all_signed(out@),
                old(self).hands_out_fresh(&*self, Seq::empty(), out@),
                self.wf(),
                rs_cache.wf(),
                old(self).progressed(&*self),
                old(self).keeps_tail_counters(&*self),
            decreases hints@.len() - j,
        {
            let _ = self.try_fec_fill(hints[j], rs_cache, now_ns);
            j = j + 1;
        }
        let boundaries = self.pending_boundaries();
        let mut b: usize = 0;
        while b < boundaries.len()
            invariant
                all_signed(out@),
                old(self).hands_out_fresh(&*self, Seq::empty(), out@),
                self.wf(),
                rs_cache.wf(),
                old(self).progressed(&*self),
                old(self).keeps_tail_counters(&*self),
                b <= boundaries@.len(),
                forall|k: u32| #[trigger]
                    self.boundary_pending(k) ==> exists|m: int|
                        b <= m < boundaries@.len() && boundaries@[m] == k,
            decreases boundaries@.len() - b,
        {
            let bc_idx = boundaries[b];
            let start = self.batch_start;
            if bc_idx >= start {
                let ghost s0 = *self;
                let present = self.pending.count_in(start, bc_idx);
                if present as u64 == (bc_idx - start) as u64 + 1 {
                    self.join_payloads(start, bc_idx);
                    match decode_batch(codec, self.combined_scratch.as_slice()) {
                        Some(txs) => {
                            let ghost s1 = *self;
                            let ghost o1 = out@;
                            let added = self.emit_new(txs, &mut out);
                            proof {
                                Self::lemma_hands_out_trans(
                                    &*old(self),
                                    &s1,
                                    &*self,
                                    Seq::empty(),
                                    o1,
                                    out@,
                                );
                            }
                            if added > 0 {
                                self.batches_decoded_fallback =
                                    self.batches_decoded_fallback.saturating_add(1);
                            } else {
                                self.batches_decoded_streaming =
                                    self.batches_decoded_streaming.saturating_add(1);
                            }
                        },
                        None => {
                            self.decode_errors = self.decode_errors.saturating_add(1);
                            self.batches_skipped = self.batches_skipped.saturating_add(1);
                        },
                    }
                } else {
                    let ghost s2 = *self;
                    let ghost o2 = out@;
                    let (salvaged, _, _) = self.salvage_contiguous_runs_in(codec, start, bc_idx, &mut out);
                    proof {
                        Self::lemma_hands_out_trans(&*old(self), &s2, &*self, Seq::empty(), o2, out@);
                    }
                    if salvaged > 0 {
                        self.batches_decoded_fallback = self.batches_decoded_fallback.saturating_add(1);
                    } else {
                        self.batches_skipped = self.batches_skipped.saturating_add(1);
                    }
                }
                let ghost mid = *self;
                assert(old(self).progressed(&mid));
                assert(s0.pending == mid.pending);
                self.complete_batch(bc_idx);
                proof {
                    Self::lemma_progressed_trans(&*old(self), &mid, &*self);
                    Self::lemma_hands_out_nothing(&mid, &*self, out@);
                    Self::lemma_hands_out_trans(&*old(self), &mid, &*self, Seq::empty(), out@, out@);
                    assert forall|k: u32| #[trigger] self.boundary_pending(k) implies exists|m: int|
                        b + 1 <= m < boundaries@.len() && boundaries@[m] == k by {
                        assert(mid.boundary_pending(k));
                        assert(s0.boundary_pending(k));
                        let m = choose|m: int| b <= m < boundaries@.len() && boundaries@[m] == k;
                        assert(m != b);
                    }
                }
            } else {
                proof {
                    assert forall|k: u32| #[trigger] self.boundary_pending(k) implies exists|m: int|
                        b + 1 <= m < boundaries@.len() && boundaries@[m] == k by {
                        let m = choose|m: int| b <= m < boundaries@.len() && boundaries@[m] == k;
                        assert(m != b);
                    }
                }
            }
            b = b + 1;
        }
        let ghost s_end = *self;
        proof {
            assert forall|k: u32| !(#[trigger] s_end.boundary_pending(k)) by {
                if s_end.boundary_pending(k) {
                    let m = choose|m: int| b <= m < boundaries@.len() && boundaries@[m] == k;
                }
            }
        }
        let ghost o_end = out@;
        let _ = self.salvage_contiguous_runs_in(codec, 0, u32::MAX, &mut out);
        proof {
            Self::lemma_hands_out_trans(&*old(self), &s_end, &*self, Seq::empty(), o_end, out@);
            assert(self.pending == s_end.pending);
            assert forall|k: u32| !(#[trigger] self.boundary_pending(k)) by {
                assert(!s_end.boundary_pending(k));
            }
        }
        self.fec_sets_discarded_unused = self.fec_sets_discarded_unused.saturating_add(
            self.fec_sets.len() as u64,
        );
        self.salvaged_tail_tx = self.salvaged_tail_tx.saturating_add(out.len() as u64);
        proof {
            assert(self.pending == s_end.pending);
            assert forall|k: u32| !(#[trigger] self.boundary_pending(k)) by {
                assert(!s_end.boundary_pending(k));
            }
        }
        out
    }
}

impl SlotAccumulator {
    /// Takes out every pool buffer the accumulator holds, to be given back:
    /// those of the pending shreds, which are dropped, and those kept from
    /// shreds dropped before.
    pub fn release_all(&mut self) -> (r: Vec<BufferHandle>)
        requires
            old(self).wf(),
        ensures
            final(self).wf(),
            final(self).pending_indices() == Set::<u32>::empty(),
            final(self).released_count() == 0,
            forall|i: int| 0 <= i < r@.len() ==> (#[trigger] r@[i]).wf(),
            old(self).only_pending_and_released_differ(&*final(self)),
    {
        let all = self.pending.take_all();
        proof {
            self.pending.lemma_entries();
            old(self).pending.lemma_entries();
            assert forall|i: int| 0 <= i < all@.len() implies (#[trigger] all@[i]).1.wf() by {
                assert(old(self).pending@.contains_key(all@[i].0));
            }
        }
        self.release_dropped(all);
        let r = self.take_released();
        proof {
            assert(self.pending@.dom() =~= Set::<u32>::empty());
        }
        r
    }
}

impl SlotAccumulator {
    /// When each known batch boundary was first seen, in nanoseconds.
    pub closed spec fn boundary_first_seen(&self) -> Map<u32, u64> {
        self.batch_complete_indices@
    }

    /// How many data shreds with an index in `[lo, hi]` wait.
    pub closed spec fn pending_count_in(&self, lo: u32, hi: u32) -> nat {
        self.pending.spec_count_in(lo, hi)
    }

    /// What a fresh accumulator holds, as its public views show it: the
    /// configuration `cfg`, no pending shred, batch boundary or erasure set,
    /// nothing to give back, the slot not complete, and every counter at zero.
    pub proof fn lemma_fresh(a: &Self, cfg: AccumulatorConfig)
        requires
            a.wf(),
            a.is_fresh(cfg),
        ensures
            a.spec_cfg() == cfg,
            a.pending_indices() == Set::<u32>::empty(),
            a.batch_boundaries() == Set::<u32>::empty(),
            a.boundary_first_seen() == Map::<u32, u64>::empty(),
            a.fec_set_indices() == Set::<u32>::empty(),
            a.fec_set_count() == 0,
            a.released_count() == 0,
            a.spec_batch_start() == 0,
            a.spec_streaming_cursor() == 0,
            !a.spec_slot_complete(),
            a.spec_decode_errors() == 0,
            a.spec_recoveries_done() == 0,
            a.spec_recovery_failures() == 0,
            a.spec_batches_decoded_streaming() == 0,
            a.spec_batches_decoded_fallback() == 0,
            a.spec_batches_skipped() == 0,
            a.spec_fec_sets_discarded_unused() == 0,
            a.spec_fec_sets_evicted_early() == 0,
            a.spec_salvaged_tail_tx() == 0,
            a.spec_batches_force_finalized_corrupted() == 0,
            a.spec_batches_force_finalized_timeout() == 0,
    {
        a.fec_sets.lemma_empty_iff_no_entries();
    }

    /// A shred that is only dropped leaves everything as it was but adds its
    /// pool buffer to those to be given back.
    pub proof fn lemma_one_released(a: &Self, b: &Self)
        requires
            a.same_but_one_released(b),
        ensures
            b.released_count() == a.released_count() + 1,
            b.spec_cfg() == a.spec_cfg(),
            b.pending_indices() == a.pending_indices(),
            b.batch_boundaries() == a.batch_boundaries(),
            b.boundary_first_seen() == a.boundary_first_seen(),
            b.fec_set_indices() == a.fec_set_indices(),
            b.fec_set_count() == a.fec_set_count(),
            b.spec_batch_start() == a.spec_batch_start(),
            b.spec_streaming_cursor() == a.spec_streaming_cursor(),
            b.spec_slot_complete() == a.spec_slot_complete(),
            b.spec_decode_errors() == a.spec_decode_errors(),
            b.spec_recoveries_done() == a.spec_recoveries_done(),
            b.spec_recovery_failures() == a.spec_recovery_failures(),
            b.spec_batches_decoded_streaming() == a.spec_batches_decoded_streaming(),
            b.spec_batches_decoded_fallback() == a.spec_batches_decoded_fallback(),
            b.spec_batches_skipped() == a.spec_batches_skipped(),
            b.spec_fec_sets_discarded_unused() == a.spec_fec_sets_discarded_unused(),
            b.spec_fec_sets_evicted_early() == a.spec_fec_sets_evicted_early(),
            b.spec_salvaged_tail_tx() == a.spec_salvaged_tail_tx(),
            b.spec_batches_force_finalized_corrupted() == a.spec_batches_force_finalized_corrupted(),
            b.spec_batches_force_finalized_timeout() == a.spec_batches_force_finalized_timeout(),
    {
    }

    /// What `settled` and `none_timed_out` say, over the public views: after
    /// finalizing, no boundary is known, or one ends a batch that still
    /// misses shreds and was first seen less than the timeout ago.
    pub proof fn lemma_settled(a: &Self, now_ns: u64)
        ensures
            a.settled(now_ns) == (a.batch_boundaries().is_empty() || exists|b: u32| #[trigger]
                a.boundary_first_seen().contains_key(b) && a.pending_count_in(
                    a.spec_batch_start(),
                    b,
                ) < b - a.spec_batch_start() + 1 && now_ns.saturating_sub(a.boundary_first_seen()[b])
                    < a.spec_cfg().stuck_batch_timeout_ns),
            a.none_timed_out(now_ns) == forall|b: u32| #[trigger]
                a.boundary_first_seen().contains_key(b) ==> now_ns.saturating_sub(
                    a.boundary_first_seen()[b],
                ) < a.spec_cfg().stuck_batch_timeout_ns,
            a.batch_boundaries() == a.boundary_first_seen().dom(),
    {
        if a.settled(now_ns) && !a.batch_boundaries().is_empty() {
            let b = choose|b: u32| #[trigger] a.batch_waits(b, now_ns);
            assert(a.boundary_first_seen().contains_key(b));
        }
        if !a.batch_boundaries().is_empty() && exists|b: u32| #[trigger]
            a.boundary_first_seen().contains_key(b) && a.pending_count_in(a.spec_batch_start(), b)
                < b - a.spec_batch_start() + 1 && now_ns.saturating_sub(a.boundary_first_seen()[b])
                < a.spec_cfg().stuck_batch_timeout_ns {
            let b = choose|b: u32| #[trigger]
                a.boundary_first_seen().contains_key(b) && a.pending_count_in(a.spec_batch_start(), b)
                    < b - a.spec_batch_start() + 1 && now_ns.saturating_sub(a.boundary_first_seen()[b])
                    < a.spec_cfg().stuck_batch_timeout_ns;
            assert(a.batch_waits(b, now_ns));
        }
        let m = a.boundary_first_seen();
        let t = a.spec_cfg().stuck_batch_timeout_ns;
        if forall|b: u32| #[trigger] m.contains_key(b) ==> now_ns.saturating_sub(m[b]) < t {
            assert forall|k: u32| #[trigger] a.batch_complete_indices@.contains_key(k) implies now_ns.saturating_sub(
                a.batch_complete_indices@[k],
            ) < a.cfg.stuck_batch_timeout_ns by {
                assert(m.contains_key(k));
            }
        }
        if a.none_timed_out(now_ns) {
            assert forall|b: u32| #[trigger] m.contains_key(b) implies now_ns.saturating_sub(m[b]) < t by {
                assert(a.batch_complete_indices@.contains_key(b));
            }
        }
    }
}

impl SlotAccumulator {
    /// What `holds_or_passed` says: the shred at `k` is pending, or the
    /// streaming cursor has passed it or reached the last index.
    pub proof fn lemma_holds_or_passed(a: &Self, k: u32)
        ensures
            a.holds_or_passed(k) == (a.pending_indices().contains(k) || k
                < a.spec_streaming_cursor() || a.spec_streaming_cursor() == u32::MAX),
    {
    }

    /// What `evicts_for` and `drops_code_shred` say: when as many erasure
    /// sets as configured are buffered and the set at `f` is not one of them,
    /// the oldest set is evicted if one starts before `f`, and the coding
    /// shred is dropped otherwise.
    pub proof fn lemma_cap_choice(a: &Self, f: u32)
        ensures
            a.evicts_for(f) == (a.fec_set_count() >= a.spec_cfg().max_fec_sets_per_slot
                && !a.fec_set_indices().contains(f) && exists|m: u32| #[trigger]
                a.fec_set_indices().contains(m) && m < f),
            a.drops_code_shred(f) == (a.fec_set_count() >= a.spec_cfg().max_fec_sets_per_slot
                && !a.fec_set_indices().contains(f) && !exists|m: u32| #[trigger]
                a.fec_set_indices().contains(m) && m < f),
    {
        if exists|m: u32| #[trigger] a.fec_set_indices().contains(m) && m < f {
            let m = choose|m: u32| #[trigger] a.fec_set_indices().contains(m) && m < f;
            assert(a.fec_sets@.contains_key(m));
        }
        if exists|m: u32| #[trigger] a.fec_sets@.contains_key(m) && m < f {
            let m = choose|m: u32| #[trigger] a.fec_sets@.contains_key(m) && m < f;
            assert(a.fec_set_indices().contains(m));
        }
    }

    /// What `boundary_pending` says: a shred flagged batch-complete is
    /// pending at `k`; such a shred is one of the pending ones.
    pub proof fn lemma_boundary_pending(a: &Self, k: u32)
        ensures
            a.boundary_pending(k) ==> a.pending_indices().contains(k),
    {
    }

    /// What `only_released_differs` and `only_pending_and_released_differ`
    /// keep: everything but the pool buffers to give back (and the pending
    /// shreds) stays as it was.
    pub proof fn lemma_only_released_differs(a: &Self, b: &Self)
        requires
            a.only_released_differs(b) || a.only_pending_and_released_differ(b),
        ensures
            b.spec_cfg() == a.spec_cfg(),
            a.only_released_differs(b) ==> b.pending_indices() == a.pending_indices(),
            b.batch_boundaries() == a.batch_boundaries(),
            b.boundary_first_seen() == a.boundary_first_seen(),
            b.fec_set_indices() == a.fec_set_indices(),
            b.fec_set_count() == a.fec_set_count(),
            b.spec_batch_start() == a.spec_batch_start(),
            b.spec_streaming_cursor() == a.spec_streaming_cursor(),
            b.spec_slot_complete() == a.spec_slot_complete(),
            b.spec_decode_errors() == a.spec_decode_errors(),
            b.spec_recoveries_done() == a.spec_recoveries_done(),
            b.spec_recovery_failures() == a.spec_recovery_failures(),
            b.spec_batches_decoded_streaming() == a.spec_batches_decoded_streaming(),
            b.spec_batches_decoded_fallback() == a.spec_batches_decoded_fallback(),
            b.spec_batches_skipped() == a.spec_batches_skipped(),
            b.spec_fec_sets_discarded_unused() == a.spec_fec_sets_discarded_unused(),
            b.spec_fec_sets_evicted_early() == a.spec_fec_sets_evicted_early(),
            b.spec_salvaged_tail_tx() == a.spec_salvaged_tail_tx(),
            b.spec_batches_force_finalized_corrupted() == a.spec_batches_force_finalized_corrupted(),
            b.spec_batches_force_finalized_timeout() == a.spec_batches_force_finalized_timeout(),
    {
    }
}

impl SlotAccumulator {
    /// No transaction is handed out twice in a batch. When `hands_out_fresh`
    /// holds from `a` to `b` and no batch was finalized on the way, the
    /// transactions appended to `o0` each have a first signature that had not
    /// been handed out in the batch, no two the same, and all are recorded as
    /// handed out afterwards; those recorded before stay recorded.
    pub proof fn lemma_hands_out_fresh(
        a: &Self,
        b: &Self,
        o0: Seq<VersionedTransaction>,
        o1: Seq<VersionedTransaction>,
    )
        requires
            a.hands_out_fresh(b, o0, o1),
        ensures
            o0.len() <= o1.len(),
            o1.subrange(0, o0.len() as int) == o0,
            b.spec_batch_start() == a.spec_batch_start() && a.spec_batch_start() < u32::MAX ==> {
                &&& a.batch_signatures().subset_of(b.batch_signatures())
                &&& fresh_sigs(
                    o1.subrange(o0.len() as int, o1.len() as int),
                    a.batch_signatures(),
                    b.batch_signatures(),
                )
                &&& o0.len() == 0 ==> fresh_sigs(o1, a.batch_signatures(), b.batch_signatures())
            },
    {
        assert(o1.subrange(0, o1.len() as int) =~= o1);
    }
}

impl SlotAccumulator {
    /// Taking out the pool buffers to give back keeps `hands_out_fresh`.
    pub proof fn lemma_hands_out_released(
        a: &Self,
        b: &Self,
        c: &Self,
        o: Seq<VersionedTransaction>,
    )
        requires
            a.hands_out_fresh(b, Seq::empty(), o),
            b.only_released_differs(c),
        ensures
            a.hands_out_fresh(c, Seq::empty(), o),
    {
    }
}

impl SlotAccumulator {
    /// The pending indices are the keys of the pending shreds; a rebuilt
    /// shred that waits reads back, as its payload and batch-complete flag,
    /// exactly what the parser reads from its rebuilt bytes.
    pub proof fn lemma_pending_shreds(a: &Self)
        requires
            a.wf(),
        ensures
            a.pending_shreds().dom() == a.pending_indices(),
            forall|k: u32| #[trigger]
                a.pending_shreds().contains_key(k) && a.pending_shreds()[k].source is Recovered
                    ==> a.pending_shreds()[k].reads_as_parsed(),
    {
    }

    /// What `pool_shreds_kept` says: each pending shred of `b` held in a pool
    /// buffer was pending in `a`, unchanged.
    pub proof fn lemma_pool_shreds_kept(a: &Self, b: &Self, k: u32)
        requires
            a.pool_shreds_kept(b),
            b.pending_shreds().contains_key(k),
            b.pending_shreds()[k].source is Pool,
        ensures
            a.pending_shreds().contains_key(k),
            b.pending_shreds()[k] == a.pending_shreds()[k],
    {
    }

    /// What `keeps_or_takes` says: the pending shred at `k` of `b`, if held
    /// in a pool buffer, was pending in `a` unchanged, or is `taken` at
    /// `index`.
    pub proof fn lemma_keeps_or_takes(a: &Self, b: &Self, k: u32, index: u32, taken: PendingShred)
        requires
            a.keeps_or_takes(b, k, index, taken),
            b.pending_shreds()[k].source is Pool,
        ensures
            (a.pending_shreds().contains_key(k) && b.pending_shreds()[k] == a.pending_shreds()[k])
                || (k == index && b.pending_shreds()[k] == taken),
    {
    }

    /// A shred that `push_data` takes is recorded as given: when its index
    /// was not pending before and a shred held in a pool buffer waits there
    /// afterwards, it is the shred given, with its buffer, payload end,
    /// batch-complete flag and erasure set.
    pub proof fn lemma_push_records_shred(a: &Self, b: &Self, index: u32, taken: PendingShred)
        requires
            forall|k: u32| #[trigger]
                b.pending_shreds().contains_key(k) ==> a.keeps_or_takes(b, k, index, taken),
            !a.pending_indices().contains(index),
            b.pending_shreds().contains_key(index),
            b.pending_shreds()[index].source is Pool,
        ensures
            b.pending_shreds()[index] == taken,
    {
        assert(a.keeps_or_takes(b, index, index, taken));
    }

    /// Taking out the buffers to give back leaves the pending shreds.
    pub proof fn lemma_released_keeps_pending(a: &Self, b: &Self)
        requires
            a.only_released_differs(b),
        ensures
            b.pending_shreds() == a.pending_shreds(),
            a.pool_shreds_kept(b),
    {
    }
}

impl Default for SlotAccumulator {
    fn default() -> (a: Self)
        ensures
            a.wf(),
            a.is_fresh(
                AccumulatorConfig {
                    max_fec_sets_per_slot: DEFAULT_MAX_FEC_SETS_PER_SLOT,
                    stuck_batch_timeout_ns: DEFAULT_STUCK_BATCH_TIMEOUT_NS,
                },
            ),
    {
        Self::new()
    }
}

} // verus!
