use vstd::prelude::*;

use crate::accumulator::{AccumulatorConfig, PayloadSource, PendingShred, SlotAccumulator};
use crate::decoder::EntryCodec;
use crate::fec::{variant_shard_ok, ReedSolomonCache};
use crate::parser::{self, lemma_data_payload_in_packet, spec_parse_kind, spec_parse_shred, ParseError, ShredKind, ShredKindView};
use crate::pool::{BufferHandle, ShredPool, BUF_SIZE};
use crate::sigset::all_signed;
use crate::variant::{lemma_classified_variant_is_data_xor_code, spec_classify_variant};
use rustc_hash::FxBuildHasher;
use solana_transaction::versioned::VersionedTransaction;
use std::collections::{HashMap, HashSet, VecDeque};
use std::time::{Duration, Instant};

verus! {

pub const DEFAULT_RECV_BUF: usize = 67_108_864;

pub const DEFAULT_MAX_AGE: u64 = 3;

pub const DEFAULT_POOL_SIZE: usize = 4096;

pub const DEFAULT_BUSY_POLL_US: u32 = 200;

/// Slots above this are not real slots.
pub const MAX_PLAUSIBLE_SLOT: u64 = 1_099_511_627_776;

/// How far past the newest slot seen a shred's slot may lie.
pub const MAX_SLOT_JUMP_FORWARD: u64 = 1_000_000;

/// The highest slot a first shred may have.
pub const MAX_BOOTSTRAP_SLOT: u64 = 10_000_000_000;

/// How many slots beyond the age limit a retired slot stays blacklisted.
pub const BLACKLIST_EXTRA_SLOTS: u64 = 50;

/// How many slots a completed slot is kept after a newer one shows up.
pub const COMPLETED_RETENTION_SLOTS: u64 = 1;

pub const SLOTS_CAPACITY: usize = 32;

pub const RECENTLY_SEEN_CAPACITY: usize = 128;

pub const PENDING_BATCHES_CAPACITY: usize = 32;

/// How a listener is set up.
#[derive(Clone, Copy, Debug)]
pub struct ListenerOptions {
    /// Receive buffer size asked of the socket.
    pub recv_buf: usize,
    /// How many slots behind the newest one a slot is kept.
    pub max_age: u64,
    /// Busy-poll time asked of the socket, in microseconds.
    pub busy_poll_us: Option<u32>,
    /// Number of packet buffers.
    pub pool_size: usize,
    /// Whether coding shreds are used to rebuild missing data shreds.
    pub enable_fec: bool,
    /// Whether transactions salvaged from given-up slots are dropped.
    pub disable_salvage_delivery: bool,
    pub accumulator: AccumulatorConfig,
}

impl Default for ListenerOptions {
    fn default() -> (r: Self)
        ensures
            r.recv_buf == DEFAULT_RECV_BUF,
            r.max_age == DEFAULT_MAX_AGE,
            r.busy_poll_us == Some(DEFAULT_BUSY_POLL_US),
            r.pool_size == DEFAULT_POOL_SIZE,
            r.enable_fec,
            !r.disable_salvage_delivery,
            r.accumulator.max_fec_sets_per_slot == crate::accumulator::DEFAULT_MAX_FEC_SETS_PER_SLOT,
            r.accumulator.stuck_batch_timeout_ns
                == crate::accumulator::DEFAULT_STUCK_BATCH_TIMEOUT_NS,
    {
        ListenerOptions {
            recv_buf: DEFAULT_RECV_BUF,
            max_age: DEFAULT_MAX_AGE,
            busy_poll_us: Some(DEFAULT_BUSY_POLL_US),
            pool_size: DEFAULT_POOL_SIZE,
            enable_fec: true,
            disable_salvage_delivery: false,
            accumulator: AccumulatorConfig::default(),
        }
    }
}

// ---------------------------------------------------------------------------
// The clock
// ---------------------------------------------------------------------------
#[verifier::external_type_specification]
#[verifier::external_body]
pub struct ExInstant(Instant);

/// Calls std's `Instant::now`. Nothing is stated of the instant it returns.
#[verifier::external_body]
fn instant_now() -> Instant {
    Instant::now()
}

/// Calls std's `Instant::elapsed`. Nothing is stated of the time it returns.
#[verifier::external_body]
fn instant_elapsed(origin: &Instant) -> Duration {
    origin.elapsed()
}

/// Calls std's `Duration::as_nanos`. Nothing is stated: Verus sees nothing
/// inside a `Duration`.
#[verifier::external_body]
fn duration_as_nanos(d: &Duration) -> u128 {
    d.as_nanos()
}

// ---------------------------------------------------------------------------
// The slot tables (rustc_hash's FxHashMap and FxHashSet)
// ---------------------------------------------------------------------------
/// Calls `HashMap::with_capacity_and_hasher` with rustc_hash's hasher: the
/// new map is empty.
#[verifier::external_body]
fn slot_map_new(capacity: usize) -> (r: HashMap<u64, SlotAccumulator, FxBuildHasher>)
    ensures
        r@.dom() == Set::<u64>::empty(),
{
    HashMap::with_capacity_and_hasher(capacity, FxBuildHasher)
}

/// Calls `HashMap::len` on a map with rustc_hash's hasher: the number of
/// keys.
#[verifier::external_body]
fn slot_map_len(m: &HashMap<u64, SlotAccumulator, FxBuildHasher>) -> (r: usize)
    ensures
        r == m@.len(),
{
    m.len()
}

/// Calls `HashMap::get` on a map with rustc_hash's hasher: the value of `k`,
/// if it has one.
#[verifier::external_body]
fn slot_map_get(m: &HashMap<u64, SlotAccumulator, FxBuildHasher>, k: u64) -> (r: Option<
    &SlotAccumulator,
>)
    ensures
        match r {
            Some(v) => m@.contains_key(k) && m@[k] == *v,
            None => !m@.contains_key(k),
        },
{
    m.get(&k)
}

/// Calls `HashMap::remove` on a map with rustc_hash's hasher: `k` is gone
/// afterwards, and its value comes back if it had one.
#[verifier::external_body]
fn slot_map_remove(m: &mut HashMap<u64, SlotAccumulator, FxBuildHasher>, k: u64) -> (r: Option<
    SlotAccumulator,
>)
    ensures
        final(m)@ == old(m)@.remove(k),
        match r {
            Some(v) => old(m)@.contains_key(k) && old(m)@[k] == v,
            None => !old(m)@.contains_key(k),
        },
{
    m.remove(&k)
}

/// Calls `HashMap::insert` on a map with rustc_hash's hasher: `k` maps to
/// `v` afterwards, and the value it replaces comes back.
#[verifier::external_body]
fn slot_map_insert(
    m: &mut HashMap<u64, SlotAccumulator, FxBuildHasher>,
    k: u64,
    v: SlotAccumulator,
) -> (r: Option<SlotAccumulator>)
    ensures
        final(m)@ == old(m)@.insert(k, v),
        match r {
            Some(w) => old(m)@.contains_key(k) && old(m)@[k] == w,
            None => !old(m)@.contains_key(k),
        },
{
    m.insert(k, v)
}

/// Calls `HashMap::keys` on a map with rustc_hash's hasher and collects the
/// keys: each key once, in an order that is not stated.
#[verifier::external_body]
fn slot_map_keys(m: &HashMap<u64, SlotAccumulator, FxBuildHasher>) -> (r: Vec<u64>)
    ensures
        r@.no_duplicates(),
        forall|k: u64| #[trigger] r@.contains(k) <==> m@.contains_key(k),
{
    m.keys().copied().collect()
}

/// Calls `HashSet::with_capacity_and_hasher` with rustc_hash's hasher: the
/// new set is empty.
#[verifier::external_body]
fn slot_set_new(capacity: usize) -> (s: HashSet<u64, FxBuildHasher>)
    ensures
        s@ == Set::<u64>::empty(),
{
    HashSet::with_capacity_and_hasher(capacity, FxBuildHasher)
}

/// Calls `HashSet::contains` on a set with rustc_hash's hasher.
#[verifier::external_body]
fn slot_set_contains(s: &HashSet<u64, FxBuildHasher>, k: u64) -> (r: bool)
    ensures
        r == s@.contains(k),
{
    s.contains(&k)
}

/// Calls `HashSet::insert` on a set with rustc_hash's hasher: `k` is in the
/// set afterwards.
#[verifier::external_body]
fn slot_set_insert(s: &mut HashSet<u64, FxBuildHasher>, k: u64) -> (r: bool)
    ensures
        final(s)@ == old(s)@.insert(k),
        r == !old(s)@.contains(k),
{
    s.insert(k)
}

/// Calls `HashSet::is_empty` on a set with rustc_hash's hasher.
#[verifier::external_body]
fn slot_set_is_empty(s: &HashSet<u64, FxBuildHasher>) -> (r: bool)
    ensures
        r == (s@ == Set::<u64>::empty()),
{
    s.is_empty()
}

/// Whether `slot` is at or above `floor`.
fn slot_at_or_above(slot: u64, floor: u64) -> (r: bool)
    ensures
        r == (slot >= floor),
{
    slot >= floor
}

/// Calls `HashSet::retain` on a set with rustc_hash's hasher, keeping the
/// slots at or above `floor` (the closure calls `slot_at_or_above`).
#[verifier::external_body]
fn slot_set_retain_at_or_above(s: &mut HashSet<u64, FxBuildHasher>, floor: u64)
    ensures
        final(s)@ == old(s)@.filter(|x: u64| x >= floor),
{
    s.retain(|x| slot_at_or_above(*x, floor))
}

// ---------------------------------------------------------------------------
// Slot rules
// ---------------------------------------------------------------------------
/// Whether a shred of `slot` may be taken when the newest slot seen is
/// `last_slot` (0 before any): it is not above the plausible maximum, not
/// above the bootstrap maximum for the first shred, and not too far ahead of
/// the newest slot.
pub open spec fn slot_plausible(slot: u64, last_slot: u64) -> bool {
    &&& slot <= MAX_PLAUSIBLE_SLOT
    &&& last_slot == 0 ==> slot <= MAX_BOOTSTRAP_SLOT
    &&& last_slot > 0 ==> slot <= last_slot.saturating_add(MAX_SLOT_JUMP_FORWARD)
}

pub fn is_slot_plausible(slot: u64, last_slot: u64) -> (r: bool)
    ensures
        r == slot_plausible(slot, last_slot),
{
    !(slot > MAX_PLAUSIBLE_SLOT || (last_slot == 0 && slot > MAX_BOOTSTRAP_SLOT) || (last_slot > 0
        && slot > last_slot.saturating_add(MAX_SLOT_JUMP_FORWARD)))
}

/// How many slots behind the newest one a slot is kept: less once the slot
/// is complete.
pub open spec fn retention(slot_complete: bool, max_age: u64) -> u64 {
    if slot_complete {
        COMPLETED_RETENTION_SLOTS
    } else {
        max_age
    }
}

/// Whether a slot kept `threshold` slots is too old once `last_slot` is the
/// newest.
pub open spec fn slot_expired(slot: u64, threshold: u64, last_slot: u64) -> bool {
    last_slot > slot.saturating_add(threshold)
}

/// The lowest slot kept blacklisted once `last_slot` is the newest.
pub open spec fn blacklist_floor(last_slot: u64, max_age: u64) -> u64 {
    last_slot.saturating_sub((max_age + BLACKLIST_EXTRA_SLOTS) as u64)
}

/// The packet a buffer holds: the first `BUF_SIZE` bytes.
pub open spec fn packet_bytes(raw: Seq<u8>) -> Seq<u8> {
    if raw.len() < BUF_SIZE {
        raw
    } else {
        raw.subrange(0, BUF_SIZE as int)
    }
}

pub open spec fn wrap_inc(x: u64) -> u64 {
    if x == u64::MAX {
        0
    } else {
        (x + 1) as u64
    }
}

/// A counter that moved by `d` modulo 2^64 and then by at most one more
/// moved by `d` plus that step.
proof fn lemma_wrapping_count_step(h0: u64, h1: u64, h2: u64, d: int)
    requires
        d >= 0,
        h1 as int == (h0 + d) % 0x1_0000_0000_0000_0000,
        h2 == h1 || h2 == wrap_inc(h1),
    ensures
        h2 == h1 ==> h2 as int == (h0 + d) % 0x1_0000_0000_0000_0000,
        h2 != h1 ==> h2 as int == (h0 + d + 1) % 0x1_0000_0000_0000_0000,
{
    if h2 != h1 {
        vstd::arithmetic::div_mod::lemma_add_mod_noop(h0 + d, 1, 0x1_0000_0000_0000_0000);
        vstd::arithmetic::div_mod::lemma_small_mod(1, 0x1_0000_0000_0000_0000);
        if h1 < u64::MAX {
            vstd::arithmetic::div_mod::lemma_small_mod(
                (h1 + 1) as nat,
                0x1_0000_0000_0000_0000nat,
            );
        } else {
            vstd::arithmetic::div_mod::lemma_mod_self_0(0x1_0000_0000_0000_0000);
        }
    }
}

/// A coding shred's variant, read from its variant byte, has a shard size.
proof fn lemma_parsed_code_variant_has_shard_size(raw: Seq<u8>)
    ensures
        spec_parse_kind(raw) matches Ok(ShredKindView::Code(c)) ==> variant_shard_ok(c.variant),
{
    if raw.len() >= parser::DATA_HEADER_SIZE {
        let b = raw[parser::VARIANT_OFFSET as int];
        if spec_classify_variant(b) is Some {
            lemma_classified_variant_is_data_xor_code(b);
        }
    }
}

/// A shred read by the raw-shred iterator: where it sits and how long its
/// payload is.
pub struct RawShred {
    pub slot: u64,
    pub index: u32,
    pub payload_len: usize,
}

/// The raw shred a packet holds, if it holds a data shred.
pub fn raw_shred_of(raw: &[u8]) -> (r: Option<RawShred>)
    ensures
        match spec_parse_shred(raw@) {
            Some(p) => r matches Some(s) && s.slot == p.slot && s.index == p.index && s.payload_len
                == p.payload.len(),
            None => r is None,
        },
{
    match parser::parse_shred(raw) {
        Some(shred) => Some(
            RawShred { slot: shred.slot, index: shred.index, payload_len: shred.payload.len() },
        ),
        None => None,
    }
}


/// What a listener does with a packet.
#[derive(PartialEq, Eq, Structural)]
pub enum PacketOutcome {
    /// Too short to be a shred.
    TooShort,
    /// Its variant byte names no known variant.
    UnknownVariant,
    /// Its header or payload is off.
    PayloadInvalid,
    /// Its slot is not plausible.
    SlotOutOfRange,
    /// Its slot was given up recently.
    KnownSlot,
    /// A data shred taken for its slot.
    Data,
    /// A coding shred of a slot that may be taken.
    Code,
}

/// The slot of a parsed shred.
pub open spec fn kind_slot(k: ShredKindView) -> u64 {
    match k {
        ShredKindView::Data(d) => d.slot,
        ShredKindView::Code(c) => c.slot,
    }
}

/// What becomes of packet `pkt` when the newest slot is `last_slot` and
/// `blacklisted` holds the slots given up recently.
pub open spec fn packet_outcome(pkt: Seq<u8>, last_slot: u64, blacklisted: Set<u64>) -> PacketOutcome {
    match spec_parse_kind(pkt) {
        Err(ParseError::TooShort) => PacketOutcome::TooShort,
        Err(ParseError::UnknownVariant) => PacketOutcome::UnknownVariant,
        Err(ParseError::PayloadInvalid) => PacketOutcome::PayloadInvalid,
        Ok(k) => if !slot_plausible(kind_slot(k), last_slot) {
            PacketOutcome::SlotOutOfRange
        } else if blacklisted.contains(kind_slot(k)) {
            PacketOutcome::KnownSlot
        } else if k is Data {
            PacketOutcome::Data
        } else {
            PacketOutcome::Code
        },
    }
}

/// Whether the pending shred `ps`, waiting at index `k` of slot `slot`, is
/// what its packet holds: a shred kept in a pool buffer parses as a data
/// shred of that slot and index, in the erasure set the shred records, whose
/// payload and batch-complete flag are the shred's.
pub open spec fn shred_matches_packet(ps: PendingShred, slot: u64, k: u32) -> bool {
    match ps.source {
        PayloadSource::Pool(h) => {
            &&& spec_parse_kind(h.contents()) matches Ok(ShredKindView::Data(d)) && d.slot == slot
                && d.index == k && d.fec_set_index == ps.fec_set_index
            &&& ps.reads_as_parsed()
        },
        PayloadSource::Recovered(_) => true,
    }
}

pub open spec fn bump_if(x: u64, cond: bool) -> u64 {
    if cond {
        wrap_inc(x)
    } else {
        x
    }
}

/// The state of a shred listener: the accumulators of the live slots, the
/// slots recently given up, the batches salvaged from given-up slots and
/// waiting to be handed out, the packet buffers, and the counters.
///
/// Packets come in through `handle_packet`; the socket that reads them is
/// the caller's.
pub struct ShredListener<C> {
    codec: C,
    clock_origin: Instant,
    slots: HashMap<u64, SlotAccumulator, FxBuildHasher>,
    recently_seen_slots: HashSet<u64, FxBuildHasher>,
    pending_batches: VecDeque<(u64, Vec<VersionedTransaction>)>,
    max_age: u64,
    last_slot: u64,
    pool: ShredPool,
    pool_exhausted: u64,
    rs_cache: ReedSolomonCache,
    enable_fec: bool,
    disable_salvage_delivery: bool,
    accumulator_cfg: AccumulatorConfig,
    data_shred_count: u64,
    code_shred_count: u64,
    bytes_received: u64,
    unparseable_too_short: u64,
    unparseable_variant: u64,
    unparseable_payload: u64,
    unparseable_slot_range: u64,
    dropped_known_slots: u64,
    decode_errors_total: u64,
    fec_recoveries_total: u64,
    fec_recovery_failures_total: u64,
    batches_skipped_total: u64,
    batches_decoded_streaming_total: u64,
    batches_decoded_fallback_total: u64,
    slots_completed_total: u64,
    slots_evicted_by_age: u64,
    harvested_batches_total: u64,
    salvaged_tail_tx_total: u64,
    fec_sets_discarded_unused_total: u64,
    fec_sets_evicted_early_total: u64,
    batches_force_finalized_corrupted_total: u64,
    batches_force_finalized_timeout_total: u64,
}

impl<C: EntryCodec> ShredListener<C> {
    /// The listener's invariant: every live slot has a well-formed
    /// accumulator with the configured settings, is not newer than the
    /// newest slot seen, and is not blacklisted; the newest slot is
    /// plausible; queued batches are not empty.
    pub closed spec fn wf(&self) -> bool {
        &&& self.pool.wf()
        &&& self.rs_cache.wf()
        &&& forall|s: u64| #[trigger]
            self.slots@.contains_key(s) ==> {
                &&& self.slots@[s].wf()
                &&& self.slots@[s].spec_cfg() == self.accumulator_cfg
                &&& s <= self.last_slot
                &&& !self.recently_seen_slots@.contains(s)
            }
        &&& forall|s: u64, k: u32|
            #![trigger self.slots@[s].pending_shreds().contains_key(k)]
            self.slots@.contains_key(s) && self.slots@[s].pending_shreds().contains_key(k)
                ==> shred_matches_packet(self.slots@[s].pending_shreds()[k], s, k)
        &&& self.max_age <= u64::MAX - BLACKLIST_EXTRA_SLOTS
        &&& self.last_slot <= MAX_PLAUSIBLE_SLOT
        &&& forall|i: int|
            0 <= i < self.pending_batches@.len() ==> (#[trigger] self.pending_batches@[i]).1@.len()
                > 0 && all_signed(self.pending_batches@[i].1@)
    }

    /// The newest slot a shred was taken for (0 before any).
    pub closed spec fn spec_last_slot(&self) -> u64 {
        self.last_slot
    }

    /// The slots being assembled.
    pub closed spec fn live_slots(&self) -> Set<u64> {
        self.slots@.dom()
    }

    /// The accumulator of each live slot.
    pub closed spec fn accumulators(&self) -> Map<u64, SlotAccumulator> {
        self.slots@
    }

    /// The slots given up recently, whose shreds are dropped.
    pub closed spec fn blacklisted(&self) -> Set<u64> {
        self.recently_seen_slots@
    }

    /// The batches harvested from given-up slots, waiting to be handed out.
    pub closed spec fn queued_batches(&self) -> Seq<(u64, Vec<VersionedTransaction>)> {
        self.pending_batches@
    }

    pub closed spec fn spec_max_age(&self) -> u64 {
        self.max_age
    }

    pub closed spec fn spec_enable_fec(&self) -> bool {
        self.enable_fec
    }

    pub closed spec fn spec_disable_salvage_delivery(&self) -> bool {
        self.disable_salvage_delivery
    }

    pub closed spec fn spec_accumulator_cfg(&self) -> AccumulatorConfig {
        self.accumulator_cfg
    }

    /// Number of free packet buffers.
    pub closed spec fn spec_buffers_available(&self) -> nat {
        self.pool.spec_available()
    }

    pub closed spec fn spec_pool_exhausted(&self) -> u64 {
        self.pool_exhausted
    }

    pub closed spec fn spec_data_shred_count(&self) -> u64 {
        self.data_shred_count
    }

    pub closed spec fn spec_code_shred_count(&self) -> u64 {
        self.code_shred_count
    }

    pub closed spec fn spec_bytes_received(&self) -> u64 {
        self.bytes_received
    }

    pub closed spec fn spec_unparseable_too_short(&self) -> u64 {
        self.unparseable_too_short
    }

    pub closed spec fn spec_unparseable_variant(&self) -> u64 {
        self.unparseable_variant
    }

    pub closed spec fn spec_unparseable_payload(&self) -> u64 {
        self.unparseable_payload
    }

    pub closed spec fn spec_unparseable_slot_range(&self) -> u64 {
        self.unparseable_slot_range
    }

    pub closed spec fn spec_dropped_known_slots(&self) -> u64 {
        self.dropped_known_slots
    }

    pub closed spec fn spec_harvested_batches_total(&self) -> u64 {
        self.harvested_batches_total
    }

    pub closed spec fn spec_slots_completed_total(&self) -> u64 {
        self.slots_completed_total
    }

    pub closed spec fn spec_slots_evicted_by_age(&self) -> u64 {
        self.slots_evicted_by_age
    }

    /// The settings and the counters of incoming packets are the same in
    /// `later`.
    pub closed spec fn same_intake(&self, later: &Self) -> bool {
        &&& later.max_age == self.max_age
        &&& later.last_slot == self.last_slot
        &&& later.enable_fec == self.enable_fec
        &&& later.disable_salvage_delivery == self.disable_salvage_delivery
        &&& later.accumulator_cfg == self.accumulator_cfg
        &&& later.pool_exhausted == self.pool_exhausted
        &&& later.data_shred_count == self.data_shred_count
        &&& later.code_shred_count == self.code_shred_count
        &&& later.bytes_received == self.bytes_received
        &&& later.unparseable_too_short == self.unparseable_too_short
        &&& later.unparseable_variant == self.unparseable_variant
        &&& later.unparseable_payload == self.unparseable_payload
        &&& later.unparseable_slot_range == self.unparseable_slot_range
        &&& later.dropped_known_slots == self.dropped_known_slots
    }

    /// A listener with no slot, no blacklisted slot, no queued batch, all
    /// buffers free and every counter at zero, set up by `opts`.
    pub closed spec fn is_fresh(&self, opts: ListenerOptions) -> bool {
        &&& self.slots@.dom() == Set::<u64>::empty()
        &&& self.recently_seen_slots@ == Set::<u64>::empty()
        &&& self.pending_batches@.len() == 0
        &&& self.max_age == opts.max_age
        &&& self.last_slot == 0
        &&& self.pool.spec_capacity() == opts.pool_size
        &&& self.pool.spec_available() == opts.pool_size
        &&& self.enable_fec == opts.enable_fec
        &&& self.disable_salvage_delivery == opts.disable_salvage_delivery
        &&& self.accumulator_cfg == opts.accumulator
        &&& self.pool_exhausted == 0
        &&& self.data_shred_count == 0
        &&& self.code_shred_count == 0
        &&& self.bytes_received == 0
        &&& self.unparseable_too_short == 0
        &&& self.unparseable_variant == 0
        &&& self.unparseable_payload == 0
        &&& self.unparseable_slot_range == 0
        &&& self.dropped_known_slots == 0
        &&& self.decode_errors_total == 0
        &&& self.fec_recoveries_total == 0
        &&& self.fec_recovery_failures_total == 0
        &&& self.batches_skipped_total == 0
        &&& self.batches_decoded_streaming_total == 0
        &&& self.batches_decoded_fallback_total == 0
        &&& self.slots_completed_total == 0
        &&& self.slots_evicted_by_age == 0
        &&& self.harvested_batches_total == 0
        &&& self.salvaged_tail_tx_total == 0
        &&& self.fec_sets_discarded_unused_total == 0
        &&& self.fec_sets_evicted_early_total == 0
        &&& self.batches_force_finalized_corrupted_total == 0
        &&& self.batches_force_finalized_timeout_total == 0
    }

    /// A listener set up by `opts` that reads entries with `codec`.
    pub fn new(opts: ListenerOptions, codec: C) -> (l: Self)
        requires
            0 < opts.pool_size <= u16::MAX,
            opts.max_age <= u64::MAX - BLACKLIST_EXTRA_SLOTS,
        ensures
            l.wf(),
            l.is_fresh(opts),
    {
        ShredListener {
            codec,
            clock_origin: instant_now(),
            slots: slot_map_new(SLOTS_CAPACITY),
            recently_seen_slots: slot_set_new(RECENTLY_SEEN_CAPACITY),
            pending_batches: VecDeque::with_capacity(PENDING_BATCHES_CAPACITY),
            max_age: opts.max_age,
            last_slot: 0,
            pool: ShredPool::new(opts.pool_size),
            pool_exhausted: 0,
            rs_cache: ReedSolomonCache::new(),
            enable_fec: opts.enable_fec,
            disable_salvage_delivery: opts.disable_salvage_delivery,
            accumulator_cfg: opts.accumulator,
            data_shred_count: 0,
            code_shred_count: 0,
            bytes_received: 0,
            unparseable_too_short: 0,
            unparseable_variant: 0,
            unparseable_payload: 0,
            unparseable_slot_range: 0,
            dropped_known_slots: 0,
            decode_errors_total: 0,
            fec_recoveries_total: 0,
            fec_recovery_failures_total: 0,
            batches_skipped_total: 0,
            batches_decoded_streaming_total: 0,
            batches_decoded_fallback_total: 0,
            slots_completed_total: 0,
            slots_evicted_by_age: 0,
            harvested_batches_total: 0,
            salvaged_tail_tx_total: 0,
            fec_sets_discarded_unused_total: 0,
            fec_sets_evicted_early_total: 0,
            batches_force_finalized_corrupted_total: 0,
            batches_force_finalized_timeout_total: 0,
        }
    }

    /// Gives packet buffers back to the pool: each buffer that the pool
    /// counts as in use becomes free; a handle whose buffer the pool does not
    /// count as in use is dropped.
    fn give_back(&mut self, handles: Vec<BufferHandle>)
        requires
            old(self).wf(),
        ensures
            final(self).wf(),
            *final(self) == (ShredListener { pool: final(self).pool, ..*old(self) }),
            final(self).pool.in_use_set() == old(self).pool.in_use_set().difference(
                handle_indices(handles@),
            ),
            final(self).pool.free_set() == old(self).pool.free_set().union(
                old(self).pool.in_use_set().intersect(handle_indices(handles@)),
            ),
    {
        let ghost orig = handles@;
        let mut handles = handles;
        proof {
            assert(handle_indices(orig.subrange(orig.len() as int, orig.len() as int)) =~= Set::<
                u16,
            >::empty());
            assert(self.pool.in_use_set() =~= old(self).pool.in_use_set().difference(
                Set::<u16>::empty(),
            ));
            assert(self.pool.free_set() =~= old(self).pool.free_set().union(
                old(self).pool.in_use_set().intersect(Set::<u16>::empty()),
            ));
        }
        while handles.len() > 0
            invariant
                self.wf(),
                *self == (ShredListener { pool: self.pool, ..*old(self) }),
                handles@.len() <= orig.len(),
                handles@ == orig.subrange(0, handles@.len() as int),
                self.pool.in_use_set() == old(self).pool.in_use_set().difference(
                    handle_indices(orig.subrange(handles@.len() as int, orig.len() as int)),
                ),
                self.pool.free_set() == old(self).pool.free_set().union(
                    old(self).pool.in_use_set().intersect(
                        handle_indices(orig.subrange(handles@.len() as int, orig.len() as int)),
                    ),
                ),
            decreases handles@.len(),
        {
            let ghost k = handles@.len() as int;
            let h = handles.pop().unwrap();
            let ghost idx = h.spec_idx();
            proof {
                assert(handles@ =~= orig.subrange(0, k - 1));
                assert(orig[k - 1] == h);
                let sp = orig.subrange(k, orig.len() as int);
                let sn = orig.subrange(k - 1, orig.len() as int);
                let prev = handle_indices(sp);
                let next = handle_indices(sn);
                assert forall|i: u16| next.contains(i) <==> prev.contains(i) || i == idx by {
                    if next.contains(i) {
                        let j = choose|j: int| 0 <= j < sn.len() && (#[trigger] sn[j]).spec_idx() == i;
                        if j > 0 {
                            assert(sp[j - 1] == sn[j]);
                        }
                    }
                    if prev.contains(i) {
                        let j = choose|j: int| 0 <= j < sp.len() && (#[trigger] sp[j]).spec_idx() == i;
                        assert(sn[j + 1] == sp[j]);
                    }
                    if i == idx {
                        assert(sn[0] == h);
                    }
                }
            }
            let _ = self.pool.release(h);
            proof {
                let prev = handle_indices(orig.subrange(k, orig.len() as int));
                let next = handle_indices(orig.subrange(k - 1, orig.len() as int));
                assert(self.pool.in_use_set() =~= old(self).pool.in_use_set().difference(next));
                assert(self.pool.free_set() =~= old(self).pool.free_set().union(
                    old(self).pool.in_use_set().intersect(next),
                ));
            }
        }
        proof {
            assert(orig.subrange(0, orig.len() as int) =~= orig);
        }
    }
}

/// The buffer indices of `handles`.
pub open spec fn handle_indices(handles: Seq<BufferHandle>) -> Set<u16> {
    Set::new(|i: u16| exists|j: int| 0 <= j < handles.len() && handles[j].spec_idx() == i)
}

impl<C: EntryCodec> ShredListener<C> {
    /// Whether `later` holds the totals of `self` with the counters of `acc`
    /// added (wrapping), and is otherwise the same.
    pub closed spec fn rolled_up(&self, acc: &SlotAccumulator, later: &Self) -> bool {
        &&& later.decode_errors_total == self.decode_errors_total.wrapping_add(
            acc.spec_decode_errors() as u64,
        )
        &&& later.fec_recoveries_total == self.fec_recoveries_total.wrapping_add(
            acc.spec_recoveries_done(),
        )
        &&& later.fec_recovery_failures_total == self.fec_recovery_failures_total.wrapping_add(
            acc.spec_recovery_failures(),
        )
        &&& later.batches_skipped_total == self.batches_skipped_total.wrapping_add(
            acc.spec_batches_skipped(),
        )
        &&& later.batches_decoded_streaming_total
            == self.batches_decoded_streaming_total.wrapping_add(
            acc.spec_batches_decoded_streaming(),
        )
        &&& later.batches_decoded_fallback_total == self.batches_decoded_fallback_total.wrapping_add(
            acc.spec_batches_decoded_fallback(),
        )
        &&& later.salvaged_tail_tx_total == self.salvaged_tail_tx_total.wrapping_add(
            acc.spec_salvaged_tail_tx(),
        )
        &&& later.fec_sets_discarded_unused_total
            == self.fec_sets_discarded_unused_total.wrapping_add(
            acc.spec_fec_sets_discarded_unused(),
        )
        &&& later.fec_sets_evicted_early_total == self.fec_sets_evicted_early_total.wrapping_add(
            acc.spec_fec_sets_evicted_early(),
        )
        &&& later.batches_force_finalized_corrupted_total
            == self.batches_force_finalized_corrupted_total.wrapping_add(
            acc.spec_batches_force_finalized_corrupted(),
        )
        &&& later.batches_force_finalized_timeout_total
            == self.batches_force_finalized_timeout_total.wrapping_add(
            acc.spec_batches_force_finalized_timeout(),
        )
        &&& *later == (ShredListener {
            decode_errors_total: later.decode_errors_total,
            fec_recoveries_total: later.fec_recoveries_total,
            fec_recovery_failures_total: later.fec_recovery_failures_total,
            batches_skipped_total: later.batches_skipped_total,
            batches_decoded_streaming_total: later.batches_decoded_streaming_total,
            batches_decoded_fallback_total: later.batches_decoded_fallback_total,
            salvaged_tail_tx_total: later.salvaged_tail_tx_total,
            fec_sets_discarded_unused_total: later.fec_sets_discarded_unused_total,
            fec_sets_evicted_early_total: later.fec_sets_evicted_early_total,
            batches_force_finalized_corrupted_total: later.batches_force_finalized_corrupted_total,
            batches_force_finalized_timeout_total: later.batches_force_finalized_timeout_total,
            ..*self
        })
    }

    /// Adds the counters of a slot's accumulator to the totals.
    fn rollup_accumulator(&mut self, acc: &SlotAccumulator)
        ensures
            old(self).rolled_up(acc, &*final(self)),
    {
        self.decode_errors_total = self.decode_errors_total.wrapping_add(acc.decode_errors() as u64);
        self.fec_recoveries_total = self.fec_recoveries_total.wrapping_add(acc.recoveries_done());
        self.fec_recovery_failures_total = self.fec_recovery_failures_total.wrapping_add(
            acc.recovery_failures(),
        );
        self.batches_skipped_total = self.batches_skipped_total.wrapping_add(acc.batches_skipped());
        self.batches_decoded_streaming_total = self.batches_decoded_streaming_total.wrapping_add(
            acc.batches_decoded_streaming(),
        );
        self.batches_decoded_fallback_total = self.batches_decoded_fallback_total.wrapping_add(
            acc.batches_decoded_fallback(),
        );
        self.salvaged_tail_tx_total = self.salvaged_tail_tx_total.wrapping_add(
            acc.salvaged_tail_tx(),
        );
        self.fec_sets_discarded_unused_total = self.fec_sets_discarded_unused_total.wrapping_add(
            acc.fec_sets_discarded_unused(),
        );
        self.fec_sets_evicted_early_total = self.fec_sets_evicted_early_total.wrapping_add(
            acc.fec_sets_evicted_early(),
        );
        self.batches_force_finalized_corrupted_total =
            self.batches_force_finalized_corrupted_total.wrapping_add(
            acc.batches_force_finalized_corrupted(),
        );
        self.batches_force_finalized_timeout_total =
            self.batches_force_finalized_timeout_total.wrapping_add(
            acc.batches_force_finalized_timeout(),
        );
    }

    /// Gives up the live slot `s`: harvests what can still be read from it
    /// (queued to be handed out unless salvage delivery is disabled), counts
    /// it as completed or evicted, adds its counters to the totals, gives its
    /// buffers back and blacklists it. Returns whether `s` was live.
    fn retire_slot(&mut self, s: u64, now_ns: u64) -> (r: bool)
        requires
            old(self).wf(),
        ensures
            final(self).wf(),
            old(self).same_intake(&*final(self)),
            r == old(self).slots@.contains_key(s),
            final(self).slots@ == old(self).slots@.remove(s),
            final(self).recently_seen_slots@ == if r {
                old(self).recently_seen_slots@.insert(s)
            } else {
                old(self).recently_seen_slots@
            },
            !r ==> *final(self) == *old(self),
            final(self).pending_batches@.len() >= old(self).pending_batches@.len(),
            final(self).pending_batches@.subrange(0, old(self).pending_batches@.len() as int)
                == old(self).pending_batches@,
            final(self).pending_batches@.len() > old(self).pending_batches@.len() ==> {
                &&& final(self).pending_batches@.len() == old(self).pending_batches@.len() + 1
                &&& final(self).pending_batches@.last().0 == s
                &&& !old(self).disable_salvage_delivery
            },
            r ==> {
                &&& final(self).harvested_batches_total == old(self).harvested_batches_total
                    || final(self).harvested_batches_total == wrap_inc(
                    old(self).harvested_batches_total,
                )
                &&& final(self).pending_batches@.len() == old(self).pending_batches@.len() + if !old(
                    self,
                ).disable_salvage_delivery && final(self).harvested_batches_total != old(
                    self,
                ).harvested_batches_total {
                    1int
                } else {
                    0int
                }
            },
            r ==> (if old(self).slots@[s].spec_slot_complete() {
                final(self).slots_completed_total == wrap_inc(old(self).slots_completed_total)
                    && final(self).slots_evicted_by_age == old(self).slots_evicted_by_age
            } else {
                final(self).slots_evicted_by_age == wrap_inc(old(self).slots_evicted_by_age)
                    && final(self).slots_completed_total == old(self).slots_completed_total
            }),
    {
        if slot_map_get(&self.slots, s).is_none() {
            return false;
        }
        let mut acc = match slot_map_remove(&mut self.slots, s) {
            Some(a) => a,
            None => {
                return false;
            },
        };
        let was_complete = acc.is_slot_complete();
        let tail = acc.try_harvest_tail(&self.codec, &mut self.rs_cache, now_ns);
        if tail.len() > 0 {
            self.harvested_batches_total = self.harvested_batches_total.wrapping_add(1);
            if !self.disable_salvage_delivery {
                self.pending_batches.push_back((s, tail));
            }
        }
        if was_complete {
            self.slots_completed_total = self.slots_completed_total.wrapping_add(1);
        } else {
            self.slots_evicted_by_age = self.slots_evicted_by_age.wrapping_add(1);
        }
        self.rollup_accumulator(&acc);
        let handles = acc.release_all();
        self.give_back(handles);
        let _ = slot_set_insert(&mut self.recently_seen_slots, s);
        proof {
            assert(self.pending_batches@.subrange(0, old(self).pending_batches@.len() as int)
                =~= old(self).pending_batches@);
        }
        true
    }
}


impl<C: EntryCodec> ShredListener<C> {
    /// Whether the live slot `x` is old enough to be given up: the newest
    /// slot lies more than its retention past it.
    pub closed spec fn slot_retires(&self, x: u64) -> bool {
        slot_expired(x, retention(self.slots@[x].spec_slot_complete(), self.max_age), self.last_slot)
    }

    /// Whether `later` queues the batches of `self` first, in the same order.
    pub closed spec fn queue_extends(&self, later: &Self) -> bool {
        &&& later.pending_batches@.len() >= self.pending_batches@.len()
        &&& later.pending_batches@.subrange(0, self.pending_batches@.len() as int)
            == self.pending_batches@
    }

    /// Doing nothing keeps the queue.
    pub proof fn lemma_queue_extends_refl(a: &Self)
        ensures
            a.queue_extends(a),
    {
        assert(a.pending_batches@.subrange(0, a.pending_batches@.len() as int)
            =~= a.pending_batches@);
    }

    /// Batches stay queued in order across any sequence of operations.
    pub proof fn lemma_queue_extends_trans(a: &Self, b: &Self, c: &Self)
        requires
            a.queue_extends(b),
            b.queue_extends(c),
        ensures
            a.queue_extends(c),
    {
        assert forall|i: int| 0 <= i < a.pending_batches@.len() implies c.pending_batches@[i]
            == a.pending_batches@[i] by {
            assert(c.pending_batches@.subrange(0, b.pending_batches@.len() as int)[i]
                == c.pending_batches@[i]);
            assert(b.pending_batches@.subrange(0, a.pending_batches@.len() as int)[i]
                == b.pending_batches@[i]);
        }
        assert(c.pending_batches@.subrange(0, a.pending_batches@.len() as int)
            =~= a.pending_batches@);
    }

    /// Whether the harvested-batch counter of `later` moved, modulo 2^64, by
    /// as many batches as were queued since `self`; with salvage delivery off,
    /// whether the queue stayed as it was.
    pub closed spec fn queued_as_harvested(&self, later: &Self) -> bool {
        if self.disable_salvage_delivery {
            later.pending_batches@ == self.pending_batches@
        } else {
            later.harvested_batches_total as int == (self.harvested_batches_total
                + later.pending_batches@.len() - self.pending_batches@.len())
                % 0x1_0000_0000_0000_0000
        }
    }

    /// The live slots that `slot_retires` gives up whose accumulator says the
    /// slot is complete (or, with `complete` false, is not).
    pub closed spec fn retiring(&self, complete: bool) -> Set<u64> {
        self.slots@.dom().filter(
            |x: u64| self.slot_retires(x) && self.slots@[x].spec_slot_complete() == complete,
        )
    }

    /// Gives up every live slot that `slot_retires` says is too old, each
    /// counted once, as completed or as evicted by age; then drops from the
    /// blacklist the slots below the blacklist floor.
    fn evict_old_slots(&mut self, now_ns: u64)
        requires
            old(self).wf(),
        ensures
            final(self).wf(),
            old(self).same_intake(&*final(self)),
            old(self).queue_extends(&*final(self)),
            old(self).queued_as_harvested(&*final(self)),
            forall|x: u64| #[trigger]
                final(self).slots@.contains_key(x) <==> old(self).slots@.contains_key(x)
                    && !old(self).slot_retires(x),
            forall|x: u64| #[trigger]
                final(self).slots@.contains_key(x) ==> final(self).slots@[x] == old(self).slots@[x],
            forall|x: u64| #[trigger]
                final(self).recently_seen_slots@.contains(x) <==> x >= blacklist_floor(
                    old(self).last_slot,
                    old(self).max_age,
                ) && (old(self).recently_seen_slots@.contains(x) || (old(self).slots@.contains_key(
                    x,
                ) && old(self).slot_retires(x))),
            old(self).retiring(true).finite(),
            old(self).retiring(false).finite(),
            final(self).slots_completed_total as int == (old(self).slots_completed_total + old(
                self,
            ).retiring(true).len()) % 0x1_0000_0000_0000_0000,
            final(self).slots_evicted_by_age as int == (old(self).slots_evicted_by_age + old(
                self,
            ).retiring(false).len()) % 0x1_0000_0000_0000_0000,
    {
        let last = self.last_slot;
        let max_age = self.max_age;
        let keys = slot_map_keys(&self.slots);
        let mut to_evict: Vec<u64> = Vec::new();
        let mut i: usize = 0;
        while i < keys.len()
            invariant
                *self == *old(self),
                last == self.last_slot,
                max_age == self.max_age,
                i <= keys@.len(),
                forall|k: u64| #[trigger] keys@.contains(k) <==> old(self).slots@.contains_key(k),
                forall|m: int|
                    0 <= m < to_evict@.len() ==> old(self).slots@.contains_key(#[trigger] to_evict@[m])
                        && old(self).slot_retires(to_evict@[m]),
                forall|m: int|
                    0 <= m < i && old(self).slot_retires(#[trigger] keys@[m])
                        && old(self).slots@.contains_key(keys@[m]) ==> to_evict@.contains(keys@[m]),
                keys@.no_duplicates(),
                to_evict@.no_duplicates(),
                forall|m: int|
                    0 <= m < to_evict@.len() ==> exists|a: int|
                        0 <= a < i && keys@[a] == #[trigger] to_evict@[m],
            decreases keys@.len() - i,
        {
            let s = keys[i];
            match slot_map_get(&self.slots, s) {
                Some(acc) => {
                    let threshold = if acc.is_slot_complete() {
                        COMPLETED_RETENTION_SLOTS
                    } else {
                        max_age
                    };
                    if last > s.saturating_add(threshold) {
                        let ghost before = to_evict@;
                        proof {
                            assert forall|m: int| 0 <= m < before.len() implies before[m] != s by {
                                let a = choose|a: int| 0 <= a < i && keys@[a] == before[m];
                            }
                        }
                        to_evict.push(s);
                        proof {
                            assert(to_evict@[to_evict@.len() - 1] == s);
                            assert forall|m: int| 0 <= m < to_evict@.len() implies exists|a: int|
                                0 <= a < i + 1 && keys@[a] == #[trigger] to_evict@[m] by {
                                if m < before.len() {
                                    let a = choose|a: int| 0 <= a < i && keys@[a] == before[m];
                                    assert(keys@[a] == to_evict@[m]);
                                } else {
                                    assert(keys@[i as int] == to_evict@[m]);
                                }
                            }
                            assert forall|x: u64| before.contains(x) implies to_evict@.contains(x) by {
                                let m = choose|m: int| 0 <= m < before.len() && before[m] == x;
                                assert(to_evict@[m] == x);
                            }
                        }
                    }
                },
                None => {},
            }
            i = i + 1;
        }
        proof {
            assert forall|x: u64| old(self).slots@.contains_key(x) && old(self).slot_retires(x) implies #[trigger] to_evict@.contains(x) by {
                assert(keys@.contains(x));
                let m = choose|m: int| 0 <= m < keys@.len() && keys@[m] == x;
            }
        }
        proof {
            Self::lemma_queue_extends_refl(&*self);
            vstd::arithmetic::div_mod::lemma_small_mod(
                self.harvested_batches_total as nat,
                0x1_0000_0000_0000_0000nat,
            );
        }
        proof {
            vstd::arithmetic::div_mod::lemma_small_mod(
                self.slots_completed_total as nat,
                0x1_0000_0000_0000_0000nat,
            );
            vstd::arithmetic::div_mod::lemma_small_mod(
                self.slots_evicted_by_age as nat,
                0x1_0000_0000_0000_0000nat,
            );
        }
        let ghost mut done_c: Set<u64> = Set::empty();
        let ghost mut done_e: Set<u64> = Set::empty();
        let mut j: usize = 0;
        while j < to_evict.len()
            invariant
                self.wf(),
                old(self).same_intake(&*self),
                old(self).queue_extends(&*self),
                old(self).queued_as_harvested(&*self),
                j <= to_evict@.len(),
                to_evict@.no_duplicates(),
                done_c.finite(),
                done_e.finite(),
                forall|x: u64| #[trigger]
                    done_c.contains(x) <==> to_evict@.subrange(0, j as int).contains(x) && old(
                        self,
                    ).slots@[x].spec_slot_complete(),
                forall|x: u64| #[trigger]
                    done_e.contains(x) <==> to_evict@.subrange(0, j as int).contains(x) && !old(
                        self,
                    ).slots@[x].spec_slot_complete(),
                self.slots_completed_total as int == (old(self).slots_completed_total + done_c.len())
                    % 0x1_0000_0000_0000_0000,
                self.slots_evicted_by_age as int == (old(self).slots_evicted_by_age + done_e.len())
                    % 0x1_0000_0000_0000_0000,
                forall|m: int|
                    0 <= m < to_evict@.len() ==> old(self).slots@.contains_key(#[trigger] to_evict@[m])
                        && old(self).slot_retires(to_evict@[m]),
                forall|x: u64| #[trigger]
                    self.slots@.contains_key(x) <==> old(self).slots@.contains_key(x)
                        && !to_evict@.subrange(0, j as int).contains(x),
                forall|x: u64| #[trigger]
                    self.slots@.contains_key(x) ==> self.slots@[x] == old(self).slots@[x],
                forall|x: u64| #[trigger]
                    self.recently_seen_slots@.contains(x) <==> old(self).recently_seen_slots@.contains(
                        x,
                    ) || (old(self).slots@.contains_key(x) && to_evict@.subrange(0, j as int).contains(
                        x,
                    )),
            decreases to_evict@.len() - j,
        {
            let s = to_evict[j];
            let ghost mid = *self;
            proof {
                assert(!to_evict@.subrange(0, j as int).contains(s)) by {
                    if to_evict@.subrange(0, j as int).contains(s) {
                        let m = choose|m: int|
                            0 <= m < j && to_evict@.subrange(0, j as int)[m] == s;
                        assert(to_evict@[m] == to_evict@[j as int]);
                    }
                }
                assert(mid.slots@.contains_key(s));
            }
            let _ = self.retire_slot(s, now_ns);
            proof {
                Self::lemma_queue_extends_trans(&*old(self), &mid, &*self);
                if old(self).slots@[s].spec_slot_complete() {
                    lemma_wrapping_count_step(
                        old(self).slots_completed_total,
                        mid.slots_completed_total,
                        self.slots_completed_total,
                        done_c.len() as int,
                    );
                    assert(!done_c.contains(s));
                    done_c = done_c.insert(s);
                } else {
                    lemma_wrapping_count_step(
                        old(self).slots_evicted_by_age,
                        mid.slots_evicted_by_age,
                        self.slots_evicted_by_age,
                        done_e.len() as int,
                    );
                    assert(!done_e.contains(s));
                    done_e = done_e.insert(s);
                }
                if !old(self).disable_salvage_delivery {
                    lemma_wrapping_count_step(
                        old(self).harvested_batches_total,
                        mid.harvested_batches_total,
                        self.harvested_batches_total,
                        mid.pending_batches@.len() - old(self).pending_batches@.len(),
                    );
                } else {
                    assert(self.pending_batches@ =~= old(self).pending_batches@);
                }
                let prev = to_evict@.subrange(0, j as int);
                let next = to_evict@.subrange(0, j + 1);
                assert forall|x: u64| #[trigger] next.contains(x) <==> prev.contains(x) || x == s by {
                    if next.contains(x) {
                        let m = choose|m: int| 0 <= m < next.len() && next[m] == x;
                        if m < j {
                            assert(prev[m] == x);
                        }
                    }
                    if prev.contains(x) {
                        let m = choose|m: int| 0 <= m < prev.len() && prev[m] == x;
                        assert(next[m] == x);
                    }
                    if x == s {
                        assert(next[j as int] == x);
                    }
                }
            }
            j = j + 1;
        }
        proof {
            assert(to_evict@.subrange(0, j as int) =~= to_evict@);
            assert(done_c =~= old(self).retiring(true));
            assert(done_e =~= old(self).retiring(false));
        }
        let floor = self.last_slot.saturating_sub(self.max_age + BLACKLIST_EXTRA_SLOTS);
        if !slot_set_is_empty(&self.recently_seen_slots) {
            slot_set_retain_at_or_above(&mut self.recently_seen_slots, floor);
        }
    }

    /// Gives up the oldest live slot, if there is one.
    fn force_evict_oldest_slot(&mut self, now_ns: u64)
        requires
            old(self).wf(),
        ensures
            final(self).wf(),
            old(self).same_intake(&*final(self)),
            old(self).queue_extends(&*final(self)),
            old(self).slots@.dom() == Set::<u64>::empty() ==> *final(self) == *old(self),
            old(self).slots@.dom() != Set::<u64>::empty() ==> exists|m: u64| #[trigger]
                old(self).slots@.contains_key(m) && (forall|k: u64|
                    #[trigger] old(self).slots@.contains_key(k) ==> m <= k) && final(self).slots@
                    == old(self).slots@.remove(m) && final(self).recently_seen_slots@ == old(
                    self,
                ).recently_seen_slots@.insert(m),
    {
        let keys = slot_map_keys(&self.slots);
        proof {
            Self::lemma_queue_extends_refl(&*self);
        }
        if keys.len() == 0 {
            proof {
                assert forall|k: u64| !old(self).slots@.contains_key(k) by {
                    assert(!keys@.contains(k));
                }
                assert(old(self).slots@.dom() =~= Set::<u64>::empty());
            }
            return;
        }
        let mut oldest = keys[0];
        let mut i: usize = 1;
        while i < keys.len()
            invariant
                1 <= i <= keys@.len(),
                keys@.contains(oldest),
                forall|m: int| 0 <= m < i ==> oldest <= #[trigger] keys@[m],
            decreases keys@.len() - i,
        {
            if keys[i] < oldest {
                oldest = keys[i];
            }
            i = i + 1;
        }
        proof {
            assert forall|k: u64| #[trigger] old(self).slots@.contains_key(k) implies oldest <= k by {
                assert(keys@.contains(k));
                let m = choose|m: int| 0 <= m < keys@.len() && keys@[m] == k;
            }
            assert(old(self).slots@.contains_key(oldest));
        }
        let _ = self.retire_slot(oldest, now_ns);
    }

    /// A free packet buffer; when there is none, first gives up the slots
    /// that are too old, then the oldest live slot.
    fn acquire_buffer_with_fallback(&mut self, now_ns: u64) -> (r: Option<BufferHandle>)
        requires
            old(self).wf(),
        ensures
            final(self).wf(),
            old(self).same_intake(&*final(self)),
            old(self).queue_extends(&*final(self)),
            r matches Some(h) ==> h.wf() && h.spec_len() == 0,
            old(self).pool.spec_available() > 0 ==> r is Some && *final(self) == (ShredListener {
                pool: final(self).pool,
                ..*old(self)
            }),
            forall|x: u64| #[trigger]
                final(self).recently_seen_slots@.contains(x) ==> old(
                    self,
                ).recently_seen_slots@.contains(x) || old(self).slots@.contains_key(x),
            forall|x: u64| #[trigger]
                final(self).slots@.contains_key(x) ==> old(self).slots@.contains_key(x)
                    && final(self).slots@[x] == old(self).slots@[x],
    {
        proof {
            Self::lemma_queue_extends_refl(&*self);
        }
        if let Some(h) = self.pool.acquire() {
            return Some(h);
        }
        self.evict_old_slots(now_ns);
        if let Some(h) = self.pool.acquire() {
            return Some(h);
        }
        let ghost mid = *self;
        self.force_evict_oldest_slot(now_ns);
        proof {
            Self::lemma_queue_extends_trans(&*old(self), &mid, &*self);
        }
        self.pool.acquire()
    }
}


impl<C: EntryCodec> ShredListener<C> {
    /// Whether `later` counts one packet of outcome `o` more than `self`,
    /// in the counter of that outcome, and has the other packet counters
    /// of `self`.
    pub closed spec fn counted(&self, later: &Self, o: PacketOutcome) -> bool {
        &&& later.unparseable_too_short == bump_if(self.unparseable_too_short, o == PacketOutcome::TooShort)
        &&& later.unparseable_variant == bump_if(self.unparseable_variant, o == PacketOutcome::UnknownVariant)
        &&& later.unparseable_payload == bump_if(self.unparseable_payload, o == PacketOutcome::PayloadInvalid)
        &&& later.unparseable_slot_range == bump_if(self.unparseable_slot_range, o == PacketOutcome::SlotOutOfRange)
        &&& later.dropped_known_slots == bump_if(self.dropped_known_slots, o == PacketOutcome::KnownSlot)
        &&& later.data_shred_count == bump_if(self.data_shred_count, o == PacketOutcome::Data)
        &&& later.code_shred_count == bump_if(self.code_shred_count, o == PacketOutcome::Code)
        &&& later.pool_exhausted == self.pool_exhausted
        &&& later.max_age == self.max_age
        &&& later.enable_fec == self.enable_fec
        &&& later.disable_salvage_delivery == self.disable_salvage_delivery
        &&& later.accumulator_cfg == self.accumulator_cfg
    }

    /// Whether `later` and the result `r` are what taking a shred of `slot`
    /// with outcome `o` makes of `self`: a shred that is taken makes its slot
    /// live, and the newest if it is newer; `r` then holds that slot and at
    /// least one transaction, or is `None`. Any other shred gives `None`.
    pub closed spec fn shred_result(
        &self,
        later: &Self,
        o: PacketOutcome,
        slot: u64,
        r: Option<(u64, Vec<VersionedTransaction>)>,
    ) -> bool {
        if o == PacketOutcome::Data || (o == PacketOutcome::Code && self.enable_fec) {
            &&& later.last_slot == if slot > self.last_slot {
                slot
            } else {
                self.last_slot
            }
            &&& later.slots@.contains_key(slot)
            &&& later.slots@.dom().subset_of(self.slots@.dom().insert(slot))
            &&& r matches Some((s, t)) ==> s == slot && t@.len() > 0 && all_signed(t@)
        } else {
            &&& r is None
            &&& later.last_slot == self.last_slot
        }
    }

    /// `shred_result` and `counted`; besides, the transactions handed out for
    /// a slot that was live are fresh to its accumulator (`hands_out_fresh`),
    /// and a shred that is not taken changes nothing but the packet buffers
    /// and the packet counters.
    pub closed spec fn took_shred(
        &self,
        later: &Self,
        o: PacketOutcome,
        slot: u64,
        r: Option<(u64, Vec<VersionedTransaction>)>,
    ) -> bool {
        &&& self.counted(later, o)
        &&& self.shred_result(later, o, slot, r)
        &&& r matches Some((_, t)) ==> ((o == PacketOutcome::Data || (o == PacketOutcome::Code
            && self.enable_fec)) && self.slots@.contains_key(slot) ==> self.slots@[slot].hands_out_fresh(
            &later.slots@[slot],
            Seq::empty(),
            t@,
        ))
        &&& !(o == PacketOutcome::Data || (o == PacketOutcome::Code && self.enable_fec)) ==> *later
            == (ShredListener {
            pool: later.pool,
            bytes_received: later.bytes_received,
            unparseable_too_short: later.unparseable_too_short,
            unparseable_variant: later.unparseable_variant,
            unparseable_payload: later.unparseable_payload,
            unparseable_slot_range: later.unparseable_slot_range,
            dropped_known_slots: later.dropped_known_slots,
            data_shred_count: later.data_shred_count,
            code_shred_count: later.code_shred_count,
            ..*self
        })
    }

    /// Takes a data shred that passed parsing.
    fn take_data_shred(
        &mut self,
        handle: BufferHandle,
        slot: u64,
        index: u32,
        fec_set_index: u32,
        payload_end: u16,
        batch_complete: bool,
        last_in_slot: bool,
        now_ns: u64,
    ) -> (r: Option<(u64, Vec<VersionedTransaction>)>)
        requires
            old(self).wf(),
            handle.wf(),
            spec_parse_kind(handle.contents()) matches Ok(ShredKindView::Data(d)) && d.slot == slot
                && d.index == index && d.fec_set_index == fec_set_index && d.batch_complete
                == batch_complete && payload_end == parser::DATA_HEADER_SIZE + d.payload.len(),
        ensures
            final(self).wf(),
            old(self).queue_extends(&*final(self)),
            final(self).bytes_received == old(self).bytes_received,
            old(self).took_shred(
                &*final(self),
                if !slot_plausible(slot, old(self).last_slot) {
                    PacketOutcome::SlotOutOfRange
                } else if old(self).recently_seen_slots@.contains(slot) {
                    PacketOutcome::KnownSlot
                } else {
                    PacketOutcome::Data
                },
                slot,
                r,
            ),
    {
        proof {
            Self::lemma_queue_extends_refl(&*self);
        }
        if !is_slot_plausible(slot, self.last_slot) {
            self.unparseable_slot_range = self.unparseable_slot_range.wrapping_add(1);
            let _ = self.pool.release(handle);
            return None;
        }
        if slot_set_contains(&self.recently_seen_slots, slot) {
            self.dropped_known_slots = self.dropped_known_slots.wrapping_add(1);
            let _ = self.pool.release(handle);
            return None;
        }
        self.data_shred_count = self.data_shred_count.wrapping_add(1);
        let ghost s0 = *self;
        if slot > self.last_slot {
            self.last_slot = slot;
            let ghost s1 = *self;
            self.evict_old_slots(now_ns);
            proof {
                Self::lemma_queue_extends_trans(&*old(self), &s1, &*self);
                assert(!self.recently_seen_slots@.contains(slot));
            }
        }
        let ghost before_take = *self;
        let mut acc = match slot_map_remove(&mut self.slots, slot) {
            Some(a) => a,
            None => SlotAccumulator::with_config(self.accumulator_cfg),
        };
        proof {
            if old(self).slots@.contains_key(slot) {
                assert(before_take.slots@.contains_key(slot));
                assert(acc == old(self).slots@[slot]);
            }
        }
        let ghost acc0 = acc;
        let ghost h0 = handle;
        proof {
            lemma_data_payload_in_packet(handle.contents());
            if !before_take.slots@.contains_key(slot) {
                SlotAccumulator::lemma_fresh(&acc0, self.accumulator_cfg);
            }
            SlotAccumulator::lemma_pending_shreds(&acc0);
        }
        let txs = acc.push_data(
            &self.codec,
            index,
            fec_set_index,
            handle,
            payload_end,
            batch_complete,
            last_in_slot,
            &mut self.rs_cache,
            now_ns,
        );
        let ghost acc1 = acc;
        let handles = acc.take_released();
        proof {
            SlotAccumulator::lemma_hands_out_released(&acc0, &acc1, &acc, txs@);
        }
        self.give_back(handles);
        let _ = slot_map_insert(&mut self.slots, slot, acc);
        proof {
            let taken = PendingShred {
                source: PayloadSource::Pool(h0),
                payload_end,
                batch_complete,
                fec_set_index,
            };
            SlotAccumulator::lemma_released_keeps_pending(&acc1, &acc);
            assert forall|s2: u64, k: u32|
                self.slots@.contains_key(s2) && self.slots@[s2].pending_shreds().contains_key(
                    k,
                ) implies shred_matches_packet(self.slots@[s2].pending_shreds()[k], s2, k) by {
                if s2 != slot {
                    assert(before_take.slots@.contains_key(s2));
                    assert(before_take.slots@[s2] == self.slots@[s2]);
                } else {
                    let ps = self.slots@[s2].pending_shreds()[k];
                    assert(acc.pending_shreds()[k] == ps);
                    if ps.source is Pool {
                        if last_in_slot {
                            SlotAccumulator::lemma_pool_shreds_kept(&acc0, &acc1, k);
                        } else {
                            assert(acc1.pending_shreds().contains_key(k));
                            SlotAccumulator::lemma_keeps_or_takes(&acc0, &acc1, k, index, taken);
                        }
                        if acc0.pending_shreds().contains_key(k) && acc1.pending_shreds()[k]
                            == acc0.pending_shreds()[k] {
                            assert(before_take.slots@.contains_key(slot));
                            assert(before_take.slots@[slot] == acc0);
                        }
                    }
                }
            }
        }
        if txs.len() == 0 {
            None
        } else {
            Some((slot, txs))
        }
    }
}


/// The slot a packet names, if it parses as a shred (0 otherwise).
pub open spec fn packet_slot(pkt: Seq<u8>) -> u64 {
    match spec_parse_kind(pkt) {
        Ok(k) => kind_slot(k),
        Err(_) => 0,
    }
}

impl<C: EntryCodec> ShredListener<C> {
    /// Takes a coding shred that passed parsing.
    fn take_code_shred(&mut self, c: &parser::CodeShred, now_ns: u64) -> (r: Option<
        (u64, Vec<VersionedTransaction>),
    >)
        requires
            old(self).wf(),
            variant_shard_ok(c.variant),
        ensures
            final(self).wf(),
            old(self).queue_extends(&*final(self)),
            final(self).bytes_received == old(self).bytes_received,
            old(self).took_shred(
                &*final(self),
                if !slot_plausible(c.slot, old(self).last_slot) {
                    PacketOutcome::SlotOutOfRange
                } else if old(self).recently_seen_slots@.contains(c.slot) {
                    PacketOutcome::KnownSlot
                } else {
                    PacketOutcome::Code
                },
                c.slot,
                r,
            ),
    {
        proof {
            Self::lemma_queue_extends_refl(&*self);
        }
        let slot = c.slot;
        if !is_slot_plausible(slot, self.last_slot) {
            self.unparseable_slot_range = self.unparseable_slot_range.wrapping_add(1);
            return None;
        }
        if slot_set_contains(&self.recently_seen_slots, slot) {
            self.dropped_known_slots = self.dropped_known_slots.wrapping_add(1);
            return None;
        }
        self.code_shred_count = self.code_shred_count.wrapping_add(1);
        if !self.enable_fec {
            return None;
        }
        if slot > self.last_slot {
            self.last_slot = slot;
            let ghost s1 = *self;
            self.evict_old_slots(now_ns);
            proof {
                Self::lemma_queue_extends_trans(&*old(self), &s1, &*self);
                assert(!self.recently_seen_slots@.contains(slot));
            }
        }
        let ghost before_take = *self;
        let mut acc = match slot_map_remove(&mut self.slots, slot) {
            Some(a) => a,
            None => SlotAccumulator::with_config(self.accumulator_cfg),
        };
        proof {
            if old(self).slots@.contains_key(slot) {
                assert(before_take.slots@.contains_key(slot));
                assert(acc == old(self).slots@[slot]);
            }
        }
        let ghost acc0 = acc;
        let txs = acc.push_code(
            &self.codec,
            c.fec_set_index,
            c.num_data_shreds,
            c.num_coding_shreds,
            c.position,
            c.coded,
            c.variant,
            &mut self.rs_cache,
            now_ns,
        );
        let ghost acc1 = acc;
        let handles = acc.take_released();
        proof {
            SlotAccumulator::lemma_hands_out_released(&acc0, &acc1, &acc, txs@);
        }
        self.give_back(handles);
        let _ = slot_map_insert(&mut self.slots, slot, acc);
        proof {
            assert(self.slots@[slot].spec_cfg() == self.accumulator_cfg);
            SlotAccumulator::lemma_released_keeps_pending(&acc1, &acc);
            assert forall|s2: u64, k: u32|
                self.slots@.contains_key(s2) && self.slots@[s2].pending_shreds().contains_key(
                    k,
                ) implies shred_matches_packet(self.slots@[s2].pending_shreds()[k], s2, k) by {
                if s2 != slot {
                    assert(before_take.slots@.contains_key(s2));
                    assert(before_take.slots@[s2] == self.slots@[s2]);
                } else {
                    let ps = self.slots@[s2].pending_shreds()[k];
                    assert(acc.pending_shreds()[k] == ps);
                    if ps.source is Pool {
                        SlotAccumulator::lemma_pool_shreds_kept(&acc0, &acc1, k);
                        if !before_take.slots@.contains_key(slot) {
                            SlotAccumulator::lemma_fresh(&acc0, self.accumulator_cfg);
                            SlotAccumulator::lemma_pending_shreds(&acc0);
                        } else {
                            assert(before_take.slots@[slot] == acc0);
                        }
                    }
                }
            }
        }
        if txs.len() == 0 {
            None
        } else {
            Some((slot, txs))
        }
    }

    /// Takes a packet held in a pool buffer.
    fn handle_packet_owned(&mut self, handle: BufferHandle, now_ns: u64) -> (r: Option<
        (u64, Vec<VersionedTransaction>),
    >)
        requires
            old(self).wf(),
            handle.wf(),
        ensures
            final(self).wf(),
            old(self).queue_extends(&*final(self)),
            final(self).bytes_received == old(self).bytes_received.wrapping_add(
                handle.spec_len() as u64,
            ),
            old(self).took_shred(
                &*final(self),
                packet_outcome(handle.contents(), old(self).last_slot, old(self).recently_seen_slots@),
                packet_slot(handle.contents()),
                r,
            ),
    {
        self.bytes_received = self.bytes_received.wrapping_add(handle.len() as u64);
        let ghost s0 = *self;
        proof {
            Self::lemma_queue_extends_refl(&*self);
        }
        let parsed = parser::parse_kind(handle.as_slice());
        match parsed {
            Err(e) => {
                match e {
                    ParseError::TooShort => {
                        self.unparseable_too_short = self.unparseable_too_short.wrapping_add(1);
                    },
                    ParseError::UnknownVariant => {
                        self.unparseable_variant = self.unparseable_variant.wrapping_add(1);
                    },
                    ParseError::PayloadInvalid => {
                        self.unparseable_payload = self.unparseable_payload.wrapping_add(1);
                    },
                }
                let _ = self.pool.release(handle);
                None
            },
            Ok(ShredKind::Data(d)) => {
                let slot = d.slot;
                let index = d.index;
                let fec_set_index = d.fec_set_index;
                let payload_end = (parser::DATA_HEADER_SIZE + d.payload.len()) as u16;
                let batch_complete = d.batch_complete;
                let last_in_slot = d.last_in_slot;
                proof {
                    lemma_data_payload_in_packet(handle.contents());
                }
                self.take_data_shred(
                    handle,
                    slot,
                    index,
                    fec_set_index,
                    payload_end,
                    batch_complete,
                    last_in_slot,
                    now_ns,
                )
            },
            Ok(ShredKind::Code(c)) => {
                proof {
                    lemma_parsed_code_variant_has_shard_size(handle.contents());
                }
                let r = self.take_code_shred(&c, now_ns);
                let _ = self.pool.release(handle);
                r
            },
        }
    }
}


impl<C: EntryCodec> ShredListener<C> {
    /// Takes one packet, received `now_ns` nanoseconds after the listener
    /// was made, and returns the transactions of its slot that became
    /// available.
    ///
    /// The packet is copied into a pool buffer (its first `BUF_SIZE` bytes);
    /// when no buffer is free, the slots that are too old and then the oldest
    /// one are given up to free one, and if none frees up the packet is
    /// counted as lost to pool exhaustion. A packet that is not a shred, or
    /// whose slot is implausible or blacklisted, is counted and dropped. A
    /// data shred, or a coding shred when erasure recovery is on, goes to the
    /// accumulator of its slot, made live (and the newest, if it is newer:
    /// the slots that become too old are given up).
    pub fn handle_packet_at(&mut self, raw: &[u8], now_ns: u64) -> (r: Option<
        (u64, Vec<VersionedTransaction>),
    >)
        requires
            old(self).wf(),
        ensures
            final(self).wf(),
            old(self).queue_extends(&*final(self)),
            final(self).spec_pool_exhausted() != old(self).spec_pool_exhausted() ==> {
                &&& r is None
                &&& final(self).spec_pool_exhausted() == wrap_inc(old(self).spec_pool_exhausted())
                &&& final(self).spec_bytes_received() == old(self).spec_bytes_received()
                &&& final(self).spec_last_slot() == old(self).spec_last_slot()
                &&& final(self).spec_unparseable_too_short() == old(self).spec_unparseable_too_short()
                &&& final(self).spec_unparseable_variant() == old(self).spec_unparseable_variant()
                &&& final(self).spec_unparseable_payload() == old(self).spec_unparseable_payload()
                &&& final(self).spec_unparseable_slot_range() == old(
                    self,
                ).spec_unparseable_slot_range()
                &&& final(self).spec_dropped_known_slots() == old(self).spec_dropped_known_slots()
                &&& final(self).spec_data_shred_count() == old(self).spec_data_shred_count()
                &&& final(self).spec_code_shred_count() == old(self).spec_code_shred_count()
            },
            final(self).spec_pool_exhausted() == old(self).spec_pool_exhausted() ==> {
                &&& final(self).spec_bytes_received() == old(self).spec_bytes_received().wrapping_add(
                    packet_bytes(raw@).len() as u64,
                )
                &&& exists|bl: Set<u64>|
                    {
                        &&& #[trigger] old(self).counted(
                            &*final(self),
                            packet_outcome(packet_bytes(raw@), old(self).spec_last_slot(), bl),
                        )
                        &&& old(self).shred_result(
                            &*final(self),
                            packet_outcome(packet_bytes(raw@), old(self).spec_last_slot(), bl),
                            packet_slot(packet_bytes(raw@)),
                            r,
                        )
                    }
            },
            old(self).spec_buffers_available() > 0 ==> {
                &&& final(self).spec_pool_exhausted() == old(self).spec_pool_exhausted()
                &&& old(self).took_shred(
                    &*final(self),
                    packet_outcome(packet_bytes(raw@), old(self).spec_last_slot(), old(self).blacklisted()),
                    packet_slot(packet_bytes(raw@)),
                    r,
                )
            },
    {
        let mut handle = match self.acquire_buffer_with_fallback(now_ns) {
            Some(h) => h,
            None => {
                self.pool_exhausted = self.pool_exhausted.wrapping_add(1);
                return None;
            },
        };
        let ghost mid = *self;
        let _ = handle.fill_from(raw);
        proof {
            assert(handle.contents() =~= packet_bytes(raw@));
        }
        let r = self.handle_packet_owned(handle, now_ns);
        proof {
            Self::lemma_queue_extends_trans(&*old(self), &mid, &*self);
            assert(old(self).counted(
                &*self,
                packet_outcome(packet_bytes(raw@), old(self).last_slot, mid.recently_seen_slots@),
            ));
        }
        r
    }

    /// Takes one packet, timed by the listener's clock; see
    /// `handle_packet_at`.
    pub fn handle_packet(&mut self, raw: &[u8]) -> (r: Option<(u64, Vec<VersionedTransaction>)>)
        requires
            old(self).wf(),
        ensures
            final(self).wf(),
            old(self).queue_extends(&*final(self)),
            final(self).spec_pool_exhausted() != old(self).spec_pool_exhausted() ==> {
                &&& r is None
                &&& final(self).spec_pool_exhausted() == wrap_inc(old(self).spec_pool_exhausted())
                &&& final(self).spec_bytes_received() == old(self).spec_bytes_received()
                &&& final(self).spec_last_slot() == old(self).spec_last_slot()
                &&& final(self).spec_unparseable_too_short() == old(self).spec_unparseable_too_short()
                &&& final(self).spec_unparseable_variant() == old(self).spec_unparseable_variant()
                &&& final(self).spec_unparseable_payload() == old(self).spec_unparseable_payload()
                &&& final(self).spec_unparseable_slot_range() == old(
                    self,
                ).spec_unparseable_slot_range()
                &&& final(self).spec_dropped_known_slots() == old(self).spec_dropped_known_slots()
                &&& final(self).spec_data_shred_count() == old(self).spec_data_shred_count()
                &&& final(self).spec_code_shred_count() == old(self).spec_code_shred_count()
            },
            final(self).spec_pool_exhausted() == old(self).spec_pool_exhausted() ==> {
                &&& final(self).spec_bytes_received() == old(self).spec_bytes_received().wrapping_add(
                    packet_bytes(raw@).len() as u64,
                )
                &&& exists|bl: Set<u64>|
                    {
                        &&& #[trigger] old(self).counted(
                            &*final(self),
                            packet_outcome(packet_bytes(raw@), old(self).spec_last_slot(), bl),
                        )
                        &&& old(self).shred_result(
                            &*final(self),
                            packet_outcome(packet_bytes(raw@), old(self).spec_last_slot(), bl),
                            packet_slot(packet_bytes(raw@)),
                            r,
                        )
                    }
            },
            old(self).spec_buffers_available() > 0 ==> {
                &&& final(self).spec_pool_exhausted() == old(self).spec_pool_exhausted()
                &&& old(self).took_shred(
                    &*final(self),
                    packet_outcome(packet_bytes(raw@), old(self).spec_last_slot(), old(self).blacklisted()),
                    packet_slot(packet_bytes(raw@)),
                    r,
                )
            },
    {
        let elapsed = instant_elapsed(&self.clock_origin);
        let ns = duration_as_nanos(&elapsed);
        let now_ns: u64 = if ns > u64::MAX as u128 {
            u64::MAX
        } else {
            ns as u64
        };
        self.handle_packet_at(raw, now_ns)
    }

    /// Hands out the oldest batch harvested from a given-up slot.
    pub fn pop_pending_batch(&mut self) -> (r: Option<(u64, Vec<VersionedTransaction>)>)
        requires
            old(self).wf(),
        ensures
            final(self).wf(),
            old(self).queued_batches().len() == 0 ==> r is None && *final(self) == *old(self),
            old(self).queued_batches().len() > 0 ==> {
                &&& r == Some(old(self).queued_batches()[0])
                &&& final(self).queued_batches() == old(self).queued_batches().drop_first()
                &&& r matches Some((_, t)) && t@.len() > 0 && all_signed(t@)
            },
    {
        if self.pending_batches.len() == 0 {
            return None;
        }
        let r = self.pending_batches.pop_front();
        proof {
            if old(self).pending_batches@.len() > 0 {
                assert(old(self).pending_batches@[0].1@.len() > 0);
            }
        }
        r
    }
}


/// A counter of a slot's accumulator that the listener's totals add up.
#[derive(Clone, Copy, PartialEq, Eq, Structural)]
pub enum LiveCounter {
    DecodeErrors,
    Recoveries,
    RecoveryFailures,
    BatchesSkipped,
    BatchesDecodedStreaming,
    BatchesDecodedFallback,
    SalvagedTailTx,
    FecSetsDiscardedUnused,
    FecSetsEvictedEarly,
    BatchesForceFinalizedCorrupted,
    BatchesForceFinalizedTimeout,
}

pub open spec fn live_counter(acc: SlotAccumulator, which: LiveCounter) -> u64 {
    match which {
        LiveCounter::DecodeErrors => acc.spec_decode_errors() as u64,
        LiveCounter::Recoveries => acc.spec_recoveries_done(),
        LiveCounter::RecoveryFailures => acc.spec_recovery_failures(),
        LiveCounter::BatchesSkipped => acc.spec_batches_skipped(),
        LiveCounter::BatchesDecodedStreaming => acc.spec_batches_decoded_streaming(),
        LiveCounter::BatchesDecodedFallback => acc.spec_batches_decoded_fallback(),
        LiveCounter::SalvagedTailTx => acc.spec_salvaged_tail_tx(),
        LiveCounter::FecSetsDiscardedUnused => acc.spec_fec_sets_discarded_unused(),
        LiveCounter::FecSetsEvictedEarly => acc.spec_fec_sets_evicted_early(),
        LiveCounter::BatchesForceFinalizedCorrupted => acc.spec_batches_force_finalized_corrupted(),
        LiveCounter::BatchesForceFinalizedTimeout => acc.spec_batches_force_finalized_timeout(),
    }
}

fn read_live_counter(acc: &SlotAccumulator, which: LiveCounter) -> (r: u64)
    ensures
        r == live_counter(*acc, which),
{
    match which {
        LiveCounter::DecodeErrors => acc.decode_errors() as u64,
        LiveCounter::Recoveries => acc.recoveries_done(),
        LiveCounter::RecoveryFailures => acc.recovery_failures(),
        LiveCounter::BatchesSkipped => acc.batches_skipped(),
        LiveCounter::BatchesDecodedStreaming => acc.batches_decoded_streaming(),
        LiveCounter::BatchesDecodedFallback => acc.batches_decoded_fallback(),
        LiveCounter::SalvagedTailTx => acc.salvaged_tail_tx(),
        LiveCounter::FecSetsDiscardedUnused => acc.fec_sets_discarded_unused(),
        LiveCounter::FecSetsEvictedEarly => acc.fec_sets_evicted_early(),
        LiveCounter::BatchesForceFinalizedCorrupted => acc.batches_force_finalized_corrupted(),
        LiveCounter::BatchesForceFinalizedTimeout => acc.batches_force_finalized_timeout(),
    }
}

/// The counters `which` of the accumulators of `slots`, in that order,
/// added up (wrapping).
pub open spec fn wrapping_sum(slots: Seq<u64>, m: Map<u64, SlotAccumulator>, which: LiveCounter) -> u64
    decreases slots.len(),
{
    if slots.len() == 0 {
        0
    } else {
        wrapping_sum(slots.drop_last(), m, which).wrapping_add(live_counter(m[slots.last()], which))
    }
}

/// Whether `slots` lists each key of `m` once.
/// `ks` without `s`, in order.
pub open spec fn seq_without(ks: Seq<u64>, s: u64) -> Seq<u64>
    decreases ks.len(),
{
    if ks.len() == 0 {
        ks
    } else {
        let p = seq_without(ks.drop_last(), s);
        if ks.last() == s {
            p
        } else {
            p.push(ks.last())
        }
    }
}

/// Leaving `s` out of a list of distinct slots leaves the other slots, each
/// once, and takes the counter of `s` out of their wrapping sum.
proof fn lemma_seq_without(ks: Seq<u64>, s: u64, m: Map<u64, SlotAccumulator>, w: LiveCounter)
    requires
        ks.no_duplicates(),
    ensures
        forall|k: u64| #[trigger] seq_without(ks, s).contains(k) <==> ks.contains(k) && k != s,
        seq_without(ks, s).no_duplicates(),
        ks.contains(s) ==> wrapping_sum(ks, m, w) == wrapping_sum(seq_without(ks, s), m, w).wrapping_add(
            live_counter(m[s], w),
        ),
        !ks.contains(s) ==> wrapping_sum(ks, m, w) == wrapping_sum(seq_without(ks, s), m, w),
    decreases ks.len(),
{
    if ks.len() > 0 {
        let d = ks.drop_last();
        let x = ks.last();
        assert(d.no_duplicates()) by {
            assert forall|i: int, j: int| 0 <= i < d.len() && 0 <= j < d.len() && i != j implies d[i]
                != d[j] by {
                assert(d[i] == ks[i] && d[j] == ks[j]);
            }
        }
        lemma_seq_without(d, s, m, w);
        let p = seq_without(d, s);
        assert(!d.contains(x)) by {
            if d.contains(x) {
                let i = choose|i: int| 0 <= i < d.len() && d[i] == x;
                assert(ks[i] == ks[ks.len() - 1]);
            }
        }
        assert forall|k: u64| #[trigger] ks.contains(k) <==> d.contains(k) || k == x by {
            if ks.contains(k) {
                let i = choose|i: int| 0 <= i < ks.len() && ks[i] == k;
                if i < ks.len() - 1 {
                    assert(d[i] == k);
                }
            }
            if d.contains(k) {
                let i = choose|i: int| 0 <= i < d.len() && d[i] == k;
                assert(ks[i] == k);
            }
            if k == x {
                assert(ks[ks.len() - 1] == k);
            }
        }
        if x != s {
            let q = p.push(x);
            assert(q.drop_last() =~= p);
            assert forall|k: u64| #[trigger] q.contains(k) <==> p.contains(k) || k == x by {
                if q.contains(k) {
                    let i = choose|i: int| 0 <= i < q.len() && q[i] == k;
                    if i < p.len() {
                        assert(p[i] == k);
                    }
                }
                if p.contains(k) {
                    let i = choose|i: int| 0 <= i < p.len() && p[i] == k;
                    assert(q[i] == k);
                }
                if k == x {
                    assert(q[p.len() as int] == k);
                }
            }
            assert(q.no_duplicates()) by {
                assert forall|i: int, j: int| 0 <= i < q.len() && 0 <= j < q.len() && i != j implies q[i]
                    != q[j] by {
                    if i < p.len() && j < p.len() {
                        assert(q[i] == p[i] && q[j] == p[j]);
                    } else if i < p.len() {
                        assert(q[i] == p[i]);
                        assert(p.contains(p[i]));
                    } else if j < p.len() {
                        assert(q[j] == p[j]);
                        assert(p.contains(p[j]));
                    }
                }
            }
        }
    }
}

/// Two tables that agree on the slots of `ks` give the same wrapping sum
/// over `ks`.
proof fn lemma_wrapping_sum_agree(
    ks: Seq<u64>,
    m1: Map<u64, SlotAccumulator>,
    m2: Map<u64, SlotAccumulator>,
    w: LiveCounter,
)
    requires
        forall|k: u64| #[trigger] ks.contains(k) ==> m1[k] == m2[k],
    ensures
        wrapping_sum(ks, m1, w) == wrapping_sum(ks, m2, w),
    decreases ks.len(),
{
    if ks.len() > 0 {
        let d = ks.drop_last();
        assert forall|k: u64| #[trigger] d.contains(k) implies m1[k] == m2[k] by {
            let i = choose|i: int| 0 <= i < d.len() && d[i] == k;
            assert(ks[i] == k);
            assert(ks.contains(k));
        }
        lemma_wrapping_sum_agree(d, m1, m2, w);
        assert(ks.contains(ks.last())) by {
            assert(ks[ks.len() - 1] == ks.last());
        }
    }
}

pub open spec fn lists_keys(slots: Seq<u64>, m: Map<u64, SlotAccumulator>) -> bool {
    &&& slots.no_duplicates()
    &&& forall|k: u64| #[trigger] slots.contains(k) <==> m.contains_key(k)
}

impl<C: EntryCodec> ShredListener<C> {
    /// The counters `which` of the live accumulators added up, in the
    /// (unstated) order of the slot table.
    fn sum_live(&self, which: LiveCounter) -> (r: u64)
        ensures
            exists|ks: Seq<u64>| #[trigger]
                lists_keys(ks, self.slots@) && r == wrapping_sum(ks, self.slots@, which),
    {
        let keys = slot_map_keys(&self.slots);
        let mut sum: u64 = 0;
        let mut i: usize = 0;
        while i < keys.len()
            invariant
                i <= keys@.len(),
                forall|k: u64| #[trigger] keys@.contains(k) <==> self.slots@.contains_key(k),
                sum == wrapping_sum(keys@.subrange(0, i as int), self.slots@, which),
            decreases keys@.len() - i,
        {
            let k = keys[i];
            proof {
                assert(keys@.subrange(0, i + 1).drop_last() =~= keys@.subrange(0, i as int));
                assert(keys@.contains(k));
            }
            match slot_map_get(&self.slots, k) {
                Some(acc) => {
                    sum = sum.wrapping_add(read_live_counter(acc, which));
                },
                None => {},
            }
            i = i + 1;
        }
        proof {
            assert(keys@.subrange(0, i as int) =~= keys@);
            assert(lists_keys(keys@, self.slots@));
        }
        sum
    }

    /// The total of counter `which` over the slots given up so far.
    pub closed spec fn spec_total(&self, which: LiveCounter) -> u64 {
        match which {
            LiveCounter::DecodeErrors => self.decode_errors_total,
            LiveCounter::Recoveries => self.fec_recoveries_total,
            LiveCounter::RecoveryFailures => self.fec_recovery_failures_total,
            LiveCounter::BatchesSkipped => self.batches_skipped_total,
            LiveCounter::BatchesDecodedStreaming => self.batches_decoded_streaming_total,
            LiveCounter::BatchesDecodedFallback => self.batches_decoded_fallback_total,
            LiveCounter::SalvagedTailTx => self.salvaged_tail_tx_total,
            LiveCounter::FecSetsDiscardedUnused => self.fec_sets_discarded_unused_total,
            LiveCounter::FecSetsEvictedEarly => self.fec_sets_evicted_early_total,
            LiveCounter::BatchesForceFinalizedCorrupted => self.batches_force_finalized_corrupted_total,
            LiveCounter::BatchesForceFinalizedTimeout => self.batches_force_finalized_timeout_total,
        }
    }

    /// Whether `r` is the total of counter `which` over the slots given up
    /// plus that counter of every live slot (wrapping), added in some order
    /// of the slots.
    pub closed spec fn total_with_live(&self, which: LiveCounter, r: u64) -> bool {
        exists|ks: Seq<u64>| #[trigger]
            lists_keys(ks, self.slots@) && r == self.spec_total(which).wrapping_add(
                wrapping_sum(ks, self.slots@, which),
            )
    }

    pub fn slot_count(&self) -> (r: usize)
        ensures
            r == self.live_slots().len(),
    {
        slot_map_len(&self.slots)
    }

    pub fn pool_exhausted_count(&self) -> (r: u64)
        ensures
            r == self.spec_pool_exhausted(),
    {
        self.pool_exhausted
    }

    pub fn data_shred_count_total(&self) -> (r: u64)
        ensures
            r == self.spec_data_shred_count(),
    {
        self.data_shred_count
    }

    pub fn code_shred_count_total(&self) -> (r: u64)
        ensures
            r == self.spec_code_shred_count(),
    {
        self.code_shred_count
    }

    pub fn bytes_received(&self) -> (r: u64)
        ensures
            r == self.spec_bytes_received(),
    {
        self.bytes_received
    }

    /// The packets that were not taken for their content or slot (wrapping
    /// sum of the four counters).
    pub fn unparseable_packets(&self) -> (r: u64)
        ensures
            r == self.spec_unparseable_too_short().wrapping_add(
                self.spec_unparseable_variant(),
            ).wrapping_add(self.spec_unparseable_payload()).wrapping_add(
                self.spec_unparseable_slot_range(),
            ),
    {
        self.unparseable_too_short.wrapping_add(self.unparseable_variant).wrapping_add(
            self.unparseable_payload,
        ).wrapping_add(self.unparseable_slot_range)
    }

    pub fn unparseable_too_short(&self) -> (r: u64)
        ensures
            r == self.spec_unparseable_too_short(),
    {
        self.unparseable_too_short
    }

    pub fn unparseable_variant(&self) -> (r: u64)
        ensures
            r == self.spec_unparseable_variant(),
    {
        self.unparseable_variant
    }

    pub fn unparseable_payload(&self) -> (r: u64)
        ensures
            r == self.spec_unparseable_payload(),
    {
        self.unparseable_payload
    }

    pub fn unparseable_slot_range(&self) -> (r: u64)
        ensures
            r == self.spec_unparseable_slot_range(),
    {
        self.unparseable_slot_range
    }

    pub fn dropped_known_slots(&self) -> (r: u64)
        ensures
            r == self.spec_dropped_known_slots(),
    {
        self.dropped_known_slots
    }

    pub fn harvested_batches_total(&self) -> (r: u64)
        ensures
            r == self.spec_harvested_batches_total(),
    {
        self.harvested_batches_total
    }

    pub fn slots_completed_total(&self) -> (r: u64)
        ensures
            r == self.spec_slots_completed_total(),
    {
        self.slots_completed_total
    }

    pub fn slots_evicted_by_age(&self) -> (r: u64)
        ensures
            r == self.spec_slots_evicted_by_age(),
    {
        self.slots_evicted_by_age
    }

    pub fn decode_errors_total(&self) -> (r: u64)
        ensures
            self.total_with_live(LiveCounter::DecodeErrors, r),
    {
        self.decode_errors_total.wrapping_add(self.sum_live(LiveCounter::DecodeErrors))
    }

    pub fn fec_recoveries_total(&self) -> (r: u64)
        ensures
            self.total_with_live(LiveCounter::Recoveries, r),
    {
        self.fec_recoveries_total.wrapping_add(self.sum_live(LiveCounter::Recoveries))
    }

    pub fn fec_recovery_failures_total(&self) -> (r: u64)
        ensures
            self.total_with_live(LiveCounter::RecoveryFailures, r),
    {
        self.fec_recovery_failures_total.wrapping_add(self.sum_live(LiveCounter::RecoveryFailures))
    }

    pub fn batches_skipped_total(&self) -> (r: u64)
        ensures
            self.total_with_live(LiveCounter::BatchesSkipped, r),
    {
        self.batches_skipped_total.wrapping_add(self.sum_live(LiveCounter::BatchesSkipped))
    }

    pub fn batches_decoded_streaming_total(&self) -> (r: u64)
        ensures
            self.total_with_live(LiveCounter::BatchesDecodedStreaming, r),
    {
        self.batches_decoded_streaming_total.wrapping_add(
            self.sum_live(LiveCounter::BatchesDecodedStreaming),
        )
    }

    pub fn batches_decoded_fallback_total(&self) -> (r: u64)
        ensures
            self.total_with_live(LiveCounter::BatchesDecodedFallback, r),
    {
        self.batches_decoded_fallback_total.wrapping_add(
            self.sum_live(LiveCounter::BatchesDecodedFallback),
        )
    }

    pub fn salvaged_tail_tx_total(&self) -> (r: u64)
        ensures
            self.total_with_live(LiveCounter::SalvagedTailTx, r),
    {
        self.salvaged_tail_tx_total.wrapping_add(self.sum_live(LiveCounter::SalvagedTailTx))
    }

    pub fn fec_sets_discarded_unused_total(&self) -> (r: u64)
        ensures
            self.total_with_live(LiveCounter::FecSetsDiscardedUnused, r),
    {
        self.fec_sets_discarded_unused_total.wrapping_add(
            self.sum_live(LiveCounter::FecSetsDiscardedUnused),
        )
    }

    pub fn fec_sets_evicted_early_total(&self) -> (r: u64)
        ensures
            self.total_with_live(LiveCounter::FecSetsEvictedEarly, r),
    {
        self.fec_sets_evicted_early_total.wrapping_add(self.sum_live(LiveCounter::FecSetsEvictedEarly))
    }

    pub fn batches_force_finalized_corrupted_total(&self) -> (r: u64)
        ensures
            self.total_with_live(LiveCounter::BatchesForceFinalizedCorrupted, r),
    {
        self.batches_force_finalized_corrupted_total.wrapping_add(
            self.sum_live(LiveCounter::BatchesForceFinalizedCorrupted),
        )
    }

    pub fn batches_force_finalized_timeout_total(&self) -> (r: u64)
        ensures
            self.total_with_live(LiveCounter::BatchesForceFinalizedTimeout, r),
    {
        self.batches_force_finalized_timeout_total.wrapping_add(
            self.sum_live(LiveCounter::BatchesForceFinalizedTimeout),
        )
    }
}


impl<C: EntryCodec> ShredListener<C> {
    /// What a well-formed listener holds: the newest slot is plausible; every
    /// live slot is at most the newest and is not blacklisted, and its
    /// accumulator is well-formed with the configured settings; every queued
    /// batch holds at least one transaction, each with a first signature;
    /// and every shred waiting in a pool buffer is the data shred its packet
    /// holds, at its slot and index, with the payload the parser reads (from
    /// the end of the header to the size field) and its erasure set.
    pub proof fn lemma_wf_facts(l: &Self)
        requires
            l.wf(),
        ensures
            l.spec_last_slot() <= MAX_PLAUSIBLE_SLOT,
            forall|s: u64| #[trigger]
                l.live_slots().contains(s) ==> {
                    &&& s <= l.spec_last_slot()
                    &&& !l.blacklisted().contains(s)
                    &&& l.accumulators()[s].wf()
                    &&& l.accumulators()[s].spec_cfg() == l.spec_accumulator_cfg()
                },
            forall|i: int|
                0 <= i < l.queued_batches().len() ==> (#[trigger] l.queued_batches()[i]).1@.len() > 0
                    && all_signed(l.queued_batches()[i].1@),
            forall|s: u64, k: u32|
                #![trigger l.accumulators()[s].pending_shreds().contains_key(k)]
                l.live_slots().contains(s) && l.accumulators()[s].pending_shreds().contains_key(k)
                    ==> shred_matches_packet(l.accumulators()[s].pending_shreds()[k], s, k),
    {
    }

    /// Each packet is counted once: of the counters of packet outcomes,
    /// exactly the one of its outcome moves, by one (wrapping).
    pub proof fn lemma_counted_once(a: &Self, b: &Self, o: PacketOutcome)
        requires
            a.counted(b, o),
        ensures
            b.spec_unparseable_too_short() == bump_if(
                a.spec_unparseable_too_short(),
                o == PacketOutcome::TooShort,
            ),
            b.spec_unparseable_variant() == bump_if(
                a.spec_unparseable_variant(),
                o == PacketOutcome::UnknownVariant,
            ),
            b.spec_unparseable_payload() == bump_if(
                a.spec_unparseable_payload(),
                o == PacketOutcome::PayloadInvalid,
            ),
            b.spec_unparseable_slot_range() == bump_if(
                a.spec_unparseable_slot_range(),
                o == PacketOutcome::SlotOutOfRange,
            ),
            b.spec_dropped_known_slots() == bump_if(
                a.spec_dropped_known_slots(),
                o == PacketOutcome::KnownSlot,
            ),
            b.spec_data_shred_count() == bump_if(a.spec_data_shred_count(), o == PacketOutcome::Data),
            b.spec_code_shred_count() == bump_if(a.spec_code_shred_count(), o == PacketOutcome::Code),
            b.spec_unparseable_too_short() != a.spec_unparseable_too_short() <==> o
                == PacketOutcome::TooShort,
            b.spec_unparseable_variant() != a.spec_unparseable_variant() <==> o
                == PacketOutcome::UnknownVariant,
            b.spec_unparseable_payload() != a.spec_unparseable_payload() <==> o
                == PacketOutcome::PayloadInvalid,
            b.spec_unparseable_slot_range() != a.spec_unparseable_slot_range() <==> o
                == PacketOutcome::SlotOutOfRange,
            b.spec_dropped_known_slots() != a.spec_dropped_known_slots() <==> o
                == PacketOutcome::KnownSlot,
            b.spec_data_shred_count() != a.spec_data_shred_count() <==> o == PacketOutcome::Data,
            b.spec_code_shred_count() != a.spec_code_shred_count() <==> o == PacketOutcome::Code,
            b.spec_pool_exhausted() == a.spec_pool_exhausted(),
    {
    }

    /// What a fresh listener holds, as its public views show it: no live,
    /// blacklisted or queued slot, the settings of `opts`, every buffer free
    /// and every counter and total at zero.
    pub proof fn lemma_fresh(l: &Self, opts: ListenerOptions)
        requires
            l.is_fresh(opts),
        ensures
            l.live_slots() == Set::<u64>::empty(),
            l.accumulators() == Map::<u64, SlotAccumulator>::empty(),
            l.blacklisted() == Set::<u64>::empty(),
            l.queued_batches().len() == 0,
            l.spec_last_slot() == 0,
            l.spec_max_age() == opts.max_age,
            l.spec_enable_fec() == opts.enable_fec,
            l.spec_disable_salvage_delivery() == opts.disable_salvage_delivery,
            l.spec_accumulator_cfg() == opts.accumulator,
            l.spec_buffers_available() == opts.pool_size,
            l.spec_pool_exhausted() == 0,
            l.spec_data_shred_count() == 0,
            l.spec_code_shred_count() == 0,
            l.spec_bytes_received() == 0,
            l.spec_unparseable_too_short() == 0,
            l.spec_unparseable_variant() == 0,
            l.spec_unparseable_payload() == 0,
            l.spec_unparseable_slot_range() == 0,
            l.spec_dropped_known_slots() == 0,
            l.spec_harvested_batches_total() == 0,
            l.spec_slots_completed_total() == 0,
            l.spec_slots_evicted_by_age() == 0,
            forall|w: LiveCounter| #[trigger] l.spec_total(w) == 0,
    {
        assert(l.slots@ =~= Map::<u64, SlotAccumulator>::empty());
    }

    /// What taking a shred does, as the public views show it. A shred that
    /// is taken (a data shred, or a coding shred with erasure recovery on)
    /// makes its slot live and the newest if it is newer, leaves no other
    /// slot newly live, and gives `None` or that slot with at least one
    /// transaction, each with a first signature; when the slot was live, what
    /// it hands out is fresh to the slot's batch (see
    /// `SlotAccumulator::lemma_hands_out_fresh`). Any other shred gives `None`
    /// and changes nothing but the packet counters (see `lemma_counted_once`)
    /// and the bytes received.
    pub proof fn lemma_took_shred(
        a: &Self,
        b: &Self,
        o: PacketOutcome,
        slot: u64,
        r: Option<(u64, Vec<VersionedTransaction>)>,
    )
        requires
            a.took_shred(b, o, slot, r),
        ensures
            a.counted(b, o),
            b.spec_max_age() == a.spec_max_age(),
            b.spec_enable_fec() == a.spec_enable_fec(),
            b.spec_disable_salvage_delivery() == a.spec_disable_salvage_delivery(),
            b.spec_accumulator_cfg() == a.spec_accumulator_cfg(),
            o == PacketOutcome::Data || (o == PacketOutcome::Code && a.spec_enable_fec()) ==> {
                &&& b.spec_last_slot() == if slot > a.spec_last_slot() {
                    slot
                } else {
                    a.spec_last_slot()
                }
                &&& b.live_slots().contains(slot)
                &&& b.live_slots().subset_of(a.live_slots().insert(slot))
                &&& r matches Some((s, t)) ==> s == slot && t@.len() > 0 && all_signed(t@)
                &&& r matches Some((_, t)) ==> (a.live_slots().contains(slot)
                    ==> a.accumulators()[slot].hands_out_fresh(
                    &b.accumulators()[slot],
                    Seq::empty(),
                    t@,
                ))
            },
            !(o == PacketOutcome::Data || (o == PacketOutcome::Code && a.spec_enable_fec())) ==> {
                &&& r is None
                &&& b.spec_last_slot() == a.spec_last_slot()
                &&& b.accumulators() == a.accumulators()
                &&& b.live_slots() == a.live_slots()
                &&& b.blacklisted() == a.blacklisted()
                &&& b.queued_batches() == a.queued_batches()
                &&& b.spec_harvested_batches_total() == a.spec_harvested_batches_total()
                &&& b.spec_slots_completed_total() == a.spec_slots_completed_total()
                &&& b.spec_slots_evicted_by_age() == a.spec_slots_evicted_by_age()
                &&& forall|w: LiveCounter| #[trigger] b.spec_total(w) == a.spec_total(w)
            },
    {
    }

    /// What `shred_result` says, over the public views: a shred that is
    /// taken makes its slot live (and the newest if it is newer), leaves no
    /// other slot newly live, and gives `None` or that slot with at least one
    /// transaction; any other shred gives `None` and leaves the newest slot.
    pub proof fn lemma_shred_result(
        a: &Self,
        b: &Self,
        o: PacketOutcome,
        slot: u64,
        r: Option<(u64, Vec<VersionedTransaction>)>,
    )
        requires
            a.shred_result(b, o, slot, r),
        ensures
            o == PacketOutcome::Data || (o == PacketOutcome::Code && a.spec_enable_fec()) ==> {
                &&& b.spec_last_slot() == if slot > a.spec_last_slot() {
                    slot
                } else {
                    a.spec_last_slot()
                }
                &&& b.live_slots().contains(slot)
                &&& b.live_slots().subset_of(a.live_slots().insert(slot))
                &&& r matches Some((s, t)) ==> s == slot && t@.len() > 0 && all_signed(t@)
            },
            !(o == PacketOutcome::Data || (o == PacketOutcome::Code && a.spec_enable_fec())) ==> {
                &&& r is None
                &&& b.spec_last_slot() == a.spec_last_slot()
            },
    {
    }

    /// What `queue_extends` says: the batches queued in `a` stay queued in
    /// `b`, first and in the same order.
    pub proof fn lemma_queue_extends(a: &Self, b: &Self)
        requires
            a.queue_extends(b),
        ensures
            b.queued_batches().len() >= a.queued_batches().len(),
            forall|i: int|
                0 <= i < a.queued_batches().len() ==> #[trigger] b.queued_batches()[i]
                    == a.queued_batches()[i],
    {
        assert forall|i: int| 0 <= i < a.queued_batches().len() implies #[trigger] b.queued_batches()[i]
            == a.queued_batches()[i] by {
            assert(b.pending_batches@.subrange(0, a.pending_batches@.len() as int)[i]
                == b.pending_batches@[i]);
        }
    }

    /// What `total_with_live` says: the total is that of the slots given up
    /// plus, wrapping, the counter of every live slot, each counted once.
    pub proof fn lemma_total_with_live(l: &Self, which: LiveCounter, r: u64)
        requires
            l.total_with_live(which, r),
        ensures
            exists|ks: Seq<u64>|
                #![trigger wrapping_sum(ks, l.accumulators(), which)]
                {
                    &&& ks.no_duplicates()
                    &&& forall|k: u64| #[trigger] ks.contains(k) <==> l.live_slots().contains(k)
                    &&& r == l.spec_total(which).wrapping_add(
                        wrapping_sum(ks, l.accumulators(), which),
                    )
                },
    {
        let ks = choose|ks: Seq<u64>| #[trigger]
            lists_keys(ks, l.slots@) && r == l.spec_total(which).wrapping_add(
                wrapping_sum(ks, l.slots@, which),
            );
        assert(lists_keys(ks, l.slots@));
        assert(l.accumulators() == l.slots@);
        assert forall|k: u64| #[trigger] ks.contains(k) <==> l.live_slots().contains(k) by {
            assert(ks.contains(k) <==> l.slots@.contains_key(k));
        }
        assert(r == l.spec_total(which).wrapping_add(wrapping_sum(ks, l.accumulators(), which)));
    }

    /// What `rolled_up` adds: each total of `b` is that of `a` plus, wrapping,
    /// the same counter of `acc`.
    pub proof fn lemma_rolled_up(a: &Self, acc: &SlotAccumulator, b: &Self, which: LiveCounter)
        requires
            a.rolled_up(acc, b),
        ensures
            b.spec_total(which) == a.spec_total(which).wrapping_add(live_counter(*acc, which)),
    {
    }

    /// Giving up a slot keeps every total: when `b` has the live slots of `a`
    /// but `s`, and totals that add the counters of `s`'s accumulator to
    /// those of `a`, each total with the live slots that `a` reports, `b`
    /// reports as well.
    pub proof fn lemma_rollup_keeps_totals(a: &Self, b: &Self, s: u64, which: LiveCounter, r: u64)
        requires
            a.live_slots().contains(s),
            b.accumulators() == a.accumulators().remove(s),
            b.spec_total(which) == a.spec_total(which).wrapping_add(
                live_counter(a.accumulators()[s], which),
            ),
            a.total_with_live(which, r),
        ensures
            b.total_with_live(which, r),
    {
        let ks = choose|ks: Seq<u64>| #[trigger]
            lists_keys(ks, a.slots@) && r == a.spec_total(which).wrapping_add(
                wrapping_sum(ks, a.slots@, which),
            );
        assert(ks.contains(s));
        lemma_seq_without(ks, s, a.slots@, which);
        let ks2 = seq_without(ks, s);
        assert forall|k: u64| #[trigger] ks2.contains(k) implies a.slots@[k] == b.slots@[k] by {}
        lemma_wrapping_sum_agree(ks2, a.slots@, b.slots@, which);
        assert forall|k: u64| #[trigger] ks2.contains(k) <==> b.slots@.contains_key(k) by {}
        assert(lists_keys(ks2, b.slots@));
        assert(r == b.spec_total(which).wrapping_add(wrapping_sum(ks2, b.slots@, which)));
    }
}

} // verus!
