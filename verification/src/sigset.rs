use vstd::prelude::*;

use rustc_hash::FxBuildHasher;
use solana_transaction::versioned::VersionedTransaction;
use std::collections::HashSet;

verus! {

#[verifier::external_type_specification]
#[verifier::external_body]
pub struct ExFxBuildHasher(FxBuildHasher);

/// The signatures a set of rustc_hash's `FxHashSet<[u8; 64]>` holds.
pub uninterp spec fn fx_sig_set_contents(s: HashSet<[u8; 64], FxBuildHasher>) -> Set<[u8; 64]>;

/// Calls std's `HashSet::with_capacity_and_hasher` with rustc_hash's hasher:
/// a new set is empty.
#[verifier::external_body]
fn fx_sig_set_new(capacity: usize) -> (s: HashSet<[u8; 64], FxBuildHasher>)
    ensures
        fx_sig_set_contents(s) == Set::<[u8; 64]>::empty(),
{
    HashSet::with_capacity_and_hasher(capacity, FxBuildHasher::default())
}

/// Calls `HashSet::insert` on a set with rustc_hash's hasher: the signature
/// is in the set afterwards, and the result says whether it was not before.
#[verifier::external_body]
fn fx_sig_set_insert(s: &mut HashSet<[u8; 64], FxBuildHasher>, sig: [u8; 64]) -> (r: bool)
    ensures
        fx_sig_set_contents(*final(s)) == fx_sig_set_contents(*old(s)).insert(sig),
        r == !fx_sig_set_contents(*old(s)).contains(sig),
{
    s.insert(sig)
}

/// Calls `HashSet::clear` on a set with rustc_hash's hasher: it is empty
/// afterwards.
#[verifier::external_body]
fn fx_sig_set_clear(s: &mut HashSet<[u8; 64], FxBuildHasher>)
    ensures
        fx_sig_set_contents(*final(s)) == Set::<[u8; 64]>::empty(),
{
    s.clear()
}

/// The first signature of a transaction as its 64 bytes, `None` when it has
/// none: what `first_signature` reads.
pub uninterp spec fn tx_first_signature(tx: VersionedTransaction) -> Option<[u8; 64]>;

/// Reads the first signature of a transaction (solana_transaction's
/// `signatures` field, `Vec::first`) as its 64 bytes (solana_signature's
/// conversion into `[u8; 64]`). The result depends on the transaction alone;
/// it is named `tx_first_signature`, and nothing more is stated of it.
#[verifier::external_body]
pub(crate) fn first_signature(tx: &VersionedTransaction) -> (r: Option<[u8; 64]>)
    ensures
        r == tx_first_signature(*tx),
{
    tx.signatures.first().map(|s| <[u8; 64]>::from(*s))
}

/// Whether every transaction of `txs` has a first signature.
pub open spec fn all_signed(txs: Seq<VersionedTransaction>) -> bool {
    forall|i: int| 0 <= i < txs.len() ==> (#[trigger] tx_first_signature(txs[i])) is Some
}

/// The signatures seen after reading the first signatures of `txs` in
/// order, starting from `seen`.
pub open spec fn sigs_seen(txs: Seq<VersionedTransaction>, seen: Set<[u8; 64]>) -> Set<[u8; 64]>
    decreases txs.len(),
{
    if txs.len() == 0 {
        seen
    } else {
        let prev = sigs_seen(txs.drop_last(), seen);
        match tx_first_signature(txs.last()) {
            Some(s) => prev.insert(s),
            None => prev,
        }
    }
}

/// The transactions of `txs`, in order, that have a first signature not
/// seen before them: not in `seen` and not the first signature of an
/// earlier transaction of `txs`.
pub open spec fn new_sig_filter(txs: Seq<VersionedTransaction>, seen: Set<[u8; 64]>) -> Seq<
    VersionedTransaction,
>
    decreases txs.len(),
{
    if txs.len() == 0 {
        Seq::empty()
    } else {
        let prev = new_sig_filter(txs.drop_last(), seen);
        match tx_first_signature(txs.last()) {
            Some(s) => if sigs_seen(txs.drop_last(), seen).contains(s) {
                prev
            } else {
                prev.push(txs.last())
            },
            None => prev,
        }
    }
}

/// No transaction is handed out twice: the transactions that
/// `new_sig_filter` keeps each have a first signature, none of them in
/// `seen`, no two the same, and all of them among the signatures seen
/// afterwards; the signatures seen before stay seen.
pub proof fn lemma_new_sig_filter(txs: Seq<VersionedTransaction>, seen: Set<[u8; 64]>)
    ensures
        all_signed(new_sig_filter(txs, seen)),
        forall|i: int|
            0 <= i < new_sig_filter(txs, seen).len() ==> !seen.contains(
                (#[trigger] tx_first_signature(new_sig_filter(txs, seen)[i]))->0,
            ) && sigs_seen(txs, seen).contains(tx_first_signature(new_sig_filter(txs, seen)[i])->0),
        forall|i: int, j: int|
            0 <= i < j < new_sig_filter(txs, seen).len() ==> #[trigger] tx_first_signature(
                new_sig_filter(txs, seen)[i],
            ) != #[trigger] tx_first_signature(new_sig_filter(txs, seen)[j]),
        seen.subset_of(sigs_seen(txs, seen)),
        new_sig_filter(txs, seen).len() <= txs.len(),
    decreases txs.len(),
{
    if txs.len() > 0 {
        lemma_new_sig_filter(txs.drop_last(), seen);
        let p = new_sig_filter(txs.drop_last(), seen);
        let f = new_sig_filter(txs, seen);
        let prev_seen = sigs_seen(txs.drop_last(), seen);
        if f != p {
            assert(f == p.push(txs.last()));
            assert forall|i: int| 0 <= i < f.len() implies (#[trigger] tx_first_signature(f[i])) is Some
                by {
                if i < p.len() {
                    assert(f[i] == p[i]);
                    assert(tx_first_signature(p[i]) is Some);
                }
            }
            assert forall|i: int|
                0 <= i < f.len() implies !seen.contains((#[trigger] tx_first_signature(f[i]))->0)
                && sigs_seen(txs, seen).contains(tx_first_signature(f[i])->0) by {
                if i < p.len() {
                    assert(f[i] == p[i]);
                    assert(tx_first_signature(p[i]) is Some);
                }
            }
            assert forall|i: int, j: int| 0 <= i < j < f.len() implies #[trigger] tx_first_signature(
                f[i],
            ) != #[trigger] tx_first_signature(f[j]) by {
                assert(f[i] == p[i]);
                assert(tx_first_signature(p[i]) is Some);
                if j < p.len() {
                    assert(f[j] == p[j]);
                } else {
                    assert(prev_seen.contains(tx_first_signature(p[i])->0));
                }
            }
        } else {
            assert forall|i: int|
                0 <= i < f.len() implies !seen.contains((#[trigger] tx_first_signature(f[i]))->0)
                && sigs_seen(txs, seen).contains(tx_first_signature(f[i])->0) by {
                assert(tx_first_signature(p[i]) is Some);
            }
        }
    }
}

/// Whether each transaction of `txs` has a first signature that is not in
/// `before` but is in `after`, and no two of them have the same one.
pub open spec fn fresh_sigs(
    txs: Seq<VersionedTransaction>,
    before: Set<[u8; 64]>,
    after: Set<[u8; 64]>,
) -> bool {
    &&& all_signed(txs)
    &&& forall|i: int|
        0 <= i < txs.len() ==> !before.contains((#[trigger] tx_first_signature(txs[i]))->0)
            && after.contains(tx_first_signature(txs[i])->0)
    &&& forall|i: int, j: int|
        0 <= i < j < txs.len() ==> #[trigger] tx_first_signature(txs[i]) != #[trigger] tx_first_signature(
            txs[j],
        )
}

/// What `new_sig_filter` keeps is fresh: see `lemma_new_sig_filter`.
pub proof fn lemma_new_sig_filter_fresh(txs: Seq<VersionedTransaction>, seen: Set<[u8; 64]>)
    ensures
        fresh_sigs(new_sig_filter(txs, seen), seen, sigs_seen(txs, seen)),
        seen.subset_of(sigs_seen(txs, seen)),
{
    lemma_new_sig_filter(txs, seen);
}

/// The signatures seen after reading, list after list, the first
/// signatures of the lists `ds`, starting from `seen`.
pub open spec fn seen_all(ds: Seq<Seq<VersionedTransaction>>, seen: Set<[u8; 64]>) -> Set<[u8; 64]>
    decreases ds.len(),
{
    if ds.len() == 0 {
        seen
    } else {
        sigs_seen(ds.last(), seen_all(ds.drop_last(), seen))
    }
}

/// What `new_sig_filter` keeps of the lists `ds`, list after list, the
/// signatures seen growing as it goes.
pub open spec fn filter_all(ds: Seq<Seq<VersionedTransaction>>, seen: Set<[u8; 64]>) -> Seq<
    VersionedTransaction,
>
    decreases ds.len(),
{
    if ds.len() == 0 {
        Seq::empty()
    } else {
        filter_all(ds.drop_last(), seen) + new_sig_filter(ds.last(), seen_all(ds.drop_last(), seen))
    }
}

/// Handing out fresh transactions twice in a row, with the signatures seen
/// only growing, hands out fresh transactions.
pub proof fn lemma_fresh_sigs_concat(
    a: Seq<VersionedTransaction>,
    b: Seq<VersionedTransaction>,
    s0: Set<[u8; 64]>,
    s1: Set<[u8; 64]>,
    s2: Set<[u8; 64]>,
)
    requires
        fresh_sigs(a, s0, s1),
        fresh_sigs(b, s1, s2),
        s0.subset_of(s1),
        s1.subset_of(s2),
    ensures
        fresh_sigs(a + b, s0, s2),
{
    let c = a + b;
    assert forall|i: int| 0 <= i < c.len() implies (#[trigger] tx_first_signature(c[i])) is Some by {
        if i < a.len() {
            assert(c[i] == a[i]);
            assert(tx_first_signature(a[i]) is Some);
        } else {
            assert(c[i] == b[i - a.len()]);
            assert(tx_first_signature(b[i - a.len()]) is Some);
        }
    }
    assert forall|i: int| 0 <= i < c.len() implies !s0.contains(
        (#[trigger] tx_first_signature(c[i]))->0,
    ) && s2.contains(tx_first_signature(c[i])->0) by {
        if i < a.len() {
            assert(c[i] == a[i]);
            assert(tx_first_signature(a[i]) is Some);
        } else {
            assert(c[i] == b[i - a.len()]);
            assert(tx_first_signature(b[i - a.len()]) is Some);
        }
    }
    assert forall|i: int, j: int| 0 <= i < j < c.len() implies #[trigger] tx_first_signature(c[i])
        != #[trigger] tx_first_signature(c[j]) by {
        if j < a.len() {
            assert(c[i] == a[i] && c[j] == a[j]);
        } else if i >= a.len() {
            assert(c[i] == b[i - a.len()] && c[j] == b[j - a.len()]);
        } else {
            assert(c[i] == a[i] && c[j] == b[j - a.len()]);
            assert(tx_first_signature(a[i]) is Some);
            assert(tx_first_signature(b[j - a.len()]) is Some);
        }
    }
}

/// The signatures of the transactions handed out in the current batch.
pub struct SignatureSet {
    set: HashSet<[u8; 64], FxBuildHasher>,
}

impl SignatureSet {
    pub closed spec fn contents(&self) -> Set<[u8; 64]> {
        fx_sig_set_contents(self.set)
    }

    pub fn new() -> (s: Self)
        ensures
            s.contents() == Set::<[u8; 64]>::empty(),
    {
        SignatureSet { set: fx_sig_set_new(256) }
    }

    /// Adds a signature; `true` when it was not there yet.
    pub fn insert(&mut self, sig: [u8; 64]) -> (r: bool)
        ensures
            final(self).contents() == old(self).contents().insert(sig),
            r == !old(self).contents().contains(sig),
    {
        fx_sig_set_insert(&mut self.set, sig)
    }

    pub fn clear(&mut self)
        ensures
            final(self).contents() == Set::<[u8; 64]>::empty(),
    {
        fx_sig_set_clear(&mut self.set)
    }
}

} // verus!
