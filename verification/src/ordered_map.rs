use vstd::prelude::*;

verus! {

/// Keys strictly increase along the sequence.
pub open spec fn keys_increasing<V>(s: Seq<(u32, V)>) -> bool {
    forall|i: int, j: int| 0 <= i < j < s.len() ==> (#[trigger] s[i]).0 < (#[trigger] s[j]).0
}

pub open spec fn seq_has_key<V>(s: Seq<(u32, V)>, k: u32) -> bool {
    exists|i: int| 0 <= i < s.len() && (#[trigger] s[i]).0 == k
}

pub open spec fn seq_key_index<V>(s: Seq<(u32, V)>, k: u32) -> int {
    choose|i: int| 0 <= i < s.len() && (#[trigger] s[i]).0 == k
}

/// The map that a sequence of entries with distinct keys stands for.
pub open spec fn seq_to_map<V>(s: Seq<(u32, V)>) -> Map<u32, V> {
    Map::new(|k: u32| seq_has_key(s, k), |k: u32| s[seq_key_index(s, k)].1)
}

/// Number of keys of `s` in `[lo, hi]`.
pub open spec fn count_keys_in<V>(s: Seq<(u32, V)>, lo: u32, hi: u32) -> nat
    decreases s.len(),
{
    if s.len() == 0 {
        0
    } else {
        count_keys_in(s.drop_last(), lo, hi) + if lo <= s.last().0 <= hi {
            1nat
        } else {
            0nat
        }
    }
}

pub proof fn lemma_seq_to_map_at<V>(s: Seq<(u32, V)>, i: int)
    requires
        keys_increasing(s),
        0 <= i < s.len(),
    ensures
        seq_to_map(s).contains_key(s[i].0),
        seq_to_map(s)[s[i].0] == s[i].1,
{
    assert(seq_has_key(s, s[i].0));
    let j = seq_key_index(s, s[i].0);
    if j < i {
        assert(s[j].0 < s[i].0);
    } else if i < j {
        assert(s[i].0 < s[j].0);
    }
}

/// With distinct ordered keys, the map holds exactly the entries.
pub proof fn lemma_seq_map_facts<V>(s: Seq<(u32, V)>)
    requires
        keys_increasing(s),
    ensures
        forall|i: int|
            0 <= i < s.len() ==> seq_to_map(s).contains_key(#[trigger] s[i].0) && seq_to_map(s)[s[i].0]
                == s[i].1,
        forall|k: u32|
            #[trigger] seq_to_map(s).contains_key(k) ==> exists|i: int|
                0 <= i < s.len() && (#[trigger] s[i]).0 == k,
{
    assert forall|i: int| 0 <= i < s.len() implies seq_to_map(s).contains_key(#[trigger] s[i].0)
        && seq_to_map(s)[s[i].0] == s[i].1 by {
        lemma_seq_to_map_at(s, i);
    }
}

/// Entries keyed by `u32`, kept in increasing order of their keys.
pub struct OrderedMap<V> {
    entries: Vec<(u32, V)>,
}

impl<V> View for OrderedMap<V> {
    type V = Map<u32, V>;

    closed spec fn view(&self) -> Map<u32, V> {
        seq_to_map(self.entries@)
    }
}

impl<V> OrderedMap<V> {
    /// The keys are kept in increasing order.
    pub closed spec fn wf(&self) -> bool {
        keys_increasing(self.entries@)
    }

    /// The entries, in increasing order of their keys.
    pub closed spec fn entries(&self) -> Seq<(u32, V)> {
        self.entries@
    }

    /// The keys, in increasing order.
    pub open spec fn key_seq(&self) -> Seq<u32> {
        self.entries().map_values(|e: (u32, V)| e.0)
    }

    /// Number of keys in `[lo, hi]`.
    pub open spec fn spec_count_in(&self, lo: u32, hi: u32) -> nat {
        count_keys_in(self.entries(), lo, hi)
    }

    pub fn new() -> (m: Self)
        ensures
            m.wf(),
            m@ == Map::<u32, V>::empty(),
            m.entries() == Seq::<(u32, V)>::empty(),
    {
        let m = OrderedMap { entries: Vec::new() };
        assert(m@ =~= Map::<u32, V>::empty());
        m
    }

    pub fn len(&self) -> (r: usize)
        requires
            self.wf(),
        ensures
            r == self.entries().len(),
    {
        self.entries.len()
    }

    pub fn is_empty(&self) -> (r: bool)
        requires
            self.wf(),
        ensures
            r == (self.entries().len() == 0),
            r == (self@ == Map::<u32, V>::empty()),
    {
        proof {
            lemma_seq_map_facts(self.entries@);
            if self.entries().len() > 0 {
                assert(self@.contains_key(self.entries()[0].0));
            } else {
                assert(self@ =~= Map::<u32, V>::empty());
            }
        }
        self.entries.len() == 0
    }

    /// Position of `k` among the entries.
    pub fn position(&self, k: u32) -> (r: Option<usize>)
        requires
            self.wf(),
        ensures
            match r {
                Some(i) => i < self.entries().len() && self.entries()[i as int].0 == k,
                None => !self@.contains_key(k),
            },
    {
        proof {
            lemma_seq_map_facts(self.entries@);
        }
        let mut i: usize = 0;
        while i < self.entries.len()
            invariant
                i <= self.entries().len(),
                forall|j: int| 0 <= j < i ==> self.entries()[j].0 != k,
            decreases self.entries().len() - i,
        {
            if self.entries[i].0 == k {
                return Some(i);
            }
            i = i + 1;
        }
        None
    }

    pub fn contains_key(&self, k: u32) -> (r: bool)
        requires
            self.wf(),
        ensures
            r == self@.contains_key(k),
    {
        proof {
            lemma_seq_map_facts(self.entries@);
        }
        match self.position(k) {
            Some(_) => true,
            None => false,
        }
    }

    pub fn get(&self, k: u32) -> (r: Option<&V>)
        requires
            self.wf(),
        ensures
            match r {
                Some(v) => self@.contains_key(k) && self@[k] == *v,
                None => !self@.contains_key(k),
            },
    {
        proof {
            lemma_seq_map_facts(self.entries@);
        }
        match self.position(k) {
            Some(i) => Some(&self.entries[i].1),
            None => None,
        }
    }

    /// The entry at position `i`, in increasing order of keys.
    pub fn entry_at(&self, i: usize) -> (r: (u32, &V))
        requires
            self.wf(),
            i < self.entries().len(),
        ensures
            self@.contains_key(r.0),
            self@[r.0] == *r.1,
            r.0 == self.entries()[i as int].0,
            *r.1 == self.entries()[i as int].1,
    {
        proof {
            lemma_seq_map_facts(self.entries@);
        }
        (self.entries[i].0, &self.entries[i].1)
    }

    /// The entries are in increasing order of their keys, and they are
    /// exactly the map's keys and values.
    pub proof fn lemma_entries(&self)
        requires
            self.wf(),
        ensures
            keys_increasing(self.entries()),
            forall|i: int|
                0 <= i < self.entries().len() ==> self@.contains_key(#[trigger] self.entries()[i].0)
                    && self@[self.entries()[i].0] == self.entries()[i].1,
            forall|k: u32| #[trigger]
                self@.contains_key(k) ==> exists|i: int|
                    0 <= i < self.entries().len() && (#[trigger] self.entries()[i]).0 == k,
    {
        lemma_seq_map_facts(self.entries@);
    }

    /// A map with no entries has no keys, and one with keys has entries.
    pub proof fn lemma_empty_iff_no_entries(&self)
        requires
            self.wf(),
        ensures
            (self.entries().len() == 0) == (self@ == Map::<u32, V>::empty()),
            self.entries().len() == 0 ==> self@.dom() == Set::<u32>::empty(),
    {
        lemma_seq_map_facts(self.entries@);
        if self.entries().len() > 0 {
            assert(self@.contains_key(self.entries()[0].0));
        } else {
            assert(self@ =~= Map::<u32, V>::empty());
        }
    }

    /// The keys, in increasing order.
    pub fn keys(&self) -> (r: Vec<u32>)
        requires
            self.wf(),
        ensures
            r@ == self.key_seq(),
            r@.len() == self.entries().len(),
            forall|i: int, j: int| 0 <= i < j < r@.len() ==> r@[i] < r@[j],
            forall|i: int| 0 <= i < r@.len() ==> self@.contains_key(#[trigger] r@[i]),
            forall|k: u32| #[trigger] self@.contains_key(k) ==> r@.contains(k),
    {
        let mut r: Vec<u32> = Vec::new();
        let mut i: usize = 0;
        while i < self.entries.len()
            invariant
                i <= self.entries().len(),
                r@ == self.entries().subrange(0, i as int).map_values(|e: (u32, V)| e.0),
            decreases self.entries().len() - i,
        {
            r.push(self.entries[i].0);
            i = i + 1;
            assert(r@ =~= self.entries().subrange(0, i as int).map_values(|e: (u32, V)| e.0));
        }
        assert(self.entries().subrange(0, i as int) =~= self.entries());
        proof {
            lemma_seq_map_facts(self.entries@);
            assert forall|a: int, b: int| 0 <= a < b < r@.len() implies r@[a] < r@[b] by {
                assert(self.entries@[a].0 < self.entries@[b].0);
            }
            assert forall|a: int| 0 <= a < r@.len() implies self@.contains_key(#[trigger] r@[a]) by {
                assert(r@[a] == self.entries@[a].0);
            }
            assert forall|k: u32| #[trigger] self@.contains_key(k) implies r@.contains(k) by {
                let a = choose|a: int| 0 <= a < self.entries@.len() && self.entries@[a].0 == k;
                assert(r@[a] == k);
            }
        }
        r
    }

    /// Index of the first entry whose key is at least `lo`.
    fn lower_bound(&self, lo: u32) -> (r: usize)
        requires
            self.wf(),
        ensures
            r <= self.entries().len(),
            forall|j: int| 0 <= j < r ==> self.entries()[j].0 < lo,
            forall|j: int| r <= j < self.entries().len() ==> self.entries()[j].0 >= lo,
    {
        proof {
        }
        let mut i: usize = 0;
        while i < self.entries.len()
            invariant
                i <= self.entries().len(),
                keys_increasing(self.entries()),
                forall|j: int| 0 <= j < i ==> self.entries()[j].0 < lo,
            decreases self.entries().len() - i,
        {
            if self.entries[i].0 >= lo {
                assert forall|j: int| i <= j < self.entries().len() implies self.entries()[j].0
                    >= lo by {
                    if i < j {
                        assert(self.entries()[i as int].0 < self.entries()[j].0);
                    }
                }
                return i;
            }
            i = i + 1;
        }
        i
    }

    /// The least key that is at least `lo`.
    pub fn first_key_at_least(&self, lo: u32) -> (r: Option<u32>)
        requires
            self.wf(),
        ensures
            match r {
                Some(k) => self@.contains_key(k) && lo <= k && forall|j: u32|
                    #[trigger] self@.contains_key(j) && lo <= j ==> k <= j,
                None => forall|j: u32| #[trigger] self@.contains_key(j) ==> j < lo,
            },
    {
        proof {
            lemma_seq_map_facts(self.entries@);
        }
        let p = self.lower_bound(lo);
        if p < self.entries.len() {
            let k = self.entries[p].0;
            proof {
                assert forall|j: u32| #[trigger] self@.contains_key(j) && lo <= j implies k
                    <= j by {
                    let i = choose|i: int| 0 <= i < self.entries().len() && self.entries()[i].0 == j;
                    if i < p {
                    } else if p < i {
                        assert(self.entries()[p as int].0 < self.entries()[i].0);
                    }
                }
            }
            Some(k)
        } else {
            proof {
                assert forall|j: u32| #[trigger] self@.contains_key(j) implies j < lo by {
                    let i = choose|i: int| 0 <= i < self.entries().len() && self.entries()[i].0 == j;
                }
            }
            None
        }
    }

    /// The least key, if any.
    pub fn first_key(&self) -> (r: Option<u32>)
        requires
            self.wf(),
        ensures
            match r {
                Some(k) => self@.contains_key(k) && forall|j: u32|
                    #[trigger] self@.contains_key(j) ==> k <= j,
                None => self@ == Map::<u32, V>::empty(),
            },
    {
        let r = self.first_key_at_least(0);
        proof {
            if r is None {
                assert(self@ =~= Map::<u32, V>::empty());
            }
        }
        r
    }

    /// Number of keys in `[lo, hi]`.
    pub fn count_in(&self, lo: u32, hi: u32) -> (r: usize)
        requires
            self.wf(),
        ensures
            r == self.spec_count_in(lo, hi),
    {
        let mut c: usize = 0;
        let mut i: usize = 0;
        while i < self.entries.len()
            invariant
                i <= self.entries().len(),
                c == count_keys_in(self.entries().subrange(0, i as int), lo, hi),
                c <= i,
            decreases self.entries().len() - i,
        {
            let k = self.entries[i].0;
            proof {
                let s = self.entries().subrange(0, i + 1);
                assert(s.drop_last() =~= self.entries().subrange(0, i as int));
            }
            if lo <= k && k <= hi {
                c = c + 1;
            }
            i = i + 1;
        }
        assert(self.entries().subrange(0, i as int) =~= self.entries());
        c
    }

    /// Sets the value of `k`, returning the value it replaces.
    pub fn insert(&mut self, k: u32, v: V) -> (r: Option<V>)
        requires
            old(self).wf(),
        ensures
            final(self).wf(),
            final(self)@ == old(self)@.insert(k, v),
            match r {
                Some(w) => old(self)@.contains_key(k) && old(self)@[k] == w,
                None => !old(self)@.contains_key(k),
            },
            final(self).entries().len() == old(self).entries().len() + if old(self)@.contains_key(
                k,
            ) {
                0int
            } else {
                1int
            },
    {
        let p = self.lower_bound(k);
        if p < self.entries.len() && self.entries[p].0 == k {
            Some(self.replace_at(p, k, v))
        } else {
            self.insert_at(p, k, v);
            None
        }
    }

    fn replace_at(&mut self, p: usize, k: u32, v: V) -> (w: V)
        requires
            old(self).wf(),
            p < old(self).entries().len(),
            old(self).entries()[p as int].0 == k,
        ensures
            final(self).wf(),
            final(self)@ == old(self)@.insert(k, v),
            old(self)@.contains_key(k) && old(self)@[k] == w,
            final(self).entries().len() == old(self).entries().len(),
    {
        let ghost old_s = self.entries();
        proof {
            lemma_seq_map_facts(self.entries@);
        }
            let (_, w) = self.entries.remove(p);
            self.entries.insert(p, (k, v));
            proof {
                let s = self.entries();
                assert(s =~= old_s.update(p as int, (k, v)));
                assert forall|a: int, b: int| 0 <= a < b < s.len() implies (#[trigger] s[a]).0 < (
                #[trigger] s[b]).0 by {
                    assert(old_s[a].0 < old_s[b].0);
                }
                assert(keys_increasing(s));
                assert forall|j: u32| #[trigger]
                    seq_to_map(s).contains_key(j) <==> old(self)@.insert(k, v).contains_key(j) by {
                    if seq_to_map(s).contains_key(j) {
                        let i = choose|i: int| 0 <= i < s.len() && s[i].0 == j;
                        if i != p {
                            lemma_seq_to_map_at(old_s, i);
                        }
                    }
                    if old_s.len() > 0 && old(self)@.contains_key(j) {
                        let i = choose|i: int| 0 <= i < old_s.len() && old_s[i].0 == j;
                        assert(s[i].0 == j);
                        assert(seq_has_key(s, j));
                    }
                    assert(s[p as int].0 == k);
                    assert(seq_has_key(s, k));
                }
                assert forall|j: u32| #[trigger] seq_to_map(s).contains_key(j) implies seq_to_map(
                    s,
                )[j] == old(self)@.insert(k, v)[j] by {
                    let i = choose|i: int| 0 <= i < s.len() && s[i].0 == j;
                    lemma_seq_to_map_at(s, i);
                    if i != p {
                        lemma_seq_to_map_at(old_s, i);
                    }
                }
                assert(seq_to_map(s) =~= old(self)@.insert(k, v));
                lemma_seq_to_map_at(old_s, p as int);
            }
        w
    }

    fn insert_at(&mut self, p: usize, k: u32, v: V)
        requires
            old(self).wf(),
            p <= old(self).entries().len(),
            forall|j: int| 0 <= j < p ==> old(self).entries()[j].0 < k,
            forall|j: int| p <= j < old(self).entries().len() ==> old(self).entries()[j].0 >= k,
            !(p < old(self).entries().len() && old(self).entries()[p as int].0 == k),
        ensures
            final(self).wf(),
            final(self)@ == old(self)@.insert(k, v),
            !old(self)@.contains_key(k),
            final(self).entries().len() == old(self).entries().len() + 1,
    {
        let ghost old_s = self.entries();
        proof {
            lemma_seq_map_facts(self.entries@);
        }
            self.entries.insert(p, (k, v));
            proof {
                let s = self.entries();
                assert(!old(self)@.contains_key(k)) by {
                    if old(self)@.contains_key(k) {
                        let i = choose|i: int| 0 <= i < old_s.len() && old_s[i].0 == k;
                        if i < p {
                        } else if i > p {
                            assert(old_s[p as int].0 < old_s[i].0);
                        }
                    }
                }
                assert forall|a: int, b: int| 0 <= a < b < s.len() implies (#[trigger] s[a]).0 < (
                #[trigger] s[b]).0 by {
                    if a < p && b < p {
                        assert(old_s[a].0 < old_s[b].0);
                    } else if a < p && b == p {
                    } else if a < p && b > p {
                        assert(s[b] == old_s[b - 1]);
                    } else if a == p {
                        assert(s[b] == old_s[b - 1]);
                        assert(old_s[b - 1].0 >= k);
                        assert(old_s[b - 1].0 != k) by {
                            if old_s[b - 1].0 == k {
                                assert(seq_has_key(old_s, k));
                            }
                        }
                    } else {
                        assert(s[a] == old_s[a - 1]);
                        assert(s[b] == old_s[b - 1]);
                        assert(old_s[a - 1].0 < old_s[b - 1].0);
                    }
                }
                assert(keys_increasing(s));
                assert forall|j: u32| #[trigger]
                    seq_to_map(s).contains_key(j) <==> old(self)@.insert(k, v).contains_key(j) by {
                    if seq_to_map(s).contains_key(j) {
                        let i = choose|i: int| 0 <= i < s.len() && s[i].0 == j;
                        if i < p {
                            lemma_seq_to_map_at(old_s, i);
                        } else if i > p {
                            lemma_seq_to_map_at(old_s, i - 1);
                        }
                    }
                    if old(self)@.contains_key(j) {
                        let i = choose|i: int| 0 <= i < old_s.len() && old_s[i].0 == j;
                        if i < p {
                            assert(s[i].0 == j);
                        } else {
                            assert(s[i + 1].0 == j);
                        }
                        assert(seq_has_key(s, j));
                    }
                    assert(s[p as int].0 == k);
                    assert(seq_has_key(s, k));
                }
                assert forall|j: u32| #[trigger] seq_to_map(s).contains_key(j) implies seq_to_map(
                    s,
                )[j] == old(self)@.insert(k, v)[j] by {
                    let i = choose|i: int| 0 <= i < s.len() && s[i].0 == j;
                    lemma_seq_to_map_at(s, i);
                    if i < p {
                        lemma_seq_to_map_at(old_s, i);
                    } else if i > p {
                        lemma_seq_to_map_at(old_s, i - 1);
                    }
                }
                assert(seq_to_map(s) =~= old(self)@.insert(k, v));
            }
    }

    /// Removes the entry at position `p`.
    fn remove_at(&mut self, p: usize) -> (r: (u32, V))
        requires
            old(self).wf(),
            p < old(self).entries().len(),
        ensures
            final(self).wf(),
            r == old(self).entries()[p as int],
            final(self).entries() == old(self).entries().remove(p as int),
            final(self)@ == old(self)@.remove(r.0),
            old(self)@.contains_key(r.0),
            old(self)@[r.0] == r.1,
    {
        proof {
            lemma_seq_map_facts(self.entries@);
        }
        let ghost old_s = self.entries();
        let r = self.entries.remove(p);
        proof {
            let s = self.entries();
            let k = r.0;
            assert forall|a: int, b: int| 0 <= a < b < s.len() implies (#[trigger] s[a]).0 < (
            #[trigger] s[b]).0 by {
                if a < p && b < p {
                    assert(old_s[a].0 < old_s[b].0);
                } else if a < p {
                    assert(old_s[a].0 < old_s[b + 1].0);
                } else {
                    assert(old_s[a + 1].0 < old_s[b + 1].0);
                }
            }
            assert(keys_increasing(s));
            assert forall|j: u32| #[trigger]
                seq_to_map(s).contains_key(j) <==> old(self)@.remove(k).contains_key(j) by {
                if seq_to_map(s).contains_key(j) {
                    let i = choose|i: int| 0 <= i < s.len() && s[i].0 == j;
                    if i < p {
                        lemma_seq_to_map_at(old_s, i);
                        assert(old_s[i].0 < old_s[p as int].0);
                    } else {
                        lemma_seq_to_map_at(old_s, i + 1);
                        assert(old_s[p as int].0 < old_s[i + 1].0);
                    }
                }
                if old(self)@.contains_key(j) && j != k {
                    let i = choose|i: int| 0 <= i < old_s.len() && old_s[i].0 == j;
                    if i < p {
                        assert(s[i].0 == j);
                    } else {
                        assert(i != p);
                        assert(s[i - 1].0 == j);
                    }
                    assert(seq_has_key(s, j));
                }
            }
            assert forall|j: u32| #[trigger] seq_to_map(s).contains_key(j) implies seq_to_map(
                s,
            )[j] == old(self)@.remove(k)[j] by {
                let i = choose|i: int| 0 <= i < s.len() && s[i].0 == j;
                lemma_seq_to_map_at(s, i);
                if i < p {
                    lemma_seq_to_map_at(old_s, i);
                } else {
                    lemma_seq_to_map_at(old_s, i + 1);
                }
            }
            assert(seq_to_map(s) =~= old(self)@.remove(k));
            lemma_seq_to_map_at(old_s, p as int);
        }
        r
    }

    /// Removes `k`, returning its value.
    pub fn remove(&mut self, k: u32) -> (r: Option<V>)
        requires
            old(self).wf(),
        ensures
            final(self).wf(),
            final(self)@ == old(self)@.remove(k),
            match r {
                Some(w) => old(self)@.contains_key(k) && old(self)@[k] == w,
                None => !old(self)@.contains_key(k),
            },
            final(self).entries().len() == old(self).entries().len() - if old(self)@.contains_key(
                k,
            ) {
                1int
            } else {
                0int
            },
    {
        match self.position(k) {
            Some(p) => {
                let (_, w) = self.remove_at(p);
                Some(w)
            },
            None => {
                assert(old(self)@.remove(k) =~= old(self)@);
                None
            },
        }
    }

    /// Drops every entry whose key is below `bound`.
    pub fn retain_at_least(&mut self, bound: u32) -> (dropped: Vec<(u32, V)>)
        requires
            old(self).wf(),
        ensures
            final(self).wf(),
            final(self)@ == old(self)@.restrict(Set::new(|k: u32| k >= bound)),
            final(self).entries().len() + dropped@.len() == old(self).entries().len(),
            forall|i: int|
                0 <= i < dropped@.len() ==> (#[trigger] dropped@[i]).0 < bound
                    && old(self)@.contains_key(dropped@[i].0) && old(self)@[dropped@[i].0]
                    == dropped@[i].1,
    {
        proof {
            lemma_seq_map_facts(self.entries@);
        }
        let ghost old_s = self.entries();
        let p = self.lower_bound(bound);
        let mut dropped = self.entries.split_off(p);
        std::mem::swap(&mut self.entries, &mut dropped);
        proof {
            let s = self.entries();
            assert(s =~= old_s.subrange(p as int, old_s.len() as int));
            assert(dropped@ =~= old_s.subrange(0, p as int));
            assert forall|a: int, b: int| 0 <= a < b < s.len() implies (#[trigger] s[a]).0 < (
            #[trigger] s[b]).0 by {
                assert(old_s[a + p].0 < old_s[b + p].0);
            }
            let target = old(self)@.restrict(Set::new(|k: u32| k >= bound));
            assert forall|j: u32| #[trigger]
                seq_to_map(s).contains_key(j) <==> target.contains_key(j) by {
                if seq_to_map(s).contains_key(j) {
                    let i = choose|i: int| 0 <= i < s.len() && s[i].0 == j;
                    lemma_seq_to_map_at(old_s, i + p);
                }
                if target.contains_key(j) {
                    let i = choose|i: int| 0 <= i < old_s.len() && old_s[i].0 == j;
                    assert(i >= p);
                    assert(s[i - p].0 == j);
                    assert(seq_has_key(s, j));
                }
            }
            assert forall|j: u32| #[trigger] seq_to_map(s).contains_key(j) implies seq_to_map(
                s,
            )[j] == target[j] by {
                let i = choose|i: int| 0 <= i < s.len() && s[i].0 == j;
                lemma_seq_to_map_at(s, i);
                lemma_seq_to_map_at(old_s, i + p);
            }
            assert(seq_to_map(s) =~= target);
            assert forall|i: int| 0 <= i < dropped@.len() implies (#[trigger] dropped@[i]).0 < bound
                && old(self)@.contains_key(dropped@[i].0) && old(self)@[dropped@[i].0]
                == dropped@[i].1 by {
                lemma_seq_to_map_at(old_s, i);
            }
        }
        dropped
    }

    /// Takes every entry out, in increasing order of keys.
    pub fn take_all(&mut self) -> (all: Vec<(u32, V)>)
        requires
            old(self).wf(),
        ensures
            final(self).wf(),
            final(self)@ == Map::<u32, V>::empty(),
            all@ == old(self).entries(),
    {
        let mut all: Vec<(u32, V)> = Vec::new();
        std::mem::swap(&mut self.entries, &mut all);
        assert(self@ =~= Map::<u32, V>::empty());
        all
    }
}

} // verus!
