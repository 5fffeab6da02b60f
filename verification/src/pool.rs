use vstd::pervasive::VecAdditionalExecFns;
use vstd::prelude::*;

verus! {

/// Bytes in one packet buffer.
pub const BUF_SIZE: usize = 2048;

/// A fixed number of packet buffers, allocated once and handed out by
/// index.
///
/// A buffer is either free (its index is on the free list and the pool holds
/// its bytes) or in use (held by a `BufferHandle`); releasing a handle puts
/// its index and its bytes back, to be handed out again.
///
/// Only `release` gives a buffer back. A handle that is dropped without
/// being released takes its buffer with it: the pool stays one buffer
/// short for good. Every handle must therefore be released.
pub struct ShredPool {
    capacity: usize,
    free: Vec<u16>,
    in_use: Vec<bool>,
    buffers: Vec<Vec<u8>>,
}

/// A buffer taken from a `ShredPool`, holding one packet of `len` bytes.
///
/// Dropping a handle does not give its buffer back: pass it to
/// `ShredPool::release`, or the pool loses that buffer for good.
pub struct BufferHandle {
    idx: u16,
    len: u16,
    data: Vec<u8>,
}

impl ShredPool {
    /// The pool's invariant: the free list holds, once each, exactly the
    /// indices below the capacity that are not in use.
    pub closed spec fn wf(&self) -> bool {
        &&& 0 < self.capacity <= u16::MAX
        &&& self.in_use@.len() == self.capacity
        &&& self.free@.no_duplicates()
        &&& forall|i: int| 0 <= i < self.free@.len() ==> (#[trigger] self.free@[i]) < self.capacity
        &&& forall|k: int|
            0 <= k < self.capacity ==> (!self.in_use@[k] <==> self.free@.contains(k as u16))
        &&& self.buffers@.len() == self.capacity
        &&& forall|k: int|
            0 <= k < self.capacity && !self.in_use@[k] ==> (#[trigger] self.buffers@[k])@.len()
                == BUF_SIZE
    }

    pub closed spec fn spec_capacity(&self) -> nat {
        self.capacity as nat
    }

    /// The indices of the buffers that are free.
    pub closed spec fn free_set(&self) -> Set<u16> {
        self.free@.to_set()
    }

    /// The indices of the buffers that are held by handles.
    pub closed spec fn in_use_set(&self) -> Set<u16> {
        Set::new(|k: u16| k < self.capacity && self.in_use@[k as int])
    }

    /// Number of free buffers.
    pub closed spec fn spec_available(&self) -> nat {
        self.free@.len()
    }

    /// A pool of `capacity` buffers, all free.
    pub fn new(capacity: usize) -> (p: Self)
        requires
            0 < capacity <= u16::MAX,
        ensures
            p.wf(),
            p.spec_capacity() == capacity,
            p.spec_available() == capacity,
            p.in_use_set() == Set::<u16>::empty(),
    {
        let mut free: Vec<u16> = Vec::new();
        let mut i: usize = capacity;
        while i > 0
            invariant
                i <= capacity <= u16::MAX,
                free@.len() == capacity - i,
                forall|j: int| 0 <= j < free@.len() ==> free@[j] == capacity - 1 - j,
            decreases i,
        {
            i = i - 1;
            free.push(i as u16);
        }
        let mut in_use: Vec<bool> = Vec::new();
        let mut buffers: Vec<Vec<u8>> = Vec::new();
        let mut k: usize = 0;
        while k < capacity
            invariant
                k <= capacity,
                in_use@.len() == k,
                buffers@.len() == k,
                forall|j: int| 0 <= j < k ==> !in_use@[j],
                forall|j: int| 0 <= j < k ==> (#[trigger] buffers@[j])@.len() == BUF_SIZE,
            decreases capacity - k,
        {
            in_use.push(false);
            buffers.push(vec![0u8; BUF_SIZE]);
            k = k + 1;
        }
        let p = ShredPool { capacity, free, in_use, buffers };
        assert forall|a: int, b: int|
            0 <= a < p.free@.len() && 0 <= b < p.free@.len() && a != b implies p.free@[a]
            != p.free@[b] by {}
        assert forall|k: int| 0 <= k < capacity implies (!p.in_use@[k] <==> p.free@.contains(
            k as u16,
        )) by {
            assert(p.free@[capacity - 1 - k] == k as u16);
        }
        assert(p.in_use_set() =~= Set::<u16>::empty());
        p
    }

    /// The number of buffers in the pool.
    pub fn capacity(&self) -> (r: usize)
        ensures
            r == self.spec_capacity(),
    {
        self.capacity
    }

    /// The number of buffers that are free.
    pub fn available(&self) -> (r: usize)
        ensures
            r == self.spec_available(),
    {
        self.free.len()
    }

    /// Takes a free buffer, or `None` when every buffer is in use.
    pub fn acquire(&mut self) -> (r: Option<BufferHandle>)
        requires
            old(self).wf(),
        ensures
            final(self).wf(),
            final(self).spec_capacity() == old(self).spec_capacity(),
            old(self).spec_available() == 0 <==> r is None,
            r is None ==> *final(self) == *old(self),
            r matches Some(h) ==> {
                &&& old(self).free_set().contains(h.spec_idx())
                &&& final(self).free_set() == old(self).free_set().remove(h.spec_idx())
                &&& final(self).in_use_set() == old(self).in_use_set().insert(h.spec_idx())
                &&& final(self).spec_available() + 1 == old(self).spec_available()
                &&& h.spec_len() == 0
                &&& h.wf()
            },
    {
        if self.free.len() == 0 {
            return None;
        }
        match self.free.pop() {
            None => None,
            Some(idx) => {
                proof {
                    let ghost s = old(self).free@;
                    assert(s == self.free@.push(idx));
                    assert(s[s.len() - 1] == idx);
                    assert(!self.free@.contains(idx));
                }
                let mut data: Vec<u8> = Vec::new();
                self.buffers.set_and_swap(idx as usize, &mut data);
                self.in_use.set(idx as usize, true);
                proof {
                    let ghost s = old(self).free@;
                    assert forall|k: int| 0 <= k < self.capacity implies (!self.in_use@[k]
                        <==> self.free@.contains(k as u16)) by {
                        if k == idx {
                        } else {
                            if s.contains(k as u16) {
                                let j = choose|j: int| 0 <= j < s.len() && s[j] == k as u16;
                                assert(j < s.len() - 1);
                                assert(self.free@[j] == k as u16);
                            }
                        }
                    }
                    assert(self.free@.to_set() =~= s.to_set().remove(idx));
                    assert(self.in_use_set() =~= old(self).in_use_set().insert(idx));
                }
                Some(BufferHandle { idx, len: 0, data })
            },
        }
    }

    /// Gives a buffer back. A handle whose buffer this pool does not count as
    /// in use is dropped and the pool is left as it was.
    pub fn release(&mut self, handle: BufferHandle) -> (released: bool)
        requires
            old(self).wf(),
        ensures
            final(self).wf(),
            final(self).spec_capacity() == old(self).spec_capacity(),
            released == old(self).in_use_set().contains(handle.spec_idx()),
            released ==> {
                &&& final(self).free_set() == old(self).free_set().insert(handle.spec_idx())
                &&& final(self).in_use_set() == old(self).in_use_set().remove(handle.spec_idx())
                &&& final(self).spec_available() == old(self).spec_available() + 1
            },
            !released ==> *final(self) == *old(self),
    {
        let idx = handle.idx;
        if (idx as usize) < self.capacity && self.in_use[idx as usize] {
            proof {
                assert(!self.free@.contains(idx));
            }
            let mut data = if handle.data.len() == BUF_SIZE {
                handle.data
            } else {
                vec![0u8; BUF_SIZE]
            };
            self.buffers.set_and_swap(idx as usize, &mut data);
            self.in_use.set(idx as usize, false);
            self.free.push(idx);
            proof {
                let ghost s = old(self).free@;
                assert(self.free@ == s.push(idx));
                assert forall|a: int, b: int|
                    0 <= a < self.free@.len() && 0 <= b < self.free@.len() && a != b implies self.free@[a]
                    != self.free@[b] by {
                    if a == s.len() as int {
                        assert(!s.contains(idx));
                        assert(s[b] == self.free@[b]);
                    } else if b == s.len() as int {
                        assert(!s.contains(idx));
                        assert(s[a] == self.free@[a]);
                    }
                }
                assert forall|k: int| 0 <= k < self.capacity implies (!self.in_use@[k]
                    <==> self.free@.contains(k as u16)) by {
                    if k != idx {
                        if self.free@.contains(k as u16) {
                            let j = choose|j: int|
                                0 <= j < self.free@.len() && self.free@[j] == k as u16;
                            assert(j < s.len());
                            assert(s.contains(k as u16));
                        }
                        if s.contains(k as u16) {
                            let j = choose|j: int| 0 <= j < s.len() && s[j] == k as u16;
                            assert(self.free@[j] == k as u16);
                        }
                    } else {
                        assert(self.free@[s.len() as int] == idx);
                    }
                }
                assert forall|x: u16| #[trigger] self.free@.contains(x) <==> s.contains(x) || x == idx by {
                    if self.free@.contains(x) {
                        let j = choose|j: int| 0 <= j < self.free@.len() && self.free@[j] == x;
                        if j < s.len() {
                            assert(s[j] == x);
                        }
                    }
                    if s.contains(x) {
                        let j = choose|j: int| 0 <= j < s.len() && s[j] == x;
                        assert(self.free@[j] == x);
                    }
                    if x == idx {
                        assert(self.free@[s.len() as int] == idx);
                    }
                }
                assert(self.free@.to_set() =~= s.to_set().insert(idx));
                assert(self.in_use_set() =~= old(self).in_use_set().remove(idx));
            }
            true
        } else {
            false
        }
    }
}

impl BufferHandle {
    pub closed spec fn wf(&self) -> bool {
        &&& self.data@.len() == BUF_SIZE
        &&& self.len <= BUF_SIZE
    }

    pub closed spec fn spec_idx(&self) -> u16 {
        self.idx
    }

    pub closed spec fn spec_len(&self) -> nat {
        self.len as nat
    }

    /// All bytes of the buffer, used or not.
    pub closed spec fn buffer_bytes(&self) -> Seq<u8> {
        self.data@
    }

    /// The packet held by the buffer.
    pub closed spec fn contents(&self) -> Seq<u8> {
        self.data@.subrange(0, self.len as int)
    }

    /// Sets how many bytes of the buffer the packet takes.
    pub fn set_len(&mut self, len: usize)
        requires
            old(self).wf(),
            len <= BUF_SIZE,
        ensures
            final(self).wf(),
            final(self).spec_len() == len,
            final(self).spec_idx() == old(self).spec_idx(),
            final(self).contents() == old(self).buffer_bytes().subrange(0, len as int),
            final(self).buffer_bytes() == old(self).buffer_bytes(),
    {
        self.len = len as u16;
    }

    pub fn len(&self) -> (r: usize)
        ensures
            r == self.spec_len(),
    {
        self.len as usize
    }

    pub fn is_empty(&self) -> (r: bool)
        ensures
            r == (self.spec_len() == 0),
    {
        self.len == 0
    }

    /// Copies a packet into the buffer, cut to the buffer's size, and sets the
    /// length to what was copied.
    pub fn fill_from(&mut self, raw: &[u8]) -> (n: usize)
        requires
            old(self).wf(),
        ensures
            final(self).wf(),
            n == if raw@.len() < BUF_SIZE {
                raw@.len()
            } else {
                BUF_SIZE as nat
            },
            final(self).spec_len() == n,
            final(self).spec_idx() == old(self).spec_idx(),
            final(self).contents() == raw@.subrange(0, n as int),
    {
        let n = if raw.len() < BUF_SIZE {
            raw.len()
        } else {
            BUF_SIZE
        };
        let mut i: usize = 0;
        while i < n
            invariant
                n <= raw@.len(),
                n <= BUF_SIZE,
                i <= n,
                self.data@.len() == BUF_SIZE,
                self.idx == old(self).idx,
                forall|j: int| 0 <= j < i ==> self.data@[j] == raw@[j],
            decreases n - i,
        {
            self.data.set(i, raw[i]);
            i = i + 1;
        }
        self.len = n as u16;
        assert(self.contents() =~= raw@.subrange(0, n as int));
        n
    }

    /// The whole buffer, to be written in place; `set_len` then says how
    /// many of its bytes the packet takes.
    pub fn as_mut_slice(&mut self) -> (r: &mut [u8])
        requires
            old(self).wf(),
        ensures
            r@ == old(self).buffer_bytes(),
            final(self).buffer_bytes() == final(r)@,
            final(self).spec_idx() == old(self).spec_idx(),
            final(self).spec_len() == old(self).spec_len(),
            final(r)@.len() == BUF_SIZE ==> final(self).wf(),
    {
        self.data.as_mut_slice()
    }

    /// The packet held by the buffer.
    pub fn as_slice(&self) -> (r: &[u8])
        requires
            self.wf(),
        ensures
            r@ == self.contents(),
    {
        vstd::slice::slice_subrange(self.data.as_slice(), 0, self.len as usize)
    }
}

/// Acquiring a buffer and releasing it again leaves the pool with the same
/// free and in-use buffers.
pub proof fn lemma_acquire_release_restores(
    before: ShredPool,
    middle: ShredPool,
    after: ShredPool,
    idx: u16,
)
    requires
        before.wf(),
        before.free_set().contains(idx),
        middle.free_set() == before.free_set().remove(idx),
        middle.in_use_set() == before.in_use_set().insert(idx),
        after.free_set() == middle.free_set().insert(idx),
        after.in_use_set() == middle.in_use_set().remove(idx),
    ensures
        after.free_set() == before.free_set(),
        after.in_use_set() == before.in_use_set(),
{
    assert(!before.in_use_set().contains(idx));
    assert(after.free_set() =~= before.free_set());
    assert(after.in_use_set() =~= before.in_use_set());
}

} // verus!
