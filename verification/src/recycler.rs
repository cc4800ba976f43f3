//! The buffer recycler: a pool of byte buffers to be used again.
//!
//! A buffer is a vector of bytes, and its size is its length. Reading into a
//! recycled buffer saves an allocation; nothing else depends on it. The pool
//! has a fixed number of slots, so that it cannot grow without bound.

use vstd::prelude::*;

verus! {

/// The index of the first buffer of the pool that holds at least `size`
/// bytes, or the number of buffers if none does.
pub open spec fn first_fit(pool: Seq<Seq<u8>>, size: nat) -> nat
    decreases pool.len(),
{
    if pool.len() == 0 || pool[0].len() >= size {
        0
    } else {
        1 + first_fit(pool.skip(1), size)
    }
}

/// A buffer of `size` zero bytes.
pub open spec fn zeroed(size: nat) -> Seq<u8> {
    Seq::new(size, |i: int| 0u8)
}

/// Where `first_fit` points: at a buffer that is large enough, behind
/// buffers that are not.
pub proof fn lemma_first_fit(pool: Seq<Seq<u8>>, size: nat)
    ensures
        first_fit(pool, size) <= pool.len(),
        first_fit(pool, size) < pool.len() ==> pool[first_fit(pool, size) as int].len() >= size,
        forall|i: int| 0 <= i < first_fit(pool, size) ==> (#[trigger] pool[i]).len() < size,
    decreases pool.len(),
{
    if pool.len() == 0 || pool[0].len() >= size {
    } else {
        lemma_first_fit(pool.skip(1), size);
        assert forall|i: int| 0 <= i < first_fit(pool, size) implies (#[trigger] pool[i]).len()
            < size by {
            if i > 0 {
                assert(pool.skip(1)[i - 1] == pool[i]);
            }
        }
    }
}

/// The first fit is where the first large enough buffer is.
pub proof fn lemma_first_fit_is(pool: Seq<Seq<u8>>, size: nat, k: int)
    requires
        0 <= k <= pool.len(),
        k < pool.len() ==> pool[k].len() >= size,
        forall|i: int| 0 <= i < k ==> (#[trigger] pool[i]).len() < size,
    ensures
        first_fit(pool, size) == k,
{
    lemma_first_fit(pool, size);
    let r = first_fit(pool, size) as int;
    if r < k {
        assert(pool[r].len() < size);
    } else if r > k {
        assert(pool[k].len() < size);
    }
}

/// A pool of buffers that were given back.
pub struct BufferRecycler {
    pool: Vec<Vec<u8>>,
    slots: usize,
}

impl View for BufferRecycler {
    type V = Seq<Seq<u8>>;

    closed spec fn view(&self) -> Seq<Seq<u8>> {
        Seq::new(self.pool@.len(), |i: int| self.pool@[i]@)
    }
}

impl BufferRecycler {
    pub closed spec fn spec_slots(&self) -> usize {
        self.slots
    }

    /// An empty pool that keeps up to `slots` buffers.
    pub fn new(slots: usize) -> (r: BufferRecycler)
        ensures
            r@ == Seq::<Seq<u8>>::empty(),
            r.slots() == slots,
    {
        let r = BufferRecycler { pool: Vec::new(), slots };
        assert(r@ =~= Seq::<Seq<u8>>::empty());
        r
    }

    /// How many buffers the pool keeps at most.
    #[verifier::when_used_as_spec(spec_slots)]
    pub fn slots(&self) -> (r: usize)
        ensures
            r == self.slots(),
    {
        self.slots
    }

    /// How many buffers wait in the pool.
    pub fn pooled(&self) -> (r: usize)
        ensures
            r == self@.len(),
    {
        self.pool.len()
    }

    /// Hands out a buffer of at least `size` bytes: the first of the pool
    /// that is large enough, with whatever it holds, and otherwise a new one
    /// of `size` zero bytes.
    pub fn acquire(&mut self, size: usize) -> (buffer: Vec<u8>)
        ensures
            final(self).slots() == old(self).slots(),
            buffer@.len() >= size,
            first_fit(old(self)@, size as nat) < old(self)@.len() ==> buffer@ == old(self)@[first_fit(
                old(self)@,
                size as nat,
            ) as int] && final(self)@ == old(self)@.remove(first_fit(old(self)@, size as nat) as int),
            first_fit(old(self)@, size as nat) >= old(self)@.len() ==> buffer@ == zeroed(size as nat)
                && final(self)@ == old(self)@,
    {
        let ghost before = self@;
        let mut i: usize = 0;
        while i < self.pool.len() && self.pool[i].len() < size
            invariant
                i <= self.pool.len(),
                self@ == before,
                forall|j: int| 0 <= j < i ==> (#[trigger] before[j]).len() < size,
            decreases self.pool.len() - i,
        {
            assert(before[i as int] == self.pool@[i as int]@);
            i = i + 1;
        }
        proof {
            if i < self.pool.len() {
                assert(before[i as int] == self.pool@[i as int]@);
            }
            lemma_first_fit_is(before, size as nat, i as int);
        }
        if i < self.pool.len() {
            let buffer = self.pool.remove(i);
            assert(self@ =~= before.remove(i as int));
            return buffer;
        }
        let mut buffer: Vec<u8> = Vec::new();
        let mut n: usize = 0;
        while n < size
            invariant
                n <= size,
                buffer@ == zeroed(n as nat),
            decreases size - n,
        {
            buffer.push(0u8);
            n = n + 1;
            assert(buffer@ =~= zeroed(n as nat));
        }
        buffer
    }

    /// Takes a buffer back, to be handed out again. A buffer for which no
    /// slot is free is let go.
    pub fn release(&mut self, buffer: Vec<u8>)
        ensures
            final(self).slots() == old(self).slots(),
            old(self)@.len() < old(self).slots() ==> final(self)@ == old(self)@.push(buffer@),
            old(self)@.len() >= old(self).slots() ==> final(self)@ == old(self)@,
    {
        if self.pool.len() < self.slots {
            self.pool.push(buffer);
            assert(self@ =~= old(self)@.push(buffer@));
        }
    }
}

} // verus!
