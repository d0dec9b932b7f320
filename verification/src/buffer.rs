//! Pre-allocated buffer through which hot loops hand results to each
//! other: `n_slots` slots of `slot_size` values each, laid out one after
//! the other. Values are held as the bit patterns of their `f64` values;
//! reads outside the buffer give `NaN` and writes outside it are dropped.
use crate::cluster::F64_NAN_BITS;
use vstd::prelude::*;

verus! {

/// Slots of `f64` values (as bit patterns) shared between hot loops.
#[derive(Debug)]
pub struct ResultBuffer {
    data: Vec<u64>,
    slot_size: usize,
    n_slots: usize,
}

impl ResultBuffer {
    /// All values, slot after slot.
    pub closed spec fn values(&self) -> Seq<u64> {
        self.data@
    }

    /// Number of slots.
    pub closed spec fn slots(&self) -> nat {
        self.n_slots as nat
    }

    /// Values per slot.
    pub closed spec fn width(&self) -> nat {
        self.slot_size as nat
    }

    /// The buffer holds `slots() * width()` values.
    pub closed spec fn wf(&self) -> bool {
        self.data@.len() == self.n_slots * self.slot_size
    }

    /// Value at absolute index `idx`, `NaN` outside the buffer.
    pub open spec fn value_at(&self, idx: int) -> u64 {
        if 0 <= idx < self.values().len() {
            self.values()[idx]
        } else {
            F64_NAN_BITS
        }
    }

    /// A buffer of `n_slots` slots of `slot_size` zeros.
    pub fn new(n_slots: usize, slot_size: usize) -> (b: Self)
        requires
            n_slots * slot_size <= usize::MAX,
        ensures
            b.wf(),
            b.slots() == n_slots,
            b.width() == slot_size,
            b.values() == Seq::new((n_slots * slot_size) as nat, |i: int| 0u64),
    {
        let total = n_slots * slot_size;
        let mut data: Vec<u64> = Vec::new();
        let mut i: usize = 0;
        while i < total
            invariant
                i <= total,
                data@ == Seq::new(i as nat, |j: int| 0u64),
            decreases total - i,
        {
            data.push(0);
            i += 1;
            assert(data@ =~= Seq::new(i as nat, |j: int| 0u64));
        }
        ResultBuffer { data, slot_size, n_slots }
    }

    /// Writes `value` at `offset` of `slot`; nothing happens outside the
    /// buffer.
    pub fn write(&mut self, slot: u32, offset: u32, value: u64)
        requires
            old(self).wf(),
            slot * old(self).width() + offset <= usize::MAX,
        ensures
            final(self).wf(),
            final(self).slots() == old(self).slots(),
            final(self).width() == old(self).width(),
            final(self).values() == if slot * old(self).width() + offset < old(self).values().len() {
                old(self).values().update(slot * old(self).width() + offset, value)
            } else {
                old(self).values()
            },
    {
        let idx = slot as usize * self.slot_size + offset as usize;
        if idx < self.data.len() {
            self.data.set(idx, value);
        }
    }

    /// The value at `offset` of `slot`, `NaN` outside the buffer.
    pub fn read(&self, slot: u32, offset: u32) -> (v: u64)
        requires
            slot * self.width() + offset <= usize::MAX,
        ensures
            v == self.value_at(slot * self.width() + offset),
    {
        let idx = slot as usize * self.slot_size + offset as usize;
        if idx < self.data.len() {
            self.data[idx]
        } else {
            F64_NAN_BITS
        }
    }

    /// The value at absolute index `base + offset`, `NaN` outside the
    /// buffer.
    pub fn read_indexed(&self, base: u32, offset: u32) -> (v: u64)
        requires
            base + offset <= u32::MAX,
        ensures
            v == self.value_at(base + offset),
    {
        let idx = (base + offset) as usize;
        if idx < self.data.len() {
            self.data[idx]
        } else {
            F64_NAN_BITS
        }
    }

    /// Writes `value` at absolute index `base + offset`; nothing happens
    /// outside the buffer.
    pub fn write_indexed(&mut self, base: u32, offset: u32, value: u64)
        requires
            old(self).wf(),
            base + offset <= u32::MAX,
        ensures
            final(self).wf(),
            final(self).slots() == old(self).slots(),
            final(self).width() == old(self).width(),
            final(self).values() == if base + offset < old(self).values().len() {
                old(self).values().update(base + offset, value)
            } else {
                old(self).values()
            },
    {
        let idx = (base + offset) as usize;
        if idx < self.data.len() {
            self.data.set(idx, value);
        }
    }

    /// The values of slot `slot`.
    pub fn slot(&self, slot: usize) -> (s: &[u64])
        requires
            self.wf(),
            slot < self.slots(),
        ensures
            s@ == self.values().subrange(slot * self.width(), (slot + 1) * self.width()),
    {
        let len = self.data.len();
        proof {
            let s = slot as int;
            let w = self.slot_size as int;
            let n = self.n_slots as int;
            assert((s + 1) * w <= n * w) by (nonlinear_arith)
                requires
                    s < n,
                    w >= 0,
            ;
            assert((s + 1) * w == s * w + w) by (nonlinear_arith);
            assert(s * w + w <= len);
        }
        let start = slot * self.slot_size;
        let end = start + self.slot_size;
        vstd::slice::slice_subrange(self.data.as_slice(), start, end)
    }

    /// Number of slots.
    pub fn n_slots(&self) -> (n: usize)
        ensures
            n == self.slots(),
    {
        self.n_slots
    }

    /// Values per slot.
    pub fn slot_size(&self) -> (n: usize)
        ensures
            n == self.width(),
    {
        self.slot_size
    }

    /// Total number of values.
    pub fn len(&self) -> (n: usize)
        ensures
            n == self.values().len(),
    {
        self.data.len()
    }

    /// All values, slot after slot.
    pub fn data(&self) -> (d: &[u64])
        ensures
            d@ == self.values(),
    {
        self.data.as_slice()
    }
}

/// A read gives back the last write to the same place, and a write
/// leaves every other place as it was.
pub proof fn law_read_after_write(buf: ResultBuffer, after: ResultBuffer, idx: int, value: u64, other: int)
    requires
        buf.wf(),
        0 <= idx < buf.values().len(),
        after.values() == buf.values().update(idx, value),
        other != idx,
    ensures
        after.value_at(idx) == value,
        after.value_at(other) == buf.value_at(other),
{
}

/// The last results of a runtime, overwritten in a ring: `f64` bit
/// patterns, `NaN` until written.
#[derive(Debug)]
pub struct ResultRing {
    results: Vec<u64>,
    next: usize,
}

impl ResultRing {
    /// The stored results, by position.
    pub closed spec fn entries(&self) -> Seq<u64> {
        self.results@
    }

    /// Position of the next write.
    pub closed spec fn cursor(&self) -> nat {
        self.next as nat
    }

    /// The cursor points inside a non-empty ring.
    pub closed spec fn wf(&self) -> bool {
        self.results@.len() == 0 || self.next < self.results@.len()
    }

    /// A ring of `capacity` results, all `NaN`.
    pub fn new(capacity: usize) -> (r: Self)
        ensures
            r.wf(),
            r.entries() == Seq::new(capacity as nat, |i: int| F64_NAN_BITS),
            r.cursor() == 0,
    {
        let mut results: Vec<u64> = Vec::new();
        let mut i: usize = 0;
        while i < capacity
            invariant
                i <= capacity,
                results@ == Seq::new(i as nat, |j: int| F64_NAN_BITS),
            decreases capacity - i,
        {
            results.push(F64_NAN_BITS);
            i += 1;
            assert(results@ =~= Seq::new(i as nat, |j: int| F64_NAN_BITS));
        }
        ResultRing { results, next: 0 }
    }

    /// Stores `value` at the cursor and moves the cursor on, back to the
    /// start after the last position; a ring of capacity `0` stays empty.
    pub fn write(&mut self, value: u64)
        requires
            old(self).wf(),
        ensures
            final(self).wf(),
            old(self).entries().len() == 0 ==> final(self).entries() == old(self).entries(),
            old(self).entries().len() > 0 ==> {
                &&& final(self).entries() == old(self).entries().update(old(self).cursor() as int, value)
                &&& final(self).cursor() == (old(self).cursor() + 1) % old(self).entries().len()
            },
    {
        let n = self.results.len();
        if n == 0 {
            return;
        }
        self.results.set(self.next, value);
        self.next = (self.next + 1) % n;
    }

    /// The stored results.
    pub fn results(&self) -> (r: &[u64])
        ensures
            r@ == self.entries(),
    {
        self.results.as_slice()
    }

    /// Capacity of the ring.
    pub fn result_count(&self) -> (n: usize)
        ensures
            n == self.entries().len(),
    {
        self.results.len()
    }
}

} // verus!
