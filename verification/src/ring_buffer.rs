//! Fixed-capacity circular sample store: the only persistent audio history.
//!
//! The buffer is allocated once at construction and never resized; writing
//! stores at `write_index` and advances it modulo the capacity.

use vstd::prelude::*;
use vstd::arithmetic::div_mod::{
    lemma_add_mod_noop, lemma_mod_self_0, lemma_mod_twice, lemma_small_mod,
    lemma_mod_bound, lemma_fundamental_div_mod,
};

verus! {

/// Mathematical model of a ring buffer: the stored samples and the index the
/// next write will land on.
pub struct RingModel {
    pub samples: Seq<i32>,
    pub write_index: int,
}

impl RingModel {
    /// Well-formedness: positive capacity, write index within it.
    pub open spec fn wf(self) -> bool {
        &&& self.samples.len() > 0
        &&& 0 <= self.write_index < self.samples.len()
    }

    pub open spec fn capacity(self) -> int {
        self.samples.len() as int
    }

    /// One write: store at `write_index`, advance it modulo capacity.
    pub open spec fn write(self, sample: i32) -> RingModel {
        RingModel {
            samples: self.samples.update(self.write_index, sample),
            write_index: (self.write_index + 1) % (self.samples.len() as int),
        }
    }

    /// A freshly constructed or reset buffer: all zeros, cursor at the start.
    pub open spec fn zeroed(capacity: int) -> RingModel {
        RingModel {
            samples: Seq::new(capacity as nat, |i: int| 0i32),
            write_index: 0,
        }
    }

    /// The state after a whole sequence of writes, first element first.
    pub open spec fn write_all(self, inputs: Seq<i32>) -> RingModel
        decreases inputs.len(),
    {
        if inputs.len() == 0 {
            self
        } else {
            self.write_all(inputs.drop_last()).write(inputs.last())
        }
    }
}

/// After `n` writes the cursor stands at `(start + n) mod capacity`.
pub open spec fn cursor_after(start: int, n: int, capacity: int) -> int {
    (start + n) % capacity
}

/// The write cursor after any sequence of writes is determined by the number
/// of writes alone: it advances by one modulo the capacity for each.
pub proof fn lemma_cursor_after_writes(m: RingModel, inputs: Seq<i32>)
    requires
        m.wf(),
    ensures
        m.write_all(inputs).wf(),
        m.write_all(inputs).capacity() == m.capacity(),
        m.write_all(inputs).write_index
            == cursor_after(m.write_index, inputs.len() as int, m.capacity()),
    decreases inputs.len(),
{
    let cap = m.capacity();
    if inputs.len() == 0 {
        lemma_small_mod(m.write_index as nat, cap as nat);
    } else {
        lemma_cursor_after_writes(m, inputs.drop_last());
        let prev = m.write_all(inputs.drop_last());
        lemma_mod_bound(prev.write_index, cap);
        lemma_mod_bound(m.write_index + inputs.len() - 1, cap);
        lemma_add_mod_noop(m.write_index + inputs.len() - 1, 1, cap);
        if cap == 1 {
            lemma_mod_self_0(cap);
            lemma_mod_bound(m.write_index + inputs.len(), cap);
            lemma_mod_bound((m.write_index + inputs.len() - 1) % cap + 1int % cap, cap);
        } else {
            lemma_small_mod(1nat, cap as nat);
            lemma_mod_twice(m.write_index + inputs.len() - 1, cap);
            lemma_add_mod_noop((m.write_index + inputs.len() - 1) % cap, 1, cap);
            lemma_mod_twice(m.write_index + inputs.len(), cap);
        }
    }
}

/// The write cursor cycles through `[0, capacity)` with exact period
/// `capacity`: it repeats after exactly `capacity` further writes, and never
/// earlier — within any window of `capacity` consecutive writes every cursor
/// position is distinct.
pub proof fn lemma_cursor_period(start: int, n1: int, n2: int, capacity: int)
    requires
        capacity > 0,
        0 <= start < capacity,
        0 <= n1 <= n2,
    ensures
        n2 == n1 + capacity ==> cursor_after(start, n1, capacity) == cursor_after(start, n2, capacity),
        n1 < n2 < n1 + capacity ==> cursor_after(start, n1, capacity) != cursor_after(start, n2, capacity),
{
    let c1 = cursor_after(start, n1, capacity);
    let c2 = cursor_after(start, n2, capacity);
    if n2 == n1 + capacity {
        lemma_add_mod_noop(start + n1, capacity, capacity);
        lemma_mod_self_0(capacity);
        lemma_mod_bound(start + n1, capacity);
        lemma_small_mod(((start + n1) % capacity) as nat, capacity as nat);
        lemma_mod_twice(start + n1, capacity);
    } else if n1 < n2 < n1 + capacity {
        lemma_fundamental_div_mod(start + n1, capacity);
        lemma_fundamental_div_mod(start + n2, capacity);
        lemma_mod_bound(start + n1, capacity);
        lemma_mod_bound(start + n2, capacity);
        if c1 == c2 {
            let q1 = (start + n1) / capacity;
            let q2 = (start + n2) / capacity;
            assert(n2 - n1 == capacity * (q2 - q1)) by (nonlinear_arith)
                requires
                    start + n1 == capacity * q1 + c1,
                    start + n2 == capacity * q2 + c2,
                    c1 == c2;
            assert(0 < capacity * (q2 - q1) < capacity);
            assert(false) by (nonlinear_arith)
                requires capacity > 0, 0 < capacity * (q2 - q1) < capacity;
        }
    }
}

/// Writing at most `capacity` samples into a fresh buffer lays them out in
/// order from slot zero, and every slot past them still holds zero: the
/// buffer is the literal history of what was written.
pub proof fn lemma_writes_fill_fresh_buffer(capacity: int, inputs: Seq<i32>)
    requires
        capacity > 0,
        inputs.len() <= capacity,
    ensures
        RingModel::zeroed(capacity).write_all(inputs).samples.len() == capacity,
        RingModel::zeroed(capacity).write_all(inputs).write_index == inputs.len() as int % capacity,
        forall|i: int|
            0 <= i < inputs.len() ==> RingModel::zeroed(capacity).write_all(inputs).samples[i]
                == inputs[i],
        forall|i: int|
            inputs.len() <= i < capacity ==> RingModel::zeroed(capacity).write_all(
                inputs,
            ).samples[i] == 0i32,
    decreases inputs.len(),
{
    let m0 = RingModel::zeroed(capacity);
    lemma_cursor_after_writes(m0, inputs);
    lemma_small_mod(0nat, capacity as nat);
    if inputs.len() > 0 {
        lemma_writes_fill_fresh_buffer(capacity, inputs.drop_last());
        lemma_cursor_after_writes(m0, inputs.drop_last());
        let prev = m0.write_all(inputs.drop_last());
        lemma_small_mod((inputs.len() - 1) as nat, capacity as nat);
        assert(prev.write_index == inputs.len() - 1);
        assert forall|i: int| 0 <= i < inputs.len() implies m0.write_all(inputs).samples[i]
            == inputs[i] by {
            if i < inputs.len() - 1 {
                assert(inputs.drop_last()[i] == inputs[i]);
            }
        }
    }
}

/// Circular store of audio samples, fixed capacity, no allocation after
/// construction.
pub struct RingBuffer {
    samples: Vec<i32>,
    write_index: usize,
}

impl View for RingBuffer {
    type V = RingModel;

    closed spec fn view(&self) -> RingModel {
        RingModel { samples: self.samples@, write_index: self.write_index as int }
    }
}

impl RingBuffer {
    /// A zero-filled buffer of the given capacity; a zero capacity is a fatal
    /// configuration error and is excluded by the caller.
    pub fn new(capacity: usize) -> (r: RingBuffer)
        requires
            capacity > 0,
        ensures
            r@ == RingModel::zeroed(capacity as int),
            r@.wf(),
    {
        let mut samples: Vec<i32> = Vec::new();
        let mut i: usize = 0;
        while i < capacity
            invariant
                i <= capacity,
                samples@.len() == i,
                forall|j: int| 0 <= j < i ==> samples@[j] == 0i32,
            decreases capacity - i,
        {
            samples.push(0);
            i = i + 1;
        }
        let r = RingBuffer { samples, write_index: 0 };
        proof {
            assert(r@.samples =~= RingModel::zeroed(capacity as int).samples);
        }
        r
    }

    pub fn capacity(&self) -> (c: usize)
        ensures
            c == self@.capacity(),
    {
        self.samples.len()
    }

    pub fn write_index(&self) -> (i: usize)
        ensures
            i == self@.write_index,
    {
        self.write_index
    }

    /// Stores `sample` at the write cursor, then advances the cursor by one,
    /// wrapping at the capacity.
    pub fn write(&mut self, sample: i32)
        requires
            old(self)@.wf(),
        ensures
            final(self)@ == old(self)@.write(sample),
            final(self)@.wf(),
    {
        let cap = self.samples.len();
        self.samples.set(self.write_index, sample);
        self.write_index = (self.write_index + 1) % cap;
        proof {
            lemma_mod_bound(old(self).write_index + 1, cap as int);
        }
    }

    /// Returns the sample stored at `index mod capacity`.
    pub fn read(&self, index: usize) -> (s: i32)
        requires
            self@.wf(),
        ensures
            s == self@.samples[index as int % self@.capacity()],
    {
        let cap = self.samples.len();
        let i = index % cap;
        proof {
            lemma_mod_bound(index as int, cap as int);
        }
        self.samples[i]
    }

    /// Zeroes every stored sample and rewinds the cursor, without
    /// reallocating.
    pub fn reset(&mut self)
        requires
            old(self)@.wf(),
        ensures
            final(self)@ == RingModel::zeroed(old(self)@.capacity()),
            final(self)@.wf(),
            final(self)@.capacity() == old(self)@.capacity(),
    {
        let cap = self.samples.len();
        let mut i: usize = 0;
        while i < cap
            invariant
                i <= cap,
                self.samples@.len() == cap,
                forall|j: int| 0 <= j < i ==> self.samples@[j] == 0i32,
            decreases cap - i,
        {
            self.samples.set(i, 0);
            i = i + 1;
        }
        self.write_index = 0;
        proof {
            assert(self@.samples =~= RingModel::zeroed(old(self)@.capacity()).samples);
        }
    }
}

} // verus!
