//! One value for each pointer-sized word of an address range.
use vstd::prelude::*;
use crate::common::{Address, LOG_POINTER_SIZE};

verus! {

proof fn lemma_shift_is_word_index(x: usize)
    ensures
        x >> 3usize == x / 8,
{
    assert(x >> 3usize == x / 8) by (bit_vector);
}

/// A table over the words of `[start, end)`: the word at address `a` owns
/// entry `(a - start) / 8`.
pub struct AddressMap<T: Copy> {
    start: Address,
    end: Address,
    map: Vec<T>,
    len: usize,
}

impl<T: Copy> View for AddressMap<T> {
    type V = Seq<T>;

    closed spec fn view(&self) -> Seq<T> {
        self.map@
    }
}

impl<T: Copy> AddressMap<T> {
    pub closed spec fn spec_start(&self) -> usize {
        self.start.0
    }

    pub closed spec fn spec_end(&self) -> usize {
        self.end.0
    }

    pub closed spec fn wf(&self) -> bool {
        &&& self.start.0 <= self.end.0
        &&& self.len == (self.end.0 - self.start.0) / 8
        &&& self.map@.len() == self.len
    }

    /// The entry that stands for the word at `addr`.
    pub open spec fn index_of(&self, addr: Address) -> int {
        (addr.0 - self.spec_start()) / 8
    }

    /// `addr` lies at or above the start, and its entry exists.
    pub open spec fn covers(&self, addr: Address) -> bool {
        self.spec_start() <= addr.0 && self.index_of(addr) < self@.len()
    }

    /// A table over `[start, end)` with every entry `zero`.
    pub fn new(start: Address, end: Address, zero: T) -> (m: AddressMap<T>)
        requires
            start.0 <= end.0,
        ensures
            m.wf(),
            m.spec_start() == start.0,
            m.spec_end() == end.0,
            m@.len() == (end.0 - start.0) / 8,
            forall|i: int| 0 <= i < m@.len() ==> #[trigger] m@[i] == zero,
    {
        let len = end.diff(start) >> LOG_POINTER_SIZE;
        proof {
            lemma_shift_is_word_index((end.0 - start.0) as usize);
        }
        let mut map: Vec<T> = Vec::new();
        while map.len() < len
            invariant
                map.len() <= len,
                forall|i: int| 0 <= i < map.len() ==> #[trigger] map@[i] == zero,
            decreases len - map.len(),
        {
            map.push(zero);
        }
        AddressMap { start: start, end: end, map: map, len: len }
    }

    fn index(&self, addr: Address) -> (i: usize)
        requires
            self.spec_start() <= addr.0,
        ensures
            i == self.index_of(addr),
    {
        proof {
            lemma_shift_is_word_index((addr.0 - self.start.0) as usize);
        }
        addr.diff(self.start) >> LOG_POINTER_SIZE
    }

    /// Stores `value` in the entry of the word at `addr`.
    pub fn set(&mut self, addr: Address, value: T)
        requires
            old(self).wf(),
            old(self).covers(addr),
        ensures
            final(self).wf(),
            final(self).spec_start() == old(self).spec_start(),
            final(self).spec_end() == old(self).spec_end(),
            final(self)@ == old(self)@.update(old(self).index_of(addr), value),
    {
        let i = self.index(addr);
        self.map.set(i, value);
    }

    /// The entry of the word at `addr`.
    pub fn get(&self, addr: Address) -> (v: T)
        requires
            self.wf(),
            self.covers(addr),
        ensures
            v == self@[self.index_of(addr)],
    {
        let i = self.index(addr);
        self.map[i]
    }

    /// The number of entries.
    pub fn len(&self) -> (l: usize)
        requires
            self.wf(),
        ensures
            l == self@.len(),
    {
        self.len
    }
}

} // verus!
