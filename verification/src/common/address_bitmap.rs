//! One bit for each pointer-sized word of an address range.
use vstd::prelude::*;
use crate::common::bitmap::{Bitmap, word_bit};
use crate::common::{Address, LOG_POINTER_SIZE};

verus! {

proof fn lemma_shift_is_word_index(x: usize)
    ensures
        x >> 3usize == x / 8,
{
    assert(x >> 3usize == x / 8) by (bit_vector);
}

/// A bitmap over the words of `[start, end)`: the word at address `a` owns
/// bit `(a - start) / 8`.
pub struct AddressBitmap {
    start: Address,
    end: Address,
    bitmap: Bitmap,
}

impl View for AddressBitmap {
    type V = Seq<bool>;

    closed spec fn view(&self) -> Seq<bool> {
        self.bitmap@
    }
}

impl AddressBitmap {
    pub closed spec fn spec_start(&self) -> usize {
        self.start.0
    }

    pub closed spec fn spec_end(&self) -> usize {
        self.end.0
    }

    pub closed spec fn wf(&self) -> bool {
        &&& self.bitmap.wf()
        &&& self.start.0 <= self.end.0
        &&& self.bitmap@.len() == (self.end.0 - self.start.0) / 8
    }

    /// The bit that stands for the word at `addr`.
    pub open spec fn index_of(&self, addr: Address) -> int {
        (addr.0 - self.spec_start()) / 8
    }

    /// `addr` lies at or above the start, and its bit exists.
    pub open spec fn covers(&self, addr: Address) -> bool {
        self.spec_start() <= addr.0 && self.index_of(addr) < self@.len()
    }

    /// A bitmap over `[start, end)` with every bit clear.
    pub fn new(start: Address, end: Address) -> (b: AddressBitmap)
        requires
            start.0 <= end.0,
        ensures
            b.wf(),
            b.spec_start() == start.0,
            b.spec_end() == end.0,
            b@.len() == (end.0 - start.0) / 8,
            forall|i: int| 0 <= i < b@.len() ==> !#[trigger] b@[i],
    {
        let bitmap_len = end.diff(start) >> LOG_POINTER_SIZE;
        proof {
            lemma_shift_is_word_index((end.0 - start.0) as usize);
        }
        let bitmap = Bitmap::new(bitmap_len);
        AddressBitmap { start: start, end: end, bitmap: bitmap }
    }

    fn index(&self, addr: Address) -> (i: usize)
        requires
            self.spec_start() <= addr.0,
        ensures
            i == self.index_of(addr),
    {
        proof {
            lemma_shift_is_word_index((addr.0 - self.start.0) as usize);
        }
        addr.diff(self.start) >> LOG_POINTER_SIZE
    }

    /// Sets the bit of the word at `addr`.
    pub fn set_bit(&mut self, addr: Address)
        requires
            old(self).wf(),
            old(self).covers(addr),
        ensures
            final(self).wf(),
            final(self).spec_start() == old(self).spec_start(),
            final(self).spec_end() == old(self).spec_end(),
            final(self)@ == old(self)@.update(old(self).index_of(addr), true),
    {
        let i = self.index(addr);
        self.bitmap.set_bit(i);
    }

    /// Clears the bit of the word at `addr`.
    pub fn clear_bit(&mut self, addr: Address)
        requires
            old(self).wf(),
            old(self).covers(addr),
        ensures
            final(self).wf(),
            final(self).spec_start() == old(self).spec_start(),
            final(self).spec_end() == old(self).spec_end(),
            final(self)@ == old(self)@.update(old(self).index_of(addr), false),
    {
        let i = self.index(addr);
        self.bitmap.clear_bit(i);
    }

    /// Whether the bit of the word at `addr` is set.
    pub fn test_bit(&self, addr: Address) -> (r: bool)
        requires
            self.wf(),
            self.covers(addr),
        ensures
            r == self@[self.index_of(addr)],
    {
        let i = self.index(addr);
        self.bitmap.test_bit(i)
    }

    /// What `set_bit(a)` (`value` true) or `clear_bit(a)` (`value` false)
    /// leaves is read back by `test_bit`: the bit of `a` is `value`, and the
    /// bit of any other word `a2` is what it was.
    pub proof fn lemma_test_after_write(
        before: &AddressBitmap,
        after: &AddressBitmap,
        a: Address,
        a2: Address,
        value: bool,
    )
        requires
            before.wf(),
            before.covers(a),
            before.covers(a2),
            a.0 % 8 == before.spec_start() % 8,
            a2.0 % 8 == before.spec_start() % 8,
            a != a2,
            after.spec_start() == before.spec_start(),
            after@ == before@.update(before.index_of(a), value),
        ensures
            after@[after.index_of(a)] == value,
            after@[after.index_of(a2)] == before@[before.index_of(a2)],
    {
        let s0 = before.spec_start() as int;
        let x = a.0 as int;
        let y = a2.0 as int;
        assert((x - s0) / 8 != (y - s0) / 8) by (nonlinear_arith)
            requires
                x % 8 == s0 % 8,
                y % 8 == s0 % 8,
                x != y,
                x >= s0,
                y >= s0,
        ;
    }

    /// The number of words from `addr` to the next word after it whose bit is
    /// set.
    pub fn length_until_next_bit(&self, addr: Address) -> (r: usize)
        requires
            self.wf(),
            self.spec_start() <= addr.0,
            exists|j: int| self.index_of(addr) < j < self@.len() && #[trigger] self@[j],
        ensures
            r >= 1,
            self.index_of(addr) + r < self@.len(),
            self@[self.index_of(addr) + r],
            forall|k: int| 1 <= k < r ==> !#[trigger] self@[self.index_of(addr) + k],
    {
        let i = self.index(addr);
        self.bitmap.length_until_next_bit(i)
    }

    /// Writes the `length` lowest bits of `value` into the bits of the words
    /// from `addr` on.
    pub fn set(&mut self, addr: Address, value: u64, length: usize)
        requires
            old(self).wf(),
            old(self).spec_start() <= addr.0,
            length <= 64,
            old(self).index_of(addr) + length <= old(self)@.len(),
        ensures
            final(self).wf(),
            final(self).spec_start() == old(self).spec_start(),
            final(self).spec_end() == old(self).spec_end(),
            final(self)@.len() == old(self)@.len(),
            forall|i: int|
                0 <= i < old(self)@.len() ==> #[trigger] final(self)@[i] == if old(self).index_of(
                    addr,
                ) <= i < old(self).index_of(addr) + length {
                    word_bit(value, (i - old(self).index_of(addr)) as u64)
                } else {
                    old(self)@[i]
                },
    {
        let index = self.index(addr);
        self.bitmap.set(index, value, length);
    }

    /// The bits of the `length` words from `addr` on, the first one lowest.
    pub fn get(&self, addr: Address, length: usize) -> (r: u64)
        requires
            self.wf(),
            self.spec_start() <= addr.0,
            length <= 64,
            self.index_of(addr) + length <= self@.len(),
        ensures
            forall|c: u64|
                c < 64 ==> #[trigger] word_bit(r, c) == (c < length && self@[self.index_of(addr)
                    + c]),
    {
        let index = self.index(addr);
        self.bitmap.get(index, length)
    }

    /// The bits in order, for printing.
    pub fn print(&self) -> (bits: Vec<bool>)
        requires
            self.wf(),
        ensures
            bits@ == self@,
    {
        self.bitmap.print()
    }
}

} // verus!
