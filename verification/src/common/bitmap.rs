//! A fixed-length sequence of bits, packed into 64-bit words.
use vstd::prelude::*;

verus! {

/// Bit `b` (counted from the least significant) of the word `w`.
pub open spec fn word_bit(w: u64, b: u64) -> bool {
    (w >> b) & 1u64 == 1u64
}

proof fn lemma_word_bit_zero(c: u64)
    requires
        c < 64,
    ensures
        !word_bit(0u64, c),
{
    assert(!((0u64 >> c) & 1u64 == 1u64)) by (bit_vector);
}

proof fn lemma_word_bit_or(w: u64, b: u64, c: u64)
    requires
        b < 64,
        c < 64,
    ensures
        word_bit(w | (1u64 << b), c) == (c == b || word_bit(w, c)),
{
    assert(((w | (1u64 << b)) >> c) & 1u64 == 1u64 <==> (c == b || (w >> c) & 1u64 == 1u64))
        by (bit_vector)
        requires
            b < 64,
            c < 64,
    ;
}

proof fn lemma_word_bit_and_not(w: u64, b: u64, c: u64)
    requires
        b < 64,
        c < 64,
    ensures
        word_bit(w & !(1u64 << b), c) == (c != b && word_bit(w, c)),
{
    assert(((w & !(1u64 << b)) >> c) & 1u64 == 1u64 <==> (c != b && (w >> c) & 1u64 == 1u64))
        by (bit_vector)
        requires
            b < 64,
            c < 64,
    ;
}

proof fn lemma_split_index(i: usize)
    ensures
        i >> 6usize == i / 64,
        i & 63usize == i % 64,
{
    assert(i >> 6usize == i / 64 && i & 63usize == i % 64) by (bit_vector);
}

/// The bit at position `i` of a packed word sequence.
pub open spec fn packed_bit(words: Seq<u64>, i: int) -> bool {
    word_bit(words[i / 64], (i % 64) as u64)
}

/// A sequence of `len()` bits. Its view is the sequence of its bits; the words
/// that hold them have one spare word at the end.
pub struct Bitmap {
    bitmap: Vec<u64>,
    bitmap_len: usize,
}

impl View for Bitmap {
    type V = Seq<bool>;

    closed spec fn view(&self) -> Seq<bool> {
        Seq::new(self.bitmap_len as nat, |i: int| packed_bit(self.bitmap@, i))
    }
}

impl Bitmap {
    /// The words hold every bit, with one word to spare.
    pub closed spec fn wf(&self) -> bool {
        self.bitmap@.len() == self.bitmap_len / 64 + 1
    }

    /// A bitmap of `length` bits, all clear.
    pub fn new(length: usize) -> (b: Bitmap)
        ensures
            b.wf(),
            b@.len() == length,
            forall|i: int| 0 <= i < length ==> !#[trigger] b@[i],
    {
        let n = length / 64 + 1;
        let mut words: Vec<u64> = Vec::new();
        while words.len() < n
            invariant
                words.len() <= n,
                forall|k: int| 0 <= k < words.len() ==> words@[k] == 0u64,
            decreases n - words.len(),
        {
            words.push(0u64);
        }
        let b = Bitmap { bitmap: words, bitmap_len: length };
        assert forall|i: int| 0 <= i < length implies !#[trigger] b@[i] by {
            lemma_word_bit_zero((i % 64) as u64);
        }
        b
    }

    /// The number of bits.
    pub fn len(&self) -> (l: usize)
        ensures
            l == self@.len(),
    {
        self.bitmap_len
    }

    /// Sets bit `index`.
    pub fn set_bit(&mut self, index: usize)
        requires
            old(self).wf(),
            index < old(self)@.len(),
        ensures
            final(self).wf(),
            final(self)@ == old(self)@.update(index as int, true),
    {
        proof {
            lemma_split_index(index);
        }
        let w = index >> 6usize;
        let b = (index & 63usize) as u64;
        let old_word = self.bitmap[w];
        let ghost old_words = self.bitmap@;
        self.bitmap.set(w, old_word | (1u64 << b));
        proof {
            assert forall|j: int| 0 <= j < self.bitmap_len implies #[trigger] self@[j]
                == old(self)@.update(index as int, true)[j] by {
                assert(packed_bit(old_words, j) == old(self)@[j]);
                if j / 64 == w as int {
                    lemma_word_bit_or(old_word, b, (j % 64) as u64);
                }
            }
            assert(self@ =~= old(self)@.update(index as int, true));
        }
    }

    /// Clears bit `index`.
    pub fn clear_bit(&mut self, index: usize)
        requires
            old(self).wf(),
            index < old(self)@.len(),
        ensures
            final(self).wf(),
            final(self)@ == old(self)@.update(index as int, false),
    {
        proof {
            lemma_split_index(index);
        }
        let w = index >> 6usize;
        let b = (index & 63usize) as u64;
        let old_word = self.bitmap[w];
        let ghost old_words = self.bitmap@;
        self.bitmap.set(w, old_word & !(1u64 << b));
        proof {
            assert forall|j: int| 0 <= j < self.bitmap_len implies #[trigger] self@[j]
                == old(self)@.update(index as int, false)[j] by {
                assert(packed_bit(old_words, j) == old(self)@[j]);
                if j / 64 == w as int {
                    lemma_word_bit_and_not(old_word, b, (j % 64) as u64);
                }
            }
            assert(self@ =~= old(self)@.update(index as int, false));
        }
    }

    /// Whether bit `index` is set.
    pub fn test_bit(&self, index: usize) -> (r: bool)
        requires
            self.wf(),
            index < self@.len(),
        ensures
            r == self@[index as int],
    {
        proof {
            lemma_split_index(index);
        }
        let w = index >> 6usize;
        let b = (index & 63usize) as u64;
        (self.bitmap[w] >> b) & 1u64 == 1u64
    }

    /// The distance from `index` to the next set bit after it.
    pub fn length_until_next_bit(&self, index: usize) -> (r: usize)
        requires
            self.wf(),
            exists|j: int| index < j < self@.len() && #[trigger] self@[j],
        ensures
            r >= 1,
            index + r < self@.len(),
            self@[index + r],
            forall|k: int| 1 <= k < r ==> !#[trigger] self@[index + k],
    {
        let mut len: usize = 1;
        loop
            invariant
                self.wf(),
                1 <= len,
                index + len <= self@.len(),
                exists|j: int| index < j < self@.len() && #[trigger] self@[j],
                forall|k: int| 1 <= k < len ==> !#[trigger] self@[index + k],
            decreases self@.len() - index - len,
        {
            if index + len >= self.bitmap_len {
                proof {
                    let j = choose|j: int| index < j < self@.len() && #[trigger] self@[j];
                    assert(!self@[index + (j - index)]);
                }
            }
            if self.test_bit(index + len) {
                return len;
            }
            len = len + 1;
        }
    }

    /// Writes the `length` lowest bits of `value` at `index..index + length`,
    /// the lowest bit at `index`.
    pub fn set(&mut self, index: usize, value: u64, length: usize)
        requires
            old(self).wf(),
            length <= 64,
            index + length <= old(self)@.len(),
        ensures
            final(self).wf(),
            final(self)@.len() == old(self)@.len(),
            forall|i: int|
                0 <= i < old(self)@.len() ==> #[trigger] final(self)@[i] == if index <= i < index
                    + length {
                    word_bit(value, (i - index) as u64)
                } else {
                    old(self)@[i]
                },
    {
        let mut k: usize = 0;
        while k < length
            invariant
                self.wf(),
                k <= length <= 64,
                index + length <= old(self)@.len(),
                self@.len() == old(self)@.len(),
                forall|i: int|
                    0 <= i < old(self)@.len() ==> #[trigger] self@[i] == if index <= i < index + k {
                        word_bit(value, (i - index) as u64)
                    } else {
                        old(self)@[i]
                    },
            decreases length - k,
        {
            let kk = k as u64;
            if (value >> kk) & 1u64 == 1u64 {
                self.set_bit(index + k);
            } else {
                self.clear_bit(index + k);
            }
            k = k + 1;
        }
    }

    /// The bits at `index..index + length`, the one at `index` lowest; the
    /// higher bits of the result are clear.
    pub fn get(&self, index: usize, length: usize) -> (r: u64)
        requires
            self.wf(),
            length <= 64,
            index + length <= self@.len(),
        ensures
            forall|c: u64|
                c < 64 ==> #[trigger] word_bit(r, c) == (c < length && self@[index + c]),
    {
        let mut r: u64 = 0;
        let mut k: usize = 0;
        proof {
            assert forall|c: u64| c < 64 implies !#[trigger] word_bit(r, c) by {
                lemma_word_bit_zero(c);
            }
        }
        while k < length
            invariant
                self.wf(),
                k <= length <= 64,
                index + length <= self@.len(),
                forall|c: u64| c < 64 ==> #[trigger] word_bit(r, c) == (c < k && self@[index + c]),
            decreases length - k,
        {
            let kk = k as u64;
            if self.test_bit(index + k) {
                let ghost old_r = r;
                r = r | (1u64 << kk);
                proof {
                    assert forall|c: u64| c < 64 implies #[trigger] word_bit(r, c) == (c < k + 1
                        && self@[index + c]) by {
                        lemma_word_bit_or(old_r, kk, c);
                    }
                }
            }
            k = k + 1;
        }
        r
    }

    /// The bits in order, for printing.
    pub fn print(&self) -> (bits: Vec<bool>)
        requires
            self.wf(),
        ensures
            bits@ == self@,
    {
        let mut bits: Vec<bool> = Vec::new();
        let mut i: usize = 0;
        while i < self.bitmap_len
            invariant
                self.wf(),
                i <= self@.len(),
                bits@ == self@.subrange(0, i as int),
            decreases self@.len() - i,
        {
            bits.push(self.test_bit(i));
            i = i + 1;
        }
        bits
    }
}


/// Reading back `length` bits right after writing them gives the `length`
/// lowest bits of the value written, and clear bits above them: `before` and
/// `after` are the bits before and after `set(index, value, length)`, and `r`
/// what `get(index, length)` returns on `after`.
pub proof fn lemma_get_after_set(
    before: Seq<bool>,
    after: Seq<bool>,
    index: int,
    value: u64,
    length: int,
    r: u64,
)
    requires
        0 <= index,
        0 <= length <= 64,
        index + length <= before.len(),
        after.len() == before.len(),
        forall|i: int|
            0 <= i < before.len() ==> #[trigger] after[i] == if index <= i < index + length {
                word_bit(value, (i - index) as u64)
            } else {
                before[i]
            },
        forall|c: u64| c < 64 ==> #[trigger] word_bit(r, c) == (c < length && after[index + c]),
    ensures
        forall|c: u64| c < 64 ==> #[trigger] word_bit(r, c) == (c < length && word_bit(value, c)),
{
    assert forall|c: u64| c < 64 implies #[trigger] word_bit(r, c) == (c < length && word_bit(
        value,
        c,
    )) by {
        if c < length {
            assert(after[index + c] == word_bit(value, ((index + c) - index) as u64));
        }
    }
}

} // verus!
