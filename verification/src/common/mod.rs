//! Machine words, addresses and object references, and the small bit helpers
//! that the heap's side tables are read with.
use vstd::prelude::*;
use vstd::arithmetic::power2::pow2;
use vstd::bits::low_bits_mask;

pub mod bitmap;
pub mod address_bitmap;
pub mod address_map;

pub use self::address_bitmap::AddressBitmap;
pub use self::address_map::AddressMap;

verus! {

/// Log2 of the size of a pointer in bytes.
pub const LOG_POINTER_SIZE: usize = 3;

/// Size of a pointer in bytes.
pub const POINTER_SIZE: usize = 8;

/// `true` when `a` is a power of two no larger than 2^63.
pub open spec fn is_power_of_two(a: usize) -> bool {
    exists|n: nat| n < 64 && a as int == pow2(n) as int
}

/// Eight, the alignment of a pointer-sized field, is a power of two.
pub proof fn lemma_pointer_size_is_power_of_two()
    ensures
        is_power_of_two(8),
{
    vstd::arithmetic::power2::lemma2_to64();
    assert(8int == pow2(3) as int);
}

/// A power of two is positive.
pub proof fn lemma_power_of_two_positive(a: usize)
    requires
        is_power_of_two(a),
    ensures
        a > 0,
{
    let n = choose|n: nat| n < 64 && a as int == pow2(n) as int;
    vstd::arithmetic::power2::lemma_pow2_pos(n);
}

/// Clearing the low bits of `y` below a power of two `a` rounds `y` down to a
/// multiple of `a`.
proof fn lemma_mask_rounds_down(y: usize, a: usize)
    requires
        is_power_of_two(a),
    ensures
        y & !((a - 1) as usize) == y - y % a,
{
    let n = choose|n: nat| n < 64 && a as int == pow2(n) as int;
    vstd::bits::lemma_u64_low_bits_mask_is_mod(y as u64, n);
    vstd::arithmetic::power2::lemma_pow2_pos(n);
    assert(low_bits_mask(n) == a - 1);
    let m = (a - 1) as usize;
    let yy = y as u64;
    let mm = m as u64;
    assert(yy & mm <= yy) by (bit_vector);
    assert(yy & !mm == yy - (yy & mm)) by (bit_vector);
    assert(y & !m == yy & !mm) by (bit_vector)
        requires
            yy == y as u64,
            mm == m as u64,
    ;
    assert(y & m == yy & mm) by (bit_vector)
        requires
            yy == y as u64,
            mm == m as u64,
    ;
}

/// The smallest multiple of `align` that is not below `x`.
pub open spec fn spec_align_up(x: int, align: int) -> int {
    ((x + align - 1) / align) * align
}

/// A byte address in the heap.
#[derive(Clone, Copy, PartialEq, Eq, Structural, Debug)]
pub struct Address(pub usize);

/// A reference to an object: the address of its first byte.
#[derive(Clone, Copy, PartialEq, Eq, Structural, Debug)]
pub struct ObjectReference(pub usize);

impl Address {
    /// The null address.
    pub fn zero() -> (a: Address)
        ensures
            a.0 == 0,
    {
        Address(0)
    }

    pub fn from_usize(v: usize) -> (a: Address)
        ensures
            a.0 == v,
    {
        Address(v)
    }

    pub fn as_usize(&self) -> (v: usize)
        ensures
            v == self.0,
    {
        self.0
    }

    pub fn is_zero(&self) -> (b: bool)
        ensures
            b == (self.0 == 0),
    {
        self.0 == 0
    }

    /// The address `bytes` bytes further on.
    pub fn plus(&self, bytes: usize) -> (a: Address)
        requires
            self.0 + bytes <= usize::MAX,
        ensures
            a.0 == self.0 + bytes,
    {
        Address(self.0 + bytes)
    }

    /// The distance in bytes from `another` up to this address.
    pub fn diff(&self, another: Address) -> (d: usize)
        requires
            another.0 <= self.0,
        ensures
            d == self.0 - another.0,
    {
        self.0 - another.0
    }

    /// This address rounded up to a multiple of `align`, a power of two.
    pub fn align_up(&self, align: usize) -> (a: Address)
        requires
            is_power_of_two(align),
            self.0 + align - 1 <= usize::MAX,
        ensures
            a.0 == spec_align_up(self.0 as int, align as int),
            a.0 % align == 0,
            self.0 <= a.0 < self.0 + align,
    {
        proof {
            lemma_power_of_two_positive(align);
        }
        let mask = align - 1;
        let y = self.0 + mask;
        proof {
            lemma_mask_rounds_down(y, align);
            assert(y - y % align == (y / align) * align) by (nonlinear_arith)
                requires
                    align > 0,
            ;
            assert(((y / align) * align) % (align as int) == 0) by (nonlinear_arith)
                requires
                    align > 0,
            ;
            assert(y % align < align);
        }
        Address(y & !mask)
    }

    /// The object whose first byte is at this address.
    pub fn to_object_reference(&self) -> (o: ObjectReference)
        ensures
            o.0 == self.0,
    {
        ObjectReference(self.0)
    }
}

impl ObjectReference {
    /// The address of the object's first byte.
    pub fn to_address(&self) -> (a: Address)
        ensures
            a.0 == self.0,
    {
        Address(self.0)
    }
}

/// Bit `index` of `value`.
pub open spec fn spec_nth_bit(value: u8, index: u8) -> bool {
    (value >> index) & 1u8 == 1u8
}

/// Whether bit `index` of `value` is set.
pub fn test_nth_bit(value: u8, index: usize) -> (b: bool)
    requires
        index < 8,
    ensures
        b == spec_nth_bit(value, index as u8),
{
    let i = index as u8;
    let b = value & (1u8 << i) != 0;
    assert(b == ((value >> i) & 1u8 == 1u8)) by (bit_vector)
        requires
            i < 8,
            b == (value & (1u8 << i) != 0),
    ;
    b
}

/// The `len` lowest bits of `value`, the others cleared.
pub open spec fn spec_lower_bits(value: u8, len: u8) -> u8 {
    value & (((1u8 << len) as int - 1) as u8)
}

/// The lowest `len` bits of `value`.
pub fn lower_bits(value: u8, len: usize) -> (r: u8)
    requires
        len < 8,
    ensures
        r == spec_lower_bits(value, len as u8),
{
    let l = len as u8;
    assert(1u8 << l >= 1u8) by (bit_vector)
        requires
            l < 8,
    ;
    value & ((1u8 << l) - 1)
}

} // verus!
