//! Machine addresses and object references.
use vstd::prelude::*;

pub mod address_map;

pub use self::address_map::{AddressMap, SafeAddressMap, TraceMap};

verus! {

/// Base-two logarithm of the size of a heap word.
pub const LOG_POINTER_SIZE: usize = 3;

/// Size in bytes of a heap word: the unit in which objects are laid out and
/// by which the side tables are indexed.
pub const POINTER_SIZE: usize = 8;

/// `value` is a multiple of `align`.
pub open spec fn is_aligned(value: int, align: int) -> bool {
    value % align == 0
}

/// The smallest multiple of `align` that is not below `value`.
pub open spec fn align_up_spec(value: int, align: int) -> int {
    if value % align == 0 {
        value
    } else {
        value + align - value % align
    }
}

/// Rounding up gives a multiple of `align` less than `align` above `value`,
/// and the least such.
pub proof fn lemma_align_up(value: int, align: int)
    requires
        align > 0,
    ensures
        align_up_spec(value, align) % align == 0,
        value <= align_up_spec(value, align) < value + align,
        forall|m: int| value <= m && #[trigger] is_aligned(m, align) ==> align_up_spec(value, align) <= m,
{
    let r = align_up_spec(value, align);
    vstd::arithmetic::div_mod::lemma_fundamental_div_mod(value, align);
    vstd::arithmetic::div_mod::lemma_mod_bound(value, align);
    let q = value / align;
    if value % align != 0 {
        assert(r == align * (q + 1)) by (nonlinear_arith)
            requires
                value == align * q + value % align,
                r == value + align - value % align,
        ;
        vstd::arithmetic::div_mod::lemma_mod_multiples_basic(q + 1, align);
        assert((q + 1) * align == align * (q + 1)) by (nonlinear_arith);
    }
    assert forall|m: int| value <= m && #[trigger] is_aligned(m, align) implies r <= m by {
        if value % align != 0 {
            vstd::arithmetic::div_mod::lemma_fundamental_div_mod(m, align);
            let k = m / align;
            assert(k > q) by (nonlinear_arith)
                requires
                    m == align * k,
                    value == align * q + value % align,
                    0 < value % align < align,
                    value <= m,
                    align > 0,
            ;
            assert(align * k >= align * (q + 1)) by (nonlinear_arith)
                requires
                    k >= q + 1,
                    align > 0,
            ;
        }
    }
}

/// A machine address: a pointer-sized unsigned integer. Zero is the null
/// address.
#[derive(Copy, Clone, PartialEq, Eq, Structural, PartialOrd, Ord, Hash, Debug)]
pub struct Address(usize);

impl View for Address {
    type V = int;

    closed spec fn view(&self) -> int {
        self.0 as int
    }
}

impl Address {
    /// An address is a value of type `usize`, and two addresses with the same
    /// value are the same address.
    pub broadcast proof fn lemma_view(self)
        ensures
            0 <= #[trigger] self@ <= usize::MAX,
            self == Address::at(self@),
    {
    }

    /// The address with the given value.
    pub closed spec fn at(value: int) -> Address {
        Address(value as usize)
    }

    /// `at` is the inverse of the view on values that fit.
    pub broadcast proof fn lemma_at(value: int)
        requires
            0 <= value <= usize::MAX,
        ensures
            (#[trigger] Address::at(value))@ == value,
    {
    }

    /// The address `bytes` above this one.
    pub fn plus(&self, bytes: usize) -> (r: Address)
        requires
            self@ + bytes <= usize::MAX,
        ensures
            r@ == self@ + bytes,
    {
        Address(self.0 + bytes)
    }

    /// The distance in bytes from `another` up to this address.
    pub fn diff(&self, another: Address) -> (r: usize)
        requires
            another@ <= self@,
        ensures
            r == self@ - another@,
    {
        self.0 - another.0
    }

    /// This address rounded up to the next multiple of `align`.
    pub fn align_up(&self, align: usize) -> (r: Address)
        requires
            align > 0,
            align_up_spec(self@, align as int) <= usize::MAX,
        ensures
            r@ == align_up_spec(self@, align as int),
            r@ % (align as int) == 0,
            self@ <= r@ < self@ + align,
    {
        let rem: usize = self.0 % align;
        proof {
            lemma_align_up(self.0 as int, align as int);
        }
        if rem == 0 {
            Address(self.0)
        } else {
            Address(self.0 + (align - rem))
        }
    }

    /// The object reference that is this address.
    pub fn to_object_reference(self) -> (r: ObjectReference)
        ensures
            r@ == self@,
    {
        ObjectReference(self.0)
    }

    pub fn as_usize(&self) -> (r: usize)
        ensures
            r == self@,
    {
        self.0
    }

    /// The address with the given value.
    pub fn from_usize(value: usize) -> (r: Address)
        ensures
            r@ == value,
    {
        Address(value)
    }

    /// The null address.
    pub fn null() -> (r: Address)
        ensures
            r@ == 0,
    {
        Address(0)
    }

    /// Whether this is the null address.
    pub fn is_zero(&self) -> (r: bool)
        ensures
            r == (self@ == 0),
    {
        self.0 == 0
    }
}

/// A reference to an object: the address of the object's first byte, as the
/// allocator returned it.
#[derive(Copy, Clone, PartialEq, Eq, Structural, PartialOrd, Ord, Hash, Debug)]
pub struct ObjectReference(usize);

impl View for ObjectReference {
    type V = int;

    closed spec fn view(&self) -> int {
        self.0 as int
    }
}

impl ObjectReference {
    /// An object reference is a value of type `usize`.
    pub broadcast proof fn lemma_view(self)
        ensures
            0 <= #[trigger] self@ <= usize::MAX,
    {
    }

    /// The object reference with the given value.
    pub closed spec fn at(value: int) -> ObjectReference {
        ObjectReference(value as usize)
    }

    /// `at` is the inverse of the view on values that fit.
    pub broadcast proof fn lemma_at(value: int)
        requires
            0 <= value <= usize::MAX,
        ensures
            (#[trigger] ObjectReference::at(value))@ == value,
    {
    }

    /// Two object references with the same value are the same.
    pub proof fn lemma_same(self, other: ObjectReference)
        requires
            self@ == other@,
        ensures
            self == other,
    {
    }

    /// The address of the object's first byte.
    pub fn to_address(self) -> (r: Address)
        ensures
            r@ == self@,
    {
        Address(self.0)
    }

    pub fn as_usize(&self) -> (r: usize)
        ensures
            r == self@,
    {
        self.0
    }

    /// The object reference with the given value.
    pub fn from_usize(value: usize) -> (r: ObjectReference)
        ensures
            r@ == value,
    {
        ObjectReference(value)
    }
}

/// The low `len` bits of `value`.
pub open spec fn lower_bits_spec(value: u8, len: usize) -> u8 {
    if len >= 8 {
        value
    } else {
        value & (((1u8 << len) - 1) as u8)
    }
}

/// Whether bit `index` of `value` is set.
pub open spec fn test_nth_bit_spec(value: u8, index: usize) -> bool {
    index < 8 && value & (1u8 << index) != 0
}

/// The low `len` bits of `value`: `value` itself where `len` is 8 or more.
pub fn lower_bits(value: u8, len: usize) -> (r: u8)
    ensures
        r == lower_bits_spec(value, len),
{
    if len >= 8 {
        value
    } else {
        assert((1u8 << len) >= 1) by (bit_vector)
            requires
                len < 8,
        ;
        value & ((1u8 << len) - 1)
    }
}

/// Whether bit `index` of `value` is set; no bit at 8 or above is.
pub fn test_nth_bit(value: u8, index: usize) -> (r: bool)
    ensures
        r == test_nth_bit_spec(value, index),
{
    if index >= 8 {
        false
    } else {
        value & (1u8 << index) != 0
    }
}

} // verus!
