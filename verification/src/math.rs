//! Small value types: unsigned pairs, and floating-point values kept as the bits
//! that encode them.
use vstd::prelude::*;
use vstd::std_specs::btree::increasing_seq;
use vstd::std_specs::cmp::OrdSpec;

verus! {

/// A pair of unsigned numbers, horizontal first.
#[derive(Clone, Copy, Debug, PartialEq, Eq, Structural)]
pub struct UVec2 {
    pub x: u32,
    pub y: u32,
}

/// A single-precision number, kept as its IEEE 754 encoding.
#[derive(Clone, Copy, Debug, PartialEq, Eq, Structural)]
pub struct FloatBits {
    pub bits: u32,
}

/// Two single-precision numbers.
#[derive(Clone, Copy, Debug, PartialEq, Eq, Structural)]
pub struct Vec2 {
    pub x: FloatBits,
    pub y: FloatBits,
}

/// Three single-precision numbers.
#[derive(Clone, Copy, Debug, PartialEq, Eq, Structural)]
pub struct Vec3 {
    pub x: FloatBits,
    pub y: FloatBits,
    pub z: FloatBits,
}

/// Four single-precision numbers.
#[derive(Clone, Copy, Debug, PartialEq, Eq, Structural)]
pub struct Vec4 {
    pub x: FloatBits,
    pub y: FloatBits,
    pub z: FloatBits,
    pub w: FloatBits,
}

/// The encoding of zero.
pub const ZERO_BITS: u32 = 0;

/// The encoding of negative zero, which compares equal to zero.
pub const NEGATIVE_ZERO_BITS: u32 = 0x8000_0000;

/// The encoding of one.
pub const ONE_BITS: u32 = 0x3f80_0000;

impl FloatBits {
    /// Whether the number encoded is zero, of either sign.
    pub open spec fn zero(self) -> bool {
        self.bits == ZERO_BITS || self.bits == NEGATIVE_ZERO_BITS
    }

    /// Whether the number encoded is one.
    pub open spec fn one(self) -> bool {
        self.bits == ONE_BITS
    }

    /// Compares with zero, as `==` does on the number encoded.
    pub fn is_zero(self) -> (r: bool)
        ensures
            r == self.zero(),
            r == (self.bits == 0 || self.bits == 0x8000_0000),
    {
        self.bits == ZERO_BITS || self.bits == NEGATIVE_ZERO_BITS
    }

    /// Compares with one, as `==` does on the number encoded.
    pub fn is_one(self) -> (r: bool)
        ensures
            r == self.one(),
            r == (self.bits == 0x3f80_0000),
    {
        self.bits == ONE_BITS
    }
}

impl Vec3 {
    /// The three numbers followed by a fourth.
    pub fn extend(self, w: FloatBits) -> (r: Vec4)
        ensures
            r == (Vec4 { x: self.x, y: self.y, z: self.z, w }),
    {
        Vec4 { x: self.x, y: self.y, z: self.z, w }
    }
}

/// Numbers in increasing order, as the keys of a map come, are each less than the next.
pub proof fn lemma_increasing(keys: Seq<u64>)
    requires
        increasing_seq(keys),
    ensures
        forall|i: int, j: int| 0 <= i < j < keys.len() ==> keys[i] < keys[j],
{
    assert forall|i: int, j: int| 0 <= i < j < keys.len() implies keys[i] < keys[j] by {
        assert(keys[i].cmp_spec(&keys[j]) is Less);
    }
}

} // verus!
