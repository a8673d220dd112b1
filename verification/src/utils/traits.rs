//! Contracts shared by the unsigned and signed machine integers, so that
//! generic containers such as the bit flags and the run-length coder can be
//! verified once for every width.

use vstd::prelude::*;

verus! {

/// An unsigned machine integer: a value with a width in bits, readable as a
/// natural number and bit by bit.
pub trait Unsigned: Sized + Copy {
    /// The value as a natural number.
    spec fn as_nat(self) -> nat;

    /// The largest representable value.
    spec fn max_val() -> nat;

    /// The number of bits.
    spec fn bit_count() -> nat;

    /// Bit `i`, counted from the least significant end.
    spec fn bit(self, i: nat) -> bool;

    /// The all-zero value.
    fn zero() -> (r: Self)
        ensures
            r.as_nat() == 0,
            forall|j: nat| j < Self::bit_count() ==> !(#[trigger] r.bit(j)),
    ;

    /// Whether two values are equal.
    fn eq_val(self, other: Self) -> (r: bool)
        ensures
            r == (self == other),
    ;

    /// The sum of two values that fits the width.
    fn add_val(self, other: Self) -> (r: Self)
        requires
            self.as_nat() + other.as_nat() <= Self::max_val(),
        ensures
            r.as_nat() == self.as_nat() + other.as_nat(),
    ;

    /// The bitwise conjunction.
    fn and_val(self, other: Self) -> (r: Self)
        ensures
            forall|j: nat|
                j < Self::bit_count() ==> (#[trigger] r.bit(j)) == (self.bit(j) && other.bit(j)),
    ;

    /// The bitwise disjunction.
    fn or_val(self, other: Self) -> (r: Self)
        ensures
            forall|j: nat|
                j < Self::bit_count() ==> (#[trigger] r.bit(j)) == (self.bit(j) || other.bit(j)),
    ;

    /// The bitwise exclusive disjunction.
    fn xor_val(self, other: Self) -> (r: Self)
        ensures
            forall|j: nat|
                j < Self::bit_count() ==> (#[trigger] r.bit(j)) == (self.bit(j) != other.bit(j)),
    ;

    /// The value with bit `index` set.
    fn set_bit(self, index: usize) -> (r: Self)
        requires
            index < Self::bit_count(),
        ensures
            forall|j: nat|
                j < Self::bit_count() ==> (#[trigger] r.bit(j)) == (j == index || self.bit(j)),
    ;

    /// The value with bit `index` cleared.
    fn clear_bit(self, index: usize) -> (r: Self)
        requires
            index < Self::bit_count(),
        ensures
            forall|j: nat|
                j < Self::bit_count() ==> (#[trigger] r.bit(j)) == (j != index && self.bit(j)),
    ;

    /// Reads bit `index`.
    fn get_bit(self, index: usize) -> (r: bool)
        requires
            index < Self::bit_count(),
        ensures
            r == self.bit(index as nat),
    ;
}

/// A signed machine integer: a value with bounds, readable as an integer.
pub trait Signed: Sized + Copy {
    /// The value as an integer.
    spec fn as_int(self) -> int;

    /// The smallest representable value.
    spec fn min_val() -> int;

    /// The largest representable value.
    spec fn max_val() -> int;

    /// Whether two values are equal.
    fn eq_val(self, other: Self) -> (r: bool)
        ensures
            r == (self == other),
    ;

    /// The sum of two values that stays within the bounds.
    fn add_val(self, other: Self) -> (r: Self)
        requires
            Self::min_val() <= self.as_int() + other.as_int() <= Self::max_val(),
        ensures
            r.as_int() == self.as_int() + other.as_int(),
    ;

    /// The difference of two values that stays within the bounds.
    fn sub_val(self, other: Self) -> (r: Self)
        requires
            Self::min_val() <= self.as_int() - other.as_int() <= Self::max_val(),
        ensures
            r.as_int() == self.as_int() - other.as_int(),
    ;
}

impl Unsigned for u8 {
    open spec fn as_nat(self) -> nat {
        self as nat
    }

    open spec fn max_val() -> nat {
        0xff
    }

    open spec fn bit_count() -> nat {
        8
    }

    open spec fn bit(self, i: nat) -> bool {
        i < 8 && ((self as u64) >> (i as u64)) & 1 == 1
    }

    fn zero() -> (r: Self) {
        proof {
            assert forall|j: nat| j < 8 implies !(0u8.bit(j)) by {
                let ju = j as u64;
                assert((0u64 >> ju) & 1 == 0) by (bit_vector);
            }
        }
        0
    }

    fn eq_val(self, other: Self) -> (r: bool) {
        self == other
    }

    fn add_val(self, other: Self) -> (r: Self) {
        self + other
    }

    fn and_val(self, other: Self) -> (r: Self) {
        let x = self;
        let y = other;
        let r = x & y;
        proof {
            assert forall|j: nat| j < 8 implies (#[trigger] r.bit(j)) == (x.bit(j) && y.bit(j)) by {
                let ju = j as u64;
                assert(((((x & y) as u64) >> ju) & 1 == 1) == ((((x as u64) >> ju) & 1 == 1) && (((
                y as u64) >> ju) & 1 == 1))) by (bit_vector)
                    requires
                        ju < 8,
                ;
            }
        }
        r
    }

    fn or_val(self, other: Self) -> (r: Self) {
        let x = self;
        let y = other;
        let r = x | y;
        proof {
            assert forall|j: nat| j < 8 implies (#[trigger] r.bit(j)) == (x.bit(j) || y.bit(j)) by {
                let ju = j as u64;
                assert(((((x | y) as u64) >> ju) & 1 == 1) == ((((x as u64) >> ju) & 1 == 1) || (((
                y as u64) >> ju) & 1 == 1))) by (bit_vector)
                    requires
                        ju < 8,
                ;
            }
        }
        r
    }

    fn xor_val(self, other: Self) -> (r: Self) {
        let x = self;
        let y = other;
        let r = x ^ y;
        proof {
            assert forall|j: nat| j < 8 implies (#[trigger] r.bit(j)) == (x.bit(j) != y.bit(j)) by {
                let ju = j as u64;
                assert(((((x ^ y) as u64) >> ju) & 1 == 1) == ((((x as u64) >> ju) & 1 == 1) != (((
                y as u64) >> ju) & 1 == 1))) by (bit_vector)
                    requires
                        ju < 8,
                ;
            }
        }
        r
    }

    fn set_bit(self, index: usize) -> (r: Self) {
        let x = self;
        let i = index as u64;
        let r = x | (1u8 << (index as u8));
        proof {
            assert forall|j: nat| j < 8 implies (#[trigger] r.bit(j)) == (j == index as nat
                || x.bit(j)) by {
                let ju = j as u64;
                assert(((((x | (1u8 << (i as u8))) as u64) >> ju) & 1 == 1) == (ju == i || (((
                x as u64) >> ju) & 1 == 1))) by (bit_vector)
                    requires
                        ju < 8,
                        i < 8,
                ;
            }
        }
        r
    }

    fn clear_bit(self, index: usize) -> (r: Self) {
        let x = self;
        let i = index as u64;
        let r = x & !(1u8 << (index as u8));
        proof {
            assert forall|j: nat| j < 8 implies (#[trigger] r.bit(j)) == (j != index as nat
                && x.bit(j)) by {
                let ju = j as u64;
                assert(((((x & !(1u8 << (i as u8))) as u64) >> ju) & 1 == 1) == (ju != i && (((
                x as u64) >> ju) & 1 == 1))) by (bit_vector)
                    requires
                        ju < 8,
                        i < 8,
                ;
            }
        }
        r
    }

    fn get_bit(self, index: usize) -> (r: bool) {
        let x = self;
        let i = index as u64;
        let r = (x >> (index as u8)) & 1 == 1;
        proof {
            assert(((x >> (i as u8)) & 1 == 1) == (((x as u64) >> i) & 1 == 1)) by (bit_vector)
                requires
                    i < 8,
            ;
        }
        r
    }
}


impl Unsigned for u16 {
    open spec fn as_nat(self) -> nat {
        self as nat
    }

    open spec fn max_val() -> nat {
        u16::MAX as nat
    }

    open spec fn bit_count() -> nat {
        16
    }

    open spec fn bit(self, i: nat) -> bool {
        i < 16 && ((self as u64) >> (i as u64)) & 1 == 1
    }

    fn zero() -> (r: Self) {
        proof {
            assert forall|j: nat| j < 16 implies !(0u16.bit(j)) by {
                let ju = j as u64;
                assert((0u64 >> ju) & 1 == 0) by (bit_vector);
            }
        }
        0
    }

    fn eq_val(self, other: Self) -> (r: bool) {
        self == other
    }

    fn add_val(self, other: Self) -> (r: Self) {
        self + other
    }

    fn and_val(self, other: Self) -> (r: Self) {
        let x = self;
        let y = other;
        let r = x & y;
        proof {
            assert forall|j: nat| j < 16 implies (#[trigger] r.bit(j)) == (x.bit(j) && y.bit(j))
                by {
                let ju = j as u64;
                assert(((((x & y) as u64) >> ju) & 1 == 1) == ((((x as u64) >> ju) & 1 == 1) && (((
                y as u64) >> ju) & 1 == 1))) by (bit_vector)
                    requires
                        ju < 16,
                ;
            }
        }
        r
    }

    fn or_val(self, other: Self) -> (r: Self) {
        let x = self;
        let y = other;
        let r = x | y;
        proof {
            assert forall|j: nat| j < 16 implies (#[trigger] r.bit(j)) == (x.bit(j) || y.bit(j))
                by {
                let ju = j as u64;
                assert(((((x | y) as u64) >> ju) & 1 == 1) == ((((x as u64) >> ju) & 1 == 1) || (((
                y as u64) >> ju) & 1 == 1))) by (bit_vector)
                    requires
                        ju < 16,
                ;
            }
        }
        r
    }

    fn xor_val(self, other: Self) -> (r: Self) {
        let x = self;
        let y = other;
        let r = x ^ y;
        proof {
            assert forall|j: nat| j < 16 implies (#[trigger] r.bit(j)) == (x.bit(j) != y.bit(j))
                by {
                let ju = j as u64;
                assert(((((x ^ y) as u64) >> ju) & 1 == 1) == ((((x as u64) >> ju) & 1 == 1) != (((
                y as u64) >> ju) & 1 == 1))) by (bit_vector)
                    requires
                        ju < 16,
                ;
            }
        }
        r
    }

    fn set_bit(self, index: usize) -> (r: Self) {
        let x = self;
        let i = index as u64;
        let r = x | ((1 as u16) << (index as u16));
        proof {
            assert forall|j: nat| j < 16 implies (#[trigger] r.bit(j)) == (j == index as nat
                || x.bit(j)) by {
                let ju = j as u64;
                assert(((((x | ((1 as u16) << (i as u16))) as u64) >> ju) & 1 == 1) == (ju == i
                    || (((x as u64) >> ju) & 1 == 1))) by (bit_vector)
                    requires
                        ju < 16,
                        i < 16,
                ;
            }
        }
        r
    }

    fn clear_bit(self, index: usize) -> (r: Self) {
        let x = self;
        let i = index as u64;
        let r = x & !((1 as u16) << (index as u16));
        proof {
            assert forall|j: nat| j < 16 implies (#[trigger] r.bit(j)) == (j != index as nat
                && x.bit(j)) by {
                let ju = j as u64;
                assert(((((x & !((1 as u16) << (i as u16))) as u64) >> ju) & 1 == 1) == (ju != i
                    && (((x as u64) >> ju) & 1 == 1))) by (bit_vector)
                    requires
                        ju < 16,
                        i < 16,
                ;
            }
        }
        r
    }

    fn get_bit(self, index: usize) -> (r: bool) {
        let x = self;
        let i = index as u64;
        let r = (x >> (index as u16)) & 1 == 1;
        proof {
            assert(((x >> (i as u16)) & 1 == 1) == (((x as u64) >> i) & 1 == 1)) by (bit_vector)
                requires
                    i < 16,
            ;
        }
        r
    }
}

impl Unsigned for u32 {
    open spec fn as_nat(self) -> nat {
        self as nat
    }

    open spec fn max_val() -> nat {
        u32::MAX as nat
    }

    open spec fn bit_count() -> nat {
        32
    }

    open spec fn bit(self, i: nat) -> bool {
        i < 32 && ((self as u64) >> (i as u64)) & 1 == 1
    }

    fn zero() -> (r: Self) {
        proof {
            assert forall|j: nat| j < 32 implies !(0u32.bit(j)) by {
                let ju = j as u64;
                assert((0u64 >> ju) & 1 == 0) by (bit_vector);
            }
        }
        0
    }

    fn eq_val(self, other: Self) -> (r: bool) {
        self == other
    }

    fn add_val(self, other: Self) -> (r: Self) {
        self + other
    }

    fn and_val(self, other: Self) -> (r: Self) {
        let x = self;
        let y = other;
        let r = x & y;
        proof {
            assert forall|j: nat| j < 32 implies (#[trigger] r.bit(j)) == (x.bit(j) && y.bit(j))
                by {
                let ju = j as u64;
                assert(((((x & y) as u64) >> ju) & 1 == 1) == ((((x as u64) >> ju) & 1 == 1) && (((
                y as u64) >> ju) & 1 == 1))) by (bit_vector)
                    requires
                        ju < 32,
                ;
            }
        }
        r
    }

    fn or_val(self, other: Self) -> (r: Self) {
        let x = self;
        let y = other;
        let r = x | y;
        proof {
            assert forall|j: nat| j < 32 implies (#[trigger] r.bit(j)) == (x.bit(j) || y.bit(j))
                by {
                let ju = j as u64;
                assert(((((x | y) as u64) >> ju) & 1 == 1) == ((((x as u64) >> ju) & 1 == 1) || (((
                y as u64) >> ju) & 1 == 1))) by (bit_vector)
                    requires
                        ju < 32,
                ;
            }
        }
        r
    }

    fn xor_val(self, other: Self) -> (r: Self) {
        let x = self;
        let y = other;
        let r = x ^ y;
        proof {
            assert forall|j: nat| j < 32 implies (#[trigger] r.bit(j)) == (x.bit(j) != y.bit(j))
                by {
                let ju = j as u64;
                assert(((((x ^ y) as u64) >> ju) & 1 == 1) == ((((x as u64) >> ju) & 1 == 1) != (((
                y as u64) >> ju) & 1 == 1))) by (bit_vector)
                    requires
                        ju < 32,
                ;
            }
        }
        r
    }

    fn set_bit(self, index: usize) -> (r: Self) {
        let x = self;
        let i = index as u64;
        let r = x | ((1 as u32) << (index as u32));
        proof {
            assert forall|j: nat| j < 32 implies (#[trigger] r.bit(j)) == (j == index as nat
                || x.bit(j)) by {
                let ju = j as u64;
                assert(((((x | ((1 as u32) << (i as u32))) as u64) >> ju) & 1 == 1) == (ju == i
                    || (((x as u64) >> ju) & 1 == 1))) by (bit_vector)
                    requires
                        ju < 32,
                        i < 32,
                ;
            }
        }
        r
    }

    fn clear_bit(self, index: usize) -> (r: Self) {
        let x = self;
        let i = index as u64;
        let r = x & !((1 as u32) << (index as u32));
        proof {
            assert forall|j: nat| j < 32 implies (#[trigger] r.bit(j)) == (j != index as nat
                && x.bit(j)) by {
                let ju = j as u64;
                assert(((((x & !((1 as u32) << (i as u32))) as u64) >> ju) & 1 == 1) == (ju != i
                    && (((x as u64) >> ju) & 1 == 1))) by (bit_vector)
                    requires
                        ju < 32,
                        i < 32,
                ;
            }
        }
        r
    }

    fn get_bit(self, index: usize) -> (r: bool) {
        let x = self;
        let i = index as u64;
        let r = (x >> (index as u32)) & 1 == 1;
        proof {
            assert(((x >> (i as u32)) & 1 == 1) == (((x as u64) >> i) & 1 == 1)) by (bit_vector)
                requires
                    i < 32,
            ;
        }
        r
    }
}

impl Unsigned for u64 {
    open spec fn as_nat(self) -> nat {
        self as nat
    }

    open spec fn max_val() -> nat {
        u64::MAX as nat
    }

    open spec fn bit_count() -> nat {
        64
    }

    open spec fn bit(self, i: nat) -> bool {
        i < 64 && ((self as u64) >> (i as u64)) & 1 == 1
    }

    fn zero() -> (r: Self) {
        proof {
            assert forall|j: nat| j < 64 implies !(0u64.bit(j)) by {
                let ju = j as u64;
                assert((0u64 >> ju) & 1 == 0) by (bit_vector);
            }
        }
        0
    }

    fn eq_val(self, other: Self) -> (r: bool) {
        self == other
    }

    fn add_val(self, other: Self) -> (r: Self) {
        self + other
    }

    fn and_val(self, other: Self) -> (r: Self) {
        let x = self;
        let y = other;
        let r = x & y;
        proof {
            assert forall|j: nat| j < 64 implies (#[trigger] r.bit(j)) == (x.bit(j) && y.bit(j))
                by {
                let ju = j as u64;
                assert(((((x & y) as u64) >> ju) & 1 == 1) == ((((x as u64) >> ju) & 1 == 1) && (((
                y as u64) >> ju) & 1 == 1))) by (bit_vector)
                    requires
                        ju < 64,
                ;
            }
        }
        r
    }

    fn or_val(self, other: Self) -> (r: Self) {
        let x = self;
        let y = other;
        let r = x | y;
        proof {
            assert forall|j: nat| j < 64 implies (#[trigger] r.bit(j)) == (x.bit(j) || y.bit(j))
                by {
                let ju = j as u64;
                assert(((((x | y) as u64) >> ju) & 1 == 1) == ((((x as u64) >> ju) & 1 == 1) || (((
                y as u64) >> ju) & 1 == 1))) by (bit_vector)
                    requires
                        ju < 64,
                ;
            }
        }
        r
    }

    fn xor_val(self, other: Self) -> (r: Self) {
        let x = self;
        let y = other;
        let r = x ^ y;
        proof {
            assert forall|j: nat| j < 64 implies (#[trigger] r.bit(j)) == (x.bit(j) != y.bit(j))
                by {
                let ju = j as u64;
                assert(((((x ^ y) as u64) >> ju) & 1 == 1) == ((((x as u64) >> ju) & 1 == 1) != (((
                y as u64) >> ju) & 1 == 1))) by (bit_vector)
                    requires
                        ju < 64,
                ;
            }
        }
        r
    }

    fn set_bit(self, index: usize) -> (r: Self) {
        let x = self;
        let i = index as u64;
        let r = x | ((1 as u64) << (index as u64));
        proof {
            assert forall|j: nat| j < 64 implies (#[trigger] r.bit(j)) == (j == index as nat
                || x.bit(j)) by {
                let ju = j as u64;
                assert(((((x | ((1 as u64) << (i as u64))) as u64) >> ju) & 1 == 1) == (ju == i
                    || (((x as u64) >> ju) & 1 == 1))) by (bit_vector)
                    requires
                        ju < 64,
                        i < 64,
                ;
            }
        }
        r
    }

    fn clear_bit(self, index: usize) -> (r: Self) {
        let x = self;
        let i = index as u64;
        let r = x & !((1 as u64) << (index as u64));
        proof {
            assert forall|j: nat| j < 64 implies (#[trigger] r.bit(j)) == (j != index as nat
                && x.bit(j)) by {
                let ju = j as u64;
                assert(((((x & !((1 as u64) << (i as u64))) as u64) >> ju) & 1 == 1) == (ju != i
                    && (((x as u64) >> ju) & 1 == 1))) by (bit_vector)
                    requires
                        ju < 64,
                        i < 64,
                ;
            }
        }
        r
    }

    fn get_bit(self, index: usize) -> (r: bool) {
        let x = self;
        let i = index as u64;
        let r = (x >> (index as u64)) & 1 == 1;
        proof {
            assert(((x >> (i as u64)) & 1 == 1) == (((x as u64) >> i) & 1 == 1)) by (bit_vector)
                requires
                    i < 64,
            ;
        }
        r
    }
}

impl Unsigned for usize {
    open spec fn as_nat(self) -> nat {
        self as nat
    }

    open spec fn max_val() -> nat {
        usize::MAX as nat
    }

    open spec fn bit_count() -> nat {
        usize::BITS as nat
    }

    open spec fn bit(self, i: nat) -> bool {
        i < usize::BITS && ((self as u64) >> (i as u64)) & 1 == 1
    }

    fn zero() -> (r: Self) {
        proof {
            assert forall|j: nat| j < usize::BITS implies !(0usize.bit(j)) by {
                let ju = j as u64;
                assert((0u64 >> ju) & 1 == 0) by (bit_vector);
            }
        }
        0
    }

    fn eq_val(self, other: Self) -> (r: bool) {
        self == other
    }

    fn add_val(self, other: Self) -> (r: Self) {
        self + other
    }

    fn and_val(self, other: Self) -> (r: Self) {
        let x = self as u64;
        let y = other as u64;
        let r64 = x & y;
        proof {
            assert(x & y <= x) by (bit_vector);
        }
        let r = r64 as usize;
        proof {
            assert forall|j: nat| j < usize::BITS implies (#[trigger] r.bit(j)) == (self.bit(j)
                && other.bit(j)) by {
                let ju = j as u64;
                assert((((x & y) >> ju) & 1 == 1) == (((x >> ju) & 1 == 1) && ((y >> ju) & 1 == 1)))
                    by (bit_vector);
            }
        }
        r
    }

    fn or_val(self, other: Self) -> (r: Self) {
        let x = self as u64;
        let y = other as u64;
        let r64 = x | y;
        proof {
            assert(x | y <= x + y) by (bit_vector);
        }
        let r = r64 as usize;
        proof {
            assert(r64 <= usize::MAX);
            assert forall|j: nat| j < usize::BITS implies (#[trigger] r.bit(j)) == (self.bit(j)
                || other.bit(j)) by {
                let ju = j as u64;
                assert((((x | y) >> ju) & 1 == 1) == (((x >> ju) & 1 == 1) || ((y >> ju) & 1 == 1)))
                    by (bit_vector);
            }
        }
        r
    }

    fn xor_val(self, other: Self) -> (r: Self) {
        let x = self as u64;
        let y = other as u64;
        let r64 = x ^ y;
        proof {
            assert(x ^ y <= x + y) by (bit_vector);
        }
        let r = r64 as usize;
        proof {
            assert(r64 <= usize::MAX);
            assert forall|j: nat| j < usize::BITS implies (#[trigger] r.bit(j)) == (self.bit(j)
                != other.bit(j)) by {
                let ju = j as u64;
                assert((((x ^ y) >> ju) & 1 == 1) == (((x >> ju) & 1 == 1) != ((y >> ju) & 1 == 1)))
                    by (bit_vector);
            }
        }
        r
    }

    fn set_bit(self, index: usize) -> (r: Self) {
        let x = self as u64;
        let i = index as u64;
        let r64 = x | (1u64 << i);
        proof {
            assert(x | (1u64 << i) <= x + (1u64 << i)) by (bit_vector)
                requires
                    i < 64,
            ;
            assert((1u64 << i) < 0x8000000000000000u64 ==> x + (1u64 << i) <= x + x
                + 0x7fffffffffffffffu64) by (bit_vector);
            assert(usize::BITS == 32 ==> (1u64 << i) <= 0x80000000u64 && (x | (1u64 << i)) <= (x
                | 0xffffffffu64)) by (bit_vector)
                requires
                    i < usize::BITS as u64,
            ;
            assert(x <= 0xffffffffu64 ==> (x | 0xffffffffu64) == 0xffffffffu64) by (bit_vector);
        }
        let r = r64 as usize;
        proof {
            assert forall|j: nat| j < usize::BITS implies (#[trigger] r.bit(j)) == (
            j == index as nat || self.bit(j)) by {
                let ju = j as u64;
                assert((((x | (1u64 << i)) >> ju) & 1 == 1) == (ju == i || ((x >> ju) & 1 == 1)))
                    by (bit_vector)
                    requires
                        i < 64,
                        ju < 64,
                ;
            }
        }
        r
    }

    fn clear_bit(self, index: usize) -> (r: Self) {
        let x = self as u64;
        let i = index as u64;
        let r64 = x & !(1u64 << i);
        proof {
            assert(x & !(1u64 << i) <= x) by (bit_vector)
                requires
                    i < 64,
            ;
        }
        let r = r64 as usize;
        proof {
            assert forall|j: nat| j < usize::BITS implies (#[trigger] r.bit(j)) == (
            j != index as nat && self.bit(j)) by {
                let ju = j as u64;
                assert((((x & !(1u64 << i)) >> ju) & 1 == 1) == (ju != i && ((x >> ju) & 1 == 1)))
                    by (bit_vector)
                    requires
                        i < 64,
                        ju < 64,
                ;
            }
        }
        r
    }

    fn get_bit(self, index: usize) -> (r: bool) {
        let x = self as u64;
        let i = index as u64;
        let r = (x >> i) & 1 == 1;
        r
    }
}

impl Signed for i8 {
    open spec fn as_int(self) -> int {
        self as int
    }

    open spec fn min_val() -> int {
        i8::MIN as int
    }

    open spec fn max_val() -> int {
        i8::MAX as int
    }

    fn eq_val(self, other: Self) -> (r: bool) {
        self == other
    }

    fn add_val(self, other: Self) -> (r: Self) {
        self + other
    }

    fn sub_val(self, other: Self) -> (r: Self) {
        self - other
    }
}

impl Signed for i16 {
    open spec fn as_int(self) -> int {
        self as int
    }

    open spec fn min_val() -> int {
        i16::MIN as int
    }

    open spec fn max_val() -> int {
        i16::MAX as int
    }

    fn eq_val(self, other: Self) -> (r: bool) {
        self == other
    }

    fn add_val(self, other: Self) -> (r: Self) {
        self + other
    }

    fn sub_val(self, other: Self) -> (r: Self) {
        self - other
    }
}

impl Signed for i32 {
    open spec fn as_int(self) -> int {
        self as int
    }

    open spec fn min_val() -> int {
        i32::MIN as int
    }

    open spec fn max_val() -> int {
        i32::MAX as int
    }

    fn eq_val(self, other: Self) -> (r: bool) {
        self == other
    }

    fn add_val(self, other: Self) -> (r: Self) {
        self + other
    }

    fn sub_val(self, other: Self) -> (r: Self) {
        self - other
    }
}

impl Signed for i64 {
    open spec fn as_int(self) -> int {
        self as int
    }

    open spec fn min_val() -> int {
        i64::MIN as int
    }

    open spec fn max_val() -> int {
        i64::MAX as int
    }

    fn eq_val(self, other: Self) -> (r: bool) {
        self == other
    }

    fn add_val(self, other: Self) -> (r: Self) {
        self + other
    }

    fn sub_val(self, other: Self) -> (r: Self) {
        self - other
    }
}

impl Signed for isize {
    open spec fn as_int(self) -> int {
        self as int
    }

    open spec fn min_val() -> int {
        isize::MIN as int
    }

    open spec fn max_val() -> int {
        isize::MAX as int
    }

    fn eq_val(self, other: Self) -> (r: bool) {
        self == other
    }

    fn add_val(self, other: Self) -> (r: Self) {
        self + other
    }

    fn sub_val(self, other: Self) -> (r: Self) {
        self - other
    }
}

} // verus!
