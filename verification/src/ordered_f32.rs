//! Distances as IEEE 754 single-precision bit patterns.
//!
//! A distance is carried as the 32 bits of the floating-point number. Every
//! comparison the search makes is decided on those bits; `scaled` says which
//! number they stand for.

use vstd::prelude::*;
use std::cmp::Ordering;

verus! {

broadcast use vstd::arithmetic::power2::lemma_pow2_pos;

/// The sign bit of a single-precision number.
pub const SIGN_BIT: u32 = 0x8000_0000;

/// The bit pattern of positive infinity.
pub const INFINITY_BITS: u32 = 0x7f80_0000;

/// The bit pattern of the largest finite number.
pub const MAX_FINITE_BITS: u32 = 0x7f7f_ffff;

/// One more than the largest fraction of a single-precision number.
pub const FRACTION_LIMIT: u32 = 0x80_0000;

/// The order key of every NaN.
pub const NAN_KEY: u32 = 0xffff_ffff;

/// A single-precision number, totally ordered: NaN is greater than everything,
/// and all NaNs are equal.
#[derive(Clone, Copy, Debug)]
pub struct OrderedF32 {
    /// The bit pattern of the number.
    pub bits: u32,
}

/// The number that the low 31 bits of a pattern stand for, times 2 to the
/// power 149: an exponent field of zero leaves the fraction as it is, any
/// other adds the implied leading bit and shifts. Infinity is read as the
/// first number past the finite ones.
pub open spec fn scaled_magnitude(m: int) -> int {
    let exponent = m / (FRACTION_LIMIT as int);
    let fraction = m % (FRACTION_LIMIT as int);
    if exponent == 0 {
        fraction
    } else {
        (FRACTION_LIMIT + fraction) * vstd::arithmetic::power2::pow2((exponent - 1) as nat)
    }
}

impl OrderedF32 {
    /// The bit pattern without its sign.
    pub open spec fn magnitude_bits(self) -> int {
        if self.bits >= SIGN_BIT {
            self.bits - SIGN_BIT
        } else {
            self.bits as int
        }
    }

    /// Whether the pattern is a NaN.
    pub open spec fn is_nan(self) -> bool {
        self.magnitude_bits() > INFINITY_BITS
    }

    /// The number itself, times 2 to the power 149.
    pub open spec fn scaled(self) -> int {
        if self.bits >= SIGN_BIT {
            -scaled_magnitude(self.magnitude_bits())
        } else {
            scaled_magnitude(self.magnitude_bits())
        }
    }

    /// IEEE 754 `<`: false as soon as a NaN is involved.
    pub open spec fn less(self, other: Self) -> bool {
        !self.is_nan() && !other.is_nan() && self.scaled() < other.scaled()
    }

    /// IEEE 754 `==`: false as soon as a NaN is involved.
    pub open spec fn same(self, other: Self) -> bool {
        !self.is_nan() && !other.is_nan() && self.scaled() == other.scaled()
    }

    /// The position of the number in the total order.
    pub open spec fn key(self) -> u32 {
        if self.is_nan() {
            NAN_KEY
        } else if self.bits >= SIGN_BIT {
            (SIGN_BIT - self.magnitude_bits()) as u32
        } else {
            (SIGN_BIT + self.magnitude_bits()) as u32
        }
    }

    /// The total order: numbers by value, then NaN.
    pub open spec fn order(self, other: Self) -> Ordering {
        if self.is_nan() && other.is_nan() {
            Ordering::Equal
        } else if self.is_nan() {
            Ordering::Greater
        } else if other.is_nan() {
            Ordering::Less
        } else if self.scaled() < other.scaled() {
            Ordering::Less
        } else if self.scaled() == other.scaled() {
            Ordering::Equal
        } else {
            Ordering::Greater
        }
    }

    /// A distance from the bit pattern of a single-precision number.
    pub fn from_bits(bits: u32) -> (r: Self)
        ensures
            r.bits == bits,
    {
        OrderedF32 { bits }
    }

    /// The largest finite number, which stands for a distance that is not known.
    pub fn max_finite() -> (r: Self)
        ensures
            r.bits == MAX_FINITE_BITS,
            !r.is_nan(),
            forall|o: Self| #[trigger] o.less(r) || o.is_nan() || r.same(o)
                || o.bits == INFINITY_BITS,
    {
        let r = OrderedF32 { bits: MAX_FINITE_BITS };
        proof {
            assert forall|o: Self| #[trigger] o.less(r) || o.is_nan() || r.same(o)
                || o.bits == INFINITY_BITS by {
                lemma_key_orders(o, r);
            }
        }
        r
    }

    /// The bit pattern without its sign.
    fn unsigned_bits(self) -> (m: u32)
        ensures
            m == self.magnitude_bits(),
    {
        if self.bits >= SIGN_BIT {
            self.bits - SIGN_BIT
        } else {
            self.bits
        }
    }

    /// The position of the number in the total order, as an integer.
    pub fn order_key(self) -> (k: u32)
        ensures
            k == self.key(),
    {
        let m = self.unsigned_bits();
        if m > INFINITY_BITS {
            NAN_KEY
        } else if self.bits >= SIGN_BIT {
            SIGN_BIT - m
        } else {
            SIGN_BIT + m
        }
    }

    /// IEEE 754 `<`.
    pub fn lt(self, other: Self) -> (r: bool)
        ensures
            r == self.less(other),
    {
        proof {
            lemma_key_orders(self, other);
        }
        self.order_key() < other.order_key() && other.unsigned_bits() <= INFINITY_BITS
    }

    /// IEEE 754 `>`.
    pub fn gt(self, other: Self) -> (r: bool)
        ensures
            r == other.less(self),
    {
        other.lt(self)
    }

    /// The total order: numbers by value, then NaN.
    pub fn cmp(&self, other: &Self) -> (r: Ordering)
        ensures
            r == self.order(*other),
    {
        proof {
            lemma_key_orders(*self, *other);
        }
        let a = self.order_key();
        let b = other.order_key();
        if a < b {
            Ordering::Less
        } else if a == b {
            Ordering::Equal
        } else {
            Ordering::Greater
        }
    }
}

/// Equality of the numbers: the two zeros are equal, and a NaN equals nothing.
impl PartialEq for OrderedF32 {
    fn eq(&self, other: &Self) -> (r: bool) {
        proof {
            lemma_key_orders(*self, *other);
        }
        self.order_key() == other.order_key() && self.unsigned_bits() <= INFINITY_BITS
    }
}

impl vstd::std_specs::cmp::PartialEqSpecImpl for OrderedF32 {
    open spec fn obeys_eq_spec() -> bool {
        true
    }

    open spec fn eq_spec(&self, other: &Self) -> bool {
        self.same(*other)
    }
}

impl Eq for OrderedF32 {

}

/// The total order, which never declines to compare.
impl PartialOrd for OrderedF32 {
    fn partial_cmp(&self, other: &Self) -> (r: Option<Ordering>) {
        Some(OrderedF32::cmp(self, other))
    }
}

impl vstd::std_specs::cmp::PartialOrdSpecImpl for OrderedF32 {
    open spec fn obeys_partial_cmp_spec() -> bool {
        true
    }

    open spec fn partial_cmp_spec(&self, other: &Self) -> Option<Ordering> {
        Some(self.order(*other))
    }
}

/// Magnitudes grow with their bit patterns.
proof fn lemma_magnitude_increases(m: int, n: int)
    requires
        0 <= m < n <= INFINITY_BITS,
    ensures
        0 <= scaled_magnitude(m) < scaled_magnitude(n),
{
    let limit = FRACTION_LIMIT as int;
    let em = m / limit;
    let f1 = m % limit;
    let en = n / limit;
    let f2 = n % limit;
    assert(em <= en);
    if em == en {
        assert(f1 < f2);
        if em > 0 {
            let p = vstd::arithmetic::power2::pow2((em - 1) as nat) as int;
            assert((limit + f1) * p < (limit + f2) * p) by (nonlinear_arith)
                requires
                    f1 < f2,
                    p > 0,
            ;
            assert(0 <= (limit + f1) * p) by (nonlinear_arith)
                requires
                    0 <= f1,
                    0 <= limit,
                    p > 0,
            ;
        }
    } else {
        let q = vstd::arithmetic::power2::pow2((en - 1) as nat) as int;
        assert(limit * q <= (limit + f2) * q) by (nonlinear_arith)
            requires
                0 <= f2,
                q > 0,
        ;
        if em == 0 {
            assert(limit <= limit * q) by (nonlinear_arith)
                requires
                    limit > 0,
                    q >= 1,
            ;
        } else {
            let p = vstd::arithmetic::power2::pow2((em - 1) as nat) as int;
            assert(2 * p <= q) by {
                vstd::arithmetic::power2::lemma_pow2_unfold(em as nat);
                if em < en - 1 {
                    vstd::arithmetic::power2::lemma_pow2_strictly_increases(em as nat, (en - 1) as nat);
                }
            }
            assert((limit + f1) * p < limit * q) by (nonlinear_arith)
                requires
                    0 <= f1 < limit,
                    2 * p <= q,
                    p > 0,
            ;
            assert(0 <= (limit + f1) * p) by (nonlinear_arith)
                requires
                    0 <= f1,
                    0 <= limit,
                    p > 0,
            ;
        }
    }
}

/// The order key places numbers as their values do: of two numbers that are
/// not NaN the smaller one has the smaller key, equal ones share their key, and
/// NaN comes last.
pub proof fn lemma_key_orders(a: OrderedF32, b: OrderedF32)
    ensures
        a.is_nan() <==> a.key() == NAN_KEY,
        b.is_nan() <==> b.key() == NAN_KEY,
        !a.is_nan() && !b.is_nan() ==> (a.key() < b.key() <==> a.scaled() < b.scaled()),
        !a.is_nan() && !b.is_nan() ==> (a.key() == b.key() <==> a.scaled() == b.scaled()),
{
    let m = a.magnitude_bits();
    let n = b.magnitude_bits();
    if !a.is_nan() && !b.is_nan() {
        if m < n {
            lemma_magnitude_increases(m, n);
        } else if n < m {
            lemma_magnitude_increases(n, m);
        }
        if 0 < m {
            lemma_magnitude_increases(0, m);
        }
        if 0 < n {
            lemma_magnitude_increases(0, n);
        }
    }
}

} // verus!
