//! IEEE 754 binary32 numbers, held by their bit patterns.
//!
//! Every finite binary32 number is a whole number of steps of two to the power of
//! minus 149, so its value is an integer here, and each operation is the exact
//! result rounded once. A result that is not a number is always the quiet NaN
//! without payload.

use vstd::arithmetic::div_mod::{
    lemma_div_is_ordered, lemma_fundamental_div_mod, lemma_fundamental_div_mod_converse,
    lemma_mod_bound,
};
use vstd::arithmetic::power2::{
    lemma2_to64, lemma2_to64_rest, lemma_pow2_adds, lemma_pow2_pos, lemma_pow2_strictly_increases,
    pow2,
};
use vstd::math::abs;
use vstd::prelude::*;

use crate::root::{
    integer_root, law_root_is_near, law_root_keeps_order, lemma_root_magnitude_jammed,
    lemma_root_unique, root, root_magnitude,
};
use crate::rounding::{
    capped, jammed, law_magnitude_doubles, law_magnitude_is_rounded, law_magnitude_monotone,
    law_magnitude_of_steps, law_rounded_doubles, law_rounded_is_exact, law_rounded_is_nearest,
    law_rounded_multiple, law_rounding_error, lemma_magnitude_at, lemma_magnitude_at_halved,
    lemma_magnitude_cancel, lemma_magnitude_jammed, magnitude, magnitude_at, place,
    power_of_two, round_scaled, rounded, scale, significand, steps, HIDDEN_BIT, INFINITE,
    SIGNIFICAND_LIMIT,
};

verus! {

/// The bit of the sign.
pub const SIGN_BIT: u32 = 0x8000_0000;

/// The quiet NaN that invalid operations give.
pub const QUIET_NAN: u32 = 0x7fc0_0000;

/// The number of binary places below the point.
pub const FRACTION_PLACES: u32 = 149;

/// A binary32 number.
#[derive(Clone, Copy, Debug, PartialEq, Eq, Structural)]
pub struct Binary32 {
    pub bits: u32,
}

/// The number with the given sign and magnitude.
pub open spec fn signed(negative: bool, m: nat) -> Binary32 {
    Binary32 {
        bits: if negative {
            (SIGN_BIT + m) as u32
        } else {
            m as u32
        },
    }
}

/// The result of an invalid operation.
pub open spec fn nan() -> Binary32 {
    Binary32 { bits: QUIET_NAN }
}

impl Binary32 {
    /// Whether the sign bit is set.
    pub open spec fn negative(self) -> bool {
        self.bits >= SIGN_BIT
    }

    /// The bits without the sign.
    pub open spec fn magnitude(self) -> nat {
        (self.bits % SIGN_BIT) as nat
    }

    /// Whether this is not a number.
    pub open spec fn is_nan(self) -> bool {
        self.magnitude() > INFINITE
    }

    pub open spec fn is_infinite(self) -> bool {
        self.magnitude() == INFINITE
    }

    pub open spec fn is_finite(self) -> bool {
        self.magnitude() < INFINITE
    }

    /// Whether this is zero, of either sign.
    pub open spec fn is_zero(self) -> bool {
        self.magnitude() == 0
    }

    /// The absolute value of a finite number, in steps.
    pub open spec fn steps(self) -> nat {
        steps(self.magnitude())
    }

    /// The value of a finite number, in steps.
    pub open spec fn value(self) -> int {
        if self.negative() {
            -(self.steps() as int)
        } else {
            self.steps() as int
        }
    }

    /// The position of a number among all numbers, infinities included.
    pub open spec fn order(self) -> int {
        if self.negative() {
            -(self.magnitude() as int)
        } else {
            self.magnitude() as int
        }
    }

    /// `self < other`, which is false where either is not a number.
    pub open spec fn below(self, other: Binary32) -> bool {
        !self.is_nan() && !other.is_nan() && self.order() < other.order()
    }

    /// `self <= other`, which is false where either is not a number.
    pub open spec fn at_most(self, other: Binary32) -> bool {
        !self.is_nan() && !other.is_nan() && self.order() <= other.order()
    }

    /// The same number with the other sign.
    pub open spec fn negated(self) -> Binary32 {
        signed(!self.negative(), self.magnitude())
    }
}

/// The sum of two numbers. Infinities of opposite signs have none. A sum of two finite
/// numbers that is exactly zero is negative only if both are.
pub open spec fn sum(a: Binary32, b: Binary32) -> Binary32 {
    if a.is_nan() || b.is_nan() {
        nan()
    } else if a.is_infinite() {
        if b.is_infinite() && a.negative() != b.negative() {
            nan()
        } else {
            a
        }
    } else if b.is_infinite() {
        b
    } else {
        let v: int = a.value() + b.value();
        if v == 0 {
            signed(a.negative() && b.negative(), 0)
        } else {
            signed(v < 0, magnitude(vstd::math::abs(v), 1))
        }
    }
}

/// The difference of two numbers.
pub open spec fn difference(a: Binary32, b: Binary32) -> Binary32 {
    sum(a, b.negated())
}

/// The product of two numbers. Zero and an infinity have none.
pub open spec fn product(a: Binary32, b: Binary32) -> Binary32 {
    let negative: bool = a.negative() != b.negative();
    if a.is_nan() || b.is_nan() {
        nan()
    } else if a.is_infinite() || b.is_infinite() {
        if a.is_zero() || b.is_zero() {
            nan()
        } else {
            signed(negative, INFINITE as nat)
        }
    } else {
        signed(negative, magnitude(a.steps() * b.steps(), pow2(FRACTION_PLACES as nat)))
    }
}

/// The quotient of two numbers. Two zeros, or two infinities, have none.
pub open spec fn quotient(a: Binary32, b: Binary32) -> Binary32 {
    let negative: bool = a.negative() != b.negative();
    if a.is_nan() || b.is_nan() {
        nan()
    } else if a.is_infinite() {
        if b.is_infinite() {
            nan()
        } else {
            signed(negative, INFINITE as nat)
        }
    } else if b.is_infinite() {
        signed(negative, 0)
    } else if b.is_zero() {
        if a.is_zero() {
            nan()
        } else {
            signed(negative, INFINITE as nat)
        }
    } else {
        signed(negative, magnitude(a.steps() * pow2(FRACTION_PLACES as nat), b.steps()))
    }
}

/// The square root; of negative zero, negative zero.
pub open spec fn square_root(a: Binary32) -> Binary32 {
    if a.is_nan() {
        nan()
    } else if a.is_zero() {
        a
    } else if a.negative() {
        nan()
    } else if a.is_infinite() {
        a
    } else {
        signed(false, root_magnitude(a.steps() * pow2(FRACTION_PLACES as nat)))
    }
}

/// The number nearest to an integer.
pub open spec fn from_integer(n: nat) -> Binary32 {
    signed(false, magnitude(n * pow2(FRACTION_PLACES as nat), 1))
}

/// An integer held to the range of `usize`.
pub open spec fn saturated(n: nat) -> usize {
    if n > usize::MAX {
        usize::MAX
    } else {
        n as usize
    }
}

/// The part of a number before the point; zero for what is negative or not a number.
pub open spec fn truncated(a: Binary32) -> usize {
    if a.is_nan() || a.negative() {
        0
    } else if a.is_infinite() {
        usize::MAX
    } else {
        saturated(a.steps() / pow2(FRACTION_PLACES as nat))
    }
}

/// The nearest integer, the larger of two that are equally near; zero for what
/// is negative or not a number.
pub open spec fn nearest_integer(a: Binary32) -> usize {
    if a.is_nan() || a.negative() {
        0
    } else if a.is_infinite() {
        usize::MAX
    } else {
        saturated(
            (2 * a.steps() + pow2(FRACTION_PLACES as nat)) / (2 * pow2(FRACTION_PLACES as nat)),
        )
    }
}

/// The larger of two numbers; the other one where one is not a number.
pub open spec fn larger(a: Binary32, b: Binary32) -> Binary32 {
    if a.is_nan() || a.below(b) {
        b
    } else {
        a
    }
}

/// The smaller of two numbers; the other one where one is not a number.
pub open spec fn smaller(a: Binary32, b: Binary32) -> Binary32 {
    if a.is_nan() || b.below(a) {
        b
    } else {
        a
    }
}

/// Where both are finite, one number is below another if its value is.
pub proof fn law_order_is_value_order(a: Binary32, b: Binary32)
    requires
        a.is_finite(),
        b.is_finite(),
    ensures
        a.below(b) <==> a.value() < b.value(),
        a.at_most(b) <==> a.value() <= b.value(),
{
    lemma_steps_order(a.magnitude(), b.magnitude());
    lemma_steps_order(b.magnitude(), a.magnitude());
    lemma_steps_order(a.magnitude(), 0);
    lemma_steps_order(b.magnitude(), 0);
    assert(steps(0) == 0) by (nonlinear_arith)
        requires
            steps(0) == 0 * pow2(0),
    ;
}

proof fn lemma_steps_order(m1: nat, m2: nat)
    requires
        m1 < INFINITE,
        m2 < INFINITE,
    ensures
        steps(m1) < steps(m2) <==> m1 < m2,
        steps(m1) == steps(m2) <==> m1 == m2,
{
    law_magnitude_of_steps(m1);
    law_magnitude_of_steps(m2);
    if steps(m1) <= steps(m2) {
        law_magnitude_monotone(steps(m1), 1, steps(m2), 1);
    }
    if steps(m2) <= steps(m1) {
        law_magnitude_monotone(steps(m2), 1, steps(m1), 1);
    }
}

/// Integers of at most twenty-four digits are held exactly.
pub proof fn law_from_integer_exact(n: nat)
    requires
        n < SIGNIFICAND_LIMIT,
    ensures
        from_integer(n).is_finite(),
        !from_integer(n).negative(),
        from_integer(n).value() == n * pow2(FRACTION_PLACES as nat),
{
    let w: nat = pow2(FRACTION_PLACES as nat);
    lemma_pow2_pos(FRACTION_PLACES as nat);
    law_rounded_is_exact(1, n, FRACTION_PLACES as nat);
    assert(1 * (n * w) == n * w);
    // The number lies below the largest finite one.
    lemma_integer_is_finite(n);
    law_magnitude_is_rounded(n * w, 1);
}

proof fn lemma_integer_is_finite(n: nat)
    requires
        n < SIGNIFICAND_LIMIT,
    ensures
        magnitude(n * pow2(FRACTION_PLACES as nat), 1) < INFINITE,
{
    lemma2_to64();
    let w: nat = pow2(FRACTION_PLACES as nat);
    let top: nat = SIGNIFICAND_LIMIT as nat * w;
    // Two to the power of twenty-four, as a magnitude.
    let m: nat = 0x4b80_0000;
    lemma_pow2_adds(1, FRACTION_PLACES as nat);
    assert(m / HIDDEN_BIT as nat == 151 && m % HIDDEN_BIT as nat == 0);
    assert(steps(m) == HIDDEN_BIT as nat * pow2(150));
    assert(steps(m) == top) by (nonlinear_arith)
        requires
            steps(m) == HIDDEN_BIT as nat * pow2(150),
            pow2(150) == 2 * w,
            top == SIGNIFICAND_LIMIT as nat * w,
            SIGNIFICAND_LIMIT == 2 * HIDDEN_BIT,
    ;
    law_magnitude_of_steps(m);
    assert(n * w * 1 <= top * 1) by (nonlinear_arith)
        requires
            n <= SIGNIFICAND_LIMIT,
            top == SIGNIFICAND_LIMIT as nat * w,
    ;
    law_magnitude_monotone(n * w, 1, top, 1);
}

/// Every integer of at most sixty-four digits has a finite number nearest to it, and
/// only zero has zero.
pub proof fn law_from_integer_finite(n: nat)
    requires
        n <= 0x1_0000_0000_0000_0000,
    ensures
        from_integer(n).is_finite(),
        !from_integer(n).negative(),
        n > 0 ==> Binary32::zero().below(from_integer(n)),
{
    lemma2_to64();
    lemma2_to64_rest();
    let w: nat = pow2(FRACTION_PLACES as nat);
    lemma_pow2_pos(FRACTION_PLACES as nat);
    // Two to the power of sixty-four, as a magnitude.
    let m: nat = 0x5f80_0000;
    assert(m / HIDDEN_BIT as nat == 191 && m % HIDDEN_BIT as nat == 0);
    lemma_pow2_adds(23, 190);
    lemma_pow2_adds(64, FRACTION_PLACES as nat);
    assert(steps(m) == pow2(64) * w);
    law_magnitude_of_steps(m);
    assert(n * w * 1 <= steps(m) * 1) by (nonlinear_arith)
        requires
            n <= pow2(64),
            steps(m) == pow2(64) * w,
    ;
    law_magnitude_monotone(n * w, 1, steps(m), 1);
    if n > 0 {
        lemma_steps_zero();
        assert(n * w >= 1) by (nonlinear_arith)
            requires
                n > 0,
                w > 0,
        ;
        law_magnitude_monotone(1, 1, n * w, 1);
    }
}

/// One is one, and a number multiplied by it is unchanged.
pub proof fn law_product_with_one(a: Binary32)
    requires
        !a.is_nan(),
    ensures
        Binary32::one() == from_integer(1),
        product(a, Binary32::one()) == a,
        product(Binary32::one(), a) == a,
{
    lemma2_to64();
    let one: Binary32 = Binary32::one();
    let w: nat = pow2(FRACTION_PLACES as nat);
    lemma_pow2_pos(FRACTION_PLACES as nat);
    lemma_pow2_adds(23, 126);
    assert(one.magnitude() / HIDDEN_BIT as nat == 127 && one.magnitude() % HIDDEN_BIT as nat == 0);
    assert(one.steps() == w);
    law_magnitude_of_steps(one.magnitude());
    if a.is_finite() {
        law_magnitude_of_steps(a.magnitude());
        lemma_magnitude_cancel(a.steps(), 1, w);
        assert(1 * w == w);
        assert(w * a.steps() == a.steps() * w) by (nonlinear_arith);
    }
}

/// A finite number other than zero goes into itself once.
pub proof fn law_quotient_of_itself(a: Binary32)
    requires
        a.is_finite(),
        !a.is_zero(),
    ensures
        quotient(a, a) == Binary32::one(),
{
    let w: nat = pow2(FRACTION_PLACES as nat);
    lemma_steps_zero();
    lemma_steps_order(0, a.magnitude());
    law_product_with_one(a);
    lemma_magnitude_cancel(w, 1, a.steps());
    assert(w * a.steps() == a.steps() * w) by (nonlinear_arith);
    assert(1 * w == w);
    assert(1 * a.steps() == a.steps());
}

/// The part of a small integer before the point is the integer.
pub proof fn law_truncated_integer(n: nat)
    requires
        n < SIGNIFICAND_LIMIT,
    ensures
        truncated(from_integer(n)) == n,
{
    let w: nat = pow2(FRACTION_PLACES as nat);
    lemma_pow2_pos(FRACTION_PLACES as nat);
    law_from_integer_exact(n);
    lemma_fundamental_div_mod_converse((n * w) as int, w as int, n as int, 0);
}

/// Adding the same number keeps order, on either side.
pub proof fn law_sum_keeps_order(a: Binary32, b: Binary32, c: Binary32)
    requires
        a.at_most(b),
        c.is_finite(),
    ensures
        sum(a, c).at_most(sum(b, c)),
        sum(c, a) == sum(a, c),
        sum(c, b) == sum(b, c),
{
    if a.is_finite() && b.is_finite() {
        law_order_is_value_order(a, b);
        lemma_sum_order(a.value() + c.value(), b.value() + c.value());
    }
}

proof fn lemma_sum_order(u: int, v: int)
    requires
        u <= v,
    ensures
        u > 0 ==> magnitude(u as nat, 1) <= magnitude(v as nat, 1),
        v < 0 ==> magnitude((-v) as nat, 1) <= magnitude((-u) as nat, 1),
{
    if u > 0 {
        law_magnitude_monotone(u as nat, 1, v as nat, 1);
    }
    if v < 0 {
        law_magnitude_monotone((-v) as nat, 1, (-u) as nat, 1);
    }
}

/// Adding zero, of either sign, changes nothing but the sign of a negative zero.
pub proof fn law_sum_with_zero(a: Binary32, z: Binary32)
    requires
        !a.is_nan(),
        z.is_zero(),
    ensures
        sum(a, z).order() == a.order(),
        !sum(a, z).is_nan(),
        a.bits != SIGN_BIT ==> sum(a, z) == a,
{
    lemma_steps_zero();
    if a.is_finite() {
        law_magnitude_of_steps(a.magnitude());
        lemma_steps_order(0, a.magnitude());
    }
}

/// A product does not depend on the order of its factors.
pub proof fn law_product_commutes(a: Binary32, b: Binary32)
    ensures
        product(a, b) == product(b, a),
{
    assert(a.steps() * b.steps() == b.steps() * a.steps()) by (nonlinear_arith);
}

/// What is zero makes a finite number zero when it is multiplied by it or divides into it.
pub proof fn law_zero_absorbs(z: Binary32, a: Binary32)
    requires
        z.is_zero(),
        a.is_finite(),
    ensures
        product(z, a).is_zero(),
        product(a, z).is_zero(),
        !a.is_zero() ==> quotient(z, a).is_zero(),
{
    let w: nat = pow2(FRACTION_PLACES as nat);
    lemma_pow2_pos(FRACTION_PLACES as nat);
    lemma_steps_zero();
    law_product_commutes(z, a);
    assert(0 * a.steps() == 0);
    assert(0 * w == 0);
    assert(1 * w == w);
    lemma_magnitude_cancel(0, 1, w);
    if !a.is_zero() {
        lemma_steps_order(0, a.magnitude());
        assert(1 * a.steps() == a.steps());
        lemma_magnitude_cancel(0, 1, a.steps());
    }
}

/// Integers keep their order when they are rounded.
pub proof fn law_from_integer_keeps_order(m: nat, n: nat)
    requires
        m <= n,
    ensures
        from_integer(m).at_most(from_integer(n)),
        !from_integer(m).negative(),
        from_integer(0).is_zero(),
{
    let w: nat = pow2(FRACTION_PLACES as nat);
    assert(m * w <= n * w) by (nonlinear_arith)
        requires
            m <= n,
    ;
    law_magnitude_monotone(m * w, 1, n * w, 1);
    lemma_steps_zero();
    assert(0 * w == 0);
}

/// A number that stands for an integer is a whole number of units.
proof fn lemma_integer_steps(n: nat) -> (m: nat)
    requires
        from_integer(n).is_finite(),
    ensures
        from_integer(n).steps() == m * pow2(FRACTION_PLACES as nat),
        from_integer(n).steps() == rounded(n * pow2(FRACTION_PLACES as nat), 1),
{
    law_magnitude_is_rounded(n * pow2(FRACTION_PLACES as nat), 1);
    law_rounded_multiple(n, FRACTION_PLACES as nat)
}

/// Twice an integer is twice the number that stands for it.
pub proof fn law_from_integer_doubles(n: nat)
    requires
        2 * n <= 0x1_0000_0000_0000_0000,
    ensures
        from_integer(2 * n).is_finite(),
        from_integer(n).is_finite(),
        !from_integer(2 * n).negative(),
        !from_integer(n).negative(),
        from_integer(2 * n).steps() == 2 * from_integer(n).steps(),
        from_integer(2 * n).is_zero() <==> from_integer(n).is_zero(),
{
    let w: nat = pow2(FRACTION_PLACES as nat);
    law_from_integer_finite(n);
    law_from_integer_finite(2 * n);
    law_from_integer_keeps_order(0, 0);
    let m: nat = lemma_integer_steps(n);
    let mm: nat = lemma_integer_steps(2 * n);
    assert((2 * n) * w == 2 * (n * w)) by (nonlinear_arith);
    law_rounded_doubles(n * w);
}

/// A finite number and an integer have the rounded product of their steps, without a
/// division.
proof fn lemma_product_with_integer(a: Binary32, n: nat) -> (m: nat)
    requires
        a.is_finite(),
        from_integer(n).is_finite(),
    ensures
        from_integer(n).steps() == m * pow2(FRACTION_PLACES as nat),
        product(a, from_integer(n)) == signed(a.negative(), magnitude(a.steps() * m, 1)),
{
    let w: nat = pow2(FRACTION_PLACES as nat);
    let m: nat = lemma_integer_steps(n);
    lemma_pow2_pos(FRACTION_PLACES as nat);
    law_from_integer_keeps_order(n, n);
    assert(a.steps() * (m * w) == (a.steps() * m) * w) by (nonlinear_arith);
    assert(1 * w == w);
    lemma_magnitude_cancel(a.steps() * m, 1, w);
    m
}

/// The product with twice an integer is twice the product with the integer, where it is
/// finite. Subnormal products are exact, so none is left out.
pub proof fn law_product_with_integer_doubles(a: Binary32, n: nat)
    requires
        a.is_finite(),
        2 * n <= 0x1_0000_0000_0000_0000,
    ensures
        product(a, from_integer(2 * n)).negative() == product(a, from_integer(n)).negative(),
        product(a, from_integer(2 * n)).is_finite() ==> {
            &&& product(a, from_integer(n)).is_finite()
            &&& product(a, from_integer(2 * n)).steps() == 2 * product(a, from_integer(n)).steps()
        },
        product(a, from_integer(n)).is_infinite() ==> product(
            a,
            from_integer(2 * n),
        ).is_infinite(),
        !product(a, from_integer(n)).is_nan(),
        !product(a, from_integer(2 * n)).is_nan(),
{
    let w: nat = pow2(FRACTION_PLACES as nat);
    law_from_integer_doubles(n);
    let m: nat = lemma_product_with_integer(a, n);
    let mm: nat = lemma_product_with_integer(a, 2 * n);
    lemma_pow2_pos(FRACTION_PLACES as nat);
    assert(mm == 2 * m) by (nonlinear_arith)
        requires
            mm * w == 2 * (m * w),
            w > 0,
    ;
    let x: nat = a.steps() * m;
    assert(a.steps() * mm == 2 * x) by (nonlinear_arith)
        requires
            mm == 2 * m,
            x == a.steps() * m,
    ;
    lemma_doubled(a.negative(), x);
}

#[verifier::rlimit(30)]
proof fn lemma_doubled(negative: bool, x: nat)
    ensures
        ({
            let p: Binary32 = signed(negative, magnitude(x, 1));
            let pp: Binary32 = signed(negative, magnitude(2 * x, 1));
            &&& !p.is_nan() && !pp.is_nan()
            &&& p.negative() == negative && pp.negative() == negative
            &&& p.is_infinite() ==> pp.is_infinite()
            &&& pp.is_finite() ==> p.is_finite() && pp.steps() == 2 * p.steps()
        }),
{
    let (m, mm): (nat, nat) = (magnitude(x, 1), magnitude(2 * x, 1));
    law_magnitude_monotone(x, 1, 2 * x, 1);
    lemma_signed(negative, m);
    lemma_signed(negative, mm);
    if mm < INFINITE {
        law_magnitude_is_rounded(x, 1);
        law_magnitude_is_rounded(2 * x, 1);
        law_rounded_doubles(x);
    }
}

/// A sign and a magnitude are kept apart.
proof fn lemma_signed(negative: bool, m: nat)
    requires
        m <= INFINITE,
    ensures
        signed(negative, m).negative() == negative,
        signed(negative, m).magnitude() == m,
{
}

/// Two, as a bit pattern, is the number two and above one.
pub proof fn law_two()
    ensures
        from_integer(2) == (Binary32 { bits: 0x4000_0000 }),
        Binary32::one().below(from_integer(2)),
{
    lemma2_to64();
    let w: nat = pow2(FRACTION_PLACES as nat);
    let m: nat = 0x4000_0000;
    assert(m / HIDDEN_BIT as nat == 128 && m % HIDDEN_BIT as nat == 0);
    lemma_pow2_adds(23, 127);
    lemma_pow2_adds(1, FRACTION_PLACES as nat);
    assert(steps(m) == 2 * w);
    law_magnitude_of_steps(m);
}

/// Twice a number: the sign is kept, zero stays zero, and nothing is rounded.
#[verifier::rlimit(30)]
pub proof fn law_product_with_two(a: Binary32)
    requires
        !a.is_nan(),
    ensures
        product(from_integer(2), a) == product(a, from_integer(2)),
        !product(from_integer(2), a).is_nan(),
        product(from_integer(2), a).negative() == a.negative(),
        product(from_integer(2), a).is_zero() <==> a.is_zero(),
        a.is_zero() ==> product(from_integer(2), a) == a,
        a.is_infinite() ==> product(from_integer(2), a) == a,
        product(from_integer(2), a).is_finite() ==> a.is_finite() && product(
            from_integer(2),
            a,
        ).steps() == 2 * a.steps(),
        a.is_finite() && a.magnitude() >= HIDDEN_BIT ==> product(from_integer(2), a) == signed(
            a.negative(),
            capped(a.magnitude() + HIDDEN_BIT as nat),
        ),
{
    law_product_commutes(from_integer(2), a);
    law_two();
    if a.is_finite() {
        law_product_with_integer_doubles(a, 1);
        law_product_with_one(a);
        lemma_twice(a);
    }
}

/// Twice a finite number, by its magnitude.
#[verifier::rlimit(30)]
proof fn lemma_twice(a: Binary32)
    requires
        a.is_finite(),
    ensures
        product(a, from_integer(2)) == signed(a.negative(), magnitude(2 * a.steps(), 1)),
        magnitude(2 * a.steps(), 1) == 0 <==> a.magnitude() == 0,
        a.magnitude() >= HIDDEN_BIT ==> magnitude(2 * a.steps(), 1) == capped(
            a.magnitude() + HIDDEN_BIT as nat,
        ),
{
    let w: nat = pow2(FRACTION_PLACES as nat);
    lemma_pow2_pos(FRACTION_PLACES as nat);
    law_from_integer_exact(2);
    assert(a.steps() * (2 * w) == (2 * a.steps()) * w) by (nonlinear_arith);
    assert(1 * w == w);
    lemma_magnitude_cancel(2 * a.steps(), 1, w);
    law_magnitude_of_steps(a.magnitude());
    law_magnitude_monotone(a.steps(), 1, 2 * a.steps(), 1);
    lemma_steps_zero();
    if a.magnitude() >= HIDDEN_BIT {
        lemma2_to64();
        // The least normal number.
        let least: nat = HIDDEN_BIT as nat;
        assert(least / HIDDEN_BIT as nat == 1 && least % HIDDEN_BIT as nat == 0);
        assert(steps(least) == HIDDEN_BIT * 1);
        lemma_steps_order(least, a.magnitude());
        law_magnitude_doubles(a.steps(), 1);
    }
}

/// Whether two numbers have a product that is exactly zero or, before it is rounded, not
/// below the least normal number.
pub open spec fn product_is_normal(a: Binary32, b: Binary32) -> bool {
    ||| a.steps() * b.steps() == 0
    ||| a.steps() * b.steps() >= pow2(FRACTION_PLACES as nat) * HIDDEN_BIT
}

/// Doubling a factor doubles the product, where neither the doubled factor overflows nor
/// the product underflows.
#[verifier::rlimit(50)]
pub proof fn law_product_with_doubled(a: Binary32, b: Binary32)
    requires
        a.is_finite() && b.is_finite() ==> product(from_integer(2), b).is_finite()
            && product_is_normal(a, b),
    ensures
        product(a, product(from_integer(2), b)) == product(from_integer(2), product(a, b)),
{
    let bb: Binary32 = product(from_integer(2), b);
    if !a.is_nan() && !b.is_nan() {
        law_product_with_two(b);
        if a.is_finite() && b.is_finite() {
            lemma_product_with_doubled(a, b, bb);
        } else {
            lemma_infinite_product_with_doubled(a, b, bb);
        }
    }
}

#[verifier::rlimit(50)]
proof fn lemma_infinite_product_with_doubled(a: Binary32, b: Binary32, bb: Binary32)
    requires
        !a.is_nan(),
        !b.is_nan(),
        a.is_infinite() || b.is_infinite(),
        !bb.is_nan(),
        bb.negative() == b.negative(),
        bb.is_zero() <==> b.is_zero(),
        b.is_infinite() ==> bb == b,
    ensures
        product(a, bb) == product(from_integer(2), product(a, b)),
{
    let p: Binary32 = product(a, b);
    assert(product(a, bb) == p);
    if !p.is_nan() {
        law_product_with_two(p);
    }
}

proof fn lemma_product_with_doubled(a: Binary32, b: Binary32, bb: Binary32)
    requires
        a.is_finite(),
        b.is_finite(),
        bb.is_finite(),
        bb.negative() == b.negative(),
        bb.steps() == 2 * b.steps(),
        product_is_normal(a, b),
    ensures
        product(a, bb) == product(from_integer(2), product(a, b)),
{
    let w: nat = pow2(FRACTION_PLACES as nat);
    let x: nat = a.steps() * b.steps();
    lemma_pow2_pos(FRACTION_PLACES as nat);
    assert(a.steps() * bb.steps() == 2 * x) by (nonlinear_arith)
        requires
            bb.steps() == 2 * b.steps(),
            x == a.steps() * b.steps(),
    ;
    lemma_doubled_fraction(a.negative() != b.negative(), x, w);
}

#[verifier::rlimit(30)]
proof fn lemma_doubled_fraction(negative: bool, n: nat, d: nat)
    requires
        d > 0,
        n == 0 || n >= d * HIDDEN_BIT,
    ensures
        product(from_integer(2), signed(negative, magnitude(n, d))) == signed(
            negative,
            magnitude(2 * n, d),
        ),
{
    let p: Binary32 = signed(negative, magnitude(n, d));
    lemma_signed(negative, magnitude(n, d));
    law_product_with_two(p);
    if n == 0 {
        lemma_steps_zero();
        assert(0 * d == 0 && 1 * d == d);
        lemma_magnitude_cancel(0, 1, d);
    } else {
        law_magnitude_doubles(n, d);
        lemma_least_normal(n, d);
    }
}

/// What is not below the least normal number does not round below it.
proof fn lemma_least_normal(n: nat, d: nat)
    requires
        d > 0,
        n >= d * HIDDEN_BIT,
    ensures
        magnitude(n, d) >= HIDDEN_BIT,
{
    lemma2_to64();
    let least: nat = HIDDEN_BIT as nat;
    assert(least / HIDDEN_BIT as nat == 1 && least % HIDDEN_BIT as nat == 0);
    assert(steps(least) == HIDDEN_BIT * 1);
    law_magnitude_of_steps(least);
    assert(least * d <= n * 1) by (nonlinear_arith)
        requires
            n >= d * HIDDEN_BIT,
            least == HIDDEN_BIT,
    ;
    law_magnitude_monotone(least, 1, n, d);
}

/// A finite sum is off by at most one part in two to the power of twenty-four.
pub proof fn law_sum_error(a: Binary32, b: Binary32)
    requires
        sum(a, b).is_finite(),
    ensures
        a.is_finite(),
        b.is_finite(),
        SIGNIFICAND_LIMIT * abs(sum(a, b).value() - (a.value() + b.value())) <= abs(
            a.value() + b.value(),
        ),
{
    let v: int = a.value() + b.value();
    lemma_steps_zero();
    if v != 0 {
        law_magnitude_is_rounded(abs(v), 1);
        law_rounding_error(abs(v), 1);
    }
}

/// A finite product with a small integer is off by at most one part in two to the power of
/// twenty-four.
pub proof fn law_product_with_integer_error(a: Binary32, n: nat)
    requires
        product(a, from_integer(n)).is_finite(),
        n < SIGNIFICAND_LIMIT,
        a.is_finite(),
    ensures
        SIGNIFICAND_LIMIT * abs(n * a.steps() - product(a, from_integer(n)).steps()) <= n
            * a.steps(),
{
    let w: nat = pow2(FRACTION_PLACES as nat);
    lemma_pow2_pos(FRACTION_PLACES as nat);
    law_from_integer_exact(n);
    let m: nat = lemma_product_with_integer(a, n);
    assert(m == n) by (nonlinear_arith)
        requires
            m * w == n * w,
            w > 0,
    ;
    lemma_signed_steps(a.negative(), a.steps() * n, 1);
    law_rounding_error(a.steps() * n, 1);
    assert(a.steps() * n == n * a.steps()) by (nonlinear_arith);
}

/// The quotient of two small integers is off by at most one part in two to the power of
/// twenty-four, or half a step.
pub proof fn law_from_integer_over_integer(m: nat, n: nat)
    requires
        m < SIGNIFICAND_LIMIT,
        0 < n < SIGNIFICAND_LIMIT,
        quotient(from_integer(m), from_integer(n)).is_finite(),
    ensures
        SIGNIFICAND_LIMIT * abs(
            m * pow2(FRACTION_PLACES as nat) - n * quotient(
                from_integer(m),
                from_integer(n),
            ).steps(),
        ) <= m * pow2(FRACTION_PLACES as nat) + HIDDEN_BIT * n,
{
    law_from_integer_exact(m);
    law_from_integer_exact(n);
    law_from_integer_finite(n);
    let a: Binary32 = from_integer(m);
    lemma_quotient_by_integer(a, n, n);
    lemma_signed_steps(a.negative(), a.steps(), n);
    law_rounding_error(a.steps(), n);
}

/// Multiplying a number by an integer and dividing it again is off by little more than two
/// parts in two to the power of twenty-four, and half a step.
#[verifier::rlimit(30)]
pub proof fn law_share_error(a: Binary32, n: nat)
    requires
        quotient(product(a, from_integer(n)), from_integer(n)).is_finite(),
        0 < n <= 0x1_0000_0000_0000_0000,
    ensures
        a.is_finite(),
        SIGNIFICAND_LIMIT * (SIGNIFICAND_LIMIT * abs(
            quotient(product(a, from_integer(n)), from_integer(n)).value() - a.value(),
        )) <= (2 * SIGNIFICAND_LIMIT + 1) * a.steps() + SIGNIFICAND_LIMIT * HIDDEN_BIT,
{
    law_from_integer_finite(n);
    let p: Binary32 = product(a, from_integer(n));
    let q: Binary32 = quotient(p, from_integer(n));
    lemma_share_is_finite(a, n);
    let m: nat = lemma_product_with_integer(a, n);
    lemma_quotient_by_integer(p, n, m);
    lemma_factor_is_positive(n, m);
    let (x, y, z): (nat, nat, nat) = (a.steps(), p.steps(), q.steps());
    lemma_signed_steps(a.negative(), x * m, 1);
    lemma_signed_steps(a.negative(), y, m);
    law_rounding_error(x * m, 1);
    law_rounding_error(y, m);
    lemma_share_bound(x as int, y as int, z as int, m as int);
    assert(abs(q.value() - a.value()) == abs(z - x));
}

proof fn lemma_signed_steps(negative: bool, n: nat, d: nat)
    requires
        d > 0,
        signed(negative, magnitude(n, d)).is_finite(),
    ensures
        signed(negative, magnitude(n, d)).steps() == rounded(n, d),
        signed(negative, magnitude(n, d)).negative() == negative,
{
    lemma_signed(negative, magnitude(n, d));
    law_magnitude_is_rounded(n, d);
}

proof fn lemma_share_is_finite(a: Binary32, n: nat)
    requires
        quotient(product(a, from_integer(n)), from_integer(n)).is_finite(),
        from_integer(n).is_finite(),
        Binary32::zero().below(from_integer(n)),
    ensures
        a.is_finite(),
        product(a, from_integer(n)).is_finite(),
{
}

proof fn lemma_factor_is_positive(n: nat, m: nat)
    requires
        from_integer(n).is_finite(),
        Binary32::zero().below(from_integer(n)),
        from_integer(n).steps() == m * pow2(FRACTION_PLACES as nat),
    ensures
        m > 0,
{
    let w: nat = pow2(FRACTION_PLACES as nat);
    law_order_is_value_order(Binary32::zero(), from_integer(n));
    lemma_steps_zero();
    assert(0 * w == 0);
}

proof fn lemma_quotient_by_integer(p: Binary32, n: nat, m: nat)
    requires
        p.is_finite(),
        from_integer(n).is_finite(),
        Binary32::zero().below(from_integer(n)),
        from_integer(n).steps() == m * pow2(FRACTION_PLACES as nat),
    ensures
        quotient(p, from_integer(n)) == signed(p.negative(), magnitude(p.steps(), m)),
{
    let w: nat = pow2(FRACTION_PLACES as nat);
    lemma_pow2_pos(FRACTION_PLACES as nat);
    lemma_factor_is_positive(n, m);
    lemma_magnitude_cancel(p.steps(), m, w);
}

proof fn lemma_triangle(f: int, y: int, g: int, m: int)
    requires
        y >= 0,
        m >= 0,
        0x100_0000 * abs(f - y) <= f,
        0x100_0000 * abs(y - g) <= y || 2 * abs(y - g) <= m,
    ensures
        0x100_0000 * (0x100_0000 * abs(f - g)) <= 0x200_0001 * f + 0x100_0000 * (0x80_0000 * m),
{
    let (e1, e2, e3): (int, int, int) = (abs(f - y) as int, abs(y - g) as int, abs(f - g) as int);
    assert(e3 <= e1 + e2);
    assert(y <= f + e1);
    assert(0x100_0000 * e2 <= y + 0x80_0000 * m);
    assert(0x100_0000 * e3 <= f + y + 0x80_0000 * m);
    assert(0x100_0000 * y <= 0x100_0001 * f);
}

/// If `y` is `x * m` and `z` is `y / m`, each rounded, then `z` is near `x`.
proof fn lemma_share_bound(x: int, y: int, z: int, m: int)
    requires
        x >= 0,
        m > 0,
        SIGNIFICAND_LIMIT * abs(x * m - y) <= x * m,
        SIGNIFICAND_LIMIT * abs(y - m * z) <= y || 2 * abs(y - m * z) <= m,
        y >= 0,
    ensures
        SIGNIFICAND_LIMIT * (SIGNIFICAND_LIMIT * abs(z - x)) <= (2 * SIGNIFICAND_LIMIT + 1) * x
            + SIGNIFICAND_LIMIT * HIDDEN_BIT,
{
    let t: int = SIGNIFICAND_LIMIT as int;
    let f: int = x * m;
    let g: int = m * z;
    let bound: int = (2 * t + 1) * x + t * HIDDEN_BIT;
    lemma_triangle(f, y, g, m);
    let e: int = abs(z - x) as int;
    assert(abs(f - g) == m * e) by {
        if z >= x {
            assert(g - f == m * (z - x)) by (nonlinear_arith)
                requires
                    f == x * m,
                    g == m * z,
            ;
            assert(m * (z - x) >= 0) by (nonlinear_arith)
                requires
                    m > 0,
                    z >= x,
            ;
        } else {
            assert(f - g == m * (x - z)) by (nonlinear_arith)
                requires
                    f == x * m,
                    g == m * z,
            ;
            assert(m * (x - z) >= 0) by (nonlinear_arith)
                requires
                    m > 0,
                    z < x,
            ;
        }
    }
    assert((2 * t + 1) * f + t * (HIDDEN_BIT * m) == m * bound) by (nonlinear_arith)
        requires
            f == x * m,
            bound == (2 * t + 1) * x + t * HIDDEN_BIT,
    ;
    assert(t * (t * (m * e)) == m * (t * (t * e))) by (nonlinear_arith);
    assert(t * (t * e) <= bound) by (nonlinear_arith)
        requires
            m * (t * (t * e)) <= m * bound,
            m > 0,
    ;
}

proof fn lemma_doubled_back(a: Binary32)
    requires
        a.is_finite(),
        a.magnitude() >= 0x100_0000,
    ensures
        product(
            from_integer(2),
            signed(a.negative(), (a.magnitude() - HIDDEN_BIT) as nat),
        ) == a,
{
    let m: nat = (a.magnitude() - HIDDEN_BIT) as nat;
    let b: Binary32 = signed(a.negative(), m);
    lemma_signed(a.negative(), m);
    law_product_with_two(b);
    assert(signed(a.negative(), a.magnitude()) == a);
}

/// Half of a number that is at least twice the least normal one has the exponent less one.
pub proof fn law_half_of(a: Binary32)
    requires
        a.is_finite(),
        a.magnitude() >= 0x100_0000,
    ensures
        product(Binary32 { bits: 0x3f00_0000 }, a) == signed(
            a.negative(),
            (a.magnitude() - HIDDEN_BIT) as nat,
        ),
        product(
            from_integer(2),
            signed(a.negative(), (a.magnitude() - HIDDEN_BIT) as nat),
        ) == a,
{
    lemma2_to64();
    lemma_doubled_back(a);
    let w: nat = pow2(FRACTION_PLACES as nat);
    let h: Binary32 = Binary32 { bits: 0x3f00_0000 };
    assert(h.magnitude() / HIDDEN_BIT as nat == 126 && h.magnitude() % HIDDEN_BIT as nat == 0);
    lemma_pow2_adds(23, 125);
    lemma_pow2_adds(1, 148);
    lemma_pow2_pos(148);
    let v: nat = pow2(148);
    assert(h.steps() == v && w == 2 * v);
    let m: nat = (a.magnitude() - HIDDEN_BIT) as nat;
    lemma_signed(a.negative(), m);
    let b: Binary32 = signed(a.negative(), m);
    lemma_twice(b);
    law_magnitude_of_steps(m);
    law_magnitude_of_steps(a.magnitude());
    // Twice the steps of the lower magnitude are those of the number.
    assert(magnitude(2 * b.steps(), 1) == a.magnitude());
    law_magnitude_is_rounded(b.steps(), 1);
    law_magnitude_is_rounded(2 * b.steps(), 1);
    law_rounded_doubles(b.steps());
    assert(a.steps() == 2 * b.steps());
    assert(v * (2 * b.steps()) == b.steps() * w) by (nonlinear_arith)
        requires
            w == 2 * v,
    ;
    assert(1 * w == w);
    lemma_magnitude_cancel(b.steps(), 1, w);
}

/// Square roots keep order, and only zero has the root zero.
pub proof fn law_square_root_keeps_order(a: Binary32, b: Binary32)
    requires
        a.at_most(b),
        !a.negative(),
        !b.negative(),
    ensures
        square_root(a).at_most(square_root(b)),
        !square_root(a).negative(),
        !square_root(b).negative(),
        Binary32::zero().below(a) ==> Binary32::zero().below(square_root(a)),
{
    let w: nat = pow2(FRACTION_PLACES as nat);
    lemma_pow2_pos(FRACTION_PLACES as nat);
    lemma_steps_zero();
    if a.is_finite() {
        law_order_is_value_order(Binary32::zero(), a);
        if a.steps() > 0 {
            assert(a.steps() * w > 0) by (nonlinear_arith)
                requires
                    a.steps() > 0,
                    w > 0,
            ;
        }
        law_root_keeps_order(a.steps() * w, a.steps() * w);
        if b.is_finite() {
            law_order_is_value_order(a, b);
            assert(a.steps() * w <= b.steps() * w) by (nonlinear_arith)
                requires
                    a.steps() <= b.steps(),
            ;
            law_root_keeps_order(a.steps() * w, b.steps() * w);
        }
    }
}

/// Multiplying a number by a small integer and dividing it by another is off by little
/// more than two parts in two to the power of twenty-four, and half a step.
pub proof fn law_fraction_error(a: Binary32, i: nat, n: nat)
    requires
        quotient(product(a, from_integer(i)), from_integer(n)).is_finite(),
        0 < n < SIGNIFICAND_LIMIT,
        i < SIGNIFICAND_LIMIT,
    ensures
        a.is_finite(),
        0x100_0000 * (0x100_0000 * abs(
            n * quotient(product(a, from_integer(i)), from_integer(n)).value() - i * a.value(),
        )) <= 0x200_0001 * (a.steps() * i) + 0x100_0000 * (0x80_0000 * n),
{
    let w: nat = pow2(FRACTION_PLACES as nat);
    lemma_pow2_pos(FRACTION_PLACES as nat);
    law_from_integer_finite(n);
    law_from_integer_exact(n);
    law_from_integer_exact(i);
    let p: Binary32 = product(a, from_integer(i));
    let q: Binary32 = quotient(p, from_integer(n));
    lemma_fraction_is_finite(a, from_integer(i), from_integer(n));
    let m: nat = lemma_product_with_integer(a, i);
    assert(m == i) by (nonlinear_arith)
        requires
            m * w == i * w,
            w > 0,
    ;
    lemma_quotient_by_integer(p, n, n);
    let (x, y, z): (nat, nat, nat) = (a.steps(), p.steps(), q.steps());
    lemma_signed_steps(a.negative(), x * i, 1);
    lemma_signed_steps(a.negative(), y, n);
    law_rounding_error(x * i, 1);
    law_rounding_error(y, n);
    lemma_triangle((x * i) as int, y as int, (n * z) as int, n as int);
    lemma_signed_products(a.negative(), n as int, z as int, i as int, x as int);
    assert(q.value() == if a.negative() {
        -(z as int)
    } else {
        z as int
    });
}

proof fn lemma_signed_products(negative: bool, n: int, z: int, i: int, x: int)
    ensures
        abs(
            n * (if negative {
                -z
            } else {
                z
            }) - i * (if negative {
                -x
            } else {
                x
            }),
        ) == abs(x * i - n * z),
{
    assert(n * (-z) == -(n * z)) by (nonlinear_arith);
    assert(i * (-x) == -(x * i)) by (nonlinear_arith);
    assert(i * x == x * i) by (nonlinear_arith);
}

proof fn lemma_fraction_is_finite(a: Binary32, b: Binary32, c: Binary32)
    requires
        quotient(product(a, b), c).is_finite(),
        b.is_finite(),
        c.is_finite(),
    ensures
        product(a, b).is_finite(),
        a.is_finite(),
{
}

/// Doubling both numbers does not change their quotient.
pub proof fn law_quotient_of_doubled(a: Binary32, aa: Binary32, b: Binary32, bb: Binary32)
    requires
        a.is_finite(),
        aa.is_finite(),
        b.is_finite(),
        bb.is_finite(),
        aa.negative() == a.negative(),
        bb.negative() == b.negative(),
        aa.steps() == 2 * a.steps(),
        bb.steps() == 2 * b.steps(),
    ensures
        quotient(aa, bb) == quotient(a, b),
{
    let w: nat = pow2(FRACTION_PLACES as nat);
    lemma_steps_zero();
    lemma_steps_order(0, a.magnitude());
    lemma_steps_order(0, aa.magnitude());
    lemma_steps_order(0, b.magnitude());
    lemma_steps_order(0, bb.magnitude());
    if b.steps() > 0 {
        assert(aa.steps() * w == (a.steps() * w) * 2) by (nonlinear_arith)
            requires
                aa.steps() == 2 * a.steps(),
        ;
        lemma_magnitude_cancel(a.steps() * w, b.steps(), 2);
    }
}

/// A number of at most 256 has a finite product with every integer of at most
/// sixty-four digits.
pub proof fn law_product_with_integer_is_finite(a: Binary32, n: nat)
    requires
        a.magnitude() <= from_integer(256).magnitude(),
        n <= 0x1_0000_0000_0000_0000,
    ensures
        product(a, from_integer(n)).is_finite(),
{
    lemma2_to64();
    lemma2_to64_rest();
    let w: nat = pow2(FRACTION_PLACES as nat);
    let b: Binary32 = from_integer(n);
    lemma_pow2_pos(FRACTION_PLACES as nat);
    law_from_integer_exact(256);
    law_from_integer_finite(n);
    lemma_integer_steps_bound(n);
    lemma_steps_order(a.magnitude(), from_integer(256).magnitude());
    // Two to the power of seventy-two, as a magnitude.
    let top: nat = 0x6380_0000;
    assert(top / HIDDEN_BIT as nat == 199 && top % HIDDEN_BIT as nat == 0);
    lemma_pow2_adds(23, 198);
    lemma_pow2_adds(8, 64);
    lemma_pow2_adds(72, FRACTION_PLACES as nat);
    assert(steps(top) == pow2(72) * w);
    law_magnitude_of_steps(top);
    assert(a.steps() * b.steps() * 1 <= steps(top) * w) by (nonlinear_arith)
        requires
            a.steps() <= 256 * w,
            b.steps() <= pow2(64) * w,
            steps(top) == pow2(72) * w,
            pow2(72) == 256 * pow2(64),
    ;
    law_magnitude_monotone(a.steps() * b.steps(), w, steps(top), 1);
}

proof fn lemma_integer_steps_bound(n: nat)
    requires
        n <= 0x1_0000_0000_0000_0000,
    ensures
        from_integer(n).steps() <= pow2(64) * pow2(FRACTION_PLACES as nat),
{
    lemma2_to64();
    lemma2_to64_rest();
    let top: nat = 0x1_0000_0000_0000_0000;
    law_from_integer_finite(n);
    law_from_integer_finite(top);
    law_from_integer_keeps_order(n, top);
    law_order_is_value_order(from_integer(n), from_integer(top));
    let w: nat = pow2(FRACTION_PLACES as nat);
    lemma_pow2_adds(64, FRACTION_PLACES as nat);
    law_rounded_is_exact(1, 1, (64 + FRACTION_PLACES) as nat);
    law_magnitude_is_rounded(top * w, 1);
    assert(1 * (1 * pow2((64 + FRACTION_PLACES) as nat)) == top * w);
}

/// Multiplying numbers that are not negative by a positive one keeps their order.
pub proof fn law_product_keeps_order(a: Binary32, b: Binary32, c: Binary32)
    requires
        a.at_most(b),
        !a.negative(),
        !b.negative(),
        Binary32::zero().below(c),
        c.is_finite(),
    ensures
        product(a, c).at_most(product(b, c)),
        !product(a, c).negative(),
        !product(b, c).negative(),
{
    let w: nat = pow2(FRACTION_PLACES as nat);
    lemma_pow2_pos(FRACTION_PLACES as nat);
    if b.is_finite() {
        law_order_is_value_order(a, b);
        assert(a.steps() * c.steps() * w <= b.steps() * c.steps() * w) by (nonlinear_arith)
            requires
                a.steps() <= b.steps(),
        ;
        law_magnitude_monotone(a.steps() * c.steps(), w, b.steps() * c.steps(), w);
    }
}

/// Dividing numbers that are not negative by a positive one keeps their order.
pub proof fn law_quotient_keeps_order(a: Binary32, b: Binary32, c: Binary32)
    requires
        a.at_most(b),
        !a.negative(),
        !b.negative(),
        Binary32::zero().below(c),
        c.is_finite(),
    ensures
        quotient(a, c).at_most(quotient(b, c)),
        !quotient(a, c).negative(),
        !quotient(b, c).negative(),
{
    let w: nat = pow2(FRACTION_PLACES as nat);
    lemma_steps_zero();
    law_order_is_value_order(Binary32::zero(), c);
    if b.is_finite() {
        law_order_is_value_order(a, b);
        assert(a.steps() * w * c.steps() <= b.steps() * w * c.steps()) by (nonlinear_arith)
            requires
                a.steps() <= b.steps(),
        ;
        law_magnitude_monotone(a.steps() * w, c.steps(), b.steps() * w, c.steps());
    }
}

/// Cutting to an integer keeps order.
pub proof fn law_truncated_keeps_order(a: Binary32, b: Binary32)
    requires
        a.at_most(b),
    ensures
        truncated(a) <= truncated(b),
{
    lemma_pow2_pos(FRACTION_PLACES as nat);
    if a.is_finite() && b.is_finite() && !a.negative() && !b.negative() {
        law_order_is_value_order(a, b);
        lemma_div_is_ordered(
            a.steps() as int,
            b.steps() as int,
            pow2(FRACTION_PLACES as nat) as int,
        );
    } else if a.is_finite() && !a.negative() && b.negative() {
        // Both are zero.
        lemma_steps_zero();
        assert(0nat / pow2(FRACTION_PLACES as nat) == 0) by (nonlinear_arith)
            requires
                pow2(FRACTION_PLACES as nat) > 0,
        ;
    }
}

/// The significand of a magnitude below `INFINITE`.
pub(crate) fn significand_of(m: u32) -> (s: u32)
    requires
        m < INFINITE,
    ensures
        s == significand(m as nat),
        s < SIGNIFICAND_LIMIT,
        m >= HIDDEN_BIT ==> s >= HIDDEN_BIT,
{
    if m < HIDDEN_BIT {
        m
    } else {
        m % HIDDEN_BIT + HIDDEN_BIT
    }
}

/// The place of the significand of a magnitude below `INFINITE`.
pub(crate) fn scale_of(m: u32) -> (k: i32)
    requires
        m < INFINITE,
    ensures
        k == scale(m as nat),
        0 <= k <= 253,
        k > 0 ==> m >= HIDDEN_BIT,
{
    if m < HIDDEN_BIT {
        0
    } else {
        (m / HIDDEN_BIT - 1) as i32
    }
}

/// The number with the given sign and magnitude.
fn assemble(negative: bool, m: u32) -> (r: Binary32)
    requires
        m <= INFINITE,
    ensures
        r == signed(negative, m as nat),
        r.negative() == negative,
        r.magnitude() == m,
{
    if negative {
        Binary32 { bits: SIGN_BIT + m }
    } else {
        Binary32 { bits: m }
    }
}

impl Binary32 {
    /// The number with the given bit pattern.
    pub fn from_bits(bits: u32) -> (r: Binary32)
        ensures
            r.bits == bits,
    {
        Binary32 { bits }
    }

    /// The bit pattern.
    pub fn to_bits(self) -> (bits: u32)
        ensures
            bits == self.bits,
    {
        self.bits
    }

    /// Zero.
    #[verifier::allow_in_spec]
    pub fn zero() -> Binary32
        returns
            (Binary32 { bits: 0 }),
    {
        Binary32 { bits: 0 }
    }

    /// One.
    #[verifier::allow_in_spec]
    pub fn one() -> Binary32
        returns
            (Binary32 { bits: 0x3f80_0000 }),
    {
        Binary32 { bits: 0x3f80_0000 }
    }

    /// `self < other`.
    pub fn lt(self, other: Binary32) -> (r: bool)
        ensures
            r == self.below(other),
    {
        let ma: u32 = self.bits % SIGN_BIT;
        let mb: u32 = other.bits % SIGN_BIT;
        if ma > INFINITE || mb > INFINITE {
            return false;
        }
        let oa: i64 = if self.bits >= SIGN_BIT {
            -(ma as i64)
        } else {
            ma as i64
        };
        let ob: i64 = if other.bits >= SIGN_BIT {
            -(mb as i64)
        } else {
            mb as i64
        };
        oa < ob
    }

    /// `self <= other`.
    pub fn le(self, other: Binary32) -> (r: bool)
        ensures
            r == self.at_most(other),
    {
        !self.not_a_number() && !other.not_a_number() && !other.lt(self)
    }

    /// `self > other`.
    pub fn gt(self, other: Binary32) -> (r: bool)
        ensures
            r == other.below(self),
    {
        other.lt(self)
    }

    /// Whether this is not a number.
    pub fn not_a_number(self) -> (r: bool)
        ensures
            r == self.is_nan(),
    {
        self.bits % SIGN_BIT > INFINITE
    }

    /// The larger of two numbers.
    pub fn max(self, other: Binary32) -> (r: Binary32)
        ensures
            r == larger(self, other),
    {
        if self.not_a_number() || self.lt(other) {
            other
        } else {
            self
        }
    }

    /// The smaller of two numbers.
    pub fn min(self, other: Binary32) -> (r: Binary32)
        ensures
            r == smaller(self, other),
    {
        if self.not_a_number() || other.lt(self) {
            other
        } else {
            self
        }
    }

    /// `self * other`.
    pub fn times(self, other: Binary32) -> (r: Binary32)
        ensures
            r == product(self, other),
    {
        let ma: u32 = self.bits % SIGN_BIT;
        let mb: u32 = other.bits % SIGN_BIT;
        let negative: bool = (self.bits >= SIGN_BIT) != (other.bits >= SIGN_BIT);
        if ma > INFINITE || mb > INFINITE {
            return Binary32 { bits: QUIET_NAN };
        }
        if ma == INFINITE || mb == INFINITE {
            if ma == 0 || mb == 0 {
                return Binary32 { bits: QUIET_NAN };
            }
            return assemble(negative, INFINITE);
        }
        let sa: u128 = significand_of(ma) as u128;
        let sb: u128 = significand_of(mb) as u128;
        let ka: i32 = scale_of(ma);
        let kb: i32 = scale_of(mb);
        proof {
            let (pa, pb): (nat, nat) = (pow2(ka as nat), pow2(kb as nat));
            lemma_pow2_adds(ka as nat, kb as nat);
            assert((sa * pa) * (sb * pb) == (sa * sb) * (pa * pb)) by (nonlinear_arith);
            lemma_magnitude_at((sa * sb) as nat, 1, (ka + kb) as nat, FRACTION_PLACES as nat);
            assert(1 * pow2(FRACTION_PLACES as nat) == pow2(FRACTION_PLACES as nat));
            assert(sa * sb < 0x1_0000_0000_0000) by (nonlinear_arith)
                requires
                    sa < 0x100_0000,
                    sb < 0x100_0000,
            ;
        }
        let m: u32 = round_scaled(sa * sb, ka + kb - FRACTION_PLACES as i32);
        assemble(negative, m)
    }

    /// The same number with the other sign.
    pub fn negate(self) -> (r: Binary32)
        ensures
            r == self.negated(),
            r.magnitude() == self.magnitude(),
            r.negative() == !self.negative(),
    {
        if self.bits >= SIGN_BIT {
            Binary32 { bits: self.bits - SIGN_BIT }
        } else {
            Binary32 { bits: self.bits + SIGN_BIT }
        }
    }

    /// `self + other`.
    pub fn plus(self, other: Binary32) -> (r: Binary32)
        ensures
            r == sum(self, other),
    {
        let ma: u32 = self.bits % SIGN_BIT;
        let mb: u32 = other.bits % SIGN_BIT;
        let na: bool = self.bits >= SIGN_BIT;
        let nb: bool = other.bits >= SIGN_BIT;
        if ma > INFINITE || mb > INFINITE {
            return Binary32 { bits: QUIET_NAN };
        }
        if ma == INFINITE {
            if mb == INFINITE && na != nb {
                return Binary32 { bits: QUIET_NAN };
            }
            return self;
        }
        if mb == INFINITE {
            return other;
        }
        proof {
            lemma_steps_order(ma as nat, mb as nat);
            lemma_steps_order(mb as nat, ma as nat);
            lemma_steps_zero();
            lemma_steps_order(0, ma as nat);
        }
        if na == nb {
            if ma >= mb {
                let m: u32 = add_magnitudes(ma, mb);
                proof {
                    assert(ma == 0 ==> m == 0);
                }
                assemble(na, m)
            } else {
                assemble(na, add_magnitudes(mb, ma))
            }
        } else if ma > mb {
            assemble(na, subtract_magnitudes(ma, mb))
        } else if mb > ma {
            assemble(nb, subtract_magnitudes(mb, ma))
        } else {
            Binary32 { bits: 0 }
        }
    }

    /// `self - other`.
    pub fn minus(self, other: Binary32) -> (r: Binary32)
        ensures
            r == difference(self, other),
    {
        self.plus(other.negate())
    }

    /// `self / other`.
    pub fn over(self, other: Binary32) -> (r: Binary32)
        ensures
            r == quotient(self, other),
    {
        let ma: u32 = self.bits % SIGN_BIT;
        let mb: u32 = other.bits % SIGN_BIT;
        let negative: bool = (self.bits >= SIGN_BIT) != (other.bits >= SIGN_BIT);
        if ma > INFINITE || mb > INFINITE {
            return Binary32 { bits: QUIET_NAN };
        }
        if ma == INFINITE {
            if mb == INFINITE {
                return Binary32 { bits: QUIET_NAN };
            }
            return assemble(negative, INFINITE);
        }
        if mb == INFINITE {
            return assemble(negative, 0);
        }
        if mb == 0 {
            if ma == 0 {
                return Binary32 { bits: QUIET_NAN };
            }
            return assemble(negative, INFINITE);
        }
        assemble(negative, divide_magnitudes(ma, mb))
    }
}

pub proof fn lemma_steps_zero()
    ensures
        steps(0) == 0,
        magnitude(0, 1) == 0,
        steps(1) == 1,
        magnitude(1, 1) == 1,
{
    lemma2_to64();
    assert(steps(1) == 1) by (nonlinear_arith)
        requires
            steps(1) == 1 * pow2(0),
            pow2(0) == 1,
    ;
    law_magnitude_of_steps(1);
    assert(steps(0) == 0) by (nonlinear_arith)
        requires
            steps(0) == 0 * pow2(0),
    ;
    law_magnitude_of_steps(0);
}

/// The magnitude of the sum of two numbers of the same sign, the larger one first.
fn add_magnitudes(ma: u32, mb: u32) -> (m: u32)
    requires
        mb <= ma < INFINITE,
    ensures
        m == magnitude(steps(ma as nat) + steps(mb as nat), 1),
        m <= INFINITE,
{
    let sa: u128 = significand_of(ma) as u128;
    let sb: u128 = significand_of(mb) as u128;
    let ka: i32 = scale_of(ma);
    let kb: i32 = scale_of(mb);
    proof {
        lemma_scale_order(ma as nat, mb as nat);
    }
    let d: i32 = ka - kb;
    if d <= 80 {
        let p: u128 = power_of_two(d as u32);
        proof {
            lemma_aligned(sa as nat, sb as nat, ka as nat, kb as nat);
            lemma_aligned_bound(sa as nat, d as nat);
            lemma_magnitude_at((sa * p + sb) as nat, 1, kb as nat, 0);
            lemma2_to64();
            assert(1 * pow2(0) == 1);
        }
        round_scaled(sa * p + sb, kb)
    } else {
        // The smaller number lies wholly below the last digit that is kept.
        let p: u128 = power_of_two(56);
        let jam: u128 = if sb == 0 {
            0
        } else {
            1
        };
        proof {
            lemma_far_sum(sa as nat, sb as nat, ka as nat, kb as nat);
            lemma2_to64();
            lemma2_to64_rest();
            assert(sa * p < 0x100_0000 * 0x100_0000_0000_0000) by (nonlinear_arith)
                requires
                    sa < 0x100_0000,
                    p == 0x100_0000_0000_0000,
            ;
        }
        round_scaled(2 * (sa * p) + jam, ka - 57)
    }
}

/// The magnitude of the difference of two numbers of the same sign, the larger one first.
fn subtract_magnitudes(ma: u32, mb: u32) -> (m: u32)
    requires
        mb <= ma < INFINITE,
    ensures
        m == magnitude((steps(ma as nat) - steps(mb as nat)) as nat, 1),
        m <= INFINITE,
{
    let sa: u128 = significand_of(ma) as u128;
    let sb: u128 = significand_of(mb) as u128;
    let ka: i32 = scale_of(ma);
    let kb: i32 = scale_of(mb);
    proof {
        lemma_scale_order(ma as nat, mb as nat);
        lemma_steps_order(mb as nat, ma as nat);
    }
    let d: i32 = ka - kb;
    if d <= 80 {
        let p: u128 = power_of_two(d as u32);
        proof {
            lemma_aligned(sa as nat, sb as nat, ka as nat, kb as nat);
            lemma_aligned_bound(sa as nat, d as nat);
            lemma_pow2_pos(kb as nat);
            assert(sb <= sa * p) by (nonlinear_arith)
                requires
                    sb * pow2(kb as nat) <= (sa * p) * pow2(kb as nat),
                    pow2(kb as nat) > 0,
            ;
            lemma_magnitude_at((sa * p - sb) as nat, 1, kb as nat, 0);
            lemma2_to64();
            assert(1 * pow2(0) == 1);
        }
        round_scaled(sa * p - sb, kb)
    } else {
        // The smaller number lies wholly below the last digit that is kept.
        let p: u128 = power_of_two(56);
        proof {
            lemma_far_difference(sa as nat, sb as nat, ka as nat, kb as nat);
            lemma2_to64();
            lemma2_to64_rest();
            assert(sa * p < 0x100_0000 * 0x100_0000_0000_0000) by (nonlinear_arith)
                requires
                    sa < 0x100_0000,
                    p == 0x100_0000_0000_0000,
            ;
            assert(sa * p >= 0x100_0000_0000_0000) by (nonlinear_arith)
                requires
                    sa >= 1,
                    p == 0x100_0000_0000_0000,
            ;
        }
        let n: u128 = if sb == 0 {
            2 * (sa * p)
        } else {
            2 * (sa * p) - 1
        };
        round_scaled(n, ka - 57)
    }
}

proof fn lemma_scale_order(ma: nat, mb: nat)
    requires
        mb <= ma < INFINITE,
    ensures
        scale(mb) <= scale(ma),
{
}

/// Two numbers at the scale of the smaller one.
proof fn lemma_aligned(sa: nat, sb: nat, ka: nat, kb: nat)
    requires
        kb <= ka,
    ensures
        sa * pow2(ka) == (sa * pow2((ka - kb) as nat)) * pow2(kb),
        sa * pow2(ka) + sb * pow2(kb) == (sa * pow2((ka - kb) as nat) + sb) * pow2(kb),
        sa * pow2(ka) - sb * pow2(kb) == (sa * pow2((ka - kb) as nat) - sb) * pow2(kb),
{
    let p: nat = pow2((ka - kb) as nat);
    let c: nat = pow2(kb);
    lemma_pow2_adds((ka - kb) as nat, kb);
    assert(sa * (p * c) == (sa * p) * c) by (nonlinear_arith);
    assert((sa * p) * c + sb * c == (sa * p + sb) * c) by (nonlinear_arith);
    assert((sa * p) * c - sb * c == (sa * p - sb) * c) by (nonlinear_arith);
}

proof fn lemma_aligned_bound(sa: nat, d: nat)
    requires
        sa < SIGNIFICAND_LIMIT,
        d <= 80,
    ensures
        sa * pow2(d) < 0x100_0000 * 0x1_0000_0000_0000_0000_0000,
{
    lemma2_to64();
    lemma2_to64_rest();
    lemma_pow2_adds(64, 16);
    if d < 80 {
        lemma_pow2_strictly_increases(d, 80);
    }
    assert(sa * pow2(d) < 0x100_0000 * 0x1_0000_0000_0000_0000_0000) by (nonlinear_arith)
        requires
            sa < 0x100_0000,
            0 <= pow2(d) <= 0x1_0000_0000_0000_0000_0000,
            0 <= sa,
    ;
}

proof fn lemma_far_scale(sa: nat, sb: nat, ka: nat, kb: nat)
    requires
        ka > kb + 80,
        sb < SIGNIFICAND_LIMIT,
    ensures
        ({
            let b: nat = pow2((ka - 56 - kb) as nat);
            &&& sb < b
            &&& sa * pow2((ka - kb) as nat) == (sa * pow2(56)) * b
        }),
{
    lemma2_to64();
    let b: nat = pow2((ka - 56 - kb) as nat);
    lemma_pow2_adds(56, (ka - 56 - kb) as nat);
    lemma_pow2_strictly_increases(24, (ka - 56 - kb) as nat);
    assert(sa * (pow2(56) * b) == (sa * pow2(56)) * b) by (nonlinear_arith);
}

/// Adding a number far below the last digit is the same as jamming that digit.
proof fn lemma_far_sum(sa: nat, sb: nat, ka: nat, kb: nat)
    requires
        ka > kb + 80,
        sb < SIGNIFICAND_LIMIT,
        HIDDEN_BIT <= sa < SIGNIFICAND_LIMIT,
    ensures
        magnitude(sa * pow2(ka) + sb * pow2(kb), 1) == magnitude_at(
            2 * (sa * pow2(56)) + if sb == 0 {
                0nat
            } else {
                1nat
            },
            1,
            ka - 57,
        ),
{
    let t: nat = (ka - 56 - kb) as nat;
    let b: nat = pow2(t);
    let f: nat = sa * pow2(56);
    let a: nat = f * b + sb;
    lemma_aligned(sa, sb, ka, kb);
    lemma_far_scale(sa, sb, ka, kb);
    lemma_far_jam(f, b, sb, sa);
    lemma_fundamental_div_mod_converse(a as int, b as int, f as int, sb as int);
    lemma_magnitude_jammed(a, b, ka - 56);
    lemma_magnitude_at_halved(jammed(a, b), ka - 56);
    lemma_rescale(a, b, t, kb, (ka - 56) as nat);
}

/// Subtracting a number far below the last digit is the same as jamming the
/// digit below.
proof fn lemma_far_difference(sa: nat, sb: nat, ka: nat, kb: nat)
    requires
        ka > kb + 80,
        sb < SIGNIFICAND_LIMIT,
        HIDDEN_BIT <= sa < SIGNIFICAND_LIMIT,
    ensures
        magnitude((sa * pow2(ka) - sb * pow2(kb)) as nat, 1) == magnitude_at(
            (2 * (sa * pow2(56)) - if sb == 0 {
                0int
            } else {
                1int
            }) as nat,
            1,
            ka - 57,
        ),
{
    let t: nat = (ka - 56 - kb) as nat;
    let b: nat = pow2(t);
    let f: nat = sa * pow2(56);
    lemma_aligned(sa, sb, ka, kb);
    lemma_far_scale(sa, sb, ka, kb);
    lemma_far_jam(f, b, sb, sa);
    let a: nat = (f * b - sb) as nat;
    if sb == 0 {
        lemma_fundamental_div_mod_converse(a as int, b as int, f as int, 0);
    } else {
        assert((f - 1) * b + (b - sb) == f * b - sb) by (nonlinear_arith);
        lemma_fundamental_div_mod_converse(a as int, b as int, f - 1, b - sb);
    }
    lemma_magnitude_jammed(a, b, ka - 56);
    lemma_magnitude_at_halved(jammed(a, b), ka - 56);
    lemma_rescale(a, b, t, kb, (ka - 56) as nat);
}

proof fn lemma_far_jam(f: nat, b: nat, sb: nat, sa: nat)
    requires
        f == sa * pow2(56),
        sa >= HIDDEN_BIT,
        sb < b,
    ensures
        f > SIGNIFICAND_LIMIT,
        f * b >= b,
{
    lemma2_to64();
    lemma2_to64_rest();
    assert(f > SIGNIFICAND_LIMIT) by (nonlinear_arith)
        requires
            f == sa * pow2(56),
            sa >= 1,
            pow2(56) > SIGNIFICAND_LIMIT,
    ;
    assert(f * b >= b) by (nonlinear_arith)
        requires
            f >= 1,
    ;
}

/// A number of units of `pow2(kb)`, read as a fraction of larger units.
proof fn lemma_rescale(a: nat, b: nat, t: nat, kb: nat, e: nat)
    requires
        b == pow2(t),
        e == t + kb,
    ensures
        magnitude(a * pow2(kb), 1) == magnitude_at(a, b, e as int),
{
    let c: nat = pow2(kb);
    lemma_pow2_adds(t, kb);
    lemma_pow2_pos(t);
    lemma_magnitude_cancel(a * c, 1, b);
    assert(a * c * b == a * (b * c)) by (nonlinear_arith);
    assert(1 * b == b);
}

/// The magnitude of the quotient of two numbers.
fn divide_magnitudes(ma: u32, mb: u32) -> (m: u32)
    requires
        ma < INFINITE,
        0 < mb < INFINITE,
    ensures
        m == magnitude(steps(ma as nat) * pow2(FRACTION_PLACES as nat), steps(mb as nat)),
        m <= INFINITE,
{
    let sa: u128 = significand_of(ma) as u128;
    let sb: u128 = significand_of(mb) as u128;
    let ka: i32 = scale_of(ma);
    let kb: i32 = scale_of(mb);
    proof {
        lemma_pow2_pos(kb as nat);
        assert(steps(mb as nat) > 0) by (nonlinear_arith)
            requires
                steps(mb as nat) == sb * pow2(kb as nat),
                sb > 0,
                pow2(kb as nat) > 0,
        ;
    }
    if sa == 0 {
        proof {
            assert(0 * pow2(ka as nat) == 0);
            assert(0 * pow2(FRACTION_PLACES as nat) == 0);
            lemma_steps_zero();
            lemma_magnitude_cancel(0, 1, steps(mb as nat));
            assert(0 * steps(mb as nat) == 0) by (nonlinear_arith);
        }
        return 0;
    }
    let n: u128 = sa * 0x1_0000_0000_0000_0000;
    let q: u128 = n / sb;
    let jam: u128 = if n % sb == 0 {
        0
    } else {
        1
    };
    proof {
        lemma_quotient(sa as nat, sb as nat, ka as nat, kb as nat);
        lemma_fundamental_div_mod(n as int, sb as int);
        lemma_mod_bound(n as int, sb as int);
        assert(q <= n) by (nonlinear_arith)
            requires
                n == sb * q + n % sb,
                n % sb >= 0,
                sb >= 1,
        ;
    }
    round_scaled(2 * q + jam, ka - kb + 84)
}

proof fn lemma_quotient(sa: nat, sb: nat, ka: nat, kb: nat)
    requires
        0 < sa,
        0 < sb < SIGNIFICAND_LIMIT,
    ensures
        magnitude((sa * pow2(ka)) * pow2(FRACTION_PLACES as nat), sb * pow2(kb)) == magnitude_at(
            jammed(sa * 0x1_0000_0000_0000_0000, sb),
            1,
            ka - kb + 84,
        ),
{
    lemma2_to64();
    let n: nat = sa * 0x1_0000_0000_0000_0000;
    let pa: nat = pow2(ka);
    let w: nat = pow2(FRACTION_PLACES as nat);
    lemma_pow2_adds(ka, FRACTION_PLACES as nat);
    lemma_magnitude_at(sa, sb, ka + FRACTION_PLACES as nat, kb);
    assert((sa * pa) * w == sa * (pa * w)) by (nonlinear_arith);
    // The dividend has sixty-four more digits, and the exponent is lower by as much.
    let e: int = ka + FRACTION_PLACES - kb;
    if e >= 64 {
        lemma_pow2_adds(64, (e - 64) as nat);
        assert(sa * (pow2(64) * pow2((e - 64) as nat)) == n * pow2((e - 64) as nat))
            by (nonlinear_arith)
            requires
                n == sa * pow2(64),
        ;
    } else if e >= 0 {
        lemma_magnitude_at(n, sb, e as nat, 64);
        lemma_magnitude_cancel(sa * pow2(e as nat), sb, pow2(64));
        assert(sa * pow2(e as nat) * pow2(64) == n * pow2(e as nat)) by (nonlinear_arith)
            requires
                n == sa * pow2(64),
        ;
    } else {
        let t: nat = (-e) as nat;
        lemma_pow2_adds(t, 64);
        lemma_pow2_pos(t);
        assert(sb * pow2(t) > 0) by (nonlinear_arith)
            requires
                sb > 0,
                pow2(t) > 0,
        ;
        lemma_magnitude_cancel(sa, sb * pow2(t), pow2(64));
        assert(sb * pow2(t) * pow2(64) == sb * (pow2(t) * pow2(64))) by (nonlinear_arith);
    }
    lemma_fundamental_div_mod(n as int, sb as int);
    lemma_mod_bound(n as int, sb as int);
    assert(n / sb >= SIGNIFICAND_LIMIT) by (nonlinear_arith)
        requires
            n == sb * (n / sb) + n % sb,
            n % sb < sb,
            sb < 0x100_0000,
            n >= 0x1_0000_0000_0000_0000,
            sb > 0,
            SIGNIFICAND_LIMIT == 0x100_0000,
    ;
    lemma_magnitude_jammed(n, sb, e - 64);
    lemma_magnitude_at_halved(jammed(n, sb), e - 64);
}

impl Binary32 {
    /// The number nearest to an integer.
    pub fn from_usize(n: usize) -> (r: Binary32)
        ensures
            r == from_integer(n as nat),
    {
        proof {
            lemma_magnitude_at(n as nat, 1, FRACTION_PLACES as nat, 0);
            lemma2_to64();
            assert(1 * pow2(0) == 1);
        }
        assemble(false, round_scaled(n as u128, FRACTION_PLACES as i32))
    }

    /// The part before the point.
    pub fn to_usize(self) -> (r: usize)
        ensures
            r == truncated(self),
    {
        let m: u32 = self.bits % SIGN_BIT;
        if m > INFINITE || self.bits >= SIGN_BIT {
            return 0;
        }
        if m == INFINITE {
            return usize::MAX;
        }
        saturate(floor_and_rest(m).0)
    }

    /// The nearest integer, the larger of two that are equally near.
    pub fn round_to_usize(self) -> (r: usize)
        ensures
            r == nearest_integer(self),
    {
        let m: u32 = self.bits % SIGN_BIT;
        if m > INFINITE || self.bits >= SIGN_BIT {
            return 0;
        }
        if m == INFINITE {
            return usize::MAX;
        }
        let parts: (u128, u128, u128) = floor_and_rest(m);
        proof {
            let w: nat = pow2(FRACTION_PLACES as nat);
            lemma_pow2_pos(FRACTION_PLACES as nat);
            let n: nat = steps(m as nat);
            lemma_fundamental_div_mod(n as int, w as int);
            lemma_mod_bound(n as int, w as int);
            let (q, r): (int, int) = ((n / w) as int, (n % w) as int);
            assert(2 * n + w == q * (2 * w) + (2 * r + w)) by (nonlinear_arith)
                requires
                    n == w * q + r,
            ;
            if 2 * r < w {
                lemma_fundamental_div_mod_converse((2 * n + w) as int, (2 * w) as int, q, 2 * r + w);
            } else {
                assert((q + 1) * (2 * w) + (2 * r - w) == q * (2 * w) + (2 * r + w))
                    by (nonlinear_arith);
                lemma_fundamental_div_mod_converse(
                    (2 * n + w) as int,
                    (2 * w) as int,
                    q + 1,
                    2 * r - w,
                );
            }
        }
        if 2 * parts.1 < parts.2 {
            saturate(parts.0)
        } else {
            saturate(parts.0 + 1)
        }
    }
}

/// An integer held to the range of `usize`.
fn saturate(n: u128) -> (r: usize)
    ensures
        r == saturated(n as nat),
{
    if n > usize::MAX as u128 {
        usize::MAX
    } else {
        n as usize
    }
}

/// The whole part of a number and what lies behind the point, as a fraction of
/// which the numerator is below the denominator.
fn floor_and_rest(m: u32) -> (r: (u128, u128, u128))
    requires
        m < INFINITE,
    ensures
        r.0 == steps(m as nat) / pow2(FRACTION_PLACES as nat),
        r.0 < u128::MAX,
        r.1 < r.2 <= 0x4000_0000_0000_0000_0000_0000_0000_0000,
        2 * r.1 < r.2 <==> 2 * (steps(m as nat) % pow2(FRACTION_PLACES as nat)) < pow2(
            FRACTION_PLACES as nat,
        ),
{
    let s: u128 = significand_of(m) as u128;
    let k: i32 = scale_of(m);
    let ghost w: nat = pow2(FRACTION_PLACES as nat);
    proof {
        lemma2_to64();
        lemma2_to64_rest();
        lemma_pow2_pos(FRACTION_PLACES as nat);
        lemma_pow2_pos(k as nat);
    }
    if k >= FRACTION_PLACES as i32 {
        let p: u128 = power_of_two((k - FRACTION_PLACES as i32) as u32);
        proof {
            let t: nat = (k - FRACTION_PLACES) as nat;
            lemma_pow2_adds(t, FRACTION_PLACES as nat);
            lemma_pow2_adds(64, 40);
            if t < 104 {
                lemma_pow2_strictly_increases(t, 104);
            }
            assert(s * p <= 0xff_ffff * 0x100_0000_0000_0000_0000_0000_0000) by (nonlinear_arith)
                requires
                    s <= 0xff_ffff,
                    p <= 0x100_0000_0000_0000_0000_0000_0000,
            ;
            assert(s * (p * w) == (s * p) * w) by (nonlinear_arith);
            lemma_fundamental_div_mod_converse(
                steps(m as nat) as int,
                w as int,
                (s * p) as int,
                0,
            );
        }
        (s * p, 0, 1)
    } else {
        let t: i32 = FRACTION_PLACES as i32 - k;
        let c: u32 = if t > 126 {
            126
        } else {
            t as u32
        };
        let p: u128 = power_of_two(c);
        proof {
            lemma_pow2_adds(t as nat, k as nat);
            lemma_pow2_adds(63, 63);
            if c < 126 {
                lemma_pow2_strictly_increases(c as nat, 126);
            }
            let (pt, pk): (nat, nat) = (pow2(t as nat), pow2(k as nat));
            let (q, r): (nat, nat) = (s as nat / pt, s as nat % pt);
            lemma_pow2_pos(t as nat);
            lemma_fundamental_div_mod(s as int, pt as int);
            lemma_mod_bound(s as int, pt as int);
            assert(s * pk == q * (pt * pk) + r * pk) by (nonlinear_arith)
                requires
                    s == pt * q + r,
            ;
            assert(0 <= r * pk < pt * pk) by (nonlinear_arith)
                requires
                    0 <= r < pt,
                    pk > 0,
            ;
            lemma_fundamental_div_mod_converse((s * pk) as int, w as int, q as int, (r * pk) as int);
            assert(2 * r < pt <==> 2 * (r * pk) < pt * pk) by (nonlinear_arith)
                requires
                    pk > 0,
            ;
            if t > 126 {
                lemma_pow2_strictly_increases(126, t as nat);
                lemma_fundamental_div_mod_converse(s as int, pt as int, 0, s as int);
                lemma_fundamental_div_mod_converse(s as int, p as int, 0, s as int);
            }
        }
        (s / p, s % p, p)
    }
}

impl Binary32 {
    /// The square root.
    pub fn sqrt(self) -> (r: Binary32)
        ensures
            r == square_root(self),
    {
        let m: u32 = self.bits % SIGN_BIT;
        if m > INFINITE {
            return Binary32 { bits: QUIET_NAN };
        }
        if m == 0 {
            return self;
        }
        if self.bits >= SIGN_BIT {
            return Binary32 { bits: QUIET_NAN };
        }
        if m == INFINITE {
            return self;
        }
        let s: u128 = significand_of(m) as u128;
        let k: i32 = scale_of(m);
        // Sixty or sixty-one more digits leave an even exponent.
        let odd: bool = k % 2 == 0;
        let n: u128 = if odd {
            s * 0x2000_0000_0000_0000
        } else {
            s * 0x1000_0000_0000_0000
        };
        let e: i32 = if odd {
            (k + 88) / 2
        } else {
            (k + 89) / 2
        };
        let f: u128 = integer_root(n);
        proof {
            assert(f * f <= 0x1000_0000_0000 * 0x1000_0000_0000) by (nonlinear_arith)
                requires
                    0 <= f <= 0x1000_0000_0000,
            ;
        }
        let jam: u128 = if f * f == n {
            0
        } else {
            1
        };
        proof {
            lemma2_to64();
            lemma2_to64_rest();
            lemma_root_unique(n as nat, f as nat);
            assert(f >= SIGNIFICAND_LIMIT) by (nonlinear_arith)
                requires
                    n < (f + 1) * (f + 1),
                    n >= 0x1000_0000_0000_0000,
                    SIGNIFICAND_LIMIT == 0x100_0000,
            ;
            lemma_root_magnitude_jammed(n as nat, e as nat);
            let t: nat = if odd {
                61
            } else {
                60
            };
            assert(t + 2 * e == k + FRACTION_PLACES);
            assert(n == s * pow2(t));
            let c: nat = pow2(e as nat);
            lemma_pow2_adds(e as nat, e as nat);
            lemma_pow2_adds(t, (2 * e) as nat);
            lemma_pow2_adds(k as nat, FRACTION_PLACES as nat);
            assert((s * pow2(t)) * (c * c) == s * (pow2(t) * (c * c))) by (nonlinear_arith);
            let w: nat = pow2(FRACTION_PLACES as nat);
            let pk: nat = pow2(k as nat);
            assert((s * pk) * w == s * (pk * w)) by (nonlinear_arith);
        }
        assemble(false, round_scaled(2 * f + jam, e - 1))
    }
}

/// Which results are not numbers.
pub proof fn law_not_numbers(a: Binary32, b: Binary32)
    ensures
        sum(a, b).is_nan() <==> a.is_nan() || b.is_nan() || (a.is_infinite() && b.is_infinite()
            && a.negative() != b.negative()),
        product(a, b).is_nan() <==> a.is_nan() || b.is_nan() || (a.is_zero() && b.is_infinite())
            || (a.is_infinite() && b.is_zero()),
        quotient(a, b).is_nan() <==> a.is_nan() || b.is_nan() || (a.is_zero() && b.is_zero()) || (
        a.is_infinite() && b.is_infinite()),
        square_root(a).is_nan() <==> a.is_nan() || (a.negative() && !a.is_zero()),
{
}

/// Products and quotients are negative if one of the two numbers is.
pub proof fn law_signs(a: Binary32, b: Binary32)
    ensures
        !product(a, b).is_nan() ==> product(a, b).negative() == (a.negative() != b.negative()),
        !quotient(a, b).is_nan() ==> quotient(a, b).negative() == (a.negative() != b.negative()),
        difference(a, b) == sum(a, b.negated()),
        !b.is_nan() ==> b.negated().order() == -b.order(),
{
}

/// No number is nearer to a fraction than the one that the fraction is rounded to.
proof fn lemma_nearest(n: nat, d: nat, c: Binary32)
    requires
        d > 0,
        magnitude(n, d) < INFINITE,
        c.is_finite(),
    ensures
        abs(n - d * steps(magnitude(n, d))) <= abs(n - d * c.steps()),
{
    law_magnitude_is_rounded(n, d);
    law_rounded_is_nearest(n, d, significand(c.magnitude()), scale(c.magnitude()));
}

/// A sum is the number nearest to the exact one.
pub proof fn law_sum_is_nearest(a: Binary32, b: Binary32, c: Binary32)
    requires
        a.is_finite(),
        b.is_finite(),
        c.is_finite(),
        sum(a, b).is_finite(),
    ensures
        abs(sum(a, b).value() - (a.value() + b.value())) <= abs(
            c.value() - (a.value() + b.value()),
        ),
{
    let v: int = a.value() + b.value();
    lemma_steps_zero();
    if v != 0 {
        lemma_signed(v < 0, magnitude(abs(v), 1));
        lemma_nearest(abs(v), 1, c);
        lemma_nearest(abs(v), 1, Binary32::zero());
    }
}

/// A product is the number nearest to the exact one.
pub proof fn law_product_is_nearest(a: Binary32, b: Binary32, c: Binary32)
    requires
        a.is_finite(),
        b.is_finite(),
        c.is_finite(),
        product(a, b).is_finite(),
    ensures
        abs(a.steps() * b.steps() - pow2(FRACTION_PLACES as nat) * product(a, b).steps()) <= abs(
            a.steps() * b.steps() - pow2(FRACTION_PLACES as nat) * c.steps(),
        ),
{
    lemma_pow2_pos(FRACTION_PLACES as nat);
    lemma_signed(
        a.negative() != b.negative(),
        magnitude(a.steps() * b.steps(), pow2(FRACTION_PLACES as nat)),
    );
    lemma_nearest(a.steps() * b.steps(), pow2(FRACTION_PLACES as nat), c);
}

/// A quotient is the number nearest to the exact one.
pub proof fn law_quotient_is_nearest(a: Binary32, b: Binary32, c: Binary32)
    requires
        a.is_finite(),
        b.is_finite(),
        !b.is_zero(),
        c.is_finite(),
        quotient(a, b).is_finite(),
    ensures
        abs(a.steps() * pow2(FRACTION_PLACES as nat) - b.steps() * quotient(a, b).steps()) <= abs(
            a.steps() * pow2(FRACTION_PLACES as nat) - b.steps() * c.steps(),
        ),
{
    lemma_steps_zero();
    lemma_steps_order(0, b.magnitude());
    lemma_signed(
        a.negative() != b.negative(),
        magnitude(a.steps() * pow2(FRACTION_PLACES as nat), b.steps()),
    );
    lemma_nearest(a.steps() * pow2(FRACTION_PLACES as nat), b.steps(), c);
}

/// An integer is held by the number nearest to it.
pub proof fn law_from_integer_is_nearest(n: nat, c: Binary32)
    requires
        n <= 0x1_0000_0000_0000_0000,
        c.is_finite(),
    ensures
        abs(n * pow2(FRACTION_PLACES as nat) - from_integer(n).steps()) <= abs(
            n * pow2(FRACTION_PLACES as nat) - c.steps(),
        ),
{
    law_from_integer_finite(n);
    lemma_nearest(n * pow2(FRACTION_PLACES as nat), 1, c);
}

/// A square root is at most half a unit of its place off.
pub proof fn law_square_root_is_near(a: Binary32)
    requires
        a.is_finite(),
        !a.negative(),
        !a.is_zero(),
        square_root(a).is_finite(),
    ensures
        exists|k: nat|
            {
                let n: nat = a.steps() * pow2(FRACTION_PLACES as nat);
                let s: nat = square_root(a).steps();
                let p: nat = #[trigger] pow2(k);
                &&& (2 * s - p) * (2 * s - p) <= 4 * n <= (2 * s + p) * (2 * s + p)
                &&& k > 0 ==> s >= HIDDEN_BIT * p
            },
{
    let w: nat = pow2(FRACTION_PLACES as nat);
    let n: nat = a.steps() * w;
    lemma_pow2_pos(FRACTION_PLACES as nat);
    lemma_steps_zero();
    lemma_steps_order(0, a.magnitude());
    assert(n > 0) by (nonlinear_arith)
        requires
            n == a.steps() * w,
            a.steps() > 0,
            w > 0,
    ;
    lemma_signed(false, root_magnitude(n));
    law_root_is_near(n);
    let k: nat = place(root(n), 1);
    assert(pow2(k) == pow2(place(root(n), 1)));
}

/// Cutting and rounding a number that is not negative to an integer.
pub proof fn law_to_integer(a: Binary32)
    requires
        a.is_finite(),
        !a.negative(),
        a.steps() < 0x7fff_ffff * pow2(FRACTION_PLACES as nat),
    ensures
        ({
            let w: nat = pow2(FRACTION_PLACES as nat);
            &&& truncated(a) * w <= a.steps() < (truncated(a) + 1) * w
            &&& 2 * (nearest_integer(a) * w) <= 2 * a.steps() + w < 2 * ((nearest_integer(a) + 1)
                * w)
        }),
{
    let w: nat = pow2(FRACTION_PLACES as nat);
    lemma_pow2_pos(FRACTION_PLACES as nat);
    let (n, m): (int, int) = (a.steps() as int, (2 * a.steps() + w) as int);
    let (q, z): (int, int) = (n / (w as int), m / (2 * w as int));
    lemma_fundamental_div_mod(n, w as int);
    lemma_mod_bound(n, w as int);
    lemma_fundamental_div_mod(m, 2 * w as int);
    lemma_mod_bound(m, 2 * w as int);
    assert(q * w <= n < (q + 1) * w) by (nonlinear_arith)
        requires
            n == w * q + n % (w as int),
            0 <= n % (w as int) < w,
    ;
    assert(2 * (z * w) <= m < 2 * ((z + 1) * w)) by (nonlinear_arith)
        requires
            m == (2 * w) * z + m % (2 * w as int),
            0 <= m % (2 * w as int) < 2 * w,
    ;
    assert(0 <= q < 0x7fff_ffff) by (nonlinear_arith)
        requires
            q * w <= n < (q + 1) * w,
            0 <= n < 0x7fff_ffff * w,
            w > 0,
    ;
    assert(0 <= z <= 0x7fff_ffff) by (nonlinear_arith)
        requires
            2 * (z * w) <= m < 2 * ((z + 1) * w),
            m == 2 * n + w,
            0 <= n < 0x7fff_ffff * w,
            w > 0,
    ;
}

/// The larger and the smaller of two numbers are one of them, and not below or above the
/// other; what is not a number gives way.
pub proof fn law_larger_and_smaller(a: Binary32, b: Binary32)
    ensures
        larger(a, b) == a || larger(a, b) == b,
        smaller(a, b) == a || smaller(a, b) == b,
        !a.is_nan() && !b.is_nan() ==> {
            &&& a.at_most(larger(a, b)) && b.at_most(larger(a, b))
            &&& smaller(a, b).at_most(a) && smaller(a, b).at_most(b)
        },
        a.is_nan() ==> larger(a, b) == b && smaller(a, b) == b,
        b.is_nan() && !a.is_nan() ==> larger(a, b) == a && smaller(a, b) == a,
{
}

/// Infinities are beyond every finite number, and stay infinite.
pub proof fn law_infinities(a: Binary32, b: Binary32)
    requires
        a.is_infinite(),
        b.is_finite(),
    ensures
        a.negative() ==> a.below(b),
        !a.negative() ==> b.below(a),
        sum(a, b) == a,
        sum(b, a) == a,
        !b.is_zero() ==> product(a, b).is_infinite() && product(b, a).is_infinite(),
        quotient(a, b).is_infinite(),
        quotient(b, a).is_zero(),
        !a.negative() ==> square_root(a) == a,
{
}

/// A number other than zero, divided by zero, is infinite.
pub proof fn law_division_by_zero(a: Binary32, b: Binary32)
    requires
        a.is_finite(),
        !a.is_zero(),
        b.is_zero(),
    ensures
        quotient(a, b).is_infinite(),
{
}

/// What is negative or not a number has no integer but zero, and an infinity the greatest.
pub proof fn law_to_integer_beyond(a: Binary32)
    ensures
        a.is_nan() || a.negative() ==> truncated(a) == 0 && nearest_integer(a) == 0,
        a.is_infinite() && !a.negative() ==> truncated(a) == usize::MAX && nearest_integer(a)
            == usize::MAX,
{
}

/// The square root of a zero is that zero, with its sign, and that of a number above zero is
/// not negative.
pub proof fn law_root_of_zero(a: Binary32)
    ensures
        a.is_zero() ==> square_root(a) == a,
        a.is_finite() && !a.is_zero() && !a.negative() ==> !square_root(a).negative(),
{
}

} // verus!
