//! Rounding of a non-negative rational number to the nearest number that
//! twenty-four significant bits can hold.
//!
//! Numbers are counted in *steps*, the distance between two neighbouring
//! subnormal binary32 numbers. A number `n / d` of steps is rounded at the
//! place `pow2(k)`, where `k` is the least exponent for which `n / d` is below
//! `pow2(24 + k)`.

use vstd::arithmetic::div_mod::{
    lemma_fundamental_div_mod, lemma_fundamental_div_mod_converse, lemma_mod_bound,
};
use vstd::arithmetic::power2::{
    lemma2_to64, lemma2_to64_rest, lemma_pow2_adds, lemma_pow2_pos, lemma_pow2_strictly_increases,
    lemma_pow2_unfold, pow2,
};
use vstd::prelude::*;

verus! {

/// One more than the largest significand: two to the power of twenty-four.
pub const SIGNIFICAND_LIMIT: u32 = 0x100_0000;

/// The least significand of a normal number: two to the power of twenty-three.
pub const HIDDEN_BIT: u32 = 0x80_0000;

/// The magnitude that stands for infinity.
pub const INFINITE: u32 = 0x7f80_0000;

/// `n / d` to the nearest integer, and to the even one of two that are equally near.
pub open spec fn half_even(n: nat, d: nat) -> nat {
    let q: nat = n / d;
    let r: nat = n % d;
    if 2 * r < d || (2 * r == d && q % 2 == 0) {
        q
    } else {
        q + 1
    }
}

/// The least `k` for which `n / d` is below `pow2(24 + k)`.
pub open spec fn place(n: nat, d: nat) -> nat
    decreases n - d,
{
    if d == 0 || n < d * SIGNIFICAND_LIMIT {
        0
    } else {
        1 + place(n, 2 * d)
    }
}

/// `n / d` steps, rounded to twenty-four significant bits, in steps.
pub open spec fn rounded(n: nat, d: nat) -> nat {
    half_even(n, d * pow2(place(n, d))) * pow2(place(n, d))
}

/// The lower thirty-one bits of the binary32 number nearest to `n / d` steps.
///
/// A place `k` and a significand `q` are encoded as `k * HIDDEN_BIT + q`, whether
/// the number is subnormal (`k` is zero and `q` is below `HIDDEN_BIT`), normal
/// (`q` holds the hidden bit, which adds one to the exponent), or has been
/// rounded up to the next power of two.
pub open spec fn magnitude(n: nat, d: nat) -> nat {
    capped(place(n, d) * HIDDEN_BIT as nat + half_even(n, d * pow2(place(n, d))))
}

/// The significand that a magnitude below `INFINITE` encodes.
pub open spec fn significand(m: nat) -> nat {
    if m < HIDDEN_BIT {
        m
    } else {
        m % HIDDEN_BIT as nat + HIDDEN_BIT as nat
    }
}

/// The place of the significand of a magnitude below `INFINITE`.
pub open spec fn scale(m: nat) -> nat {
    if m < HIDDEN_BIT {
        0
    } else {
        (m / HIDDEN_BIT as nat - 1) as nat
    }
}

/// The number of steps that a magnitude below `INFINITE` stands for.
pub open spec fn steps(m: nat) -> nat {
    significand(m) * pow2(scale(m))
}

/// Magnitudes beyond the largest finite one stand for infinity.
pub open spec fn capped(m: nat) -> nat {
    if m >= INFINITE {
        INFINITE as nat
    } else {
        m
    }
}

pub proof fn lemma_half_even_cancel(n: nat, d: nat, c: nat)
    requires
        d > 0,
        c > 0,
    ensures
        half_even(n * c, d * c) == half_even(n, d),
{
    let q: nat = n / d;
    let r: nat = n % d;
    lemma_fundamental_div_mod(n as int, d as int);
    lemma_mod_bound(n as int, d as int);
    assert(n * c == q * (d * c) + r * c) by (nonlinear_arith)
        requires
            n == d * q + r,
    ;
    assert(0 <= r * c < d * c) by (nonlinear_arith)
        requires
            0 <= r < d,
            c > 0,
    ;
    lemma_fundamental_div_mod_converse((n * c) as int, (d * c) as int, q as int, (r * c) as int);
    assert(2 * r < d <==> 2 * (r * c) < d * c) by (nonlinear_arith)
        requires
            c > 0,
    ;
    assert(2 * r == d <==> 2 * (r * c) == d * c) by (nonlinear_arith)
        requires
            c > 0,
    ;
}

/// A multiple of the divisor is divided exactly.
pub proof fn lemma_half_even_exact(q: nat, d: nat)
    requires
        d > 0,
    ensures
        half_even(q * d, d) == q,
{
    lemma_fundamental_div_mod_converse((q * d) as int, d as int, q as int, 0);
}

/// The bounds that single out `place(n, d)`.
pub proof fn lemma_place_bounds(n: nat, d: nat)
    requires
        d > 0,
    ensures
        n < d * SIGNIFICAND_LIMIT * pow2(place(n, d)),
        place(n, d) > 0 ==> n >= d * HIDDEN_BIT * pow2(place(n, d)),
    decreases n - d,
{
    lemma2_to64();
    if n < d * SIGNIFICAND_LIMIT {
        assert(d * SIGNIFICAND_LIMIT * pow2(0) == d * SIGNIFICAND_LIMIT) by (nonlinear_arith)
            requires
                pow2(0) == 1,
        ;
    } else {
        let k: nat = place(n, 2 * d);
        lemma_place_bounds(n, 2 * d);
        lemma_pow2_unfold(k + 1);
        let p: nat = pow2(k);
        assert(place(n, d) == k + 1);
        assert((2 * d) * SIGNIFICAND_LIMIT * p == d * SIGNIFICAND_LIMIT * (2 * p))
            by (nonlinear_arith);
        assert((2 * d) * HIDDEN_BIT * p == d * HIDDEN_BIT * (2 * p)) by (nonlinear_arith);
        if k == 0 {
            assert(d * HIDDEN_BIT * (2 * p) == d * SIGNIFICAND_LIMIT) by (nonlinear_arith)
                requires
                    p == 1,
                    2 * HIDDEN_BIT == SIGNIFICAND_LIMIT,
            ;
        }
    }
}

/// No other exponent has the bounds of `place(n, d)`.
pub proof fn lemma_place_unique(n: nat, d: nat, k: nat)
    requires
        d > 0,
        n < d * SIGNIFICAND_LIMIT * pow2(k),
        k > 0 ==> n >= d * HIDDEN_BIT * pow2(k),
    ensures
        place(n, d) == k,
    decreases k,
{
    lemma2_to64();
    if k == 0 {
        assert(d * SIGNIFICAND_LIMIT * pow2(0) == d * SIGNIFICAND_LIMIT) by (nonlinear_arith)
            requires
                pow2(0) == 1,
        ;
    } else {
        let p: nat = pow2((k - 1) as nat);
        lemma_pow2_unfold(k);
        lemma_pow2_pos((k - 1) as nat);
        assert((2 * d) * SIGNIFICAND_LIMIT * p == d * SIGNIFICAND_LIMIT * (2 * p))
            by (nonlinear_arith);
        assert((2 * d) * HIDDEN_BIT * p == d * HIDDEN_BIT * (2 * p)) by (nonlinear_arith);
        assert(d * HIDDEN_BIT * (2 * p) >= d * SIGNIFICAND_LIMIT) by (nonlinear_arith)
            requires
                p >= 1,
                2 * HIDDEN_BIT == SIGNIFICAND_LIMIT,
        ;
        lemma_place_unique(n, 2 * d, (k - 1) as nat);
    }
}

/// A rational number and the place that it is rounded at do not depend on how
/// the fraction is written.
pub proof fn lemma_magnitude_cancel(n: nat, d: nat, c: nat)
    requires
        d > 0,
        c > 0,
    ensures
        place(n * c, d * c) == place(n, d),
        magnitude(n * c, d * c) == magnitude(n, d),
{
    let k: nat = place(n, d);
    let p: nat = pow2(k);
    lemma_pow2_pos(k);
    lemma_place_bounds(n, d);
    assert(d * c > 0) by (nonlinear_arith)
        requires
            d > 0,
            c > 0,
    ;
    assert(n * c < (d * c) * SIGNIFICAND_LIMIT * p) by (nonlinear_arith)
        requires
            n < d * SIGNIFICAND_LIMIT * p,
            c > 0,
    ;
    if k > 0 {
        assert(n * c >= (d * c) * HIDDEN_BIT * p) by (nonlinear_arith)
            requires
                n >= d * HIDDEN_BIT * p,
                c > 0,
        ;
    }
    lemma_place_unique(n * c, d * c, k);
    assert((d * c) * p == (d * p) * c) by (nonlinear_arith);
    assert(d * p > 0) by (nonlinear_arith)
        requires
            d > 0,
            p > 0,
    ;
    lemma_half_even_cancel(n, d * p, c);
}

/// The magnitude of `n / d * pow2(e)` steps, where `e` may be negative.
pub open spec fn magnitude_at(n: nat, d: nat, e: int) -> nat {
    if e >= 0 {
        magnitude(n * pow2(e as nat), d)
    } else {
        magnitude(n, d * pow2((-e) as nat))
    }
}

pub proof fn lemma_magnitude_at(n: nat, d: nat, p: nat, q: nat)
    requires
        d > 0,
    ensures
        magnitude(n * pow2(p), d * pow2(q)) == magnitude_at(n, d, p - q),
{
    lemma_pow2_pos(p);
    lemma_pow2_pos(q);
    if p >= q {
        let t: nat = (p - q) as nat;
        lemma_pow2_adds(t, q);
        lemma_magnitude_cancel(n * pow2(t), d, pow2(q));
        assert(n * pow2(t) * pow2(q) == n * (pow2(t) * pow2(q))) by (nonlinear_arith);
    } else {
        let t: nat = (q - p) as nat;
        lemma_pow2_adds(t, p);
        lemma_pow2_pos(t);
        assert(d * pow2(t) > 0) by (nonlinear_arith)
            requires
                d > 0,
                pow2(t) > 0,
        ;
        lemma_magnitude_cancel(n, d * pow2(t), pow2(p));
        assert(d * pow2(t) * pow2(p) == d * (pow2(t) * pow2(p))) by (nonlinear_arith);
    }
}

/// Halving the fraction lowers the exponent by one.
pub proof fn lemma_magnitude_at_halved(n: nat, e: int)
    ensures
        magnitude_at(n, 2, e) == magnitude_at(n, 1, e - 1),
{
    lemma2_to64();
    if e >= 0 {
        lemma_magnitude_at(n, 1, e as nat, 1);
        assert(1 * pow2(1) == 2);
    } else {
        lemma_pow2_unfold((1 - e) as nat);
        assert(1 * pow2((1 - e) as nat) == 2 * pow2((-e) as nat));
    }
}

/// Twice the quotient of `a / b`, and one more if the division leaves a remainder.
pub open spec fn jammed(a: nat, b: nat) -> nat {
    2 * (a / b) + if a % b != 0 {
        1nat
    } else {
        0nat
    }
}

/// The jammed quotient lies on the same side of every integer as the fraction.
proof fn lemma_jammed_side(a: nat, b: nat, x: nat)
    requires
        b > 0,
    ensures
        a < b * x <==> jammed(a, b) < 2 * x,
{
    let f: nat = a / b;
    let r: nat = a % b;
    lemma_fundamental_div_mod(a as int, b as int);
    lemma_mod_bound(a as int, b as int);
    if f < x {
        assert(a < b * x) by (nonlinear_arith)
            requires
                a == b * f + r,
                r < b,
                f + 1 <= x,
        ;
    } else {
        assert(a >= b * x) by (nonlinear_arith)
            requires
                a == b * f + r,
                0 <= r,
                f >= x,
        ;
    }
}

/// Where at least one bit below the quotient's last is cut off, the jammed
/// quotient rounds as the fraction does.
proof fn lemma_jammed_half_even(a: nat, b: nat, j: nat)
    requires
        b > 0,
        j > 0,
    ensures
        half_even(a, b * pow2(j)) == half_even(jammed(a, b), 2 * pow2(j)),
{
    let f: nat = a / b;
    let r: nat = a % b;
    let s: nat = if r != 0 { 1 } else { 0 };
    let m: nat = pow2(j);
    let h: nat = pow2((j - 1) as nat);
    lemma_pow2_unfold(j);
    lemma_pow2_pos((j - 1) as nat);
    assert(m == 2 * h);
    lemma_fundamental_div_mod(a as int, b as int);
    lemma_mod_bound(a as int, b as int);
    let u: nat = f / m;
    let v: nat = f % m;
    lemma_fundamental_div_mod(f as int, m as int);
    lemma_mod_bound(f as int, m as int);
    assert(a == u * (b * m) + (v * b + r)) by (nonlinear_arith)
        requires
            a == b * f + r,
            f == m * u + v,
    ;
    assert(0 <= v * b + r < b * m) by (nonlinear_arith)
        requires
            0 <= r < b,
            0 <= v,
            v + 1 <= m,
    ;
    lemma_fundamental_div_mod_converse(a as int, (b * m) as int, u as int, (v * b + r) as int);
    assert(2 * f + s == u * (2 * m) + (2 * v + s)) by (nonlinear_arith)
        requires
            f == m * u + v,
    ;
    lemma_fundamental_div_mod_converse(
        (2 * f + s) as int,
        (2 * m) as int,
        u as int,
        (2 * v + s) as int,
    );
    if v < h {
        assert(2 * (v * b + r) < b * m) by (nonlinear_arith)
            requires
                r < b,
                v + 1 <= h,
                m == 2 * h,
        ;
    } else if v == h {
        assert(2 * (v * b + r) == b * m + 2 * r) by (nonlinear_arith)
            requires
                v == h,
                m == 2 * h,
        ;
    } else {
        assert(2 * (v * b + r) > b * m) by (nonlinear_arith)
            requires
                v >= h + 1,
                b > 0,
                m == 2 * h,
        ;
    }
}

/// A quotient of at least twenty-five bits can be jammed before it is rounded.
pub proof fn lemma_magnitude_jammed(a: nat, b: nat, e: int)
    requires
        b > 0,
        a / b >= SIGNIFICAND_LIMIT,
    ensures
        magnitude_at(a, b, e) == magnitude_at(jammed(a, b), 2, e),
{
    let x: nat = jammed(a, b);
    if e >= 0 {
        let t: nat = e as nat;
        let k: nat = place(a * pow2(t), b);
        lemma_pow2_pos(t);
        lemma_place_bounds(a * pow2(t), b);
        // The quotient is too long to be rounded at or below place `t`.
        if k <= t {
            lemma_fundamental_div_mod(a as int, b as int);
            lemma_mod_bound(a as int, b as int);
            if k < t {
                lemma_pow2_strictly_increases(k, t);
            }
            assert(a * pow2(t) >= b * SIGNIFICAND_LIMIT * pow2(k)) by (nonlinear_arith)
                requires
                    a >= b * (a / b),
                    a / b >= SIGNIFICAND_LIMIT,
                    pow2(t) >= pow2(k),
                    pow2(k) >= 0,
                    b > 0,
            ;
            assert(false);
        }
        let j: nat = (k - t) as nat;
        let w: nat = pow2(j);
        let c: nat = pow2(t);
        lemma_pow2_adds(j, t);
        assert(pow2(k) == w * c);
        lemma_jammed_side(a, b, SIGNIFICAND_LIMIT as nat * w);
        lemma_jammed_side(a, b, HIDDEN_BIT as nat * w);
        assert(a < b * (SIGNIFICAND_LIMIT as nat * w)) by (nonlinear_arith)
            requires
                a * c < b * SIGNIFICAND_LIMIT * (w * c),
                c > 0,
        ;
        assert(a >= b * (HIDDEN_BIT as nat * w)) by (nonlinear_arith)
            requires
                a * c >= b * HIDDEN_BIT * (w * c),
                c > 0,
        ;
        assert(x * c < 2 * SIGNIFICAND_LIMIT * (w * c)) by (nonlinear_arith)
            requires
                x < 2 * (SIGNIFICAND_LIMIT as nat * w),
                c > 0,
        ;
        assert(x * c >= 2 * HIDDEN_BIT * (w * c)) by (nonlinear_arith)
            requires
                x >= 2 * (HIDDEN_BIT as nat * w),
                c > 0,
        ;
        lemma_place_unique(x * c, 2, k);
        lemma_jammed_half_even(a, b, j);
        lemma_pow2_pos(j);
        assert(b * w > 0) by (nonlinear_arith)
            requires
                b > 0,
                w > 0,
        ;
        lemma_half_even_cancel(a, b * w, c);
        lemma_half_even_cancel(x, 2 * w, c);
        assert(b * (w * c) == b * w * c) by (nonlinear_arith);
        assert(2 * (w * c) == 2 * w * c) by (nonlinear_arith);
    } else {
        let t: nat = (-e) as nat;
        let c: nat = pow2(t);
        lemma_pow2_pos(t);
        assert(b * c > 0) by (nonlinear_arith)
            requires
                b > 0,
                c > 0,
        ;
        let k: nat = place(a, b * c);
        let w: nat = pow2(k);
        lemma_place_bounds(a, b * c);
        lemma_pow2_adds(t, k);
        lemma_jammed_side(a, b, SIGNIFICAND_LIMIT as nat * (c * w));
        lemma_jammed_side(a, b, HIDDEN_BIT as nat * (c * w));
        assert(b * c * SIGNIFICAND_LIMIT * w == b * (SIGNIFICAND_LIMIT as nat * (c * w)))
            by (nonlinear_arith);
        assert(b * c * HIDDEN_BIT * w == b * (HIDDEN_BIT as nat * (c * w))) by (nonlinear_arith);
        assert(2 * c * SIGNIFICAND_LIMIT * w == 2 * (SIGNIFICAND_LIMIT as nat * (c * w)))
            by (nonlinear_arith);
        assert(2 * c * HIDDEN_BIT * w == 2 * (HIDDEN_BIT as nat * (c * w))) by (nonlinear_arith);
        lemma_place_unique(x, 2 * c, k);
        lemma_jammed_half_even(a, b, t + k);
        assert(b * c * w == b * (c * w)) by (nonlinear_arith);
        assert(2 * c * w == 2 * (c * w)) by (nonlinear_arith);
    }
}

/// The number of binary digits of `n`.
pub fn bit_length(n: u128) -> (l: u32)
    ensures
        l <= 128,
        n < pow2(l as nat),
        l > 0 ==> n >= pow2((l - 1) as nat),
        n > 0 ==> l > 0,
{
    let mut l: u32 = 0;
    let mut rest: u128 = n;
    proof {
        lemma2_to64();
    }
    while rest > 0
        invariant
            l <= 128,
            rest * pow2(l as nat) <= n,
            n < (rest + 1) * pow2(l as nat),
            rest == 0 && l > 0 ==> n >= pow2((l - 1) as nat),
            rest == 0 && n > 0 ==> l > 0,
        decreases rest,
    {
        let half: u128 = rest / 2;
        proof {
            let p: nat = pow2(l as nat);
            lemma_pow2_pos(l as nat);
            lemma_pow2_unfold((l + 1) as nat);
            assert(half * (2 * p) <= n) by (nonlinear_arith)
                requires
                    rest * p <= n,
                    2 * half <= rest,
                    p > 0,
            ;
            assert(n < (half + 1) * (2 * p)) by (nonlinear_arith)
                requires
                    n < (rest + 1) * p,
                    rest <= 2 * half + 1,
                    p > 0,
            ;
            assert(p <= n) by (nonlinear_arith)
                requires
                    rest * p <= n,
                    rest >= 1,
                    p > 0,
            ;
            if l == 128 {
                lemma2_to64();
                lemma_pow2_adds(64, 64);
                assert(pow2(128) == 0x1_0000_0000_0000_0000int * 0x1_0000_0000_0000_0000int);
                assert(false);
            }
        }
        rest = half;
        l = l + 1;
    }
    assert((rest + 1) * pow2(l as nat) == pow2(l as nat)) by (nonlinear_arith)
        requires
            rest == 0,
    ;
    l
}

/// Two to the power of `k`.
pub fn power_of_two(k: u32) -> (p: u128)
    requires
        k < 128,
    ensures
        p == pow2(k as nat),
        p > 0,
{
    let mut p: u128 = 1;
    let mut i: u32 = 0;
    proof {
        lemma2_to64();
    }
    while i < k
        invariant
            i <= k < 128,
            p == pow2(i as nat),
            p > 0,
        decreases k - i,
    {
        proof {
            lemma_pow2_unfold((i + 1) as nat);
            if i + 1 < 127 {
                lemma_pow2_strictly_increases((i + 1) as nat, 127);
            }
            lemma2_to64();
            lemma2_to64_rest();
            lemma_pow2_adds(64, 63);
        }
        p = 2 * p;
        i = i + 1;
    }
    p
}

/// `n / d` to the nearest integer, ties to even.
pub fn divide_half_even(n: u128, d: u128) -> (q: u128)
    requires
        d > 0,
        d < 0x8000_0000_0000_0000_0000_0000_0000_0000,
    ensures
        q == half_even(n as nat, d as nat),
{
    let q: u128 = n / d;
    let r: u128 = n % d;
    if 2 * r < d || (2 * r == d && q % 2 == 0) {
        q
    } else {
        proof {
            lemma_fundamental_div_mod(n as int, d as int);
            assert(q + 1 <= u128::MAX) by (nonlinear_arith)
                requires
                    n == d * q + r,
                    d >= 1,
                    r >= 1,
                    n <= u128::MAX,
            ;
        }
        q + 1
    }
}

/// The place and the significand that `round_scaled` computes are those of `magnitude_at`.
proof fn lemma_round_scaled(n: nat, l: nat, e: int, k: nat)
    requires
        0 < n < pow2(l),
        l > 0,
        n >= pow2((l - 1) as nat),
        k == if l + e > 24 {
            l + e - 24
        } else {
            0
        },
    ensures
        k <= e ==> ({
            let q: nat = n * pow2((e - k) as nat);
            &&& q < SIGNIFICAND_LIMIT
            &&& magnitude_at(n, 1, e) == capped(k * HIDDEN_BIT as nat + q)
        }),
        k > e ==> ({
            let q: nat = half_even(n, pow2((k - e) as nat));
            &&& q <= SIGNIFICAND_LIMIT
            &&& magnitude_at(n, 1, e) == capped(k * HIDDEN_BIT as nat + q)
        }),
{
    lemma2_to64();
    lemma_pow2_adds(24, k);
    lemma_pow2_adds(23, k);
    let p: nat = pow2(k);
    lemma_pow2_pos(k);
    if e >= 0 {
        let c: nat = pow2(e as nat);
        lemma_pow2_pos(e as nat);
        lemma_pow2_adds(l, e as nat);
        lemma_pow2_adds((l - 1) as nat, e as nat);
        if l + e < 24 + k {
            lemma_pow2_strictly_increases((l + e) as nat, 24 + k);
        }
        assert(n * c < pow2(l) * c) by (nonlinear_arith)
            requires
                n < pow2(l),
                c > 0,
        ;
        assert(n * c >= pow2((l - 1) as nat) * c) by (nonlinear_arith)
            requires
                n >= pow2((l - 1) as nat),
                c > 0,
        ;
        lemma_place_unique(n * c, 1, k);
        if k <= e {
            let t: nat = (e - k) as nat;
            lemma_pow2_adds(t, k);
            assert(n * c == n * pow2(t) * p) by (nonlinear_arith)
                requires
                    c == pow2(t) * p,
            ;
            lemma_half_even_exact(n * pow2(t), p);
            assert(n * pow2(t) < SIGNIFICAND_LIMIT) by (nonlinear_arith)
                requires
                    n * pow2(t) * p < SIGNIFICAND_LIMIT * p,
                    p > 0,
            ;
        } else {
            let t: nat = (k - e) as nat;
            lemma_pow2_adds(t, e as nat);
            lemma_pow2_pos(t);
            lemma_half_even_cancel(n, pow2(t), c);
            assert(n < SIGNIFICAND_LIMIT * pow2(t)) by (nonlinear_arith)
                requires
                    n * c < SIGNIFICAND_LIMIT * p,
                    p == pow2(t) * c,
                    c > 0,
            ;
            lemma_half_even_bound(n, pow2(t), SIGNIFICAND_LIMIT as nat);
        }
    } else {
        let t: nat = (-e) as nat;
        let c: nat = pow2(t);
        lemma_pow2_pos(t);
        lemma_pow2_adds(t, k);
        lemma_pow2_adds(t, 24 + k);
        lemma_pow2_adds(t, 23 + k);
        if l < t + 24 + k {
            lemma_pow2_strictly_increases(l, t + 24 + k);
        }
        assert(c * SIGNIFICAND_LIMIT * p == c * (SIGNIFICAND_LIMIT * p)) by (nonlinear_arith);
        assert(c * HIDDEN_BIT * p == c * (HIDDEN_BIT * p)) by (nonlinear_arith);
        lemma_place_unique(n, c, k);
        assert(1 * c == c);
        assert(n < SIGNIFICAND_LIMIT * (c * p)) by (nonlinear_arith)
            requires
                n < c * (SIGNIFICAND_LIMIT * p),
        ;
        assert(c * p > 0) by (nonlinear_arith)
            requires
                c > 0,
                p > 0,
        ;
        lemma_half_even_bound(n, c * p, SIGNIFICAND_LIMIT as nat);
    }
}

/// A fraction below an integer is rounded at most to that integer.
pub proof fn lemma_half_even_bound(n: nat, d: nat, x: nat)
    requires
        d > 0,
        n < x * d,
    ensures
        half_even(n, d) <= x,
{
    lemma_fundamental_div_mod(n as int, d as int);
    lemma_mod_bound(n as int, d as int);
    assert(n / d < x) by (nonlinear_arith)
        requires
            n == d * (n / d) + n % d,
            n % d >= 0,
            n < x * d,
            d > 0,
    ;
}

/// A fraction below one half is rounded to zero.
pub proof fn lemma_half_even_small(n: nat, d: nat)
    requires
        2 * n < d,
    ensures
        half_even(n, d) == 0,
{
    lemma_fundamental_div_mod_converse(n as int, d as int, 0, n as int);
}

/// The magnitude of `n * pow2(e)` steps.
pub fn round_scaled(n: u128, e: i32) -> (m: u32)
    requires
        n < 0x1_0000_0000_0000_0000_0000_0000_0000,
        -1000 <= e <= 1000,
    ensures
        m == magnitude_at(n as nat, 1, e as int),
        m <= INFINITE,
{
    proof {
        lemma2_to64();
        lemma2_to64_rest();
    }
    if n == 0 {
        proof {
            let d: nat = pow2((-e) as nat);
            lemma_pow2_pos((-e) as nat);
            assert(place(0, 1) == 0);
            assert(place(0, d) == 0);
            assert(0 * pow2(e as nat) == 0) by (nonlinear_arith);
            lemma_half_even_small(0, 1 * pow2(0));
            lemma_half_even_small(0, d * pow2(0));
        }
        return 0;
    }
    let l: u32 = bit_length(n);
    let top: i32 = l as i32 + e - 24;
    let k: i32 = if top > 0 {
        top
    } else {
        0
    };
    let shift: i32 = k - e;
    proof {
        lemma_round_scaled(n as nat, l as nat, e as int, k as nat);
        lemma_pow2_adds(64, 48);
        if l > 112 {
            if l > 113 {
                lemma_pow2_strictly_increases(112, (l - 1) as nat);
            }
            assert(false);
        }
    }
    let q: u128 = if shift <= 0 {
        let p: u128 = power_of_two((-shift) as u32);
        n * p
    } else if shift > 126 {
        proof {
            lemma_pow2_adds(64, 63);
            if shift > 127 {
                lemma_pow2_strictly_increases(127, shift as nat);
            }
            lemma_half_even_small(n as nat, pow2(shift as nat));
        }
        0
    } else {
        let d: u128 = power_of_two(shift as u32);
        proof {
            if shift < 126 {
                lemma_pow2_strictly_increases(shift as nat, 126);
            }
            lemma_pow2_adds(63, 63);
        }
        divide_half_even(n, d)
    };
    let code: u64 = k as u64 * HIDDEN_BIT as u64 + q as u64;
    if code >= INFINITE as u64 {
        INFINITE
    } else {
        code as u32
    }
}

/// A place and a significand of it are what their encoding stands for.
pub proof fn lemma_steps_of_code(k: nat, q: nat)
    requires
        q <= SIGNIFICAND_LIMIT,
        k > 0 ==> q >= HIDDEN_BIT,
    ensures
        steps(k * HIDDEN_BIT as nat + q) == q * pow2(k),
{
    lemma2_to64();
    let m: nat = k * HIDDEN_BIT as nat + q;
    if q == SIGNIFICAND_LIMIT {
        lemma_fundamental_div_mod_converse(m as int, HIDDEN_BIT as int, (k + 2) as int, 0);
        lemma_pow2_unfold(k + 1);
        assert(HIDDEN_BIT as nat * (2 * pow2(k)) == q * pow2(k)) by (nonlinear_arith)
            requires
                q == 2 * HIDDEN_BIT,
        ;
    } else if q >= HIDDEN_BIT {
        lemma_fundamental_div_mod_converse(m as int, HIDDEN_BIT as int, (k + 1) as int, q - HIDDEN_BIT);
    } else {
        assert(q * pow2(0) == q) by (nonlinear_arith)
            requires
                pow2(0) == 1,
        ;
    }
}

/// The significand of `n / d` at its place.
proof fn lemma_significand_bounds(n: nat, d: nat)
    requires
        d > 0,
    ensures
        half_even(n, d * pow2(place(n, d))) <= SIGNIFICAND_LIMIT,
        place(n, d) > 0 ==> half_even(n, d * pow2(place(n, d))) >= HIDDEN_BIT,
{
    let k: nat = place(n, d);
    let p: nat = pow2(k);
    let c: nat = d * p;
    lemma_place_bounds(n, d);
    lemma_pow2_pos(k);
    assert(c > 0) by (nonlinear_arith)
        requires
            d > 0,
            p > 0,
            c == d * p,
    ;
    assert(SIGNIFICAND_LIMIT as nat * c == d * SIGNIFICAND_LIMIT * p) by (nonlinear_arith)
        requires
            c == d * p,
    ;
    lemma_half_even_bound(n, c, SIGNIFICAND_LIMIT as nat);
    if k > 0 {
        lemma_fundamental_div_mod(n as int, c as int);
        lemma_mod_bound(n as int, c as int);
        assert(n / c >= HIDDEN_BIT) by (nonlinear_arith)
            requires
                n == c * (n / c) + n % c,
                n % c < c,
                n >= d * HIDDEN_BIT * p,
                c == d * p,
                c > 0,
        ;
    }
}

/// A finite magnitude stands for the rounded number.
pub proof fn law_magnitude_is_rounded(n: nat, d: nat)
    requires
        d > 0,
        magnitude(n, d) < INFINITE,
    ensures
        steps(magnitude(n, d)) == rounded(n, d),
{
    lemma_significand_bounds(n, d);
    lemma_steps_of_code(place(n, d), half_even(n, d * pow2(place(n, d))));
}

/// No integer is nearer to a fraction than the one it is rounded to.
proof fn lemma_half_even_nearest(n: nat, d: nat, x: nat)
    requires
        d > 0,
    ensures
        vstd::math::abs(n - d * half_even(n, d)) <= vstd::math::abs(n - d * x),
{
    let q: nat = n / d;
    let r: nat = n % d;
    lemma_fundamental_div_mod(n as int, d as int);
    lemma_mod_bound(n as int, d as int);
    assert(d * (q + 1) == d * q + d) by (nonlinear_arith);
    if x <= q {
        assert(d * x <= d * q) by (nonlinear_arith)
            requires
                x <= q,
        ;
    } else {
        assert(d * x >= d * q + d) by (nonlinear_arith)
            requires
                x >= q + 1,
        ;
    }
}

/// Rounding is correct: no number of at most twenty-four significant bits is
/// nearer to `n / d` than `rounded(n, d)`.
pub proof fn law_rounded_is_nearest(n: nat, d: nat, s: nat, j: nat)
    requires
        d > 0,
        s < SIGNIFICAND_LIMIT,
    ensures
        vstd::math::abs(n - d * rounded(n, d)) <= vstd::math::abs(n - d * (s * pow2(j))),
{
    lemma2_to64();
    let k: nat = place(n, d);
    let p: nat = pow2(k);
    let c: nat = d * p;
    let q: nat = half_even(n, c);
    lemma_pow2_pos(k);
    lemma_place_bounds(n, d);
    assert(c > 0) by (nonlinear_arith)
        requires
            d > 0,
            p > 0,
            c == d * p,
    ;
    assert(d * (q * p) == c * q) by (nonlinear_arith)
        requires
            c == d * p,
    ;
    if j >= k {
        let t: nat = (j - k) as nat;
        lemma_pow2_adds(t, k);
        lemma_half_even_nearest(n, c, s * pow2(t));
        assert(d * (s * (pow2(t) * p)) == c * (s * pow2(t))) by (nonlinear_arith)
            requires
                c == d * p,
        ;
    } else {
        let x: nat = s * pow2(j);
        lemma_half_even_nearest(n, c, HIDDEN_BIT as nat);
        lemma_pow2_unfold(k);
        if j < k - 1 {
            lemma_pow2_strictly_increases(j, (k - 1) as nat);
        }
        assert(d * x <= c * HIDDEN_BIT) by (nonlinear_arith)
            requires
                x == s * pow2(j),
                s <= 2 * HIDDEN_BIT,
                2 * pow2(j) <= p,
                c == d * p,
        ;
        assert(d * HIDDEN_BIT * p == c * HIDDEN_BIT) by (nonlinear_arith)
            requires
                c == d * p,
        ;
    }
}

/// Rounding is exact on numbers of at most twenty-four significant bits.
pub proof fn law_rounded_is_exact(d: nat, s: nat, j: nat)
    requires
        d > 0,
        s < SIGNIFICAND_LIMIT,
    ensures
        rounded(d * (s * pow2(j)), d) == s * pow2(j),
{
    let x: nat = s * pow2(j);
    law_rounded_is_nearest(d * x, d, s, j);
    assert(rounded(d * x, d) == x) by (nonlinear_arith)
        requires
            d * x - d * rounded(d * x, d) == 0,
            d > 0,
    ;
}

/// Every finite magnitude is the magnitude of the number that it stands for.
pub proof fn law_magnitude_of_steps(m: nat)
    requires
        m < INFINITE,
    ensures
        magnitude(steps(m), 1) == m,
{
    lemma2_to64();
    let q: nat = significand(m);
    let k: nat = scale(m);
    lemma_pow2_pos(k);
    lemma_fundamental_div_mod(m as int, HIDDEN_BIT as int);
    lemma_mod_bound(m as int, HIDDEN_BIT as int);
    assert(m == k * HIDDEN_BIT as nat + q);
    assert(q * pow2(k) < 1 * SIGNIFICAND_LIMIT * pow2(k)) by (nonlinear_arith)
        requires
            q < SIGNIFICAND_LIMIT,
            pow2(k) > 0,
    ;
    if k > 0 {
        assert(q * pow2(k) >= 1 * HIDDEN_BIT * pow2(k)) by (nonlinear_arith)
            requires
                q >= HIDDEN_BIT,
        ;
    }
    lemma_place_unique(steps(m), 1, k);
    lemma_half_even_exact(q, pow2(k));
    assert(1 * pow2(k) == pow2(k));
}

proof fn lemma_half_even_monotone(n1: nat, n2: nat, d: nat)
    requires
        d > 0,
        n1 <= n2,
    ensures
        half_even(n1, d) <= half_even(n2, d),
{
    let q1: nat = n1 / d;
    let q2: nat = n2 / d;
    lemma_fundamental_div_mod(n1 as int, d as int);
    lemma_fundamental_div_mod(n2 as int, d as int);
    lemma_mod_bound(n1 as int, d as int);
    lemma_mod_bound(n2 as int, d as int);
    assert(q1 <= q2) by (nonlinear_arith)
        requires
            d * q1 + n1 % d <= d * q2 + n2 % d,
            n1 % d >= 0,
            n2 % d < d,
            d > 0,
    ;
}

proof fn lemma_magnitude_monotone_numerator(n1: nat, n2: nat, d: nat)
    requires
        d > 0,
        n1 <= n2,
    ensures
        magnitude(n1, d) <= magnitude(n2, d),
{
    let k1: nat = place(n1, d);
    let k2: nat = place(n2, d);
    lemma_place_bounds(n1, d);
    lemma_place_bounds(n2, d);
    lemma_significand_bounds(n1, d);
    lemma_significand_bounds(n2, d);
    lemma_pow2_pos(k1);
    lemma_pow2_pos(k2);
    if k1 == k2 {
        assert(d * pow2(k1) > 0) by (nonlinear_arith)
            requires
                d > 0,
                pow2(k1) > 0,
        ;
        lemma_half_even_monotone(n1, n2, d * pow2(k1));
    } else if k1 > k2 {
        lemma_pow2_unfold(k1);
        if k2 < k1 - 1 {
            lemma_pow2_strictly_increases(k2, (k1 - 1) as nat);
        }
        assert(d * HIDDEN_BIT * pow2(k1) >= d * SIGNIFICAND_LIMIT * pow2(k2)) by (nonlinear_arith)
            requires
                pow2(k1) >= 2 * pow2(k2),
                SIGNIFICAND_LIMIT == 2 * HIDDEN_BIT,
        ;
        assert(false);
    }
}

/// Rounding keeps order: of two fractions the larger does not round to less.
pub proof fn law_magnitude_monotone(n1: nat, d1: nat, n2: nat, d2: nat)
    requires
        d1 > 0,
        d2 > 0,
        n1 * d2 <= n2 * d1,
    ensures
        magnitude(n1, d1) <= magnitude(n2, d2),
{
    lemma_magnitude_cancel(n1, d1, d2);
    lemma_magnitude_cancel(n2, d2, d1);
    assert(d1 * d2 == d2 * d1) by (nonlinear_arith);
    assert(d1 * d2 > 0) by (nonlinear_arith)
        requires
            d1 > 0,
            d2 > 0,
    ;
    lemma_magnitude_monotone_numerator(n1 * d2, n2 * d1, d1 * d2);
}

/// Rounding is off by at most one part in two to the power of twenty-four, or by half a
/// step where the number is subnormal.
pub proof fn law_rounding_error(n: nat, d: nat)
    requires
        d > 0,
    ensures
        place(n, d) > 0 ==> SIGNIFICAND_LIMIT * vstd::math::abs(n - d * rounded(n, d)) <= n,
        place(n, d) == 0 ==> 2 * vstd::math::abs(n - d * rounded(n, d)) <= d,
        d == 1 ==> SIGNIFICAND_LIMIT * vstd::math::abs(n - rounded(n, d)) <= n,
{
    lemma2_to64();
    let k: nat = place(n, d);
    let p: nat = pow2(k);
    let c: nat = d * p;
    let q: nat = half_even(n, c);
    lemma_pow2_pos(k);
    lemma_place_bounds(n, d);
    assert(c > 0) by (nonlinear_arith)
        requires
            d > 0,
            p > 0,
            c == d * p,
    ;
    lemma_fundamental_div_mod(n as int, c as int);
    lemma_mod_bound(n as int, c as int);
    assert(c * (n / c + 1) == c * (n / c) + c) by (nonlinear_arith);
    assert(2 * vstd::math::abs(n - c * q) <= c);
    assert(d * (q * p) == c * q) by (nonlinear_arith)
        requires
            c == d * p,
    ;
    if k > 0 {
        assert(HIDDEN_BIT * c == d * HIDDEN_BIT * p) by (nonlinear_arith)
            requires
                c == d * p,
        ;
    } else {
        assert(c == d) by (nonlinear_arith)
            requires
                c == d * p,
                p == 1,
        ;
    }
    assert(1 * rounded(n, d) == rounded(n, d));
    if d == 1 && k == 0 {
        assert(vstd::math::abs(n - rounded(n, d)) == 0);
    }
}

/// Doubling a fraction that is not below the least normal number adds one to the
/// exponent of what it rounds to.
pub proof fn law_magnitude_doubles(n: nat, d: nat)
    requires
        d > 0,
        n >= d * HIDDEN_BIT,
    ensures
        magnitude(2 * n, d) == capped(magnitude(n, d) + HIDDEN_BIT as nat),
        rounded(2 * n, d) == 2 * rounded(n, d),
{
    lemma2_to64();
    let k: nat = place(n, d);
    let p: nat = pow2(k);
    let c: nat = d * p;
    lemma_pow2_pos(k);
    lemma_place_bounds(n, d);
    lemma_pow2_unfold(k + 1);
    assert(c > 0) by (nonlinear_arith)
        requires
            d > 0,
            p > 0,
            c == d * p,
    ;
    assert(2 * n < d * SIGNIFICAND_LIMIT * pow2(k + 1)) by (nonlinear_arith)
        requires
            n < d * SIGNIFICAND_LIMIT * p,
            pow2(k + 1) == 2 * p,
    ;
    if k == 0 {
        assert(d * HIDDEN_BIT * p == d * HIDDEN_BIT) by (nonlinear_arith)
            requires
                p == 1,
        ;
    }
    assert(2 * n >= d * HIDDEN_BIT * pow2(k + 1)) by (nonlinear_arith)
        requires
            n >= d * HIDDEN_BIT * p,
            pow2(k + 1) == 2 * p,
    ;
    lemma_place_unique(2 * n, d, k + 1);
    lemma_half_even_cancel(n, c, 2);
    assert(d * pow2(k + 1) == c * 2) by (nonlinear_arith)
        requires
            c == d * p,
            pow2(k + 1) == 2 * p,
    ;
    let q: nat = half_even(n, c);
    assert(half_even(2 * n, d * pow2(k + 1)) == q);
    assert(q * pow2(k + 1) == 2 * (q * p)) by (nonlinear_arith)
        requires
            pow2(k + 1) == 2 * p,
    ;
}

/// Rounding commutes with doubling: twice an integer rounds to twice what the integer
/// rounds to.
pub proof fn law_rounded_doubles(n: nat)
    ensures
        rounded(2 * n, 1) == 2 * rounded(n, 1),
{
    if n < HIDDEN_BIT {
        lemma2_to64();
        lemma_half_even_exact(n, 1);
        lemma_half_even_exact(2 * n, 1);
        assert(rounded(n, 1) == n * 1);
        assert(rounded(2 * n, 1) == 2 * n * 1);
    } else {
        law_magnitude_doubles(n, 1);
    }
}

/// A multiple of a power of two rounds to a multiple of it.
pub proof fn law_rounded_multiple(n: nat, j: nat) -> (m: nat)
    ensures
        rounded(n * pow2(j), 1) == m * pow2(j),
{
    let x: nat = n * pow2(j);
    let k: nat = place(x, 1);
    lemma_pow2_pos(k);
    lemma_pow2_pos(j);
    assert(1 * pow2(k) == pow2(k));
    if k >= j {
        let t: nat = (k - j) as nat;
        lemma_pow2_adds(t, j);
        let q: nat = half_even(x, pow2(k));
        assert(q * (pow2(t) * pow2(j)) == (q * pow2(t)) * pow2(j)) by (nonlinear_arith);
        q * pow2(t)
    } else {
        let t: nat = (j - k) as nat;
        lemma_pow2_adds(t, k);
        assert(n * (pow2(t) * pow2(k)) == (n * pow2(t)) * pow2(k)) by (nonlinear_arith);
        lemma_half_even_exact(n * pow2(t), pow2(k));
        n
    }
}

/// The nearest integer is at most one half off, and where it is one half off it is even.
pub proof fn law_half_even_is_near(n: nat, d: nat)
    requires
        d > 0,
    ensures
        2 * vstd::math::abs(n - d * half_even(n, d)) <= d,
        2 * vstd::math::abs(n - d * half_even(n, d)) == d ==> half_even(n, d) % 2 == 0,
{
    lemma_fundamental_div_mod(n as int, d as int);
    lemma_mod_bound(n as int, d as int);
    assert(d * (n / d + 1) == d * (n / d) + d) by (nonlinear_arith);
}

/// Nothing rounds to infinity that is not above the largest finite number.
pub proof fn law_overflow(n: nat, d: nat)
    requires
        d > 0,
        n <= d * steps((INFINITE - 1) as nat),
    ensures
        magnitude(n, d) < INFINITE,
{
    let top: nat = (INFINITE - 1) as nat;
    law_magnitude_of_steps(top);
    assert(n * 1 <= steps(top) * d) by (nonlinear_arith)
        requires
            n <= d * steps(top),
    ;
    law_magnitude_monotone(n, d, steps(top), 1);
}

} // verus!
