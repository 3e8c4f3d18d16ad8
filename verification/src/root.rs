//! Square roots, rounded to twenty-four significant bits.

use vstd::arithmetic::div_mod::{
    lemma_div_is_ordered, lemma_fundamental_div_mod, lemma_fundamental_div_mod_converse,
    lemma_mod_bound,
};
use vstd::arithmetic::power2::{
    lemma2_to64, lemma2_to64_rest, lemma_pow2_adds, lemma_pow2_pos, lemma_pow2_strictly_increases,
    lemma_pow2_unfold, pow2,
};
use vstd::prelude::*;

use crate::rounding::{
    capped, half_even, lemma_half_even_cancel, lemma_magnitude_at_halved, lemma_place_bounds,
    lemma_place_unique, lemma_steps_of_code, magnitude_at, place, steps, HIDDEN_BIT, INFINITE,
    SIGNIFICAND_LIMIT,
};

verus! {

/// Whether `r` is the whole part of the square root of `n`.
pub open spec fn is_root(n: nat, r: nat) -> bool {
    r * r <= n < (r + 1) * (r + 1)
}

/// The whole part of the square root of `n`.
pub open spec fn root(n: nat) -> nat {
    choose|r: nat| is_root(n, r)
}

/// The square root of `n`, in units of `pow2(k)`, to the nearest integer, and to
/// the even one of two that are equally near.
pub open spec fn root_half_even(n: nat, k: nat) -> nat {
    let q: nat = root(n) / pow2(k);
    let middle: nat = (2 * q + 1) * pow2(k);
    if 4 * n < middle * middle || (4 * n == middle * middle && q % 2 == 0) {
        q
    } else {
        q + 1
    }
}

/// The magnitude nearest to the square root of `n` steps.
pub open spec fn root_magnitude(n: nat) -> nat {
    let k: nat = place(root(n), 1);
    capped(k * HIDDEN_BIT as nat + root_half_even(n, k))
}

proof fn lemma_square_order(a: nat, b: nat)
    ensures
        a * a <= b * b <==> a <= b,
        a * a < b * b <==> a < b,
{
    if a <= b {
        assert(a * a <= b * b) by (nonlinear_arith)
            requires
                a <= b,
        ;
    }
    if b <= a {
        assert(b * b <= a * a) by (nonlinear_arith)
            requires
                b <= a,
        ;
    }
    if a < b {
        assert(a * a < b * b) by (nonlinear_arith)
            requires
                a < b,
        ;
    }
    if b < a {
        assert(b * b < a * a) by (nonlinear_arith)
            requires
                b < a,
        ;
    }
}

proof fn lemma_root_exists(n: nat)
    ensures
        exists|r: nat| is_root(n, r),
    decreases n,
{
    if n == 0 {
        assert(0nat * 0nat == 0 && (0nat + 1) * (0nat + 1) == 1) by (nonlinear_arith);
        assert(is_root(0, 0));
    } else {
        let before: nat = (n - 1) as nat;
        lemma_root_exists(before);
        let r: nat = choose|r: nat| is_root(before, r);
        if n < (r + 1) * (r + 1) {
            assert(is_root(n, r));
        } else {
            lemma_square_order(r + 1, r + 2);
            assert((r + 2) * (r + 2) > (r + 1) * (r + 1));
            assert(is_root(n, r + 1));
        }
    }
}

proof fn lemma_root(n: nat)
    ensures
        is_root(n, root(n)),
{
    lemma_root_exists(n);
}

/// The root lies on the same side of every integer as the exact square root.
proof fn lemma_root_side(n: nat, r: nat, x: nat)
    requires
        is_root(n, r),
    ensures
        r < x <==> n < x * x,
{
    if r < x {
        lemma_square_order(r + 1, x);
    } else {
        lemma_square_order(x, r);
    }
}

/// The whole part of the square root.
pub fn integer_root(n: u128) -> (r: u128)
    requires
        n < 0x40_0000_0000_0000_0000_0000,
    ensures
        is_root(n as nat, r as nat),
        r < 0x1000_0000_0000,
{
    let mut r: u128 = 0;
    let mut p: u128 = 0x1000_0000_0000;
    let ghost mut i: nat = 44;
    proof {
        lemma2_to64();
        lemma2_to64_rest();
    }
    while p > 1
        invariant
            p == pow2(i),
            r * r <= n,
            n < (r + p) * (r + p),
            r + p <= 0x1000_0000_0000,
        decreases p,
    {
        proof {
            if i == 0 {
                lemma2_to64();
            }
            lemma_pow2_unfold(i);
            i = (i - 1) as nat;
            lemma_pow2_pos(i);
        }
        p = p / 2;
        let t: u128 = r + p;
        proof {
            assert(t * t <= 0x1000_0000_0000 * 0x1000_0000_0000) by (nonlinear_arith)
                requires
                    0 <= t <= 0x1000_0000_0000,
            ;
        }
        if t * t <= n {
            r = t;
        }
    }
    proof {
        lemma_pow2_pos(i);
    }
    r
}

/// Twice the whole part of the square root, and one more if it is not exact.
pub open spec fn jammed_root(n: nat) -> nat {
    2 * root(n) + if root(n) * root(n) != n {
        1nat
    } else {
        0nat
    }
}

/// An integer root that is long enough can be jammed before it is rounded: the
/// square root of `n * pow2(2 * e)` rounds as `jammed_root(n) / 2 * pow2(e)` does.
pub proof fn lemma_root_magnitude_jammed(n: nat, e: nat)
    requires
        root(n) >= SIGNIFICAND_LIMIT,
    ensures
        root_magnitude(n * (pow2(e) * pow2(e))) == magnitude_at(jammed_root(n), 1, e - 1),
{
    let f: nat = root(n);
    let x: nat = jammed_root(n);
    let s: nat = (x - 2 * f) as nat;
    let c: nat = pow2(e);
    let big: nat = n * (c * c);
    let g: nat = root(big);
    lemma_root(n);
    lemma_root(big);
    lemma_pow2_pos(e);
    let k: nat = place(g, 1);
    lemma_place_bounds(g, 1);
    // The root of the scaled number lies in the same place as the scaled root.
    assert(g >= SIGNIFICAND_LIMIT as nat * c) by {
        lemma_root_side(big, g, SIGNIFICAND_LIMIT as nat * c);
        lemma_square_order(SIGNIFICAND_LIMIT as nat, f);
        let l: nat = SIGNIFICAND_LIMIT as nat;
        assert(n * (c * c) >= (l * c) * (l * c)) by (nonlinear_arith)
            requires
                n >= l * l,
        ;
    }
    if k <= e {
        if k < e {
            vstd::arithmetic::power2::lemma_pow2_strictly_increases(k, e);
        }
        assert(SIGNIFICAND_LIMIT as nat * c >= SIGNIFICAND_LIMIT as nat * pow2(k))
            by (nonlinear_arith)
            requires
                c >= pow2(k),
        ;
        assert(false);
    }
    let j: nat = (k - e) as nat;
    let w: nat = pow2(j);
    let h: nat = pow2((j - 1) as nat);
    lemma_pow2_adds(j, e);
    lemma_pow2_unfold(j);
    lemma_pow2_pos(j);
    lemma_pow2_pos((j - 1) as nat);
    assert(pow2(k) == w * c);
    assert forall|y: nat| g < #[trigger] (y * c) <==> f < y by {
        lemma_root_side(big, g, y * c);
        lemma_root_side(n, f, y);
        assert(n * (c * c) < (y * c) * (y * c) <==> n < y * y) by (nonlinear_arith)
            requires
                c > 0,
        ;
    }
    let ly: nat = SIGNIFICAND_LIMIT as nat * w;
    let hy: nat = HIDDEN_BIT as nat * w;
    assert(SIGNIFICAND_LIMIT as nat * (w * c) == ly * c) by (nonlinear_arith)
        requires
            ly == SIGNIFICAND_LIMIT as nat * w,
    ;
    assert(HIDDEN_BIT as nat * (w * c) == hy * c) by (nonlinear_arith)
        requires
            hy == HIDDEN_BIT as nat * w,
    ;
    assert(f < ly);
    assert(f >= hy);
    assert(x * c < 2 * SIGNIFICAND_LIMIT * (w * c)) by (nonlinear_arith)
        requires
            x < 2 * ly,
            ly == SIGNIFICAND_LIMIT as nat * w,
            c > 0,
    ;
    assert(x * c >= 2 * HIDDEN_BIT * (w * c)) by (nonlinear_arith)
        requires
            x >= 2 * hy,
            hy == HIDDEN_BIT as nat * w,
    ;
    lemma_place_unique(x * c, 2, k);
    lemma_half_even_cancel(x, 2 * w, c);
    assert(2 * (w * c) == 2 * w * c) by (nonlinear_arith);
    lemma_magnitude_at_halved(x, e as int);
    assert(magnitude_at(x, 2, e as int) == capped(
        k * HIDDEN_BIT as nat + half_even(x, 2 * w),
    ));
    // The quotient of the root.
    let u: nat = f / w;
    let v: nat = f % w;
    lemma_fundamental_div_mod(f as int, w as int);
    lemma_mod_bound(f as int, w as int);
    assert(f == u * w + v) by (nonlinear_arith)
        requires
            f == w * u + v,
    ;
    assert(g / (w * c) == u) by {
        assert(u * w <= f < (u + 1) * w) by (nonlinear_arith)
            requires
                f == u * w + v,
                0 <= v < w,
        ;
        assert((u * w) * c <= g);
        assert(g < ((u + 1) * w) * c);
        assert((u * w) * c == u * (w * c)) by (nonlinear_arith);
        assert(((u + 1) * w) * c == u * (w * c) + w * c) by (nonlinear_arith);
        lemma_fundamental_div_mod_converse(
            g as int,
            (w * c) as int,
            u as int,
            g - u * (w * c),
        );
    }
    assert(2 * f + s == u * (2 * w) + (2 * v + s)) by (nonlinear_arith)
        requires
            f == u * w + v,
    ;
    lemma_fundamental_div_mod_converse(x as int, (2 * w) as int, u as int, (2 * v + s) as int);
    // The middle between two neighbours.
    let y: nat = (2 * u + 1) * h;
    let middle: nat = (2 * u + 1) * (w * c);
    assert(middle == 2 * (y * c)) by (nonlinear_arith)
        requires
            middle == (2 * u + 1) * (w * c),
            y == (2 * u + 1) * h,
            w == 2 * h,
    ;
    assert(middle * middle == 4 * ((y * y) * (c * c))) by (nonlinear_arith)
        requires
            middle == 2 * (y * c),
    ;
    assert(n < y * y <==> n * (c * c) < (y * y) * (c * c)) by (nonlinear_arith)
        requires
            c > 0,
    ;
    assert(n == y * y <==> n * (c * c) == (y * y) * (c * c)) by (nonlinear_arith)
        requires
            c > 0,
    ;
    lemma_root_side(n, f, y);
    assert(y == u * w + h) by (nonlinear_arith)
        requires
            y == (2 * u + 1) * h,
            w == 2 * h,
    ;
    if n == y * y {
        lemma_square_order(f, y);
        lemma_square_order(y, f + 1);
    }
    assert(n == y * y <==> (f == y && s == 0));
    assert(root_half_even(big, k) == half_even(x, 2 * w));
}

/// There is only one root.
pub proof fn lemma_root_unique(n: nat, r: nat)
    requires
        is_root(n, r),
    ensures
        root(n) == r,
{
    lemma_root(n);
    lemma_root_side(n, r, root(n));
    lemma_root_side(n, root(n), r);
    lemma_square_order(r, r);
    lemma_square_order(root(n), root(n));
}

/// Square roots keep order.
pub proof fn law_root_keeps_order(n1: nat, n2: nat)
    requires
        n1 <= n2,
    ensures
        root_magnitude(n1) <= root_magnitude(n2),
        n1 > 0 ==> root_magnitude(n1) > 0,
{
    let (r1, r2): (nat, nat) = (root(n1), root(n2));
    lemma_root(n1);
    lemma_root(n2);
    lemma_square_order(r1, r2 + 1);
    let (k1, k2): (nat, nat) = (place(r1, 1), place(r2, 1));
    lemma_root_bounds(n1);
    lemma_root_bounds(n2);
    lemma_root_place_order(r1, r2);
    if k1 == k2 {
        lemma_root_half_even_order(n1, n2, k1);
    }
    if n1 > 0 {
        assert(r1 > 0) by (nonlinear_arith)
            requires
                n1 < (r1 + 1) * (r1 + 1),
                n1 > 0,
        ;
        if k1 == 0 {
            lemma2_to64();
            assert(r1 / pow2(0) == r1);
        }
    }
}

proof fn lemma_root_place_order(r1: nat, r2: nat)
    requires
        r1 <= r2,
    ensures
        place(r1, 1) <= place(r2, 1),
{
    let (k1, k2): (nat, nat) = (place(r1, 1), place(r2, 1));
    lemma_place_bounds(r1, 1);
    lemma_place_bounds(r2, 1);
    if k2 < k1 {
        lemma_pow2_unfold(k1);
        if k2 < k1 - 1 {
            lemma_pow2_strictly_increases(k2, (k1 - 1) as nat);
        }
        assert(1 * HIDDEN_BIT * pow2(k1) >= 1 * SIGNIFICAND_LIMIT * pow2(k2)) by (nonlinear_arith)
            requires
                pow2(k1) >= 2 * pow2(k2),
                SIGNIFICAND_LIMIT == 2 * HIDDEN_BIT,
        ;
    }
}

/// The rounded root at its place.
proof fn lemma_root_bounds(n: nat)
    ensures
        root_half_even(n, place(root(n), 1)) <= SIGNIFICAND_LIMIT,
        place(root(n), 1) > 0 ==> root_half_even(n, place(root(n), 1)) >= HIDDEN_BIT,
{
    let r: nat = root(n);
    let k: nat = place(r, 1);
    let p: nat = pow2(k);
    lemma_pow2_pos(k);
    lemma_place_bounds(r, 1);
    lemma_fundamental_div_mod(r as int, p as int);
    lemma_mod_bound(r as int, p as int);
    let q: nat = r / p;
    assert(q < SIGNIFICAND_LIMIT) by (nonlinear_arith)
        requires
            r == p * q + r % p,
            r % p >= 0,
            r < 1 * SIGNIFICAND_LIMIT * p,
            p > 0,
    ;
    if k > 0 {
        assert(q >= HIDDEN_BIT) by (nonlinear_arith)
            requires
                r == p * q + r % p,
                r % p < p,
                r >= 1 * HIDDEN_BIT * p,
                p > 0,
        ;
    }
}

proof fn lemma_root_half_even_order(n1: nat, n2: nat, k: nat)
    requires
        n1 <= n2,
        root(n1) <= root(n2),
    ensures
        root_half_even(n1, k) <= root_half_even(n2, k),
{
    let p: nat = pow2(k);
    lemma_pow2_pos(k);
    lemma_div_is_ordered(root(n1) as int, root(n2) as int, p as int);
}

/// A rounded root is at most half a unit off, the unit being that of its place.
pub proof fn law_root_is_near(n: nat)
    requires
        n > 0,
        root_magnitude(n) < INFINITE,
    ensures
        ({
            let s: nat = steps(root_magnitude(n));
            let p: nat = pow2(place(root(n), 1));
            &&& (2 * s - p) * (2 * s - p) <= 4 * n <= (2 * s + p) * (2 * s + p)
            &&& place(root(n), 1) > 0 ==> s >= HIDDEN_BIT * p
            &&& place(root(n), 1) == 0 ==> p == 1
        }),
{
    let r: nat = root(n);
    let k: nat = place(r, 1);
    let p: nat = pow2(k);
    let q: nat = r / p;
    let h: nat = root_half_even(n, k);
    lemma2_to64();
    lemma_root(n);
    lemma_pow2_pos(k);
    lemma_root_bounds(n);
    lemma_steps_of_code(k, h);
    let s: nat = h * p;
    lemma_fundamental_div_mod(r as int, p as int);
    lemma_mod_bound(r as int, p as int);
    assert(p * q <= r < p * q + p);
    assert(p * q == q * p && (q + 1) * p == q * p + p && (2 * q + 1) * p == 2 * (q * p) + p)
        by (nonlinear_arith);
    let middle: nat = (2 * q + 1) * p;
    if h == q {
        assert(2 * s + p == middle);
        assert(r > 0) by (nonlinear_arith)
            requires
                n < (r + 1) * (r + 1),
                n > 0,
        ;
        if k == 0 {
            assert(p == 1);
        } else {
            lemma_place_bounds(r, 1);
            assert(q > 0);
        }
        assert(q * p >= p) by (nonlinear_arith)
            requires
                q >= 1,
        ;
        assert((2 * s - p) * (2 * s - p) <= 4 * n) by (nonlinear_arith)
            requires
                0 <= 2 * s - p <= 2 * r,
                r * r <= n,
        ;
    } else {
        assert(2 * s - p == middle);
        assert(4 * n <= (2 * s + p) * (2 * s + p)) by (nonlinear_arith)
            requires
                n < (r + 1) * (r + 1),
                r + 1 <= s,
        ;
    }
    if k > 0 {
        assert(h * p >= HIDDEN_BIT * p) by (nonlinear_arith)
            requires
                h >= HIDDEN_BIT,
        ;
    }
}

} // verus!
