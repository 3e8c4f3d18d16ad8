//! The flux that a fader is moved to.

use vstd::arithmetic::div_mod::{lemma_div_is_ordered, lemma_fundamental_div_mod_converse};
use vstd::arithmetic::power2::{lemma_pow2_pos, pow2};
use vstd::math::abs;
use vstd::prelude::*;

use crate::binary32::{
    difference, from_integer, larger, law_from_integer_exact, law_order_is_value_order,
    law_product_with_integer_error, law_product_with_one, law_sum_error, law_sum_is_nearest, law_to_integer,
    law_zero_absorbs,
    lemma_steps_zero, nearest_integer, product, signed, smaller, sum,
    Binary32, FRACTION_PLACES,
};
use crate::mixer::entry::in_unit;
use crate::mixer::keys::KeyAction;
use crate::rounding::{
    law_magnitude_monotone, law_magnitude_of_steps, magnitude, SIGNIFICAND_LIMIT,
};

verus! {

/// The number of blocks of a bar.
pub const BAR_WIDTH: usize = 20;

/// How far a key press moves a fader: 0.05.
#[verifier::allow_in_spec]
pub fn step() -> Binary32
    returns
        (Binary32 { bits: 0x3d4c_cccd }),
{
    Binary32 { bits: 0x3d4c_cccd }
}

/// The flux one step up, one at most.
pub open spec fn raised(flux: Binary32) -> Binary32 {
    smaller(sum(flux, step()), Binary32::one())
}

/// The flux one step down, zero at least.
pub open spec fn lowered(flux: Binary32) -> Binary32 {
    larger(difference(flux, step()), Binary32::zero())
}

/// The flux that an action moves a fader to, if it moves it.
pub open spec fn level_after(flux: Binary32, action: KeyAction) -> Option<Binary32> {
    match action {
        KeyAction::Raise => Some(raised(flux)),
        KeyAction::Lower => Some(lowered(flux)),
        KeyAction::Off => Some(Binary32::zero()),
        KeyAction::Full => Some(Binary32::one()),
        _ => None,
    }
}

/// The flux that an action moves a fader to, if it moves it.
pub fn adjusted(flux: Binary32, action: KeyAction) -> (r: Option<Binary32>)
    ensures
        r == level_after(flux, action),
{
    match action {
        KeyAction::Raise => Some(flux.plus(step()).min(Binary32::one())),
        KeyAction::Lower => Some(flux.minus(step()).max(Binary32::zero())),
        KeyAction::Off => Some(Binary32::zero()),
        KeyAction::Full => Some(Binary32::one()),
        _ => None,
    }
}

/// The number of blocks of a bar that are filled.
pub open spec fn filled_blocks(flux: Binary32) -> nat {
    nearest_integer(product(flux, from_integer(BAR_WIDTH as nat))) as nat
}

/// The number of blocks of a bar that are filled.
pub fn filled(flux: Binary32) -> (n: usize)
    ensures
        n == filled_blocks(flux),
{
    flux.times(Binary32::from_usize(BAR_WIDTH)).round_to_usize()
}

/// A fader that is from zero to one stays there, whatever is pressed.
pub proof fn law_level_stays_in_unit(flux: Binary32, action: KeyAction)
    requires
        in_unit(flux),
    ensures
        match level_after(flux, action) {
            Some(level) => in_unit(level),
            None => true,
        },
{
    let s: Binary32 = step();
    lemma_steps_zero();
    law_order_is_value_order(Binary32::zero(), s);
    let up: int = flux.value() + s.value();
    law_magnitude_of_steps(s.magnitude());
    law_magnitude_of_steps(flux.magnitude());
    // A sum is not below its parts.
    law_magnitude_monotone(s.steps(), 1, up as nat, 1);
    assert(sum(flux, s) == signed(false, magnitude(up as nat, 1)));
    // A difference is not above what it is taken from, and not zero unless it is exactly.
    let down: int = flux.value() - s.value();
    assert(s.negated().value() == -s.value());
    if down > 0 {
        law_magnitude_monotone(down as nat, 1, flux.steps(), 1);
        assert(difference(flux, s) == signed(false, magnitude(down as nat, 1)));
    } else if down < 0 {
        law_magnitude_monotone(1, 1, (-down) as nat, 1);
        assert(difference(flux, s) == signed(true, magnitude((-down) as nat, 1)));
        assert(difference(flux, s).negative());
    }
}

/// A step up never lowers a fader, a step down never raises it, and at either end of
/// its way a fader stays where it is.
pub proof fn law_steps_have_direction(flux: Binary32)
    requires
        in_unit(flux),
    ensures
        flux.at_most(raised(flux)),
        lowered(flux).at_most(flux),
        raised(Binary32::one()) == Binary32::one(),
        lowered(Binary32::zero()) == Binary32::zero(),
{
    lemma_raised(flux);
    lemma_raised(Binary32::one());
    lemma_lowered(flux);
    lemma_lowered(Binary32::zero());
}

proof fn lemma_raised(flux: Binary32)
    requires
        in_unit(flux),
    ensures
        flux.at_most(raised(flux)),
        flux == Binary32::one() ==> raised(flux) == flux,
{
    let s: Binary32 = step();
    lemma_steps_zero();
    law_order_is_value_order(Binary32::zero(), s);
    let up: int = flux.value() + s.value();
    law_magnitude_of_steps(flux.magnitude());
    law_magnitude_monotone(flux.steps(), 1, up as nat, 1);
    assert(sum(flux, s) == signed(false, magnitude(up as nat, 1)));
}

proof fn lemma_lowered(flux: Binary32)
    requires
        in_unit(flux),
    ensures
        lowered(flux).at_most(flux),
        flux == Binary32::zero() ==> lowered(flux) == flux,
{
    let s: Binary32 = step();
    lemma_steps_zero();
    law_order_is_value_order(Binary32::zero(), s);
    law_magnitude_of_steps(flux.magnitude());
    let down: int = flux.value() - s.value();
    assert(s.negated().value() == -s.value());
    if down > 0 {
        law_magnitude_monotone(down as nat, 1, flux.steps(), 1);
        assert(difference(flux, s) == signed(false, magnitude(down as nat, 1)));
    } else if down < 0 {
        law_magnitude_monotone(1, 1, (-down) as nat, 1);
        assert(difference(flux, s) == signed(true, magnitude((-down) as nat, 1)));
        assert(difference(flux, s).negative());
    }
}

/// A bar grows with its fader: it is empty at zero, full at one, and a fader that
/// stands higher never has the shorter bar.
pub proof fn law_bar_grows(low: Binary32, high: Binary32)
    requires
        in_unit(low),
        in_unit(high),
        low.at_most(high),
    ensures
        filled_blocks(low) <= filled_blocks(high),
        filled_blocks(Binary32::zero()) == 0,
        filled_blocks(Binary32::one()) == BAR_WIDTH,
{
    lemma_bar_grows(low, high);
    lemma_full_bar();
    lemma_empty_bar();
}

#[verifier::rlimit(40)]
proof fn lemma_full_bar()
    ensures
        filled_blocks(Binary32::one()) == BAR_WIDTH,
{
    let w: nat = pow2(FRACTION_PLACES as nat);
    lemma_pow2_pos(FRACTION_PLACES as nat);
    let width: nat = BAR_WIDTH as nat;
    let top: Binary32 = from_integer(width);
    law_from_integer_exact(width);
    law_product_with_one(top);
    lemma_fundamental_div_mod_converse(
        (2 * (width * w) + w) as int,
        (2 * w) as int,
        width as int,
        w as int,
    );
}

#[verifier::rlimit(40)]
proof fn lemma_empty_bar()
    ensures
        filled_blocks(Binary32::zero()) == 0,
{
    let w: nat = pow2(FRACTION_PLACES as nat);
    lemma_pow2_pos(FRACTION_PLACES as nat);
    law_from_integer_exact(BAR_WIDTH as nat);
    lemma_steps_zero();
    law_zero_absorbs(Binary32::zero(), from_integer(BAR_WIDTH as nat));
    lemma_fundamental_div_mod_converse(w as int, (2 * w) as int, 0, w as int);
}

proof fn lemma_bar_grows(low: Binary32, high: Binary32)
    requires
        in_unit(low),
        in_unit(high),
        low.at_most(high),
    ensures
        filled_blocks(low) <= filled_blocks(high),
{
    let top: Binary32 = from_integer(BAR_WIDTH as nat);
    let one: Binary32 = Binary32::one();
    let w: nat = pow2(FRACTION_PLACES as nat);
    lemma_pow2_pos(FRACTION_PLACES as nat);
    law_from_integer_exact(BAR_WIDTH as nat);
    law_product_with_one(top);
    law_order_is_value_order(low, high);
    law_order_is_value_order(high, one);
    assert(low.steps() * top.steps() * w <= high.steps() * top.steps() * w) by (nonlinear_arith)
        requires
            low.steps() <= high.steps(),
    ;
    assert(high.steps() * top.steps() * w <= one.steps() * top.steps() * w) by (nonlinear_arith)
        requires
            high.steps() <= one.steps(),
    ;
    law_magnitude_monotone(low.steps() * top.steps(), w, high.steps() * top.steps(), w);
    law_magnitude_monotone(high.steps() * top.steps(), w, one.steps() * top.steps(), w);
    let (l, h): (Binary32, Binary32) = (product(low, top), product(high, top));
    assert(h.magnitude() <= top.magnitude());
    assert(l.magnitude() <= h.magnitude());
    law_order_is_value_order(l, h);
    lemma_div_is_ordered((2 * l.steps() + w) as int, (2 * h.steps() + w) as int, (2 * w) as int);
}

/// A fader that is from zero to one fits its bar.
pub proof fn law_bar_fits(flux: Binary32)
    requires
        in_unit(flux),
    ensures
        filled_blocks(flux) <= BAR_WIDTH,
{
    law_bar_grows(flux, Binary32::one());
}

/// Off is zero, full is one, a step up or down moves the fader, and nothing else does.
pub proof fn law_moves(flux: Binary32, action: KeyAction)
    ensures
        level_after(flux, KeyAction::Off) == Some(Binary32 { bits: 0 }),
        level_after(flux, KeyAction::Full) == Some(Binary32 { bits: 0x3f80_0000 }),
        level_after(flux, action) is Some <==> action == KeyAction::Off || action
            == KeyAction::Full || action == KeyAction::Raise || action == KeyAction::Lower,
{
}

/// A step up moves a fader up by the step, to the nearest number that there is, unless that leads beyond one,
/// and then to one.
pub proof fn law_step_up(flux: Binary32, other: Binary32)
    requires
        in_unit(flux),
        other.is_finite(),
    ensures
        ({
            let s: Binary32 = Binary32 { bits: 0x3d4c_cccd };
            let v: int = flux.value() + s.value();
            match level_after(flux, KeyAction::Raise) {
                Some(level) => if v <= Binary32::one().value() {
                    &&& SIGNIFICAND_LIMIT * abs(level.value() - v) <= v
                    &&& abs(level.value() - v) <= abs(other.value() - v)
                } else {
                    level == Binary32::one()
                },
                None => false,
            }
        }),
{
    let s: Binary32 = step();
    let one: Binary32 = Binary32::one();
    lemma_steps_zero();
    law_order_is_value_order(Binary32::zero(), s);
    let v: int = flux.value() + s.value();
    law_magnitude_of_steps(one.magnitude());
    law_magnitude_of_steps(s.magnitude());
    law_order_is_value_order(flux, one);
    assert(sum(flux, s) == signed(false, magnitude(v as nat, 1)));
    law_magnitude_monotone(s.steps(), 1, v as nat, 1);
    if v <= one.value() {
        law_magnitude_monotone(v as nat, 1, one.steps(), 1);
        law_sum_error(flux, s);
        law_sum_is_nearest(flux, s, other);
    } else {
        law_magnitude_monotone(one.steps(), 1, v as nat, 1);
    }
}

/// A step down moves a fader down by the step, to the nearest number that there is, unless that leads below
/// zero, and then to zero.
pub proof fn law_step_down(flux: Binary32, other: Binary32)
    requires
        in_unit(flux),
        other.is_finite(),
    ensures
        ({
            let s: Binary32 = Binary32 { bits: 0x3d4c_cccd };
            let v: int = flux.value() - s.value();
            match level_after(flux, KeyAction::Lower) {
                Some(level) => if v >= 0 {
                    &&& SIGNIFICAND_LIMIT * abs(level.value() - v) <= v
                    &&& abs(level.value() - v) <= abs(other.value() - v)
                } else {
                    level == Binary32::zero()
                },
                None => false,
            }
        }),
{
    let s: Binary32 = step();
    let one: Binary32 = Binary32::one();
    lemma_steps_zero();
    law_order_is_value_order(Binary32::zero(), s);
    let v: int = flux.value() - s.value();
    law_magnitude_of_steps(flux.magnitude());
    assert(s.negated().value() == -s.value());
    if v > 0 {
        law_magnitude_monotone(v as nat, 1, flux.steps(), 1);
        assert(difference(flux, s) == signed(false, magnitude(v as nat, 1)));
        law_sum_error(flux, s.negated());
        law_sum_is_nearest(flux, s.negated(), other);
    } else if v < 0 {
        law_magnitude_monotone(1, 1, (-v) as nat, 1);
        assert(difference(flux, s) == signed(true, magnitude((-v) as nat, 1)));
        assert(difference(flux, s).negative());
    }
}

/// The filled blocks of a bar are in proportion to the flux: their number is the integer
/// nearest to twenty times the flux, but for rounding.
pub proof fn law_bar_is_in_proportion(flux: Binary32)
    requires
        in_unit(flux),
    ensures
        ({
            let unit: int = pow2(FRACTION_PLACES as nat) as int;
            SIGNIFICAND_LIMIT * (2 * abs(unit * filled_blocks(flux) - 20 * flux.steps()))
                <= SIGNIFICAND_LIMIT * unit + 2 * (20 * flux.steps())
        }),
{
    let w: nat = pow2(FRACTION_PLACES as nat);
    let width: nat = BAR_WIDTH as nat;
    lemma_pow2_pos(FRACTION_PLACES as nat);
    let p: Binary32 = product(flux, from_integer(width));
    lemma_bar_product(flux);
    law_product_with_integer_error(flux, width);
    law_from_integer_exact(width);
    assert(p.steps() < 0x7fff_ffff * w) by (nonlinear_arith)
        requires
            p.steps() <= width * w,
            width == 20,
            w > 0,
    ;
    law_to_integer(p);
    let n: nat = filled_blocks(flux);
    assert((n + 1) * w == n * w + w && n * w == w * n) by (nonlinear_arith);
}

proof fn lemma_bar_product(flux: Binary32)
    requires
        in_unit(flux),
    ensures
        ({
            let p: Binary32 = product(flux, from_integer(BAR_WIDTH as nat));
            &&& p.is_finite()
            &&& !p.negative()
            &&& p.steps() <= BAR_WIDTH * pow2(FRACTION_PLACES as nat)
        }),
{
    let one: Binary32 = Binary32::one();
    let top: Binary32 = from_integer(BAR_WIDTH as nat);
    let w: nat = pow2(FRACTION_PLACES as nat);
    lemma_pow2_pos(FRACTION_PLACES as nat);
    law_from_integer_exact(BAR_WIDTH as nat);
    law_product_with_one(top);
    law_order_is_value_order(flux, one);
    assert(flux.steps() * top.steps() * w <= one.steps() * top.steps() * w) by (nonlinear_arith)
        requires
            flux.steps() <= one.steps(),
    ;
    law_magnitude_monotone(flux.steps() * top.steps(), w, one.steps() * top.steps(), w);
    let p: Binary32 = product(flux, top);
    assert(p.magnitude() <= top.magnitude());
    law_order_is_value_order(p, top);
}

} // verus!
