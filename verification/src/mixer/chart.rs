//! Bar charts made of block characters.

use vstd::arithmetic::power2::{lemma_pow2_pos, pow2};
use vstd::math::abs;
use vstd::prelude::*;
use vstd::string::*;

use crate::binary32::{
    difference, from_integer, law_from_integer_exact, law_from_integer_finite,
    law_from_integer_keeps_order, law_order_is_value_order, law_product_keeps_order,
    law_product_with_integer_error, law_product_with_one, law_quotient_is_nearest,
    law_quotient_keeps_order, law_quotient_of_itself, law_sum_keeps_order,
    law_sum_with_zero, law_to_integer, law_truncated_integer, law_truncated_keeps_order, law_zero_absorbs,
    lemma_steps_zero, product, quotient, truncated, Binary32, FRACTION_PLACES,
};
use crate::mixer::spectrum::{greatest, greatest_of, law_greatest_bounds};
use crate::rounding::SIGNIFICAND_LIMIT;

verus! {

/// The number of columns of a chart.
pub const CHART_WIDTH: usize = 32;

/// The number of rows of a chart.
pub const CHART_HEIGHT: usize = 6;

/// A bar ends in no partial block if its fraction of a row is at most this: 0.1.
#[verifier::allow_in_spec]
pub fn faintest() -> Binary32
    returns
        (Binary32 { bits: 0x3dcc_cccd }),
{
    Binary32 { bits: 0x3dcc_cccd }
}

/// The block that fills a row by some eighths, seven at most.
pub open spec fn eighths(n: nat) -> char {
    if n == 0 {
        ' '
    } else if n >= 7 {
        '\u{2587}'
    } else {
        (0x2580 + n) as char
    }
}

/// The block that fills a row by some eighths, seven at most.
fn partial_block(n: usize) -> (c: char)
    ensures
        c == eighths(n as nat),
{
    match n {
        0 => ' ',
        1 => '\u{2581}',
        2 => '\u{2582}',
        3 => '\u{2583}',
        4 => '\u{2584}',
        5 => '\u{2585}',
        6 => '\u{2586}',
        _ => '\u{2587}',
    }
}

/// The height of a bar, in rows.
pub open spec fn bar_height(value: Binary32, max: Binary32) -> Binary32 {
    product(quotient(value, max), from_integer(CHART_HEIGHT as nat))
}

/// What a chart shows of a value in a row, counted from the bottom.
pub open spec fn cell(value: Binary32, max: Binary32, row: nat) -> char {
    let height: Binary32 = bar_height(value, max);
    let full: nat = truncated(height) as nat;
    let rest: Binary32 = difference(height, from_integer(full));
    if max.at_most(Binary32::zero()) {
        ' '
    } else if row < full {
        '\u{2588}'
    } else if row == full && faintest().below(rest) {
        eighths(truncated(product(rest, from_integer(8))) as nat)
    } else {
        ' '
    }
}

/// A row of a chart, counted from the top.
pub open spec fn chart_row(values: Seq<Binary32>, row: int) -> Seq<char> {
    Seq::new(
        values.len(),
        |i: int| cell(values[i], greatest(values), (CHART_HEIGHT - 1 - row) as nat),
    )
}

/// What a chart shows of a value in a row, counted from the bottom.
fn render_cell(value: Binary32, max: Binary32, row: usize) -> (c: char)
    ensures
        c == cell(value, max, row as nat),
{
    if max.le(Binary32::zero()) {
        return ' ';
    }
    let height: Binary32 = value.over(max).times(Binary32::from_usize(CHART_HEIGHT));
    let full: usize = height.to_usize();
    let rest: Binary32 = height.minus(Binary32::from_usize(full));
    if row < full {
        '\u{2588}'
    } else if row == full && rest.gt(faintest()) {
        partial_block(rest.times(Binary32::from_usize(8)).to_usize())
    } else {
        ' '
    }
}

/// Draws a bar for each value, the greatest at full height, row by row from the top.
pub fn render_chart(values: &[Binary32]) -> (rows: Vec<String>)
    ensures
        rows@.len() == CHART_HEIGHT,
        forall|row: int| 0 <= row < CHART_HEIGHT ==> (#[trigger] rows@[row])@ == chart_row(values@, row),
{
    let max_val: Binary32 = greatest_of(values, 0, values.len());
    assert(values@.subrange(0, values@.len() as int) =~= values@);
    let mut rows: Vec<String> = Vec::new();
    let mut row: usize = 0;
    while row < CHART_HEIGHT
        invariant
            row <= CHART_HEIGHT,
            rows@.len() == row,
            max_val == greatest(values@),
            forall|r: int| 0 <= r < row ==> (#[trigger] rows@[r])@ == chart_row(values@, r),
        decreases CHART_HEIGHT - row,
    {
        let mut line: String = String::new();
        let mut i: usize = 0;
        while i < values.len()
            invariant
                row < CHART_HEIGHT,
                i <= values@.len(),
                max_val == greatest(values@),
                line@ == chart_row(values@, row as int).subrange(0, i as int),
            decreases values@.len() - i,
        {
            line.push(render_cell(values[i], max_val, CHART_HEIGHT - 1 - row));
            i = i + 1;
            assert(line@ =~= chart_row(values@, row as int).subrange(0, i as int));
        }
        assert(line@ =~= chart_row(values@, row as int));
        rows.push(line);
        row = row + 1;
    }
    rows
}

/// Without a positive value the chart is blank.
pub proof fn law_dark_chart_is_blank(values: Seq<Binary32>, row: int)
    requires
        forall|i: int| 0 <= i < values.len() ==> !Binary32::zero().below(#[trigger] values[i]),
    ensures
        chart_row(values, row) == Seq::new(values.len(), |i: int| ' '),
{
    law_greatest_bounds(values);
    if greatest(values) != Binary32::zero() {
        let i: int = choose|i: int| 0 <= i < values.len() && values[i] == greatest(values);
        assert(!Binary32::zero().below(values[i]));
    }
    assert(chart_row(values, row) =~= Seq::new(values.len(), |i: int| ' '));
}

/// How much of its row a block fills, in eighths.
pub open spec fn block_height(c: char) -> nat {
    if '\u{2581}' <= c <= '\u{2588}' {
        (c as int - 0x2580) as nat
    } else {
        0
    }
}

/// A greater value never has the shorter bar: in every row, the block of the lesser one
/// is no taller than that of the greater one.
pub proof fn law_bars_keep_order(low: Binary32, high: Binary32, max: Binary32, row: nat)
    requires
        low.at_most(high),
    ensures
        block_height(cell(low, max, row)) <= block_height(cell(high, max, row)),
        cell(low, max, row) == '\u{2588}' ==> cell(high, max, row) == '\u{2588}',
{
    if !Binary32::zero().below(max) || !max.is_finite() {
        lemma_blank_without_scale(low, max, row);
    } else if !Binary32::zero().below(low) {
        lemma_blank_below_zero(low, max, row);
    } else {
        law_quotient_keeps_order(low, high, max);
        lemma_height_is_positive();
        law_product_keeps_order(
            quotient(low, max),
            quotient(high, max),
            from_integer(CHART_HEIGHT as nat),
        );
        lemma_blocks_keep_order(bar_height(low, max), bar_height(high, max), row);
    }
}

/// What a bar of some height shows in a row.
spec fn block_at(height: Binary32, row: nat) -> char {
    let full: nat = truncated(height) as nat;
    let rest: Binary32 = difference(height, from_integer(full));
    if row < full {
        '\u{2588}'
    } else if row == full && faintest().below(rest) {
        eighths(truncated(product(rest, from_integer(8))) as nat)
    } else {
        ' '
    }
}

proof fn lemma_blocks_keep_order(low: Binary32, high: Binary32, row: nat)
    requires
        low.at_most(high),
    ensures
        block_height(block_at(low, row)) <= block_height(block_at(high, row)),
{
    let full: nat = truncated(low) as nat;
    law_truncated_keeps_order(low, high);
    if row == full && truncated(high) == full {
        let subtracted: Binary32 = from_integer(full);
        let rest: Binary32 = difference(low, subtracted);
        let more: Binary32 = difference(high, subtracted);
        law_from_integer_finite(full);
        law_sum_keeps_order(low, high, subtracted.negated());
        if faintest().below(rest) {
            lemma_partial_blocks_keep_order(rest, more);
        }
    }
}

proof fn lemma_partial_blocks_keep_order(rest: Binary32, more: Binary32)
    requires
        faintest().below(rest),
        rest.at_most(more),
    ensures
        faintest().below(more),
        block_height(eighths(truncated(product(rest, from_integer(8))) as nat)) <= block_height(
            eighths(truncated(product(more, from_integer(8))) as nat),
        ),
{
    law_from_integer_finite(8);
    law_product_keeps_order(rest, more, from_integer(8));
    law_truncated_keeps_order(product(rest, from_integer(8)), product(more, from_integer(8)));
}

/// Where the greatest value is not a positive finite number, nothing has a bar.
proof fn lemma_blank_without_scale(value: Binary32, max: Binary32, row: nat)
    requires
        !value.is_nan(),
        !Binary32::zero().below(max) || !max.is_finite(),
    ensures
        cell(value, max, row) == ' ',
{
    if max.is_infinite() && !max.negative() && !value.is_infinite() {
        lemma_blank_at_zero(quotient(value, max));
    }
}

/// What is not above zero has no bar.
proof fn lemma_blank_below_zero(value: Binary32, max: Binary32, row: nat)
    requires
        !value.is_nan(),
        !Binary32::zero().below(value),
        Binary32::zero().below(max),
        max.is_finite(),
    ensures
        cell(value, max, row) == ' ',
{
    if value.is_zero() {
        law_zero_absorbs(value, max);
        lemma_blank_at_zero(quotient(value, max));
    } else {
        let height: Binary32 = bar_height(value, max);
        lemma_height_is_positive();
        assert(height.negative() && !height.is_nan());
        law_from_integer_keeps_order(0, 0);
        law_sum_with_zero(height, from_integer(0).negated());
    }
}

/// A share of zero has no bar.
proof fn lemma_blank_at_zero(share: Binary32)
    requires
        share.is_zero(),
    ensures
        ({
            let height: Binary32 = product(share, from_integer(CHART_HEIGHT as nat));
            &&& truncated(height) == 0
            &&& !faintest().below(difference(height, from_integer(0)))
        }),
{
    let height: Binary32 = product(share, from_integer(CHART_HEIGHT as nat));
    let w: nat = pow2(FRACTION_PLACES as nat);
    lemma_height_is_positive();
    lemma_pow2_pos(FRACTION_PLACES as nat);
    lemma_steps_zero();
    law_zero_absorbs(share, from_integer(CHART_HEIGHT as nat));
    law_from_integer_keeps_order(0, 0);
    law_sum_with_zero(height, from_integer(0).negated());
    assert(0nat / w == 0) by (nonlinear_arith)
        requires
            w > 0,
    ;
}

proof fn lemma_height_is_positive()
    ensures
        Binary32::zero().below(from_integer(CHART_HEIGHT as nat)),
        from_integer(CHART_HEIGHT as nat).is_finite(),
{
    lemma_pow2_pos(FRACTION_PLACES as nat);
    lemma_steps_zero();
    law_from_integer_exact(CHART_HEIGHT as nat);
    law_order_is_value_order(Binary32::zero(), from_integer(CHART_HEIGHT as nat));
}

/// Each bar of the greatest value stands at full height.
pub proof fn law_greatest_bar_is_full(values: Seq<Binary32>, row: int, i: int)
    requires
        0 <= i < values.len(),
        values[i] == greatest(values),
        Binary32::zero().below(values[i]),
        values[i].is_finite(),
        0 <= row < CHART_HEIGHT,
    ensures
        chart_row(values, row)[i] == '\u{2588}',
{
    law_quotient_of_itself(values[i]);
    law_from_integer_exact(CHART_HEIGHT as nat);
    law_product_with_one(from_integer(CHART_HEIGHT as nat));
    law_truncated_integer(CHART_HEIGHT as nat);
}

/// A row of a bar is full up to the height of the bar and blank above it. The row in which
/// the bar ends shows the eighths that are left of it, cut to an integer, if these are more
/// than a tenth of a row.
pub proof fn law_cell_shows_the_height(value: Binary32, max: Binary32, row: nat)
    requires
        Binary32::zero().below(max),
        bar_height(value, max).is_finite(),
        !bar_height(value, max).negative(),
        bar_height(value, max).steps() < 0x100_0000 * pow2(FRACTION_PLACES as nat),
    ensures
        ({
            let unit: nat = pow2(FRACTION_PLACES as nat);
            let height: nat = bar_height(value, max).steps();
            let shown: nat = block_height(cell(value, max, row));
            &&& (row + 1) * unit <= height ==> shown == 8
            &&& height < row * unit ==> shown == 0
            &&& row * unit <= height < (row + 1) * unit ==> {
                let rest: Binary32 = difference(
                    bar_height(value, max),
                    from_integer(row),
                );
                &&& faintest().below(rest) ==> eighths_of(rest, shown)
                &&& !faintest().below(rest) ==> shown == 0
            }
        }),
{
    let unit: nat = pow2(FRACTION_PLACES as nat);
    let height: Binary32 = bar_height(value, max);
    lemma_pow2_pos(FRACTION_PLACES as nat);
    assert(height.steps() < 0x7fff_ffff * unit) by (nonlinear_arith)
        requires
            height.steps() < 0x100_0000 * unit,
    ;
    law_to_integer(height);
    let full: nat = truncated(height) as nat;
    lemma_rows(row, full, height.steps(), unit);
}

/// Whether a number of eighths is the integer part of eight times what is left of a bar,
/// seven at most.
pub open spec fn eighths_of(rest: Binary32, shown: nat) -> bool {
    let eight_fold: nat = truncated(product(rest, from_integer(8))) as nat;
    shown == if eight_fold < 7 {
        eight_fold
    } else {
        7
    }
}

proof fn lemma_rows(row: nat, full: nat, height: nat, unit: nat)
    requires
        unit > 0,
        full * unit <= height < (full + 1) * unit,
    ensures
        (row + 1) * unit <= height <==> row < full,
        height < row * unit <==> row > full,
{
    if row < full {
        assert((row + 1) * unit <= full * unit) by (nonlinear_arith)
            requires
                row + 1 <= full,
        ;
    } else {
        assert((full + 1) * unit <= (row + 1) * unit) by (nonlinear_arith)
            requires
                full <= row,
        ;
    }
    if row > full {
        assert((full + 1) * unit <= row * unit) by (nonlinear_arith)
            requires
                full + 1 <= row,
        ;
    } else {
        assert(row * unit <= full * unit) by (nonlinear_arith)
            requires
                row <= full,
        ;
    }
}

/// The height of a bar is six times the share of its value in the greatest, but for
/// rounding.
pub proof fn law_bar_height(value: Binary32, max: Binary32, other: Binary32)
    requires
        value.is_finite(),
        !value.negative(),
        max.is_finite(),
        Binary32::zero().below(max),
        quotient(value, max).is_finite(),
        bar_height(value, max).is_finite(),
        other.is_finite(),
    ensures
        ({
            let unit: nat = pow2(FRACTION_PLACES as nat);
            let share: nat = quotient(value, max).steps();
            &&& abs(value.steps() * unit - max.steps() * share) <= abs(
                value.steps() * unit - max.steps() * other.steps(),
            )
            &&& SIGNIFICAND_LIMIT * abs(6 * share - bar_height(value, max).steps()) <= 6 * share
        }),
{
    law_quotient_is_nearest(value, max, other);
    law_product_with_integer_error(quotient(value, max), 6);
}

/// Bars stand on the bottom: in a lower row a bar is never shorter than above it.
pub proof fn law_bars_stand_on_the_bottom(values: Seq<Binary32>, row: int, i: int)
    requires
        0 <= row < 5,
        0 <= i < values.len(),
    ensures
        chart_row(values, row).len() == values.len(),
        block_height(chart_row(values, row)[i]) <= block_height(chart_row(values, row + 1)[i]),
        chart_row(values, row)[i] == cell(values[i], greatest(values), (5 - row) as nat),
{
}

/// Each row of a chart shows, of every value, what its bar is at the height of the row: the
/// first row is the highest of six, the last the lowest.
pub proof fn law_chart_rows(values: Seq<Binary32>, row: int, i: int)
    requires
        0 <= row < 6,
        0 <= i < values.len(),
    ensures
        chart_row(values, row).len() == values.len(),
        chart_row(values, row)[i] == cell(values[i], greatest(values), (5 - row) as nat),
        row == 5 ==> chart_row(values, row)[i] == cell(values[i], greatest(values), 0),
        row == 0 ==> chart_row(values, row)[i] == cell(values[i], greatest(values), 5),
{
}

} // verus!
