//! Spectra: the light of a mix, and its reduction to the columns of a chart.

use vstd::arithmetic::div_mod::{
    lemma_fundamental_div_mod, lemma_fundamental_div_mod_converse, lemma_mod_bound,
};
use vstd::arithmetic::power2::{
    lemma2_to64, lemma2_to64_rest, lemma_pow2_adds, lemma_pow2_pos, lemma_pow2_strictly_increases,
    pow2,
};
use vstd::math::abs;
use vstd::prelude::*;

use crate::binary32::{
    from_integer, larger, law_from_integer_exact, law_from_integer_finite,
    law_from_integer_keeps_order, law_from_integer_over_integer, law_order_is_value_order,
    law_product_commutes, law_product_keeps_order, law_product_with_integer_error,
    law_sum_keeps_order, law_to_integer, law_truncated_integer, law_truncated_keeps_order,
    law_zero_absorbs, lemma_steps_zero, product, quotient, sum, truncated, Binary32,
    FRACTION_PLACES,
};
use crate::mixer::entry::UIEntry;
use crate::rounding::{
    law_magnitude_is_rounded, law_magnitude_monotone, law_magnitude_of_steps, law_rounded_is_exact,
    lemma_magnitude_cancel, SIGNIFICAND_LIMIT,
};

verus! {

/// The number of samples of a mixed spectrum, one for each nanometre from 380 to 780.
pub const SPECTRUM_LEN: usize = 401;

/// The greatest sample, but at least zero.
pub open spec fn greatest(samples: Seq<Binary32>) -> Binary32
    decreases samples.len(),
{
    if samples.len() == 0 {
        Binary32::zero()
    } else {
        larger(greatest(samples.drop_last()), samples.last())
    }
}

/// The greatest of the samples from `lo` up to `hi`, but at least zero.
pub fn greatest_of(samples: &[Binary32], lo: usize, hi: usize) -> (r: Binary32)
    requires
        lo <= hi <= samples@.len(),
    ensures
        r == greatest(samples@.subrange(lo as int, hi as int)),
{
    let mut best: Binary32 = Binary32::zero();
    let mut i: usize = lo;
    while i < hi
        invariant
            lo <= i <= hi <= samples@.len(),
            best == greatest(samples@.subrange(lo as int, i as int)),
        decreases hi - i,
    {
        best = best.max(samples[i]);
        i = i + 1;
        assert(samples@.subrange(lo as int, i as int).drop_last() =~= samples@.subrange(
            lo as int,
            i - 1,
        ));
    }
    best
}

/// The greatest sample is one of the samples or zero, and no sample is above it.
pub proof fn law_greatest_bounds(samples: Seq<Binary32>)
    ensures
        greatest(samples) == Binary32::zero() || samples.contains(greatest(samples)),
        Binary32::zero().at_most(greatest(samples)),
        forall|i: int|
            0 <= i < samples.len() && !samples[i].is_nan() ==> (#[trigger] samples[i]).at_most(
                greatest(samples),
            ),
    decreases samples.len(),
{
    if samples.len() > 0 {
        let init: Seq<Binary32> = samples.drop_last();
        law_greatest_bounds(init);
        assert forall|i: int| 0 <= i < samples.len() && !samples[i].is_nan() implies (
        #[trigger] samples[i]).at_most(greatest(samples)) by {
            if i < init.len() {
                assert(init[i] == samples[i]);
                assert(init[i].at_most(greatest(init)));
            }
        }
        if greatest(samples) == greatest(init) && init.contains(greatest(init)) {
            let i: int = choose|i: int| 0 <= i < init.len() && init[i] == greatest(init);
            assert(samples[i] == greatest(samples));
        }
        if greatest(samples) == samples.last() {
            assert(samples[samples.len() - 1] == greatest(samples));
        }
    }
}

/// Where column `i` of `width` begins among `len` samples.
pub open spec fn column_start(len: nat, width: nat, i: nat) -> nat {
    truncated(product(from_integer(i), quotient(from_integer(len), from_integer(width)))) as nat
}

/// A column holds the greatest sample that falls into it; zero if none does.
pub open spec fn column(samples: Seq<Binary32>, width: nat, i: nat) -> Binary32 {
    let lo: nat = column_start(samples.len(), width, i);
    let end: nat = column_start(samples.len(), width, i + 1);
    let hi: nat = if end < samples.len() {
        end
    } else {
        samples.len()
    };
    if lo >= hi {
        Binary32::zero()
    } else {
        greatest(samples.subrange(lo as int, hi as int))
    }
}

/// Reduces a spectrum to `width` columns.
pub fn downsample(samples: &[Binary32], width: usize) -> (columns: Vec<Binary32>)
    ensures
        columns@ == Seq::new(width as nat, |i: int| column(samples@, width as nat, i as nat)),
{
    let bucket: Binary32 = Binary32::from_usize(samples.len()).over(Binary32::from_usize(width));
    let mut columns: Vec<Binary32> = Vec::new();
    let mut i: usize = 0;
    while i < width
        invariant
            i <= width,
            bucket == quotient(from_integer(samples@.len()), from_integer(width as nat)),
            columns@ == Seq::new(i as nat, |j: int| column(samples@, width as nat, j as nat)),
        decreases width - i,
    {
        let lo: usize = Binary32::from_usize(i).times(bucket).to_usize();
        let end: usize = Binary32::from_usize(i + 1).times(bucket).to_usize();
        let hi: usize = if end < samples.len() {
            end
        } else {
            samples.len()
        };
        let value: Binary32 = if lo >= hi {
            Binary32::zero()
        } else {
            greatest_of(samples, lo, hi)
        };
        columns.push(value);
        i = i + 1;
    }
    columns
}

/// Whether sample `j` falls into column `i`.
pub open spec fn in_column(len: nat, width: nat, i: nat, j: nat) -> bool {
    column_start(len, width, i) <= j < column_start(len, width, i + 1)
}

/// Whether sample `j` falls into any column.
pub open spec fn in_some_column(len: nat, width: nat, j: nat) -> bool {
    exists|i: nat| i < width && #[trigger] in_column(len, width, i, j)
}

/// However many columns there are, they begin with the first sample and follow each
/// other in order, each where the one before ends.
pub proof fn law_columns_are_in_order(len: nat, width: nat, i: nat, j: nat)
    requires
        len <= 0x1_0000_0000_0000_0000,
        0 < width <= 0x1_0000_0000_0000_0000,
        i <= j <= width,
    ensures
        column_start(len, width, 0) == 0,
        column_start(len, width, i) <= column_start(len, width, j),
{
    let bucket: Binary32 = quotient(from_integer(len), from_integer(width));
    lemma_bucket_is_finite(len, width);
    law_from_integer_keeps_order(0, i);
    law_from_integer_keeps_order(i, j);
    law_from_integer_keeps_order(j, j);
    law_from_integer_finite(i);
    law_from_integer_finite(j);
    law_zero_absorbs(from_integer(0), bucket);
    lemma_truncated_zero(product(from_integer(0), bucket));
    if bucket.is_zero() {
        law_zero_absorbs(bucket, from_integer(i));
        law_zero_absorbs(bucket, from_integer(j));
        lemma_truncated_zero(product(from_integer(i), bucket));
        lemma_truncated_zero(product(from_integer(j), bucket));
    } else {
        law_product_keeps_order(from_integer(i), from_integer(j), bucket);
        law_truncated_keeps_order(
            product(from_integer(i), bucket),
            product(from_integer(j), bucket),
        );
    }
}

proof fn lemma_truncated_zero(z: Binary32)
    requires
        z.is_zero(),
    ensures
        truncated(z) == 0,
{
    let w: nat = pow2(FRACTION_PLACES as nat);
    lemma_pow2_pos(FRACTION_PLACES as nat);
    lemma_steps_zero();
    assert(0nat / w == 0) by (nonlinear_arith)
        requires
            w > 0,
    ;
}

/// There are no more samples to a column than there are samples.
#[verifier::rlimit(40)]
proof fn lemma_bucket_is_finite(len: nat, width: nat)
    requires
        len <= 0x1_0000_0000_0000_0000,
        0 < width <= 0x1_0000_0000_0000_0000,
    ensures
        quotient(from_integer(len), from_integer(width)).is_finite(),
        !quotient(from_integer(len), from_integer(width)).negative(),
{
    let w: nat = pow2(FRACTION_PLACES as nat);
    let (a, b): (Binary32, Binary32) = (from_integer(len), from_integer(width));
    lemma_pow2_pos(FRACTION_PLACES as nat);
    law_from_integer_finite(len);
    law_from_integer_finite(width);
    law_from_integer_exact(1);
    law_from_integer_keeps_order(1, width);
    law_order_is_value_order(from_integer(1), b);
    assert(1 * w == w);
    assert(a.steps() * w * 1 <= a.steps() * b.steps()) by (nonlinear_arith)
        requires
            w <= b.steps(),
    ;
    law_magnitude_monotone(a.steps() * w, b.steps(), a.steps(), 1);
    law_magnitude_of_steps(a.magnitude());
}

/// The number of samples to a column is exact if the number of columns is a power of two.
#[verifier::rlimit(60)]
proof fn lemma_bucket(len: nat, k: nat)
    requires
        0 < len < SIGNIFICAND_LIMIT,
        k < 24,
    ensures
        ({
            let bucket: Binary32 = quotient(from_integer(len), from_integer(pow2(k)));
            &&& bucket.is_finite()
            &&& !bucket.negative()
            &&& bucket.steps() == len * pow2((FRACTION_PLACES - k) as nat)
        }),
{
    lemma2_to64();
    let w: nat = pow2(FRACTION_PLACES as nat);
    let e: nat = (FRACTION_PLACES - k) as nat;
    let x: nat = len * pow2(e);
    lemma_pow2_pos(FRACTION_PLACES as nat);
    lemma_pow2_pos(k);
    lemma_pow2_pos(e);
    lemma_pow2_adds(e, k);
    lemma_pow2_strictly_increases(k, 24);
    law_from_integer_exact(len);
    law_from_integer_exact(pow2(k));
    lemma_steps_zero();
    assert(pow2(k) * w > 0) by (nonlinear_arith)
        requires
            pow2(k) > 0,
            w > 0,
    ;
    assert(len * w * w == x * (pow2(k) * w)) by (nonlinear_arith)
        requires
            x == len * pow2(e),
            pow2(e) * pow2(k) == w,
    ;
    assert(1 * (pow2(k) * w) == pow2(k) * w);
    lemma_magnitude_cancel(x, 1, pow2(k) * w);
    assert(x <= len * w) by (nonlinear_arith)
        requires
            x == len * pow2(e),
            pow2(e) * pow2(k) == w,
            pow2(k) > 0,
    ;
    law_magnitude_monotone(x, 1, len * w, 1);
    law_magnitude_is_rounded(x, 1);
    law_rounded_is_exact(1, len, e);
    assert(1 * x == x);
}

/// Columns whose number is a power of two end with the last sample.
proof fn lemma_columns_end(len: nat, k: nat)
    requires
        0 < len < SIGNIFICAND_LIMIT,
        k < 24,
    ensures
        column_start(len, pow2(k), pow2(k)) == len,
{
    lemma2_to64();
    let w: nat = pow2(FRACTION_PLACES as nat);
    let e: nat = (FRACTION_PLACES - k) as nat;
    let x: nat = len * pow2(e);
    lemma_pow2_pos(FRACTION_PLACES as nat);
    lemma_pow2_adds(e, k);
    lemma_pow2_strictly_increases(k, 24);
    lemma_bucket(len, k);
    law_from_integer_exact(pow2(k));
    assert(pow2(k) * w * x == (len * w) * w) by (nonlinear_arith)
        requires
            x == len * pow2(e),
            pow2(e) * pow2(k) == w,
    ;
    assert(1 * w == w);
    lemma_magnitude_cancel(len * w, 1, w);
    law_truncated_integer(len);
}

/// Columns whose number is a power of two part the samples: the last one ends with the
/// last sample, and every sample falls into exactly one.
pub proof fn law_columns_part_the_samples(len: nat, k: nat)
    requires
        len < SIGNIFICAND_LIMIT,
        k < 24,
    ensures
        column_start(len, pow2(k), 0) == 0,
        column_start(len, pow2(k), pow2(k)) == len,
        forall|i: nat, j: nat|
            #![trigger column_start(len, pow2(k), i), column_start(len, pow2(k), j)]
            i <= j <= pow2(k) ==> column_start(len, pow2(k), i) <= column_start(len, pow2(k), j),
        forall|j: nat| j < len ==> #[trigger] in_some_column(len, pow2(k), j),
        forall|i1: nat, i2: nat, j: nat|
            i1 < pow2(k) && i2 < pow2(k) && #[trigger] in_column(len, pow2(k), i1, j)
                && #[trigger] in_column(len, pow2(k), i2, j) ==> i1 == i2,
{
    lemma2_to64();
    lemma_pow2_pos(k);
    lemma_pow2_strictly_increases(k, 24);
    if len > 0 {
        lemma_columns_end(len, k);
    } else {
        lemma_no_samples(pow2(k), pow2(k));
    }
    law_columns_are_in_order(len, pow2(k), 0, 0);
    assert forall|i: nat, j: nat|
        #![trigger column_start(len, pow2(k), i), column_start(len, pow2(k), j)]
        i <= j <= pow2(k) implies column_start(len, pow2(k), i) <= column_start(
        len,
        pow2(k),
        j,
    ) by {
        law_columns_are_in_order(len, pow2(k), i, j);
    }
    assert forall|j: nat| j < len implies #[trigger] in_some_column(len, pow2(k), j) by {
        let i: nat = lemma_column_of(len, k, pow2(k), j);
        assert(in_column(len, pow2(k), i, j));
    }
    assert forall|i1: nat, i2: nat, j: nat|
        i1 < pow2(k) && i2 < pow2(k) && #[trigger] in_column(len, pow2(k), i1, j)
            && #[trigger] in_column(len, pow2(k), i2, j) implies i1 == i2 by {
        if i1 < i2 {
            law_columns_are_in_order(len, pow2(k), i1 + 1, i2);
        } else if i2 < i1 {
            law_columns_are_in_order(len, pow2(k), i2 + 1, i1);
        }
    }
}

/// Without samples every column begins at zero.
proof fn lemma_no_samples(width: nat, i: nat)
    requires
        0 < width <= 0x1_0000_0000_0000_0000,
        i <= width,
    ensures
        column_start(0, width, i) == 0,
{
    let bucket: Binary32 = quotient(from_integer(0), from_integer(width));
    law_from_integer_finite(width);
    law_from_integer_finite(i);
    law_from_integer_keeps_order(0, 0);
    law_zero_absorbs(from_integer(0), from_integer(width));
    law_zero_absorbs(bucket, from_integer(i));
    lemma_truncated_zero(product(from_integer(i), bucket));
}

/// Every sample falls into a column.
proof fn lemma_column_of(len: nat, k: nat, n: nat, j: nat) -> (i: nat)
    requires
        0 < len < SIGNIFICAND_LIMIT,
        k < 24,
        n <= pow2(k),
        j < column_start(len, pow2(k), n),
    ensures
        i < n,
        column_start(len, pow2(k), i) <= j < column_start(len, pow2(k), i + 1),
    decreases n,
{
    if n == 0 {
        lemma2_to64();
        lemma_pow2_pos(k);
        lemma_pow2_strictly_increases(k, 24);
        law_columns_are_in_order(len, pow2(k), 0, 0);
        0
    } else if j < column_start(len, pow2(k), (n - 1) as nat) {
        lemma_column_of(len, k, (n - 1) as nat, j)
    } else {
        (n - 1) as nat
    }
}

/// The greatest sample has the bits of its order: it is not negative, even if it is zero.
proof fn lemma_greatest_is_positive(samples: Seq<Binary32>)
    ensures
        !greatest(samples).negative(),
    decreases samples.len(),
{
    if samples.len() > 0 {
        lemma_greatest_is_positive(samples.drop_last());
        law_greatest_bounds(samples.drop_last());
    }
}

/// No sample is above the greatest column.
proof fn lemma_columns_reach_samples(samples: Seq<Binary32>, k: nat, j: int)
    requires
        samples.len() < SIGNIFICAND_LIMIT,
        k < 24,
        0 <= j < samples.len(),
        !samples[j].is_nan(),
    ensures
        samples[j].at_most(
            greatest(Seq::new(pow2(k), |i: int| column(samples, pow2(k), i as nat))),
        ),
{
    let len: nat = samples.len();
    let columns: Seq<Binary32> = Seq::new(pow2(k), |i: int| column(samples, pow2(k), i as nat));
    law_columns_part_the_samples(len, k);
    let m: nat = j as nat;
    assert(in_some_column(len, pow2(k), m));
    let i: nat = choose|i: nat| i < pow2(k) && #[trigger] in_column(len, pow2(k), i, m);
    assert(column_start(len, pow2(k), i + 1) <= column_start(len, pow2(k), pow2(k)));
    let lo: int = column_start(len, pow2(k), i) as int;
    let hi: int = column_start(len, pow2(k), i + 1) as int;
    let part: Seq<Binary32> = samples.subrange(lo, hi);
    assert(part[j - lo] == samples[j]);
    law_greatest_bounds(part);
    law_greatest_bounds(columns);
    assert(columns[i as int] == greatest(part));
}

/// No column is above the greatest sample.
proof fn lemma_column_is_bounded(samples: Seq<Binary32>, width: nat, i: nat)
    ensures
        column(samples, width, i).at_most(greatest(samples)),
{
    let lo: nat = column_start(samples.len(), width, i);
    let end: nat = column_start(samples.len(), width, i + 1);
    let hi: nat = if end < samples.len() {
        end
    } else {
        samples.len()
    };
    law_greatest_bounds(samples);
    if lo < hi {
        let part: Seq<Binary32> = samples.subrange(lo as int, hi as int);
        law_greatest_bounds(part);
        if part.contains(greatest(part)) {
            let j: int = choose|j: int| 0 <= j < part.len() && part[j] == greatest(part);
            assert(samples[lo + j] == greatest(part));
            assert(!samples[lo + j].is_nan());
        }
    }
}

/// The greatest sample is not above the greatest column.
proof fn lemma_columns_reach_peak(samples: Seq<Binary32>, k: nat)
    requires
        samples.len() < SIGNIFICAND_LIMIT,
        k < 24,
    ensures
        greatest(samples).at_most(
            greatest(Seq::new(pow2(k), |i: int| column(samples, pow2(k), i as nat))),
        ),
{
    law_greatest_bounds(samples);
    if samples.contains(greatest(samples)) {
        let j: int = choose|j: int| 0 <= j < samples.len() && samples[j] == greatest(samples);
        lemma_columns_reach_samples(samples, k, j);
    } else {
        law_greatest_bounds(Seq::new(pow2(k), |i: int| column(samples, pow2(k), i as nat)));
    }
}

/// If nothing in a sequence is above a number that is at least zero, the greatest is not.
proof fn lemma_greatest_within(samples: Seq<Binary32>, bound: Binary32)
    requires
        Binary32::zero().at_most(bound),
        forall|i: int| 0 <= i < samples.len() ==> (#[trigger] samples[i]).at_most(bound),
    ensures
        greatest(samples).at_most(bound),
    decreases samples.len(),
{
    if samples.len() > 0 {
        let init: Seq<Binary32> = samples.drop_last();
        assert forall|i: int| 0 <= i < init.len() implies (#[trigger] init[i]).at_most(bound) by {
            assert(samples[i].at_most(bound));
        }
        lemma_greatest_within(init, bound);
        assert(samples[samples.len() - 1].at_most(bound));
    }
}

/// Numbers that are not negative are the same if neither is above the other.
proof fn lemma_same_order(a: Binary32, b: Binary32)
    requires
        !a.negative(),
        !b.negative(),
        a.at_most(b),
        b.at_most(a),
    ensures
        a == b,
{
}

/// Reduced to columns whose number is a power of two, a spectrum keeps its peak: the
/// greatest column is the greatest sample.
pub proof fn law_columns_keep_the_peak(samples: Seq<Binary32>, k: nat)
    requires
        samples.len() < SIGNIFICAND_LIMIT,
        k < 24,
    ensures
        greatest(Seq::new(pow2(k), |i: int| column(samples, pow2(k), i as nat))) == greatest(
            samples,
        ),
{
    let columns: Seq<Binary32> = Seq::new(pow2(k), |i: int| column(samples, pow2(k), i as nat));
    assert(greatest(columns).at_most(greatest(samples))) by {
        assert forall|i: int| 0 <= i < columns.len() implies (#[trigger] columns[i]).at_most(
            greatest(samples),
        ) by {
            lemma_column_is_bounded(samples, pow2(k), i as nat);
        }
        law_greatest_bounds(samples);
        lemma_greatest_within(columns, greatest(samples));
    }
    lemma_columns_reach_peak(samples, k);
    lemma_greatest_is_positive(samples);
    lemma_greatest_is_positive(columns);
    lemma_same_order(greatest(columns), greatest(samples));
}

/// The spectrum that entry `n` contributes to a mix, and the factor that it is
/// scaled by. An emitter contributes if its spectrum is known and neither it nor
/// its source is dark.
pub open spec fn contribution(entries: Seq<UIEntry>, n: int) -> Option<(Seq<Binary32>, Binary32)> {
    match entries[n] {
        UIEntry::Emitter { flux, spectrum: Some(spectrum), source_entry_index, .. } => {
            let master: Binary32 = entries[source_entry_index as int].level();
            if Binary32::zero().below(flux) && Binary32::zero().below(master) {
                Some((spectrum@, product(flux, master)))
            } else {
                None
            }
        },
        _ => None,
    }
}

/// Whether entry `n` is an emitter of the source at entry `source`.
pub open spec fn belongs_to(entries: Seq<UIEntry>, n: int, source: int) -> bool {
    match entries[n] {
        UIEntry::Emitter { source_entry_index, .. } => source_entry_index == source,
        _ => false,
    }
}

/// A sample of the mix of the first `n` entries, of all sources or of one.
pub open spec fn mixed(entries: Seq<UIEntry>, only: Option<int>, n: nat, i: int) -> Binary32
    decreases n,
{
    if n == 0 {
        Binary32::zero()
    } else {
        let before: Binary32 = mixed(entries, only, (n - 1) as nat, i);
        if only is Some && !belongs_to(entries, n - 1, only->0) {
            before
        } else {
            match contribution(entries, n - 1) {
                Some((spectrum, factor)) if i < spectrum.len() => sum(
                    before,
                    product(spectrum[i], factor),
                ),
                _ => before,
            }
        }
    }
}

/// The spectrum of all sources together.
pub open spec fn total_spectrum(entries: Seq<UIEntry>) -> Seq<Binary32> {
    Seq::new(SPECTRUM_LEN as nat, |i: int| mixed(entries, None, entries.len(), i))
}

/// The spectrum of one source.
pub open spec fn source_spectrum(entries: Seq<UIEntry>, source: int) -> Seq<Binary32> {
    Seq::new(SPECTRUM_LEN as nat, |i: int| mixed(entries, Some(source), entries.len(), i))
}

/// Whether each emitter that shines finds the entry of its source.
pub open spec fn sources_known(entries: Seq<UIEntry>) -> bool {
    forall|n: int| 0 <= n < entries.len() ==> source_known(entries, n)
}

pub open spec fn source_known(entries: Seq<UIEntry>, n: int) -> bool {
    match entries[n] {
        UIEntry::Emitter { flux, spectrum: Some(_), source_entry_index, .. } => {
            Binary32::zero().below(flux) ==> source_entry_index < entries.len()
        },
        _ => true,
    }
}

/// Adds a scaled spectrum to a mix.
fn add_scaled(total: &mut Vec<Binary32>, spectrum: &Vec<Binary32>, factor: Binary32)
    ensures
        final(total)@ == Seq::new(
            old(total)@.len(),
            |i: int|
                if i < spectrum@.len() {
                    sum(old(total)@[i], product(spectrum@[i], factor))
                } else {
                    old(total)@[i]
                },
        ),
{
    let ghost before: Seq<Binary32> = total@;
    let mut i: usize = 0;
    while i < spectrum.len() && i < total.len()
        invariant
            i <= spectrum@.len(),
            i <= total@.len(),
            total@.len() == before.len(),
            forall|j: int|
                0 <= j < i ==> total@[j] == sum(before[j], product(spectrum@[j], factor)),
            forall|j: int| i <= j < before.len() ==> total@[j] == before[j],
        decreases spectrum@.len() - i,
    {
        let value: Binary32 = total[i].plus(spectrum[i].times(factor));
        total.set(i, value);
        i = i + 1;
    }
    assert(total@ =~= Seq::new(
        before.len(),
        |j: int|
            if j < spectrum@.len() {
                sum(before[j], product(spectrum@[j], factor))
            } else {
                before[j]
            },
    ));
}

/// A spectrum without light.
fn dark() -> (total: Vec<Binary32>)
    ensures
        total@ == Seq::new(SPECTRUM_LEN as nat, |i: int| Binary32::zero()),
{
    let mut total: Vec<Binary32> = Vec::new();
    let mut i: usize = 0;
    while i < SPECTRUM_LEN
        invariant
            i <= SPECTRUM_LEN,
            total@ == Seq::new(i as nat, |i: int| Binary32::zero()),
        decreases SPECTRUM_LEN - i,
    {
        total.push(Binary32::zero());
        i = i + 1;
    }
    total
}

/// Mixes all sources.
pub fn compute_total_spectrum(entries: &[UIEntry]) -> (total: Vec<Binary32>)
    requires
        sources_known(entries@),
    ensures
        total@ == total_spectrum(entries@),
{
    let mut total: Vec<Binary32> = dark();
    let mut n: usize = 0;
    while n < entries.len()
        invariant
            n <= entries@.len(),
            sources_known(entries@),
            total@ == Seq::new(SPECTRUM_LEN as nat, |i: int| mixed(entries@, None, n as nat, i)),
        decreases entries@.len() - n,
    {
        assert(source_known(entries@, n as int));
        let ghost before: Seq<Binary32> = total@;
        if let UIEntry::Emitter { flux, spectrum: Some(spec), source_entry_index, .. } =
            &entries[n] {
            if flux.gt(Binary32::zero()) {
                let source_flux: Binary32 = entries[*source_entry_index].flux();
                if source_flux.gt(Binary32::zero()) {
                    let factor: Binary32 = flux.times(source_flux);
                    add_scaled(&mut total, spec, factor);
                }
            }
        }
        n = n + 1;
        assert(total@ =~= Seq::new(
            SPECTRUM_LEN as nat,
            |i: int| mixed(entries@, None, n as nat, i),
        ));
    }
    total
}

/// Mixes the emitters of one source.
pub fn compute_source_spectrum(entries: &[UIEntry], source_entry_idx: usize) -> (total: Vec<
    Binary32,
>)
    requires
        source_entry_idx < entries@.len(),
    ensures
        total@ == source_spectrum(entries@, source_entry_idx as int),
{
    let source_flux: Binary32 = entries[source_entry_idx].flux();
    let mut total: Vec<Binary32> = dark();
    let mut n: usize = 0;
    let ghost only: Option<int> = Some(source_entry_idx as int);
    while n < entries.len()
        invariant
            n <= entries@.len(),
            source_entry_idx < entries@.len(),
            only == Some(source_entry_idx as int),
            source_flux == entries@[source_entry_idx as int].level(),
            total@ == Seq::new(SPECTRUM_LEN as nat, |i: int| mixed(entries@, only, n as nat, i)),
        decreases entries@.len() - n,
    {
        if let UIEntry::Emitter { flux, spectrum: Some(spec), source_entry_index, .. } =
            &entries[n] {
            if *source_entry_index == source_entry_idx && flux.gt(Binary32::zero())
                && source_flux.gt(Binary32::zero()) {
                let factor: Binary32 = flux.times(source_flux);
                add_scaled(&mut total, spec, factor);
            }
        }
        n = n + 1;
        assert(total@ =~= Seq::new(
            SPECTRUM_LEN as nat,
            |i: int| mixed(entries@, only, n as nat, i),
        ));
    }
    total
}

/// What is added up to a sample of the mix of the first `n` entries, of all sources or of
/// one: each amount with the entry that it comes from, in the order of the entries.
pub open spec fn addends(entries: Seq<UIEntry>, only: Option<int>, n: nat, i: int) -> Seq<
    (int, Binary32),
>
    decreases n,
{
    if n == 0 {
        Seq::empty()
    } else {
        let before: Seq<(int, Binary32)> = addends(entries, only, (n - 1) as nat, i);
        if only is Some && !belongs_to(entries, n - 1, only->0) {
            before
        } else {
            match contribution(entries, n - 1) {
                Some((spectrum, factor)) if i < spectrum.len() => before.push(
                    (n - 1, product(spectrum[i], factor)),
                ),
                _ => before,
            }
        }
    }
}

/// The sum of some amounts, rounded after each.
pub open spec fn accumulated(amounts: Seq<(int, Binary32)>) -> Binary32
    decreases amounts.len(),
{
    if amounts.len() == 0 {
        Binary32::zero()
    } else {
        sum(accumulated(amounts.drop_last()), amounts.last().1)
    }
}

/// The sum of what some amounts weigh, never rounded.
pub open spec fn weighed(
    amounts: Seq<(int, Binary32)>,
    weight: spec_fn((int, Binary32)) -> int,
) -> int
    decreases amounts.len(),
{
    if amounts.len() == 0 {
        0
    } else {
        weighed(amounts.drop_last(), weight) + weight(amounts.last())
    }
}

/// The sum of what the mixes of the sources among the first `m` entries weigh.
pub open spec fn weighed_by_source(
    entries: Seq<UIEntry>,
    m: nat,
    n: nat,
    i: int,
    weight: spec_fn((int, Binary32)) -> int,
) -> int
    decreases m,
{
    if m == 0 {
        0
    } else {
        weighed_by_source(entries, (m - 1) as nat, n, i, weight) + if entries[m - 1] is Source {
            weighed(addends(entries, Some(m - 1), n, i), weight)
        } else {
            0
        }
    }
}

/// The sum of the values that the spectra of the sources among the first `m` entries have
/// at a sample.
pub open spec fn sum_of_sources(entries: Seq<UIEntry>, m: nat, i: int) -> int
    decreases m,
{
    if m == 0 {
        0
    } else {
        sum_of_sources(entries, (m - 1) as nat, i) + if entries[m - 1] is Source {
            source_spectrum(entries, m - 1)[i].value()
        } else {
            0
        }
    }
}

/// Whether the entry of the source of each emitter is that of a source.
pub open spec fn emitters_have_sources(entries: Seq<UIEntry>) -> bool {
    forall|n: int| 0 <= n < entries.len() ==> emitter_has_source(entries, n)
}

pub open spec fn emitter_has_source(entries: Seq<UIEntry>, n: int) -> bool {
    match entries[n] {
        UIEntry::Emitter { source_entry_index, .. } => source_entry_index < entries.len()
            && entries[source_entry_index as int] is Source,
        UIEntry::Source { .. } => true,
    }
}

/// A mix is what is added up, in the order of the entries.
pub proof fn law_mix_accumulates(entries: Seq<UIEntry>, only: Option<int>, n: nat, i: int)
    ensures
        mixed(entries, only, n, i) == accumulated(addends(entries, only, n, i)),
    decreases n,
{
    if n > 0 {
        law_mix_accumulates(entries, only, (n - 1) as nat, i);
        let before: Seq<(int, Binary32)> = addends(entries, only, (n - 1) as nat, i);
        let after: Seq<(int, Binary32)> = addends(entries, only, n, i);
        if after != before {
            assert(after.drop_last() =~= before);
        }
    }
}

/// The mix of a source adds up exactly those amounts of the whole mix that come from its
/// emitters, in the same order.
pub proof fn law_source_mix_is_part_of_total(entries: Seq<UIEntry>, source: int, n: nat, i: int)
    ensures
        addends(entries, Some(source), n, i) == addends(entries, None, n, i).filter(
            |amount: (int, Binary32)| belongs_to(entries, amount.0, source),
        ),
    decreases n,
{
    reveal(Seq::filter);
    if n > 0 {
        law_source_mix_is_part_of_total(entries, source, (n - 1) as nat, i);
        let before: Seq<(int, Binary32)> = addends(entries, None, (n - 1) as nat, i);
        let after: Seq<(int, Binary32)> = addends(entries, None, n, i);
        if after != before {
            assert(after.drop_last() =~= before);
            assert(after.last().0 == n - 1);
        }
    }
}

/// Every amount of the whole mix comes from an emitter, and from the mix of exactly one
/// source.
pub proof fn law_amounts_have_one_source(entries: Seq<UIEntry>, n: nat, i: int, k: int)
    requires
        emitters_have_sources(entries),
        n <= entries.len(),
        0 <= k < addends(entries, None, n, i).len(),
    ensures
        ({
            let emitter: int = addends(entries, None, n, i)[k].0;
            &&& 0 <= emitter < n
            &&& match entries[emitter] {
                UIEntry::Emitter { source_entry_index, .. } => {
                    &&& entries[source_entry_index as int] is Source
                    &&& forall|source: int| #[trigger]
                        belongs_to(entries, emitter, source) <==> source == source_entry_index
                },
                UIEntry::Source { .. } => false,
            }
        }),
    decreases n,
{
    if n > 0 {
        let before: Seq<(int, Binary32)> = addends(entries, None, (n - 1) as nat, i);
        if k < before.len() {
            law_amounts_have_one_source(entries, (n - 1) as nat, i, k);
        } else {
            assert(emitter_has_source(entries, n - 1));
        }
    }
}

/// The whole mix is the sum of the mixes of the sources, whatever an amount weighs: its
/// value, or the exact product that it was rounded from.
pub proof fn law_total_weighs_as_its_sources(
    entries: Seq<UIEntry>,
    n: nat,
    i: int,
    weight: spec_fn((int, Binary32)) -> int,
)
    requires
        emitters_have_sources(entries),
        n <= entries.len(),
    ensures
        weighed(addends(entries, None, n, i), weight) == weighed_by_source(
            entries,
            entries.len(),
            n,
            i,
            weight,
        ),
    decreases n,
{
    if n == 0 {
        lemma_nothing_weighs_nothing(entries, entries.len(), i, weight);
    } else {
        law_total_weighs_as_its_sources(entries, (n - 1) as nat, i, weight);
        let before: Seq<(int, Binary32)> = addends(entries, None, (n - 1) as nat, i);
        let after: Seq<(int, Binary32)> = addends(entries, None, n, i);
        assert(emitter_has_source(entries, n - 1));
        lemma_one_more_entry(entries, entries.len(), n, i, weight);
        if after != before {
            assert(after.drop_last() =~= before);
        }
    }
}

proof fn lemma_nothing_weighs_nothing(
    entries: Seq<UIEntry>,
    m: nat,
    i: int,
    weight: spec_fn((int, Binary32)) -> int,
)
    ensures
        weighed_by_source(entries, m, 0, i, weight) == 0,
    decreases m,
{
    if m > 0 {
        lemma_nothing_weighs_nothing(entries, (m - 1) as nat, i, weight);
    }
}

/// One more entry adds its amount to the mix of its own source, and to no other.
proof fn lemma_one_more_entry(
    entries: Seq<UIEntry>,
    m: nat,
    n: nat,
    i: int,
    weight: spec_fn((int, Binary32)) -> int,
)
    requires
        0 < n <= entries.len(),
        m <= entries.len(),
        emitter_has_source(entries, n - 1),
    ensures
        weighed_by_source(entries, m, n, i, weight) == weighed_by_source(
            entries,
            m,
            (n - 1) as nat,
            i,
            weight,
        ) + (match (entries[n - 1], contribution(entries, n - 1)) {
            (
                UIEntry::Emitter { source_entry_index, .. },
                Some((spectrum, factor)),
            ) if i < spectrum.len() && source_entry_index < m => weight(
                (n - 1, product(spectrum[i], factor)),
            ),
            _ => 0,
        }),
    decreases m,
{
    if m > 0 {
        lemma_one_more_entry(entries, (m - 1) as nat, n, i, weight);
        let before: Seq<(int, Binary32)> = addends(entries, Some(m - 1), (n - 1) as nat, i);
        let after: Seq<(int, Binary32)> = addends(entries, Some(m - 1), n, i);
        if after != before {
            assert(after.drop_last() =~= before);
        }
    }
}

/// Where no addition is rounded, each sample of the whole mix is the sum of those of the
/// sources.
pub proof fn law_total_is_sum_of_sources(entries: Seq<UIEntry>, i: int)
    requires
        emitters_have_sources(entries),
        0 <= i < SPECTRUM_LEN,
        adds_exactly(addends(entries, None, entries.len(), i)),
        forall|source: int|
            0 <= source < entries.len() && entries[source] is Source ==> adds_exactly(
                #[trigger] addends(entries, Some(source), entries.len(), i),
            ),
    ensures
        total_spectrum(entries)[i].value() == sum_of_sources(entries, entries.len(), i),
{
    law_mix_accumulates(entries, None, entries.len(), i);
    law_total_weighs_as_its_sources(entries, entries.len(), i, value_of());
    lemma_sum_of_sources(entries, entries.len(), i);
}

/// The value of an amount.
pub open spec fn value_of() -> spec_fn((int, Binary32)) -> int {
    |amount: (int, Binary32)| amount.1.value()
}

/// Whether the rounded sum of some amounts is the exact one.
pub open spec fn adds_exactly(amounts: Seq<(int, Binary32)>) -> bool {
    accumulated(amounts).value() == weighed(amounts, value_of())
}

proof fn lemma_sum_of_sources(entries: Seq<UIEntry>, m: nat, i: int)
    requires
        m <= entries.len(),
        0 <= i < SPECTRUM_LEN,
        forall|source: int|
            0 <= source < entries.len() && entries[source] is Source ==> adds_exactly(
                #[trigger] addends(entries, Some(source), entries.len(), i),
            ),
    ensures
        sum_of_sources(entries, m, i) == weighed_by_source(
            entries,
            m,
            entries.len(),
            i,
            value_of(),
        ),
    decreases m,
{
    if m > 0 {
        lemma_sum_of_sources(entries, (m - 1) as nat, i);
        law_mix_accumulates(entries, Some(m - 1), entries.len(), i);
    }
}

/// Whether the entry of the source of each emitter is there.
pub open spec fn emitters_point_inside(entries: Seq<UIEntry>) -> bool {
    forall|n: int|
        0 <= n < entries.len() ==> (#[trigger] entries[n] matches UIEntry::Emitter {
            source_entry_index,
            ..
        } ==> source_entry_index < entries.len())
}

/// A desk without faders gives no light.
pub proof fn law_empty_mix(source: int, i: int)
    requires
        0 <= i < 401,
    ensures
        total_spectrum(Seq::empty()).len() == 401,
        source_spectrum(Seq::empty(), source).len() == 401,
        total_spectrum(Seq::empty())[i].bits == 0,
        source_spectrum(Seq::empty(), source)[i].bits == 0,
{
}

/// One more fader adds to each sample of the mix the sample of its spectrum, times its own
/// flux times the flux of its source; nothing if it is the fader of a source, its spectrum
/// is not known or ends before, or it or its source is dark.
pub proof fn law_one_more_fader(entries: Seq<UIEntry>, entry: UIEntry, i: int)
    requires
        0 <= i < 401,
        emitters_point_inside(entries),
        entry matches UIEntry::Emitter { source_entry_index, .. } ==> source_entry_index
            < entries.len(),
    ensures
        total_spectrum(entries.push(entry)).len() == 401,
        total_spectrum(entries.push(entry))[i] == match entry {
            UIEntry::Emitter { flux, spectrum: Some(spectrum), source_entry_index, .. } => {
                let master: Binary32 = entries[source_entry_index as int].level();
                if i < spectrum@.len() && Binary32::zero().below(flux) && Binary32::zero().below(
                    master,
                ) {
                    sum(
                        total_spectrum(entries)[i],
                        product(spectrum@[i], product(flux, master)),
                    )
                } else {
                    total_spectrum(entries)[i]
                }
            },
            _ => total_spectrum(entries)[i],
        },
{
    lemma_prefix(entries, entry, None, entries.len(), i);
}

/// One more fader changes the mix of a source only if it is one of its emitters, and then
/// as it changes the whole mix.
pub proof fn law_one_more_fader_of_source(
    entries: Seq<UIEntry>,
    entry: UIEntry,
    source: int,
    i: int,
)
    requires
        0 <= i < 401,
        0 <= source < entries.len(),
        emitters_point_inside(entries),
        entry matches UIEntry::Emitter { source_entry_index, .. } ==> source_entry_index
            < entries.len(),
    ensures
        source_spectrum(entries.push(entry), source).len() == 401,
        source_spectrum(entries.push(entry), source)[i] == match entry {
            UIEntry::Emitter { flux, spectrum: Some(spectrum), source_entry_index, .. } => {
                let master: Binary32 = entries[source].level();
                if source_entry_index == source && i < spectrum@.len() && Binary32::zero().below(
                    flux,
                ) && Binary32::zero().below(master) {
                    sum(
                        source_spectrum(entries, source)[i],
                        product(spectrum@[i], product(flux, master)),
                    )
                } else {
                    source_spectrum(entries, source)[i]
                }
            },
            _ => source_spectrum(entries, source)[i],
        },
{
    lemma_prefix(entries, entry, Some(source), entries.len(), i);
}

proof fn lemma_prefix(
    entries: Seq<UIEntry>,
    entry: UIEntry,
    only: Option<int>,
    n: nat,
    i: int,
)
    requires
        n <= entries.len(),
        emitters_point_inside(entries),
    ensures
        mixed(entries.push(entry), only, n, i) == mixed(entries, only, n, i),
    decreases n,
{
    if n > 0 {
        lemma_prefix(entries, entry, only, (n - 1) as nat, i);
        let more: Seq<UIEntry> = entries.push(entry);
        assert(more[n - 1] == entries[n - 1]);
        if let UIEntry::Emitter { source_entry_index, .. } = entries[n - 1] {
            assert(more[source_entry_index as int] == entries[source_entry_index as int]);
        }
    }
}

/// Whether no emitter but that of entry `n` shines.
pub open spec fn shines_alone(entries: Seq<UIEntry>, n: int) -> bool {
    forall|m: int|
        0 <= m < entries.len() && m != n ==> !(#[trigger] entries[m] matches UIEntry::Emitter {
            flux,
            ..
        } && Binary32::zero().below(flux))
}

/// An emitter that shines alone is the whole mix: each sample of its spectrum times its own
/// flux times the flux of its source.
pub proof fn law_lone_emitter(entries: Seq<UIEntry>, n: int, i: int)
    requires
        0 <= i < 401,
        0 <= n < entries.len(),
        shines_alone(entries, n),
    ensures
        entries[n] matches UIEntry::Emitter {
            flux,
            spectrum: Some(spectrum),
            source_entry_index,
            ..
        } ==> {
            let master: Binary32 = entries[source_entry_index as int].level();
            Binary32::zero().below(flux) && Binary32::zero().below(master) && i < spectrum@.len()
                ==> {
                let amount: Binary32 = product(spectrum@[i], product(flux, master));
                &&& total_spectrum(entries)[i] == sum(Binary32::zero(), amount)
                &&& source_spectrum(entries, source_entry_index as int)[i] == sum(
                    Binary32::zero(),
                    amount,
                )
            }
        },
{
    lemma_dark_part(entries, n, None, n as nat, i);
    lemma_alone_part(entries, n, None, entries.len(), i);
    if let UIEntry::Emitter { source_entry_index, .. } = entries[n] {
        lemma_dark_part(entries, n, Some(source_entry_index as int), n as nat, i);
        lemma_alone_part(entries, n, Some(source_entry_index as int), entries.len(), i);
    }
}

proof fn lemma_dark_part(entries: Seq<UIEntry>, n: int, only: Option<int>, m: nat, i: int)
    requires
        shines_alone(entries, n),
        0 <= n < entries.len(),
        m <= n,
    ensures
        mixed(entries, only, m, i) == Binary32::zero(),
    decreases m,
{
    if m > 0 {
        lemma_dark_part(entries, n, only, (m - 1) as nat, i);
        assert(!(entries[m - 1] matches UIEntry::Emitter { flux, .. } && Binary32::zero().below(
            flux,
        )));
    }
}

proof fn lemma_alone_part(entries: Seq<UIEntry>, n: int, only: Option<int>, m: nat, i: int)
    requires
        shines_alone(entries, n),
        0 <= n < m <= entries.len(),
    ensures
        mixed(entries, only, m, i) == mixed(entries, only, (n + 1) as nat, i),
    decreases m,
{
    if m > n + 1 {
        lemma_alone_part(entries, n, only, (m - 1) as nat, i);
        assert(!(entries[m - 1] matches UIEntry::Emitter { flux, .. } && Binary32::zero().below(
            flux,
        )));
    }
}

/// Moving an emitter of another source, or the master of another source, does not change
/// the mix of a source.
pub proof fn law_sources_do_not_mix(
    entries: Seq<UIEntry>,
    moved: Seq<UIEntry>,
    source: int,
    i: int,
)
    requires
        0 <= i < 401,
        entries.len() == moved.len(),
        0 <= source < entries.len(),
        entries[source] == moved[source],
        forall|n: int|
            0 <= n < entries.len() ==> #[trigger] entries[n] == moved[n] || {
                &&& !(entries[n] matches UIEntry::Emitter { source_entry_index, .. }
                    && source_entry_index == source)
                &&& !(moved[n] matches UIEntry::Emitter { source_entry_index, .. }
                    && source_entry_index == source)
            },
    ensures
        source_spectrum(moved, source)[i] == source_spectrum(entries, source)[i],
{
    lemma_sources_do_not_mix(entries, moved, source, entries.len(), i);
}

proof fn lemma_sources_do_not_mix(
    entries: Seq<UIEntry>,
    moved: Seq<UIEntry>,
    source: int,
    n: nat,
    i: int,
)
    requires
        n <= entries.len() == moved.len(),
        0 <= source < entries.len(),
        entries[source] == moved[source],
        forall|n: int|
            0 <= n < entries.len() ==> #[trigger] entries[n] == moved[n] || {
                &&& !(entries[n] matches UIEntry::Emitter { source_entry_index, .. }
                    && source_entry_index == source)
                &&& !(moved[n] matches UIEntry::Emitter { source_entry_index, .. }
                    && source_entry_index == source)
            },
    ensures
        mixed(moved, Some(source), n, i) == mixed(entries, Some(source), n, i),
    decreases n,
{
    if n > 0 {
        lemma_sources_do_not_mix(entries, moved, source, (n - 1) as nat, i);
        assert(entries[n - 1] == moved[n - 1] || !belongs_to(entries, n - 1, source));
    }
}

/// Each column holds the greatest of the samples that fall into it: none of them is above
/// it, and it is one of them, or zero.
pub proof fn law_column_holds_its_greatest(samples: Seq<Binary32>, width: nat, i: nat, j: int)
    requires
        0 <= j < samples.len(),
        !samples[j].is_nan(),
        in_column(samples.len(), width, i, j as nat),
    ensures
        samples[j].at_most(column(samples, width, i)),
        column(samples, width, i).bits != 0 ==> exists|k: int|
            0 <= k < samples.len() && in_column(samples.len(), width, i, k as nat)
                && #[trigger] samples[k] == column(samples, width, i),
{
    let lo: nat = column_start(samples.len(), width, i);
    let end: nat = column_start(samples.len(), width, i + 1);
    let hi: nat = if end < samples.len() {
        end
    } else {
        samples.len()
    };
    let part: Seq<Binary32> = samples.subrange(lo as int, hi as int);
    law_greatest_bounds(part);
    assert(part[j - lo] == samples[j]);
    if part.contains(greatest(part)) {
        let k: int = choose|k: int| 0 <= k < part.len() && part[k] == greatest(part);
        assert(samples[lo + k] == greatest(part));
    }
}

/// A column into which no sample falls is zero.
pub proof fn law_empty_column(samples: Seq<Binary32>, width: nat, i: nat)
    requires
        forall|j: nat| j < samples.len() ==> !#[trigger] in_column(samples.len(), width, i, j),
    ensures
        column(samples, width, i).bits == 0,
{
    let lo: nat = column_start(samples.len(), width, i);
    if lo < samples.len() {
        assert(!in_column(samples.len(), width, i, lo));
    }
}

/// Columns whose number is a power of two begin at their share of the samples, cut to an
/// integer.
#[verifier::spinoff_prover]
#[verifier::rlimit(60)]
pub proof fn law_column_share(len: nat, k: nat, i: nat)
    requires
        k < 24,
        i * len < SIGNIFICAND_LIMIT,
        len < SIGNIFICAND_LIMIT,
        i <= pow2(k),
    ensures
        column_start(len, pow2(k), i) == (i * len) / pow2(k),
{
    lemma2_to64();
    let w: nat = pow2(FRACTION_PLACES as nat);
    let e: nat = (FRACTION_PLACES - k) as nat;
    let x: nat = len * pow2(e);
    lemma_pow2_pos(FRACTION_PLACES as nat);
    lemma_pow2_pos(k);
    lemma_pow2_pos(e);
    lemma_pow2_adds(e, k);
    lemma_pow2_strictly_increases(k, 24);
    if len == 0 {
        lemma_no_samples(pow2(k), i);
        assert(i * len == 0) by (nonlinear_arith)
            requires
                len == 0,
        ;
        assert(0nat / pow2(k) == 0) by (nonlinear_arith)
            requires
                pow2(k) > 0,
        ;
    } else {
        lemma_bucket(len, k);
        law_from_integer_exact(i);
        let y: nat = i * len * pow2(e);
        assert(i * w * x == y * w) by (nonlinear_arith)
            requires
                x == len * pow2(e),
                y == i * len * pow2(e),
        ;
        assert(1 * w == w);
        lemma_magnitude_cancel(y, 1, w);
        assert(y <= i * len * w) by (nonlinear_arith)
            requires
                y == i * len * pow2(e),
                pow2(e) * pow2(k) == w,
                pow2(k) > 0,
        ;
        law_from_integer_exact(i * len);
        law_magnitude_monotone(y, 1, i * len * w, 1);
        law_magnitude_is_rounded(y, 1);
        law_rounded_is_exact(1, i * len, e);
        assert(1 * y == y);
        lemma_share_floor(i * len, pow2(e), pow2(k));
        lemma_truncated_steps(
            product(from_integer(i), quotient(from_integer(len), from_integer(pow2(k)))),
            y,
            (i * len) / pow2(k),
        );
    }
}

proof fn lemma_truncated_steps(p: Binary32, y: nat, q: nat)
    requires
        p.is_finite(),
        !p.negative(),
        p.steps() == y,
        y / pow2(FRACTION_PLACES as nat) == q,
        q < SIGNIFICAND_LIMIT,
    ensures
        truncated(p) == q,
{
}

proof fn lemma_share_floor(n: nat, a: nat, b: nat)
    requires
        a > 0,
        b > 0,
        a * b == pow2(FRACTION_PLACES as nat),
    ensures
        (n * a) / pow2(FRACTION_PLACES as nat) == n / b,
        n / b <= n,
{
    let q: int = (n / b) as int;
    let r: int = (n % b) as int;
    lemma_fundamental_div_mod(n as int, b as int);
    lemma_mod_bound(n as int, b as int);
    assert(n * a == q * (a * b) + r * a) by (nonlinear_arith)
        requires
            n == b * q + r,
    ;
    assert(0 <= r * a < a * b) by (nonlinear_arith)
        requires
            0 <= r < b,
            a > 0,
    ;
    lemma_fundamental_div_mod_converse((n * a) as int, (a * b) as int, q, r * a);
    assert(q <= n) by (nonlinear_arith)
        requires
            n == b * q + r,
            b >= 1,
            r >= 0,
            q >= 0,
    ;
}

/// Where every emitter that shines belongs to one source, the mix of that source is the
/// whole mix.
pub proof fn law_single_source_is_total(entries: Seq<UIEntry>, source: int)
    requires
        forall|n: int|
            0 <= n < entries.len() && contribution(entries, n) is Some ==> #[trigger] belongs_to(
                entries,
                n,
                source,
            ),
    ensures
        source_spectrum(entries, source) == total_spectrum(entries),
{
    assert forall|i: int| 0 <= i < SPECTRUM_LEN implies source_spectrum(entries, source)[i]
        == total_spectrum(entries)[i] by {
        lemma_single_source(entries, source, entries.len(), i);
    }
    assert(source_spectrum(entries, source) =~= total_spectrum(entries));
}

proof fn lemma_single_source(entries: Seq<UIEntry>, source: int, n: nat, i: int)
    requires
        n <= entries.len(),
        forall|n: int|
            0 <= n < entries.len() && contribution(entries, n) is Some ==> #[trigger] belongs_to(
                entries,
                n,
                source,
            ),
    ensures
        mixed(entries, Some(source), n, i) == mixed(entries, None, n, i),
    decreases n,
{
    if n > 0 {
        lemma_single_source(entries, source, (n - 1) as nat, i);
    }
}

/// A source that is dark has a dark spectrum, whatever its emitters are set to.
pub proof fn law_dark_source_is_dark(entries: Seq<UIEntry>, source: int)
    requires
        !Binary32::zero().below(entries[source].level()),
    ensures
        source_spectrum(entries, source) == Seq::new(
            SPECTRUM_LEN as nat,
            |i: int| Binary32::zero(),
        ),
{
    assert forall|i: int| 0 <= i < SPECTRUM_LEN implies source_spectrum(entries, source)[i]
        == Binary32::zero() by {
        lemma_dark_source(entries, source, entries.len(), i);
    }
    assert(source_spectrum(entries, source) =~= Seq::new(
        SPECTRUM_LEN as nat,
        |i: int| Binary32::zero(),
    ));
}

proof fn lemma_dark_source(entries: Seq<UIEntry>, source: int, n: nat, i: int)
    requires
        !Binary32::zero().below(entries[source].level()),
    ensures
        mixed(entries, Some(source), n, i) == Binary32::zero(),
    decreases n,
{
    if n > 0 {
        lemma_dark_source(entries, source, (n - 1) as nat, i);
    }
}

/// Dimming an emitter that shines alone never brightens a sample of the mix.
#[verifier::rlimit(40)]
pub proof fn law_dimming_never_brightens(entries: Seq<UIEntry>, n: int, low: Binary32, i: int)
    requires
        0 <= i < 401,
        0 <= n < entries.len(),
        shines_alone(entries, n),
        Binary32::zero().below(low),
        low.at_most(entries[n].level()),
        entries[n].level().is_finite(),
        entries[n] matches UIEntry::Emitter { spectrum: Some(spectrum), source_entry_index, .. }
            && {
            let master: Binary32 = entries[source_entry_index as int].level();
            &&& source_entry_index != n
            &&& source_entry_index < entries.len()
            &&& Binary32::zero().below(master)
            &&& master.is_finite()
            &&& i < spectrum@.len()
            &&& spectrum@[i].is_finite()
            &&& Binary32::zero().below(spectrum@[i])
        },
    ensures
        total_spectrum(entries.update(n, entries[n].at_level(low)))[i].at_most(
            total_spectrum(entries)[i],
        ),
{
    let dimmed: Seq<UIEntry> = entries.update(n, entries[n].at_level(low));
    assert forall|m: int| 0 <= m < dimmed.len() && m != n implies !(
    #[trigger] dimmed[m] matches UIEntry::Emitter { flux, .. } && Binary32::zero().below(flux)) by {
        assert(dimmed[m] == entries[m]);
    }
    law_lone_emitter(entries, n, i);
    law_lone_emitter(dimmed, n, i);
    if let UIEntry::Emitter { spectrum: Some(spectrum), source_entry_index, .. } = entries[n] {
        let master: Binary32 = entries[source_entry_index as int].level();
        assert(dimmed[source_entry_index as int] == entries[source_entry_index as int]);
        lemma_amounts_in_order(spectrum@[i], low, entries[n].level(), master);
    }
}

proof fn lemma_amounts_in_order(
    sample: Binary32,
    low: Binary32,
    high: Binary32,
    master: Binary32,
)
    requires
        Binary32::zero().below(low),
        low.at_most(high),
        Binary32::zero().below(master),
        master.is_finite(),
        Binary32::zero().below(sample),
        sample.is_finite(),
    ensures
        sum(Binary32::zero(), product(sample, product(low, master))).at_most(
            sum(Binary32::zero(), product(sample, product(high, master))),
        ),
{
    law_product_keeps_order(low, high, master);
    let (a, b): (Binary32, Binary32) = (product(low, master), product(high, master));
    law_product_keeps_order(a, b, sample);
    law_product_commutes(a, sample);
    law_product_commutes(b, sample);
    law_sum_keeps_order(product(sample, a), product(sample, b), Binary32::zero());
}

/// Columns begin near their share of the samples, however many there are: less than one
/// sample after it, and less than two before.
#[verifier::spinoff_prover]
#[verifier::rlimit(60)]
pub proof fn law_columns_begin_near_their_share(len: nat, width: nat, i: nat)
    requires
        len < 0x10_0000,
        0 < width < SIGNIFICAND_LIMIT,
        i <= width,
    ensures
        column_start(len, width, i) * width < i * len + width,
        (column_start(len, width, i) + 2) * width > i * len,
{
    let w: nat = pow2(FRACTION_PLACES as nat);
    let bucket: Binary32 = quotient(from_integer(len), from_integer(width));
    let p: Binary32 = product(bucket, from_integer(i));
    law_product_commutes(from_integer(i), bucket);
    lemma_start_is_finite(len, width, i);
    lemma_start_errors(len, width, i);
    let (b, y): (nat, nat) = (bucket.steps(), p.steps());
    lemma_unit_is_large();
    lemma_near_share(len as int, width as int, i as int, b as int, y as int, w as int);
    lemma_start_in_range(len, width, i, y, w);
    law_to_integer(p);
    lemma_start_bounds(len, width, i, y, w, truncated(p) as nat);
}

proof fn lemma_unit_is_large()
    ensures
        pow2(FRACTION_PLACES as nat) >= 0x4_0000_0000_0000,
{
    lemma2_to64_rest();
    lemma_pow2_strictly_increases(50, FRACTION_PLACES as nat);
}

proof fn lemma_start_errors(len: nat, width: nat, i: nat)
    requires
        len < 0x10_0000,
        0 < width < SIGNIFICAND_LIMIT,
        i <= width,
    ensures
        ({
            let w: nat = pow2(FRACTION_PLACES as nat);
            let bucket: Binary32 = quotient(from_integer(len), from_integer(width));
            let p: Binary32 = product(bucket, from_integer(i));
            &&& 0x100_0000 * abs(len * w - width * bucket.steps()) <= len * w + 0x80_0000 * width
            &&& 0x100_0000 * abs(i * bucket.steps() - p.steps()) <= i * bucket.steps()
        }),
{
    lemma_bucket_is_finite(len, width);
    lemma_start_is_finite(len, width, i);
    law_from_integer_over_integer(len, width);
    law_product_with_integer_error(quotient(from_integer(len), from_integer(width)), i);
}

proof fn lemma_start_in_range(len: nat, width: nat, i: nat, y: nat, w: nat)
    requires
        width * y < i * len * w + width * w,
        i <= width,
        len < 0x10_0000,
        width > 0,
        w > 0,
    ensures
        y < 0x7fff_ffff * w,
{
    assert(i * len * w <= width * (len * w)) by (nonlinear_arith)
        requires
            i <= width,
    ;
    assert(width * y < width * (len * w + w)) by (nonlinear_arith)
        requires
            width * y < i * len * w + width * w,
            i * len * w <= width * (len * w),
    ;
    assert(y < len * w + w) by (nonlinear_arith)
        requires
            width * y < width * (len * w + w),
            width > 0,
    ;
    assert(len * w <= 0x10_0000 * w) by (nonlinear_arith)
        requires
            len <= 0x10_0000,
    ;
}

proof fn lemma_start_bounds(len: nat, width: nat, i: nat, y: nat, w: nat, start: nat)
    requires
        start * w <= y < (start + 1) * w,
        width * y < i * len * w + width * w,
        width * y > i * len * w - width * w,
        w > 0,
        width > 0,
    ensures
        start * width < i * len + width,
        (start + 2) * width > i * len,
{
    assert(width * (start * w) <= width * y < width * ((start + 1) * w)) by (nonlinear_arith)
        requires
            start * w <= y < (start + 1) * w,
            width > 0,
    ;
    assert(width * (start * w) == (start * width) * w) by (nonlinear_arith);
    assert(width * ((start + 1) * w) + width * w == ((start + 2) * width) * w) by (nonlinear_arith);
    assert(i * len * w + width * w == (i * len + width) * w) by (nonlinear_arith);
    assert(start * width < i * len + width) by (nonlinear_arith)
        requires
            (start * width) * w < (i * len + width) * w,
            w > 0,
    ;
    assert((start + 2) * width > i * len) by (nonlinear_arith)
        requires
            ((start + 2) * width) * w > (i * len) * w,
            w > 0,
    ;
}

#[verifier::spinoff_prover]
#[verifier::rlimit(60)]
proof fn lemma_start_is_finite(len: nat, width: nat, i: nat)
    requires
        len < 0x10_0000,
        0 < width < SIGNIFICAND_LIMIT,
        i <= width,
    ensures
        product(
            quotient(from_integer(len), from_integer(width)),
            from_integer(i),
        ).is_finite(),
        !product(quotient(from_integer(len), from_integer(width)), from_integer(i)).negative(),
{
    let bucket: Binary32 = quotient(from_integer(len), from_integer(width));
    lemma_bucket_is_finite(len, width);
    law_from_integer_finite(i);
    law_from_integer_exact(i);
    law_from_integer_exact(len);
    law_from_integer_exact(width);
    // Not above the number of samples times the number of columns.
    let w: nat = pow2(FRACTION_PLACES as nat);
    lemma_pow2_pos(FRACTION_PLACES as nat);
    assert(len * width <= 0x10_0000 * 0x100_0000) by (nonlinear_arith)
        requires
            len <= 0x10_0000,
            width <= 0x100_0000,
    ;
    law_from_integer_finite(len * width);
    lemma_bucket_below(len, width);
    assert(bucket.steps() * (i * w) * 1 <= (len * width * w) * w) by (nonlinear_arith)
        requires
            bucket.steps() <= len * w,
            i <= width,
    ;
    law_magnitude_monotone(bucket.steps() * (i * w), w, len * width * w, 1);
}

proof fn lemma_bucket_below(len: nat, width: nat)
    requires
        len < SIGNIFICAND_LIMIT,
        0 < width < SIGNIFICAND_LIMIT,
    ensures
        quotient(from_integer(len), from_integer(width)).steps() <= len * pow2(
            FRACTION_PLACES as nat,
        ),
{
    let w: nat = pow2(FRACTION_PLACES as nat);
    lemma_pow2_pos(FRACTION_PLACES as nat);
    law_from_integer_exact(len);
    law_from_integer_exact(width);
    law_from_integer_finite(width);
    lemma_bucket_is_finite(len, width);
    let (a, b): (Binary32, Binary32) = (from_integer(len), from_integer(width));
    let q: Binary32 = quotient(a, b);
    assert(b.steps() > 0) by (nonlinear_arith)
        requires
            b.steps() == width * w,
            width > 0,
            w > 0,
    ;
    assert(a.steps() * w * 1 <= a.steps() * b.steps()) by (nonlinear_arith)
        requires
            b.steps() == width * w,
            width >= 1,
    ;
    law_magnitude_monotone(a.steps() * w, b.steps(), a.steps(), 1);
    law_magnitude_of_steps(a.magnitude());
    law_order_is_value_order(q, a);
}

proof fn lemma_near_share(len: int, width: int, i: int, b: int, y: int, w: int)
    requires
        0 <= len < 0x10_0000,
        0 < width < 0x100_0000,
        0 <= i <= width,
        0 <= b,
        0 <= y,
        w >= 0x4_0000_0000_0000,
        0x100_0000 * abs(len * w - width * b) <= len * w + 0x80_0000 * width,
        0x100_0000 * abs(i * b - y) <= i * b,
    ensures
        width * y < i * len * w + width * w,
        width * y > i * len * w - width * w,
{
    let t: int = 0x100_0000;
    let e: int = abs(len * w - width * b) as int;
    let f: int = abs(i * b - y) as int;
    // Everything times the number of columns.
    let exact: int = i * (len * w);
    let near: int = i * (width * b);
    let got: int = width * y;
    assert(t * (i * e) <= i * (len * w) + 0x80_0000 * (i * width)) by (nonlinear_arith)
        requires
            t * e <= len * w + 0x80_0000 * width,
            i >= 0,
    ;
    assert(abs(exact - near) <= i * e) by (nonlinear_arith)
        requires
            -e <= len * w - width * b <= e,
            exact == i * (len * w),
            near == i * (width * b),
            i >= 0,
    ;
    assert(t * (width * f) <= near) by (nonlinear_arith)
        requires
            t * f <= i * b,
            near == i * (width * b),
            width > 0,
    ;
    assert(abs(near - got) <= width * f) by (nonlinear_arith)
        requires
            -f <= i * b - y <= f,
            near == i * (width * b),
            got == width * y,
            width > 0,
    ;
    let unit: int = width * w;
    assert(exact <= 0x10_0000 * unit) by (nonlinear_arith)
        requires
            exact == i * (len * w),
            unit == width * w,
            0 <= len <= 0x10_0000,
            0 <= i <= width,
            w >= 0,
    ;
    assert(0x80_0000 * (i * width) <= 0x8000_0000_0000 * width) by (nonlinear_arith)
        requires
            0 <= i <= 0x100_0000,
            width > 0,
    ;
    assert(8 * (0x8000_0000_0000 * width) <= unit) by (nonlinear_arith)
        requires
            unit == width * w,
            w >= 0x4_0000_0000_0000,
            width > 0,
    ;
    assert(unit > 0 && exact >= 0) by (nonlinear_arith)
        requires
            unit == width * w,
            w > 0,
            width > 0,
            exact == i * (len * w),
            i >= 0,
            len >= 0,
    ;
    assert(t * abs(exact - near) <= exact + unit);
    assert(near <= exact + unit + unit);
    assert(i * len * w == exact) by (nonlinear_arith)
        requires
            exact == i * (len * w),
    ;
}

} // verus!
