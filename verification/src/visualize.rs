//! Audio to light: the energy of bands of frequencies.
//!
//! Samples are mixed to mono and cut into blocks. Each block is weighted with a window
//! and transformed, and the energies of the bands are read from the transform.

use vstd::arithmetic::div_mod::{lemma_fundamental_div_mod, lemma_mod_bound};
use vstd::arithmetic::power2::{lemma_pow2_pos, pow2};
use vstd::math::abs;
use vstd::prelude::*;

use crate::binary32::{
    difference, from_integer, law_fraction_error, law_from_integer_doubles,
    law_from_integer_exact, law_from_integer_finite, law_from_integer_keeps_order, law_half_of,
    law_order_is_value_order, law_product_commutes, law_product_keeps_order,
    law_product_with_doubled, law_product_with_integer_doubles,
    law_product_with_integer_is_finite, law_product_with_one, law_product_with_two,
    law_quotient_keeps_order, law_quotient_of_doubled, law_share_error,
    law_square_root_keeps_order, law_sum_error, law_sum_keeps_order, law_sum_with_zero, law_two,
    law_zero_absorbs, nan, product, product_is_normal, quotient, signed, smaller, square_root,
    sum, truncated, Binary32, FRACTION_PLACES,
};
use crate::rounding::{magnitude, SIGNIFICAND_LIMIT};

verus! {

/// Two.
#[verifier::allow_in_spec]
pub fn two() -> Binary32
    returns
        (Binary32 { bits: 0x4000_0000 }),
{
    Binary32 { bits: 0x4000_0000 }
}

/// One half.
#[verifier::allow_in_spec]
pub fn half() -> Binary32
    returns
        (Binary32 { bits: 0x3f00_0000 }),
{
    Binary32 { bits: 0x3f00_0000 }
}

/// The number nearest to the ratio of a circle's circumference to its diameter.
#[verifier::allow_in_spec]
pub fn pi() -> Binary32
    returns
        (Binary32 { bits: 0x4049_0fdb }),
{
    Binary32 { bits: 0x4049_0fdb }
}

/// Negative zero, which added to any number leaves it as it is.
#[verifier::allow_in_spec]
pub fn neutral() -> Binary32
    returns
        (Binary32 { bits: 0x8000_0000 }),
{
    Binary32 { bits: 0x8000_0000 }
}

/// The logarithm of edge `i` of `num_bands` bands.
pub open spec fn log_edge(log_min: Binary32, log_max: Binary32, num_bands: nat, i: nat) -> Binary32 {
    sum(
        log_min,
        quotient(
            product(difference(log_max, log_min), from_integer(i)),
            from_integer(num_bands),
        ),
    )
}

/// The logarithms of the `num_bands + 1` edges of bands that are equally wide on a
/// logarithmic scale.
pub fn log_band_points(num_bands: usize, log_min: Binary32, log_max: Binary32) -> (points: Vec<
    Binary32,
>)
    requires
        num_bands < usize::MAX,
    ensures
        points@ == Seq::new(
            (num_bands + 1) as nat,
            |i: int| log_edge(log_min, log_max, num_bands as nat, i as nat),
        ),
{
    let width: Binary32 = log_max.minus(log_min);
    let bands: Binary32 = Binary32::from_usize(num_bands);
    let mut points: Vec<Binary32> = Vec::new();
    let mut i: usize = 0;
    while i <= num_bands
        invariant
            num_bands < usize::MAX,
            i <= num_bands + 1,
            width == difference(log_max, log_min),
            bands == from_integer(num_bands as nat),
            points@ == Seq::new(
                i as nat,
                |i: int| log_edge(log_min, log_max, num_bands as nat, i as nat),
            ),
        decreases num_bands + 1 - i,
    {
        points.push(log_min.plus(width.times(Binary32::from_usize(i)).over(bands)));
        i = i + 1;
    }
    points
}

/// The first edge is the lower end: its logarithm is the one that was given, but for the
/// sign of a negative zero, as long as the two ends are a finite distance apart.
pub proof fn law_first_edge(log_min: Binary32, log_max: Binary32, num_bands: nat)
    requires
        difference(log_max, log_min).is_finite(),
        0 < num_bands <= usize::MAX,
    ensures
        log_edge(log_min, log_max, num_bands, 0).order() == log_min.order(),
        log_min != neutral() ==> log_edge(log_min, log_max, num_bands, 0) == log_min,
{
    let width: Binary32 = difference(log_max, log_min);
    let none: Binary32 = product(width, from_integer(0));
    law_from_integer_keeps_order(0, num_bands);
    law_from_integer_finite(num_bands);
    law_zero_absorbs(from_integer(0), width);
    law_zero_absorbs(none, from_integer(num_bands));
    law_sum_with_zero(log_min, quotient(none, from_integer(num_bands)));
}

/// Edges are in order: no edge lies below one before it, and none below the lower end.
pub proof fn law_edges_are_in_order(
    log_min: Binary32,
    log_max: Binary32,
    num_bands: nat,
    i: nat,
    j: nat,
)
    requires
        log_min.at_most(log_max),
        difference(log_max, log_min).is_finite(),
        0 < num_bands <= usize::MAX,
        i <= j <= num_bands,
    ensures
        log_edge(log_min, log_max, num_bands, i).at_most(
            log_edge(log_min, log_max, num_bands, j),
        ),
        log_min.at_most(log_edge(log_min, log_max, num_bands, i)),
{
    law_first_edge(log_min, log_max, num_bands);
    lemma_edge_order(log_min, log_max, num_bands, i, j);
    lemma_edge_order(log_min, log_max, num_bands, 0, i);
}

proof fn lemma_edge_order(log_min: Binary32, log_max: Binary32, num_bands: nat, i: nat, j: nat)
    requires
        log_min.at_most(log_max),
        difference(log_max, log_min).is_finite(),
        0 < num_bands <= usize::MAX,
        i <= j <= num_bands,
    ensures
        log_edge(log_min, log_max, num_bands, i).at_most(
            log_edge(log_min, log_max, num_bands, j),
        ),
{
    let width: Binary32 = difference(log_max, log_min);
    let n: Binary32 = from_integer(num_bands);
    lemma_width_is_positive(log_min, log_max);
    law_from_integer_finite(num_bands);
    lemma_shares_in_order(width, i, j, num_bands);
    law_sum_keeps_order(
        quotient(product(width, from_integer(i)), n),
        quotient(product(width, from_integer(j)), n),
        log_min,
    );
}

proof fn lemma_width_is_positive(log_min: Binary32, log_max: Binary32)
    requires
        log_min.at_most(log_max),
        difference(log_max, log_min).is_finite(),
    ensures
        log_min.is_finite(),
        difference(log_max, log_min).is_zero() || Binary32::zero().below(
            difference(log_max, log_min),
        ),
{
    law_order_is_value_order(log_min, log_max);
}

proof fn lemma_shares_in_order(width: Binary32, i: nat, j: nat, num_bands: nat)
    requires
        width.is_finite(),
        width.is_zero() || Binary32::zero().below(width),
        i <= j <= num_bands,
        0 < num_bands <= usize::MAX,
    ensures
        quotient(product(width, from_integer(i)), from_integer(num_bands)).at_most(
            quotient(product(width, from_integer(j)), from_integer(num_bands)),
        ),
{
    let n: Binary32 = from_integer(num_bands);
    let (a, b): (Binary32, Binary32) = (from_integer(i), from_integer(j));
    law_from_integer_finite(i);
    law_from_integer_finite(j);
    law_from_integer_finite(num_bands);
    law_from_integer_keeps_order(i, j);
    law_product_commutes(width, a);
    law_product_commutes(width, b);
    if width.is_zero() {
        law_zero_absorbs(width, a);
        law_zero_absorbs(width, b);
        law_zero_absorbs(product(width, a), n);
        law_zero_absorbs(product(width, b), n);
    } else {
        law_product_keeps_order(a, b, width);
        law_quotient_keeps_order(product(width, a), product(width, b), n);
    }
}

/// The last edge is the upper end, but for rounding: its logarithm is off by at most five
/// parts in two to the power of twenty-four of the two logarithms that were given, and
/// one step. The difference, the product, the quotient and the sum are each rounded once.
pub proof fn law_last_edge(log_min: Binary32, log_max: Binary32, num_bands: nat)
    requires
        0 < num_bands <= usize::MAX,
        log_edge(log_min, log_max, num_bands, num_bands).is_finite(),
    ensures
        log_min.is_finite(),
        log_max.is_finite(),
        SIGNIFICAND_LIMIT * abs(
            log_edge(log_min, log_max, num_bands, num_bands).value() - log_max.value(),
        ) <= 5 * (log_min.steps() + log_max.steps()) + SIGNIFICAND_LIMIT,
{
    let width: Binary32 = difference(log_max, log_min);
    let n: Binary32 = from_integer(num_bands);
    let share: Binary32 = quotient(product(width, n), n);
    law_sum_error(log_min, share);
    law_share_error(width, num_bands);
    law_sum_error(log_max, log_min.negated());
    lemma_negated_value(log_min);
    lemma_edge_bound(
        log_min.value(),
        log_max.value(),
        width.value(),
        share.value(),
        sum(log_min, share).value(),
    );
}

proof fn lemma_negated_value(a: Binary32)
    ensures
        a.negated().value() == -a.value(),
        a.negated().is_finite() == a.is_finite(),
{
}

proof fn lemma_edge_bound(a: int, b: int, width: int, share: int, edge: int)
    requires
        0x100_0000 * abs(width - (b - a)) <= abs(b - a),
        0x100_0000 * (0x100_0000 * abs(share - width)) <= 0x200_0001 * abs(width) + 0x100_0000
            * 0x80_0000,
        0x100_0000 * abs(edge - (a + share)) <= abs(a + share),
    ensures
        0x100_0000 * abs(edge - b) <= 5 * (abs(a) + abs(b)) + 0x100_0000,
{
    let s: int = (abs(a) + abs(b)) as int;
    let e1: int = abs(width - (b - a)) as int;
    let e2: int = abs(share - width) as int;
    let e3: int = abs(edge - (a + share)) as int;
    assert(0x100_0000 * e1 <= s);
    assert(abs(width) <= s + e1);
    assert(abs(a + share) <= s + e1 + e2);
    assert(abs(edge - b) <= e1 + e2 + e3);
    assert(0x100_0000 * e2 <= 3 * s + 0x80_0000);
}

/// Twice as many bands keep the edges and put one between each two: edge `2 * i` of
/// `2 * num_bands` bands is edge `i` of `num_bands`, unless the doubled share exceeds
/// every finite number where the single one does not.
pub proof fn law_doubled_bands_keep_edges(
    log_min: Binary32,
    log_max: Binary32,
    num_bands: nat,
    i: nat,
)
    requires
        2 * num_bands <= usize::MAX,
        i <= num_bands,
        ({
            let width: Binary32 = difference(log_max, log_min);
            product(width, from_integer(2 * i)).is_infinite() ==> product(
                width,
                from_integer(i),
            ).is_infinite()
        }),
    ensures
        log_edge(log_min, log_max, 2 * num_bands, 2 * i) == log_edge(
            log_min,
            log_max,
            num_bands,
            i,
        ),
{
    lemma_doubled_share(difference(log_max, log_min), num_bands, i);
}

proof fn lemma_doubled_share(width: Binary32, num_bands: nat, i: nat)
    requires
        2 * num_bands <= usize::MAX,
        i <= num_bands,
        product(width, from_integer(2 * i)).is_infinite() ==> product(
            width,
            from_integer(i),
        ).is_infinite(),
    ensures
        quotient(product(width, from_integer(2 * i)), from_integer(2 * num_bands)) == quotient(
            product(width, from_integer(i)),
            from_integer(num_bands),
        ),
{
    let (single, double): (Binary32, Binary32) = (from_integer(i), from_integer(2 * i));
    let (n, nn): (Binary32, Binary32) = (from_integer(num_bands), from_integer(2 * num_bands));
    let (p, pp): (Binary32, Binary32) = (product(width, single), product(width, double));
    law_from_integer_doubles(i);
    law_from_integer_doubles(num_bands);
    if width.is_finite() {
        law_product_with_integer_doubles(width, i);
        if pp.is_finite() {
            law_quotient_of_doubled(p, pp, n, nn);
        }
    }
}

/// Logarithms of finite frequencies are less than 256 apart. Of such logarithms twice as
/// many bands keep every edge.
pub proof fn law_doubled_bands_of_frequencies(
    log_min: Binary32,
    log_max: Binary32,
    num_bands: nat,
    i: nat,
)
    requires
        2 * num_bands <= usize::MAX,
        i <= num_bands,
        difference(log_max, log_min).magnitude() <= from_integer(256).magnitude(),
    ensures
        log_edge(log_min, log_max, 2 * num_bands, 2 * i) == log_edge(
            log_min,
            log_max,
            num_bands,
            i,
        ),
{
    law_product_with_integer_is_finite(difference(log_max, log_min), 2 * i);
    law_doubled_bands_keep_edges(log_min, log_max, num_bands, i);
}

/// The sum of samples, from the first to the last.
pub open spec fn total(samples: Seq<Binary32>) -> Binary32
    decreases samples.len(),
{
    if samples.len() == 0 {
        neutral()
    } else {
        sum(total(samples.drop_last()), samples.last())
    }
}

/// A frame, mixed to one channel. A frame that is cut short counts as if the missing
/// channels were silent.
pub open spec fn mono(frame: Seq<Binary32>, channels: nat) -> Binary32 {
    quotient(total(frame), from_integer(channels))
}

/// Interleaved samples, mixed to one channel.
pub open spec fn mono_mix(data: Seq<Binary32>, channels: nat) -> Seq<Binary32>
    decreases data.len(),
{
    if data.len() == 0 || channels == 0 {
        Seq::empty()
    } else {
        let n: int = if data.len() < channels {
            data.len() as int
        } else {
            channels as int
        };
        seq![mono(data.subrange(0, n), channels)] + mono_mix(
            data.subrange(n, data.len() as int),
            channels,
        )
    }
}

/// The angle of sample `i` in a window of `size` samples.
pub open spec fn window_angle(i: nat, size: nat) -> Binary32 {
    quotient(
        product(product(two(), pi()), from_integer(i)),
        difference(from_integer(size), Binary32::one()),
    )
}

/// A sample, weighted by a Hann window of which the cosine is given.
pub open spec fn weighted(sample: Binary32, cosine: Binary32) -> Binary32 {
    product(sample, product(half(), difference(Binary32::one(), cosine)))
}

/// The angles of a window of `size` samples.
pub fn window_angles(size: usize) -> (angles: Vec<Binary32>)
    ensures
        angles@ == Seq::new(size as nat, |i: int| window_angle(i as nat, size as nat)),
{
    let turn: Binary32 = two().times(pi());
    let last: Binary32 = Binary32::from_usize(size).minus(Binary32::one());
    let mut angles: Vec<Binary32> = Vec::new();
    let mut i: usize = 0;
    while i < size
        invariant
            i <= size,
            turn == product(two(), pi()),
            last == difference(from_integer(size as nat), Binary32::one()),
            angles@ == Seq::new(i as nat, |i: int| window_angle(i as nat, size as nat)),
        decreases size - i,
    {
        angles.push(turn.times(Binary32::from_usize(i)).over(last));
        i = i + 1;
    }
    angles
}

/// Weights a block of samples, given the cosine of the window's angle at each.
pub fn apply_window(samples: &[Binary32], cosines: &[Binary32]) -> (r: Vec<Binary32>)
    requires
        samples@.len() == cosines@.len(),
    ensures
        r@ == Seq::new(samples@.len(), |i: int| weighted(samples@[i], cosines@[i])),
{
    let mut r: Vec<Binary32> = Vec::new();
    let mut i: usize = 0;
    while i < samples.len()
        invariant
            i <= samples@.len(),
            samples@.len() == cosines@.len(),
            r@ == Seq::new(i as nat, |i: int| weighted(samples@[i], cosines@[i])),
        decreases samples@.len() - i,
    {
        r.push(samples[i].times(half().times(Binary32::one().minus(cosines[i]))));
        i = i + 1;
    }
    r
}

/// A complex number.
#[derive(Clone, Copy, Debug, PartialEq, Eq, Structural)]
pub struct Complex {
    pub re: Binary32,
    pub im: Binary32,
}

/// The square of the absolute value.
pub open spec fn norm_squared(c: Complex) -> Binary32 {
    sum(product(c.re, c.re), product(c.im, c.im))
}

/// The energy of some bins of a transform, added up from the first to the last.
pub open spec fn energy(bins: Seq<Complex>) -> Binary32
    decreases bins.len(),
{
    if bins.len() == 0 {
        Binary32::zero()
    } else {
        sum(energy(bins.drop_last()), norm_squared(bins.last()))
    }
}

/// The bin that a frequency falls into, `limit` at most.
pub open spec fn bin_at(frequency: Binary32, bin_hz: Binary32, limit: nat) -> nat {
    let bin: nat = truncated(quotient(frequency, bin_hz)) as nat;
    if bin < limit {
        bin
    } else {
        limit
    }
}

/// A number held to the range from zero to one; zero for what is not a number.
pub open spec fn clamped(a: Binary32) -> Binary32 {
    if a.is_nan() || a.below(Binary32::zero()) {
        Binary32::zero()
    } else if Binary32::one().below(a) {
        Binary32::one()
    } else {
        a
    }
}

/// The mean energy of the bins from `lo` up to `hi`, as an amplitude.
pub open spec fn amplitude(transform: Seq<Complex>, lo: nat, hi: nat) -> Binary32 {
    square_root(
        quotient(
            energy(transform.subrange(lo as int, hi as int)),
            from_integer((hi - lo) as nat),
        ),
    )
}

/// The energy of the bins from `lo` up to `hi`: their amplitude, amplified and held to
/// the range from zero to one; zero if there is no such bin.
pub open spec fn band_energy(transform: Seq<Complex>, lo: nat, hi: nat, gain: Binary32) -> Binary32 {
    if hi <= lo {
        Binary32::zero()
    } else {
        clamped(product(amplitude(transform, lo, hi), gain))
    }
}

/// The bin that a frequency falls into, `limit` at most.
fn bin_of(frequency: Binary32, bin_hz: Binary32, limit: usize) -> (bin: usize)
    ensures
        bin == bin_at(frequency, bin_hz, limit as nat),
{
    let bin: usize = frequency.over(bin_hz).to_usize();
    if bin < limit {
        bin
    } else {
        limit
    }
}

/// The energy of the bins from `lo` up to `hi`.
fn energy_of(transform: &[Complex], lo: usize, hi: usize, gain: Binary32) -> (r: Binary32)
    requires
        hi <= transform@.len(),
    ensures
        r == band_energy(transform@, lo as nat, hi as nat, gain),
{
    if hi <= lo {
        return Binary32::zero();
    }
    let mut added: Binary32 = Binary32::zero();
    let mut i: usize = lo;
    while i < hi
        invariant
            lo <= i <= hi <= transform@.len(),
            added == energy(transform@.subrange(lo as int, i as int)),
        decreases hi - i,
    {
        let c: Complex = transform[i];
        added = added.plus(c.re.times(c.re).plus(c.im.times(c.im)));
        i = i + 1;
        assert(transform@.subrange(lo as int, i as int).drop_last() =~= transform@.subrange(
            lo as int,
            i - 1,
        ));
    }
    let amplitude: Binary32 = added.over(Binary32::from_usize(hi - lo)).sqrt();
    let value: Binary32 = amplitude.times(gain);
    if value.not_a_number() || value.lt(Binary32::zero()) {
        Binary32::zero()
    } else if value.gt(Binary32::one()) {
        Binary32::one()
    } else {
        value
    }
}

/// Analyzes audio block by block, and keeps the energy of each band.
#[derive(Debug, PartialEq, Eq)]
pub struct AudioAnalyzer {
    /// The number of bands.
    pub num_bands: usize,
    /// The number of samples of a block.
    pub fft_size: usize,
    /// The number of interleaved channels.
    pub channels: usize,
    /// What the energies are multiplied by.
    pub gain: Binary32,
    /// The frequencies from one bin of the transform to the next.
    pub bin_hz: Binary32,
    /// The frequencies between which the bands lie.
    pub band_edges: Vec<Binary32>,
    /// Samples that wait for their block to be full.
    pub buffer: Vec<Binary32>,
    /// The energies of the last block.
    pub energies: Vec<Binary32>,
}

impl AudioAnalyzer {
    /// Whether every band has its two edges and its energy, from zero to one.
    pub open spec fn wf(self) -> bool {
        &&& self.band_edges@.len() == self.num_bands + 1
        &&& self.energies@.len() == self.num_bands
        &&& forall|band: int|
            0 <= band < self.num_bands ==> Binary32::zero().at_most(
                #[trigger] self.energies@[band],
            ) && self.energies@[band].at_most(Binary32::one())
        &&& self.channels > 0
        &&& self.num_bands > 0 ==> self.fft_size >= 2
    }

    /// The first bin of a band.
    pub open spec fn first_bin(self, band: int) -> nat {
        bin_at(self.band_edges@[band], self.bin_hz, (self.fft_size / 2 - 1) as nat)
    }

    /// One past the last bin of a band.
    pub open spec fn end_bin(self, band: int) -> nat {
        bin_at(self.band_edges@[band + 1], self.bin_hz, (self.fft_size / 2) as nat)
    }

    /// The energies of the bands of a transform.
    pub open spec fn energies_of(self, transform: Seq<Complex>) -> Seq<Binary32> {
        Seq::new(
            self.num_bands as nat,
            |band: int|
                band_energy(transform, self.first_bin(band), self.end_bin(band), self.gain),
        )
    }

    /// An analyzer for the given bands and audio, which has heard nothing yet.
    pub fn new(
        num_bands: usize,
        fft_size: usize,
        band_edges: Vec<Binary32>,
        gain: Binary32,
        sample_rate: u32,
        channels: usize,
    ) -> (analyzer: AudioAnalyzer)
        requires
            band_edges@.len() == num_bands + 1,
            channels > 0,
            num_bands > 0 ==> fft_size >= 2,
        ensures
            analyzer.wf(),
            analyzer.num_bands == num_bands,
            analyzer.fft_size == fft_size,
            analyzer.channels == channels,
            analyzer.gain == gain,
            analyzer.bin_hz == quotient(
                from_integer(sample_rate as nat),
                from_integer(fft_size as nat),
            ),
            analyzer.band_edges == band_edges,
            analyzer.buffer@.len() == 0,
            analyzer.energies@ == Seq::new(num_bands as nat, |i: int| Binary32::zero()),
    {
        let bin_hz: Binary32 = Binary32::from_usize(sample_rate as usize).over(
            Binary32::from_usize(fft_size),
        );
        let mut energies: Vec<Binary32> = Vec::new();
        let mut i: usize = 0;
        while i < num_bands
            invariant
                i <= num_bands,
                energies@ == Seq::new(i as nat, |i: int| Binary32::zero()),
            decreases num_bands - i,
        {
            energies.push(Binary32::zero());
            i = i + 1;
        }
        AudioAnalyzer {
            num_bands,
            fft_size,
            channels,
            gain,
            bin_hz,
            band_edges,
            buffer: Vec::new(),
            energies,
        }
    }

    /// Takes samples in, and gives a block out if there is a full one. No sample is
    /// lost: the block and what waits behind it are what waited before and the mix.
    pub fn feed(&mut self, data: &[Binary32]) -> (block: Option<Vec<Binary32>>)
        requires
            old(self).wf(),
        ensures
            final(self).wf(),
            ({
                let heard: Seq<Binary32> = old(self).buffer@ + mono_mix(
                    data@,
                    old(self).channels as nat,
                );
                let n: int = old(self).fft_size as int;
                if heard.len() >= n {
                    &&& block is Some
                    &&& block->0@ == heard.subrange(0, n)
                    &&& final(self).buffer@ == heard.subrange(n, heard.len() as int)
                } else {
                    &&& block is None
                    &&& final(self).buffer@ == heard
                }
            }),
            final(self).num_bands == old(self).num_bands,
            final(self).fft_size == old(self).fft_size,
            final(self).channels == old(self).channels,
            final(self).gain == old(self).gain,
            final(self).bin_hz == old(self).bin_hz,
            final(self).band_edges == old(self).band_edges,
            final(self).energies == old(self).energies,
    {
        let channels: usize = self.channels;
        let divisor: Binary32 = Binary32::from_usize(channels);
        let ghost heard: Seq<Binary32> = self.buffer@ + mono_mix(data@, channels as nat);
        let mut start: usize = 0;
        assert(data@.subrange(0, data@.len() as int) =~= data@);
        while start < data.len()
            invariant
                start <= data@.len(),
                channels > 0,
                divisor == from_integer(channels as nat),
                heard == self.buffer@ + mono_mix(
                    data@.subrange(start as int, data@.len() as int),
                    channels as nat,
                ),
                self.num_bands == old(self).num_bands,
                self.fft_size == old(self).fft_size,
                self.channels == old(self).channels,
                self.gain == old(self).gain,
                self.bin_hz == old(self).bin_hz,
                self.band_edges == old(self).band_edges,
                self.energies == old(self).energies,
            decreases data@.len() - start,
        {
            let end: usize = if data.len() - start < channels {
                data.len()
            } else {
                start + channels
            };
            let ghost rest: Seq<Binary32> = data@.subrange(start as int, data@.len() as int);
            let ghost n: int = end - start;
            let ghost before: Seq<Binary32> = self.buffer@;
            let mut added: Binary32 = neutral();
            let mut i: usize = start;
            while i < end
                invariant
                    start <= i <= end <= data@.len(),
                    added == total(data@.subrange(start as int, i as int)),
                decreases end - i,
            {
                added = added.plus(data[i]);
                i = i + 1;
                assert(data@.subrange(start as int, i as int).drop_last() =~= data@.subrange(
                    start as int,
                    i - 1,
                ));
            }
            self.buffer.push(added.over(divisor));
            proof {
                assert(rest.subrange(0, n) =~= data@.subrange(start as int, end as int));
                assert(rest.subrange(n, rest.len() as int) =~= data@.subrange(
                    end as int,
                    data@.len() as int,
                ));
                let tail: Seq<Binary32> = mono_mix(
                    data@.subrange(end as int, data@.len() as int),
                    channels as nat,
                );
                let m: Binary32 = mono(data@.subrange(start as int, end as int), channels as nat);
                assert(mono_mix(rest, channels as nat) == seq![m] + tail);
                assert(before + (seq![m] + tail) =~= before.push(m) + tail);
            }
            start = end;
        }
        assert(heard =~= self.buffer@);
        if self.buffer.len() >= self.fft_size {
            let n: usize = self.fft_size;
            let mut block: Vec<Binary32> = self.buffer.split_off(n);
            std::mem::swap(&mut block, &mut self.buffer);
            Some(block)
        } else {
            None
        }
    }

    /// Takes the transform of a block in, and keeps the energies of its bands.
    pub fn absorb(&mut self, transform: &[Complex])
        requires
            old(self).wf(),
            transform@.len() == old(self).fft_size,
        ensures
            final(self).wf(),
            final(self).energies@ == old(self).energies_of(transform@),
            final(self).num_bands == old(self).num_bands,
            final(self).fft_size == old(self).fft_size,
            final(self).channels == old(self).channels,
            final(self).gain == old(self).gain,
            final(self).bin_hz == old(self).bin_hz,
            final(self).band_edges == old(self).band_edges,
            final(self).buffer == old(self).buffer,
    {
        let bins: usize = self.fft_size / 2;
        let mut energies: Vec<Binary32> = Vec::new();
        let mut band: usize = 0;
        while band < self.num_bands
            invariant
                band <= self.num_bands,
                *self == *old(self),
                self.wf(),
                bins == self.fft_size / 2,
                transform@.len() == self.fft_size,
                energies@ == self.energies_of(transform@).subrange(0, band as int),
            decreases self.num_bands - band,
        {
            let lo: usize = bin_of(self.band_edges[band], self.bin_hz, bins - 1);
            let hi: usize = bin_of(self.band_edges[band + 1], self.bin_hz, bins);
            energies.push(energy_of(transform, lo, hi, self.gain));
            band = band + 1;
            assert(energies@ =~= self.energies_of(transform@).subrange(0, band as int));
        }
        assert(energies@ =~= self.energies_of(transform@));
        proof {
            assert forall|band: int| 0 <= band < self.num_bands implies Binary32::zero().at_most(
                #[trigger] energies@[band],
            ) && energies@[band].at_most(Binary32::one()) by {
                law_energies_are_in_range(*self, transform@, band);
            }
        }
        self.energies = energies;
    }

    /// Get the current band energies (from zero to one per band).
    pub fn band_energies(&self) -> (energies: Vec<Binary32>)
        requires
            self.wf(),
        ensures
            energies@ == self.energies@,
            energies@.len() == self.num_bands,
            forall|band: int|
                0 <= band < energies@.len() ==> Binary32::zero().at_most(
                    #[trigger] energies@[band],
                ) && energies@[band].at_most(Binary32::one()),
    {
        let mut energies: Vec<Binary32> = Vec::new();
        let mut i: usize = 0;
        while i < self.energies.len()
            invariant
                i <= self.energies@.len(),
                energies@ == self.energies@.subrange(0, i as int),
            decreases self.energies@.len() - i,
        {
            energies.push(self.energies[i]);
            i = i + 1;
            assert(energies@ =~= self.energies@.subrange(0, i as int));
        }
        assert(energies@ =~= self.energies@);
        energies
    }
}

proof fn lemma_clamped(a: Binary32)
    ensures
        Binary32::zero().at_most(clamped(a)),
        clamped(a).at_most(Binary32::one()),
{
}

/// Every energy is from zero to one, whatever was heard.
pub proof fn law_energies_are_in_range(analyzer: AudioAnalyzer, transform: Seq<Complex>, band: int)
    requires
        0 <= band < analyzer.num_bands,
    ensures
        Binary32::zero().at_most(analyzer.energies_of(transform)[band]),
        analyzer.energies_of(transform)[band].at_most(Binary32::one()),
{
    let (lo, hi): (nat, nat) = (analyzer.first_bin(band), analyzer.end_bin(band));
    lemma_clamped(product(amplitude(transform, lo, hi), analyzer.gain));
    lemma_clamped(Binary32::zero());
}

/// With a gain of zero every energy is zero, whatever was heard.
pub proof fn law_zero_gain_is_silent(analyzer: AudioAnalyzer, transform: Seq<Complex>, band: int)
    requires
        0 <= band < analyzer.num_bands,
        analyzer.gain.is_zero(),
    ensures
        analyzer.energies_of(transform)[band].is_zero(),
{
    let held: Binary32 = amplitude(
        transform,
        analyzer.first_bin(band),
        analyzer.end_bin(band),
    );
    lemma_zero_gain(held, analyzer.gain);
}

#[verifier::rlimit(30)]
proof fn lemma_zero_gain(held: Binary32, gain: Binary32)
    requires
        gain.is_zero(),
    ensures
        clamped(product(held, gain)).is_zero(),
{
    if held.is_finite() {
        law_zero_absorbs(gain, held);
    } else {
        assert(product(held, gain) == nan());
    }
}

/// Twice the gain gives twice the energy, one at most, where the doubled gain is finite
/// and the amplified amplitude is exactly zero or not below the least normal number.
#[verifier::rlimit(30)]
pub proof fn law_doubled_gain(
    single: AudioAnalyzer,
    double: AudioAnalyzer,
    transform: Seq<Complex>,
    band: int,
)
    requires
        double.gain == product(two(), single.gain),
        double.num_bands == single.num_bands,
        double.fft_size == single.fft_size,
        double.bin_hz == single.bin_hz,
        double.band_edges@ == single.band_edges@,
        0 <= band < single.num_bands,
        ({
            let held: Binary32 = amplitude(
                transform,
                single.first_bin(band),
                single.end_bin(band),
            );
            single.first_bin(band) < single.end_bin(band) && held.is_finite()
                && single.gain.is_finite() ==> double.gain.is_finite() && product_is_normal(
                held,
                single.gain,
            )
        }),
    ensures
        double.energies_of(transform)[band] == smaller(
            product(two(), single.energies_of(transform)[band]),
            Binary32::one(),
        ),
{
    let (lo, hi): (nat, nat) = (single.first_bin(band), single.end_bin(band));
    lemma_doubled_band(transform, lo, hi, single.gain);
    assert(single.energies_of(transform)[band] == band_energy(transform, lo, hi, single.gain));
    assert(double.energies_of(transform)[band] == band_energy(transform, lo, hi, double.gain));
}

proof fn lemma_doubled_band(transform: Seq<Complex>, lo: nat, hi: nat, gain: Binary32)
    requires
        lo < hi && amplitude(transform, lo, hi).is_finite() && gain.is_finite() ==> product(
            two(),
            gain,
        ).is_finite() && product_is_normal(amplitude(transform, lo, hi), gain),
    ensures
        band_energy(transform, lo, hi, product(two(), gain)) == smaller(
            product(two(), band_energy(transform, lo, hi, gain)),
            Binary32::one(),
        ),
{
    if lo < hi {
        lemma_doubled_gain(amplitude(transform, lo, hi), gain);
    } else {
        lemma_doubled_zero();
    }
}

proof fn lemma_doubled_zero()
    ensures
        smaller(product(two(), Binary32::zero()), Binary32::one()) == Binary32::zero(),
{
    lemma_two();
    law_product_with_two(Binary32::zero());
}

#[verifier::rlimit(30)]
proof fn lemma_doubled_gain(held: Binary32, gain: Binary32)
    requires
        held.is_finite() && gain.is_finite() ==> product(two(), gain).is_finite()
            && product_is_normal(held, gain),
    ensures
        clamped(product(held, product(two(), gain))) == smaller(
            product(two(), clamped(product(held, gain))),
            Binary32::one(),
        ),
{
    lemma_two();
    law_product_with_doubled(held, gain);
    lemma_clamped_doubles(product(held, gain));
}

proof fn lemma_two()
    ensures
        two() == from_integer(2),
        two().is_finite(),
        !two().negative(),
        Binary32::one().below(two()),
{
    law_two();
}

#[verifier::rlimit(30)]
proof fn lemma_clamped_doubles(p: Binary32)
    ensures
        clamped(product(two(), p)) == smaller(product(two(), clamped(p)), Binary32::one()),
{
    let one: Binary32 = Binary32::one();
    lemma_two();
    law_product_with_two(Binary32::zero());
    law_product_with_two(one);
    law_product_with_one(two());
    if !p.is_nan() {
        law_product_with_two(p);
        if one.below(p) {
            law_product_keeps_order(one, p, two());
            law_product_commutes(two(), p);
        }
    }
}

/// Feeding in pieces that hold whole frames mixes as feeding at once does.
pub proof fn law_mono_mix_of_pieces(first: Seq<Binary32>, second: Seq<Binary32>, channels: nat)
    requires
        channels > 0,
        first.len() % channels == 0,
    ensures
        mono_mix(first + second, channels) == mono_mix(first, channels) + mono_mix(second, channels),
    decreases first.len(),
{
    if first.len() == 0 {
        assert(first + second =~= second);
        assert(mono_mix(first, channels) + mono_mix(second, channels) =~= mono_mix(
            second,
            channels,
        ));
    } else {
        let n: int = channels as int;
        if first.len() < channels {
            vstd::arithmetic::div_mod::lemma_small_mod(first.len(), channels);
        }
        let rest: Seq<Binary32> = first.subrange(n, first.len() as int);
        let both: Seq<Binary32> = first + second;
        vstd::arithmetic::div_mod::lemma_mod_sub_multiples_vanish(first.len() as int, n);
        law_mono_mix_of_pieces(rest, second, channels);
        assert(both.subrange(0, n) =~= first.subrange(0, n));
        assert(both.subrange(n, both.len() as int) =~= rest + second);
        let head: Seq<Binary32> = seq![mono(first.subrange(0, n), channels)];
        assert(head + (mono_mix(rest, channels) + mono_mix(second, channels)) =~= (head + mono_mix(
            rest,
            channels,
        )) + mono_mix(second, channels));
    }
}

/// What lies from zero to one is left as it is.
pub proof fn law_clamping_keeps_the_range(a: Binary32)
    ensures
        Binary32::zero().at_most(a) && a.at_most(Binary32::one()) ==> clamped(a) == a,
        Binary32::one().below(a) ==> clamped(a) == Binary32::one(),
        a.is_nan() || a.below(Binary32::zero()) ==> clamped(a) == Binary32::zero(),
{
}

/// A band takes in every bin from the one that its lower edge falls into up to the one that
/// its upper edge falls into, of the lower half of the transform: the quotient of the edge
/// and the distance of bins, cut to an integer, unless it lies beyond that half.
pub proof fn law_band_bins(analyzer: AudioAnalyzer, band: int)
    requires
        analyzer.wf(),
        0 <= band < analyzer.num_bands,
    ensures
        ({
            let half: nat = (analyzer.fft_size / 2) as nat;
            let lower: Binary32 = quotient(analyzer.band_edges@[band], analyzer.bin_hz);
            let upper: Binary32 = quotient(analyzer.band_edges@[band + 1], analyzer.bin_hz);
            let unit: nat = pow2(FRACTION_PLACES as nat);
            let first: nat = analyzer.first_bin(band);
            let end: nat = analyzer.end_bin(band);
            &&& first < half
            &&& end <= half
            &&& upper.is_finite() && !upper.negative() && upper.steps() < (half + 1) * unit ==> end
                * unit <= upper.steps() < (end + 1) * unit
            &&& upper.is_finite() && !upper.negative() && upper.steps() >= half * unit ==> end
                == half
            &&& upper.is_infinite() && !upper.negative() ==> end == half
            &&& upper.is_nan() || upper.negative() ==> end == 0
            &&& lower.is_finite() && !lower.negative() && lower.steps() < half * unit ==> first
                * unit <= lower.steps() < (first + 1) * unit
            &&& lower.is_finite() && !lower.negative() && lower.steps() >= (half - 1) * unit
                ==> first == half - 1
            &&& lower.is_infinite() && !lower.negative() ==> first == half - 1
            &&& lower.is_nan() || lower.negative() ==> first == 0
        }),
{
    let half: nat = (analyzer.fft_size / 2) as nat;
    lemma_bin_at(analyzer.band_edges@[band], analyzer.bin_hz, (half - 1) as nat);
    lemma_bin_at(analyzer.band_edges@[band + 1], analyzer.bin_hz, half);
}

proof fn lemma_bin_at(frequency: Binary32, bin_hz: Binary32, limit: nat)
    requires
        limit <= usize::MAX,
    ensures
        ({
            let q: Binary32 = quotient(frequency, bin_hz);
            let unit: nat = pow2(FRACTION_PLACES as nat);
            let bin: nat = bin_at(frequency, bin_hz, limit);
            &&& bin <= limit
            &&& q.is_finite() && !q.negative() && q.steps() < (limit + 1) * unit ==> bin * unit
                <= q.steps() < (bin + 1) * unit
            &&& q.is_finite() && !q.negative() && q.steps() >= limit * unit ==> bin == limit
            &&& q.is_infinite() && !q.negative() ==> bin == limit
            &&& q.is_nan() || q.negative() ==> bin == 0
        }),
{
    let q: Binary32 = quotient(frequency, bin_hz);
    let unit: nat = pow2(FRACTION_PLACES as nat);
    lemma_pow2_pos(FRACTION_PLACES as nat);
    if q.is_finite() && !q.negative() {
        let whole: nat = q.steps() / unit;
        lemma_whole(q.steps(), unit, limit);
        assert(truncated(q) == if whole > usize::MAX {
            usize::MAX
        } else {
            whole as usize
        });
    }
}

proof fn lemma_whole(n: nat, unit: nat, limit: nat)
    requires
        unit > 0,
    ensures
        (n / unit) * unit <= n < (n / unit + 1) * unit,
        n < (limit + 1) * unit <==> n / unit <= limit,
        n >= limit * unit <==> n / unit >= limit,
{
    let q: nat = n / unit;
    lemma_fundamental_div_mod(n as int, unit as int);
    lemma_mod_bound(n as int, unit as int);
    assert(q * unit <= n < (q + 1) * unit) by (nonlinear_arith)
        requires
            n == unit * q + n % unit,
            0 <= n % unit < unit,
    ;
    if q <= limit {
        assert((q + 1) * unit <= (limit + 1) * unit) by (nonlinear_arith)
            requires
                q <= limit,
        ;
    } else {
        assert((limit + 1) * unit <= q * unit) by (nonlinear_arith)
            requires
                q >= limit + 1,
        ;
    }
    if q >= limit {
        assert(limit * unit <= q * unit) by (nonlinear_arith)
            requires
                q >= limit,
        ;
    } else {
        assert((q + 1) * unit <= limit * unit) by (nonlinear_arith)
            requires
                q + 1 <= limit,
        ;
    }
}

/// A tone that falls into one bin of a band is heard: the energy is the amplitude of that
/// bin, shared among the bins of the band, times the gain, held to the range.
pub proof fn law_lone_bin(
    analyzer: AudioAnalyzer,
    transform: Seq<Complex>,
    band: int,
    bin: int,
)
    requires
        analyzer.wf(),
        transform.len() == analyzer.fft_size,
        0 <= band < analyzer.num_bands,
        analyzer.first_bin(band) <= bin < analyzer.end_bin(band),
        !transform[bin].re.is_nan(),
        !transform[bin].im.is_nan(),
        forall|k: int|
            analyzer.first_bin(band) <= k < analyzer.end_bin(band) && k != bin ==> (
            #[trigger] transform[k]).re.is_zero() && transform[k].im.is_zero(),
    ensures
        ({
            let c: Complex = transform[bin];
            let norm: Binary32 = sum(product(c.re, c.re), product(c.im, c.im));
            let bins: nat = (analyzer.end_bin(band) - analyzer.first_bin(band)) as nat;
            analyzer.energies_of(transform)[band] == clamped(
                product(square_root(quotient(norm, from_integer(bins))), analyzer.gain),
            )
        }),
{
    let (lo, hi): (nat, nat) = (analyzer.first_bin(band), analyzer.end_bin(band));
    let part: Seq<Complex> = transform.subrange(lo as int, hi as int);
    assert forall|k: int| 0 <= k < part.len() && k != bin - lo implies (
    #[trigger] part[k]).re.is_zero() && part[k].im.is_zero() by {
        assert(transform[lo + k].re.is_zero());
    }
    assert(part[bin - lo] == transform[bin]);
    lemma_lone_energy(part, bin - lo);
}

proof fn lemma_lone_energy(bins: Seq<Complex>, bin: int)
    requires
        !(0 <= bin < bins.len()) || (!bins[bin].re.is_nan() && !bins[bin].im.is_nan()),
        forall|k: int|
            0 <= k < bins.len() && k != bin ==> (#[trigger] bins[k]).re.is_zero()
                && bins[k].im.is_zero(),
    ensures
        0 <= bin < bins.len() ==> energy(bins) == norm_squared(bins[bin]),
        !(0 <= bin < bins.len()) ==> energy(bins) == Binary32::zero(),
    decreases bins.len(),
{
    if bins.len() > 0 {
        let init: Seq<Complex> = bins.drop_last();
        assert forall|k: int| 0 <= k < init.len() && k != bin implies (
        #[trigger] init[k]).re.is_zero() && init[k].im.is_zero() by {
            assert(bins[k].re.is_zero());
        }
        lemma_lone_energy(init, bin);
        let last: Complex = bins[bins.len() - 1];
        if bin == bins.len() - 1 {
            lemma_norm_is_number(last);
            lemma_zero_plus(norm_squared(last));
        } else {
            lemma_norm_of_zero(last);
            if 0 <= bin < bins.len() {
                lemma_norm_is_number(bins[bin]);
                lemma_zero_plus(norm_squared(bins[bin]));
            } else {
                lemma_zero_plus(Binary32::zero());
            }
        }
    }
}

proof fn lemma_zero_plus(a: Binary32)
    requires
        !a.is_nan(),
        !a.negative(),
    ensures
        sum(Binary32::zero(), a) == a,
        sum(a, Binary32::zero()) == a,
{
    law_sum_with_zero(a, Binary32::zero());
    law_sum_keeps_order(a, a, Binary32::zero());
}

proof fn lemma_norm_of_zero(c: Complex)
    requires
        c.re.is_zero(),
        c.im.is_zero(),
    ensures
        norm_squared(c) == Binary32::zero(),
{
    law_zero_absorbs(c.re, c.re);
    law_zero_absorbs(c.im, c.im);
    lemma_zero_plus(Binary32::zero());
}

/// A sum of squares is a number, and not negative.
proof fn lemma_norm_is_number(c: Complex)
    requires
        !c.re.is_nan(),
        !c.im.is_nan(),
    ensures
        !norm_squared(c).is_nan(),
        !norm_squared(c).negative(),
{
    lemma_sum_is_number(product(c.re, c.re), product(c.im, c.im));
}

proof fn lemma_sum_is_number(a: Binary32, b: Binary32)
    requires
        !a.is_nan(),
        !a.negative(),
        !b.is_nan(),
        !b.negative(),
    ensures
        !sum(a, b).is_nan(),
        !sum(a, b).negative(),
{
}

/// Every bin of a band counts: the band has at least the energy that it would have if one
/// of its bins were heard alone.
pub proof fn law_every_bin_counts(
    analyzer: AudioAnalyzer,
    transform: Seq<Complex>,
    band: int,
    bin: int,
)
    requires
        analyzer.wf(),
        transform.len() == analyzer.fft_size,
        0 <= band < analyzer.num_bands,
        analyzer.first_bin(band) <= bin < analyzer.end_bin(band),
        forall|k: int|
            0 <= k < transform.len() ==> !(#[trigger] transform[k]).re.is_nan()
                && !transform[k].im.is_nan(),
        analyzer.gain.is_finite(),
        Binary32::zero().below(analyzer.gain),
    ensures
        ({
            let c: Complex = transform[bin];
            let norm: Binary32 = sum(product(c.re, c.re), product(c.im, c.im));
            let bins: nat = (analyzer.end_bin(band) - analyzer.first_bin(band)) as nat;
            clamped(
                product(square_root(quotient(norm, from_integer(bins))), analyzer.gain),
            ).at_most(analyzer.energies_of(transform)[band])
        }),
{
    let (lo, hi): (nat, nat) = (analyzer.first_bin(band), analyzer.end_bin(band));
    let part: Seq<Complex> = transform.subrange(lo as int, hi as int);
    assert forall|k: int| 0 <= k < part.len() implies !(#[trigger] part[k]).re.is_nan()
        && !part[k].im.is_nan() by {
        assert(!transform[lo + k].re.is_nan());
    }
    assert(part[bin - lo] == transform[bin]);
    lemma_energy_bounds(part, bin - lo);
    lemma_norm_is_number(transform[bin]);
    lemma_energy_order(
        norm_squared(transform[bin]),
        energy(part),
        (hi - lo) as nat,
        analyzer.gain,
    );
}

proof fn lemma_energy_order(a: Binary32, b: Binary32, n: nat, gain: Binary32)
    requires
        a.at_most(b),
        !a.negative(),
        !b.negative(),
        0 < n <= usize::MAX,
        gain.is_finite(),
        Binary32::zero().below(gain),
    ensures
        clamped(product(square_root(quotient(a, from_integer(n))), gain)).at_most(
            clamped(product(square_root(quotient(b, from_integer(n))), gain)),
        ),
{
    let (qa, qb): (Binary32, Binary32) = (
        quotient(a, from_integer(n)),
        quotient(b, from_integer(n)),
    );
    law_from_integer_finite(n);
    law_quotient_keeps_order(a, b, from_integer(n));
    law_square_root_keeps_order(qa, qb);
    law_product_keeps_order(square_root(qa), square_root(qb), gain);
    lemma_clamped_order(product(square_root(qa), gain), product(square_root(qb), gain));
}

proof fn lemma_clamped_order(a: Binary32, b: Binary32)
    requires
        a.at_most(b),
    ensures
        clamped(a).at_most(clamped(b)),
{
}

proof fn lemma_energy_bounds(bins: Seq<Complex>, bin: int)
    requires
        forall|k: int|
            0 <= k < bins.len() ==> !(#[trigger] bins[k]).re.is_nan() && !bins[k].im.is_nan(),
    ensures
        !energy(bins).is_nan(),
        !energy(bins).negative(),
        0 <= bin < bins.len() ==> norm_squared(bins[bin]).at_most(energy(bins)),
    decreases bins.len(),
{
    if bins.len() > 0 {
        let init: Seq<Complex> = bins.drop_last();
        let last: Complex = bins[bins.len() - 1];
        assert forall|k: int| 0 <= k < init.len() implies !(#[trigger] init[k]).re.is_nan()
            && !init[k].im.is_nan() by {
            assert(!bins[k].re.is_nan());
        }
        lemma_energy_bounds(init, bin);
        lemma_norm_is_number(last);
        lemma_sum_is_number(energy(init), norm_squared(last));
        lemma_sum_grows(energy(init), norm_squared(last));
        if bin < bins.len() - 1 && bin >= 0 {
            assert(init[bin] == bins[bin]);
            lemma_at_most_chain(norm_squared(bins[bin]), energy(init), energy(bins));
        }
    }
}

proof fn lemma_at_most_chain(a: Binary32, b: Binary32, c: Binary32)
    requires
        a.at_most(b),
        b.at_most(c),
    ensures
        a.at_most(c),
{
}

/// A sum of numbers that are not negative is not below either.
proof fn lemma_sum_grows(a: Binary32, b: Binary32)
    requires
        !a.is_nan(),
        !a.negative(),
        !b.is_nan(),
        !b.negative(),
    ensures
        a.at_most(sum(a, b)),
        b.at_most(sum(a, b)),
{
    let zero: Binary32 = Binary32::zero();
    lemma_zero_plus(a);
    lemma_zero_plus(b);
    if a.is_finite() {
        law_sum_keeps_order(zero, b, a);
    }
    if b.is_finite() {
        law_sum_keeps_order(zero, a, b);
    }
}

/// Bins outside of a band do not count: transforms that agree in the bins of a band give it
/// the same energy.
pub proof fn law_other_bins_do_not_count(
    analyzer: AudioAnalyzer,
    transform: Seq<Complex>,
    other: Seq<Complex>,
    band: int,
)
    requires
        analyzer.wf(),
        transform.len() == analyzer.fft_size,
        other.len() == analyzer.fft_size,
        0 <= band < analyzer.num_bands,
        forall|k: int|
            analyzer.first_bin(band) <= k < analyzer.end_bin(band) ==> #[trigger] transform[k]
                == other[k],
    ensures
        analyzer.energies_of(transform)[band] == analyzer.energies_of(other)[band],
        analyzer.energies_of(transform).len() == analyzer.num_bands,
{
    let (lo, hi): (nat, nat) = (analyzer.first_bin(band), analyzer.end_bin(band));
    if lo < hi {
        assert(transform.subrange(lo as int, hi as int) =~= other.subrange(lo as int, hi as int));
    }
}

/// A band without bins has no energy.
pub proof fn law_empty_band(analyzer: AudioAnalyzer, transform: Seq<Complex>, band: int)
    requires
        0 <= band < analyzer.num_bands,
        analyzer.first_bin(band) >= analyzer.end_bin(band),
    ensures
        analyzer.energies_of(transform)[band].bits == 0,
{
}

/// Samples are added one after the other.
pub proof fn law_total_grows(samples: Seq<Binary32>, sample: Binary32)
    ensures
        total(samples.push(sample)) == sum(total(samples), sample),
        total(Seq::empty()).bits == 0x8000_0000,
{
    assert(samples.push(sample).drop_last() =~= samples);
}

/// Mixing gives one sample for each frame: the sum of its channels, divided by their number,
/// also where the last frame is cut short.
pub proof fn law_mono_mix_frames(data: Seq<Binary32>, channels: nat, k: int)
    requires
        channels > 0,
        0 <= k,
        k * channels < data.len(),
    ensures
        mono_mix(data, channels).len() * channels >= data.len(),
        (mono_mix(data, channels).len() - 1) * channels < data.len(),
        k < mono_mix(data, channels).len(),
        mono_mix(data, channels)[k] == quotient(
            total(
                data.subrange(
                    k * channels,
                    if (k + 1) * channels < data.len() {
                        (k + 1) * channels
                    } else {
                        data.len() as int
                    },
                ),
            ),
            from_integer(channels),
        ),
    decreases data.len(),
{
    let n: int = if data.len() < channels {
        data.len() as int
    } else {
        channels as int
    };
    let rest: Seq<Binary32> = data.subrange(n, data.len() as int);
    let mix: Seq<Binary32> = mono_mix(data, channels);
    let tail: Seq<Binary32> = mono_mix(rest, channels);
    assert(0 * channels == 0);
    assert(1 * channels == channels);
    assert(data.len() > 0) by (nonlinear_arith)
        requires
            0 <= k,
            k * channels < data.len(),
    ;
    assert(mix.len() == tail.len() + 1);
    assert((tail.len() + 1) * channels == tail.len() * channels + channels) by (nonlinear_arith);
    assert((k + 1) * channels == k * channels + channels) by (nonlinear_arith);
    if rest.len() == 0 {
        assert(tail.len() == 0);
        assert(k == 0) by (nonlinear_arith)
            requires
                0 <= k,
                k * channels < data.len(),
                data.len() <= channels,
        ;
    } else {
        let j: int = if k > 0 {
            k - 1
        } else {
            0
        };
        assert((k - 1) * channels == k * channels - channels) by (nonlinear_arith);
        law_mono_mix_frames(rest, channels, j);
        assert((tail.len() - 1) * channels == tail.len() * channels - channels)
            by (nonlinear_arith);
        if k > 0 {
            assert(mix[k] == tail[k - 1]);
            let hi: int = if (k + 1) * channels < data.len() {
                (k + 1) * channels
            } else {
                data.len() as int
            };
            assert(j + 1 == k);
            assert(rest.subrange(j * channels, hi - n) =~= data.subrange(k * channels, hi));
        }
    }
}

/// Every edge stands at its share of the way from the lower to the upper end, but for
/// rounding.
pub proof fn law_edges_are_even(log_min: Binary32, log_max: Binary32, num_bands: nat, i: nat)
    requires
        0 < num_bands < SIGNIFICAND_LIMIT,
        i <= num_bands,
        log_edge(log_min, log_max, num_bands, i).is_finite(),
    ensures
        log_min.is_finite(),
        log_max.is_finite(),
        ({
            let (a, b): (int, int) = (log_min.value(), log_max.value());
            let exact: int = num_bands * a + i * (b - a);
            0x100_0000 * abs(
                num_bands * log_edge(log_min, log_max, num_bands, i).value() - exact,
            ) <= 5 * (abs(num_bands * a) + abs(exact)) + 0x100_0000 * num_bands
        }),
{
    let width: Binary32 = difference(log_max, log_min);
    let share: Binary32 = quotient(
        product(width, from_integer(i)),
        from_integer(num_bands),
    );
    let edge: Binary32 = sum(log_min, share);
    law_sum_error(log_min, share);
    law_fraction_error(width, i, num_bands);
    law_sum_error(log_max, log_min.negated());
    lemma_negated_value(log_min);
    let (a, b): (int, int) = (log_min.value(), log_max.value());
    let n: int = num_bands as int;
    lemma_scaled(i as int, width.value() - (b - a), b - a);
    lemma_scaled(n, edge.value() - (a + share.value()), a + share.value());
    lemma_abs_product(i as int, width.value());
    assert(i * (width.value() - (b - a)) == i * width.value() - i * (b - a)) by (nonlinear_arith);
    assert(n * (edge.value() - (a + share.value())) == n * edge.value() - (n * a + n
        * share.value())) by (nonlinear_arith);
    assert(n * (a + share.value()) == n * a + n * share.value()) by (nonlinear_arith);
    assert(width.steps() * i == abs(i * width.value())) by {
        assert(width.steps() * i == i * abs(width.value())) by (nonlinear_arith)
            requires
                width.steps() == abs(width.value()),
        ;
    }
    lemma_scaled_edge_bound(
        n * a,
        n * a + i * (b - a),
        i * width.value(),
        n * share.value(),
        n * edge.value(),
        n,
    );
}

proof fn lemma_abs_product(k: int, x: int)
    requires
        k >= 0,
    ensures
        abs(k * x) == k * abs(x),
{
    assert(k * (-x) == -(k * x)) by (nonlinear_arith);
    if x >= 0 {
        assert(k * x >= 0) by (nonlinear_arith)
            requires
                k >= 0,
                x >= 0,
        ;
    } else {
        assert(k * (-x) >= 0) by (nonlinear_arith)
            requires
                k >= 0,
                x < 0,
        ;
    }
}

proof fn lemma_scaled(k: int, x: int, y: int)
    requires
        k >= 0,
        0x100_0000 * abs(x) <= abs(y),
    ensures
        0x100_0000 * abs(k * x) <= abs(k * y),
{
    lemma_abs_product(k, x);
    lemma_abs_product(k, y);
    assert(0x100_0000 * (k * abs(x)) <= k * abs(y)) by (nonlinear_arith)
        requires
            k >= 0,
            0x100_0000 * abs(x) <= abs(y),
    ;
}

proof fn lemma_scaled_edge_bound(
    a: int,
    b: int,
    width: int,
    share: int,
    edge: int,
    n: int,
)
    requires
        n > 0,
        0x100_0000 * abs(width - (b - a)) <= abs(b - a),
        0x100_0000 * (0x100_0000 * abs(share - width)) <= 0x200_0001 * abs(width) + 0x100_0000 * (
        0x80_0000 * n),
        0x100_0000 * abs(edge - (a + share)) <= abs(a + share),
    ensures
        0x100_0000 * abs(edge - b) <= 5 * (abs(a) + abs(b)) + 0x100_0000 * n,
{
    let s: int = (abs(a) + abs(b)) as int;
    let e1: int = abs(width - (b - a)) as int;
    let e2: int = abs(share - width) as int;
    let e3: int = abs(edge - (a + share)) as int;
    assert(0x100_0000 * e1 <= s);
    assert(abs(width) <= s + e1);
    assert(abs(a + share) <= s + e1 + e2);
    assert(abs(edge - b) <= e1 + e2 + e3);
    assert(0x100_0000 * e2 <= 3 * s + 0x80_0000 * n);
}

/// The angles of a window go once around, in even steps, but for rounding: the last of
/// `size` is a full turn.
pub proof fn law_window_angles(size: nat, i: nat)
    requires
        2 <= size < SIGNIFICAND_LIMIT,
        i < size,
        window_angle(i, size).is_finite(),
    ensures
        ({
            let turn: Binary32 = product(Binary32 { bits: 0x4000_0000 }, pi());
            0x100_0000 * (0x100_0000 * abs(
                (size - 1) * window_angle(i, size).value() - i * turn.value(),
            )) <= 0x200_0001 * (turn.steps() * i) + 0x100_0000 * (0x80_0000 * (size - 1))
        }),
{
    let last: nat = (size - 1) as nat;
    lemma_one_less(size);
    law_fraction_error(product(two(), pi()), i, last);
}

proof fn lemma_one_less(n: nat)
    requires
        2 <= n < SIGNIFICAND_LIMIT,
    ensures
        difference(from_integer(n), Binary32::one()) == from_integer((n - 1) as nat),
{
    let w: nat = pow2(FRACTION_PLACES as nat);
    let one: Binary32 = Binary32::one();
    lemma_pow2_pos(FRACTION_PLACES as nat);
    law_from_integer_exact(n);
    law_from_integer_exact(1);
    law_product_with_one(one);
    lemma_negated_value(one);
    assert(1 * w == w);
    let v: int = n * w - w;
    assert(v == (n - 1) * w && v > 0) by (nonlinear_arith)
        requires
            v == n * w - w,
            n >= 2,
            w > 0,
    ;
    assert(difference(from_integer(n), one) == signed(false, magnitude(v as nat, 1)));
}

/// The window leaves nothing where the cosine is one, and twice a weighted sample is the
/// sample times what the cosine lacks to one, where nothing underflows.
pub proof fn law_window_weights(sample: Binary32, cosine: Binary32)
    ensures
        sample.is_finite() && cosine == Binary32::one() ==> weighted(sample, cosine).is_zero(),
        ({
            let lack: Binary32 = difference(Binary32::one(), cosine);
            lack.is_finite() && lack.magnitude() >= 0x100_0000 && (sample.is_finite()
                ==> product_is_normal(sample, product(half(), lack))) ==> product(
                two(),
                weighted(sample, cosine),
            ) == product(sample, lack)
        }),
{
    let lack: Binary32 = difference(Binary32::one(), cosine);
    lemma_two();
    if lack.is_finite() && lack.magnitude() >= 0x100_0000 && (sample.is_finite()
        ==> product_is_normal(sample, product(half(), lack))) {
        lemma_halved(lack);
        law_product_with_doubled(sample, product(half(), lack));
    }
    if sample.is_finite() && cosine == Binary32::one() {
        lemma_no_lack();
        lemma_half_is_finite();
        law_zero_absorbs(lack, half());
        law_zero_absorbs(product(half(), lack), sample);
    }
}

proof fn lemma_half_is_finite()
    ensures
        half().is_finite(),
{
}

proof fn lemma_no_lack()
    ensures
        difference(Binary32::one(), Binary32::one()).is_zero(),
{
    lemma_negated_value(Binary32::one());
}

/// Half of a number that is at least twice the least normal one is exact.
#[verifier::rlimit(40)]
proof fn lemma_halved(a: Binary32)
    requires
        a.is_finite(),
        a.magnitude() >= 0x100_0000,
    ensures
        product(from_integer(2), product(half(), a)) == a,
        product(half(), a).is_finite(),
{
    law_half_of(a);
}

/// The energies of bins add up, one bin after the other: each adds the square of its
/// absolute value.
pub proof fn law_energies_add_up(bins: Seq<Complex>, c: Complex)
    ensures
        energy(Seq::empty()).bits == 0,
        energy(bins.push(c)) == sum(
            energy(bins),
            sum(product(c.re, c.re), product(c.im, c.im)),
        ),
{
    assert(bins.push(c).drop_last() =~= bins);
}

/// The energy of a band is the root of the mean energy of its bins, times the gain, held to
/// the range.
pub proof fn law_band_energy(analyzer: AudioAnalyzer, transform: Seq<Complex>, band: int)
    requires
        0 <= band < analyzer.num_bands,
        analyzer.first_bin(band) < analyzer.end_bin(band),
    ensures
        ({
            let (lo, hi): (int, int) = (
                analyzer.first_bin(band) as int,
                analyzer.end_bin(band) as int,
            );
            let mean: Binary32 = quotient(
                energy(transform.subrange(lo, hi)),
                from_integer((hi - lo) as nat),
            );
            analyzer.energies_of(transform)[band] == clamped(
                product(square_root(mean), analyzer.gain),
            )
        }),
{
}

} // verus!
