//! The faders of a device, collected while the device is explored.

use vstd::prelude::*;
use vstd::string::*;

use crate::binary32::Binary32;
use crate::mixer::desk::{command_of, entries_valid, entry_valid};
use crate::mixer::device::{Device, DeviceCommand};
use crate::mixer::entry::{color_of, default_source_flux, wavelength_color, UIEntry};
use crate::text::{decimal, push_decimal, w};

verus! {

/// What an emitter gives at one wavelength, in nanometres.
#[derive(Clone, Copy, Debug, PartialEq, Eq, Structural)]
pub struct SpectralSample {
    pub wavelength: Binary32,
    pub measurement: Binary32,
}

/// Where the greatest of the first `n` measurements is. Of equal ones the last
/// counts, and what is not a number equals everything.
pub open spec fn peak_index(samples: Seq<SpectralSample>, n: nat) -> nat
    decreases n,
{
    if n <= 1 {
        0
    } else {
        let best: nat = peak_index(samples, (n - 1) as nat);
        if samples[n - 1].measurement.below(samples[best as int].measurement) {
            best
        } else {
            (n - 1) as nat
        }
    }
}

/// The wavelength of the greatest measurement; zero if there is none.
pub open spec fn peak_wavelength(samples: Seq<SpectralSample>) -> Binary32 {
    if samples.len() == 0 {
        Binary32::zero()
    } else {
        samples[peak_index(samples, samples.len()) as int].wavelength
    }
}

/// The wavelength of the greatest measurement; zero if there is none.
pub fn peak_of(samples: &[SpectralSample]) -> (nm: Binary32)
    ensures
        nm == peak_wavelength(samples@),
{
    if samples.len() == 0 {
        return Binary32::zero();
    }
    let mut best: usize = 0;
    let mut i: usize = 1;
    while i < samples.len()
        invariant
            1 <= i <= samples@.len(),
            best < i,
            best == peak_index(samples@, i as nat),
        decreases samples@.len() - i,
    {
        if !samples[best].measurement.gt(samples[i].measurement) {
            best = i;
        }
        i = i + 1;
    }
    samples[best].wavelength
}

/// Among numbers, no measurement is above that at the peak, and each later one is
/// below it.
pub proof fn law_peak_is_last_greatest(samples: Seq<SpectralSample>)
    requires
        samples.len() > 0,
        forall|i: int| 0 <= i < samples.len() ==> !(#[trigger] samples[i]).measurement.is_nan(),
    ensures
        ({
            let peak: nat = peak_index(samples, samples.len());
            &&& peak < samples.len()
            &&& forall|i: int|
                0 <= i < samples.len() ==> (#[trigger] samples[i]).measurement.at_most(
                    samples[peak as int].measurement,
                )
            &&& forall|i: int|
                peak < i < samples.len() ==> (#[trigger] samples[i]).measurement.below(
                    samples[peak as int].measurement,
                )
        }),
{
    lemma_peak(samples, samples.len());
}

proof fn lemma_peak(samples: Seq<SpectralSample>, n: nat)
    requires
        0 < n <= samples.len(),
        forall|i: int| 0 <= i < samples.len() ==> !(#[trigger] samples[i]).measurement.is_nan(),
    ensures
        ({
            let peak: nat = peak_index(samples, n);
            &&& peak < n
            &&& forall|i: int|
                0 <= i < n ==> (#[trigger] samples[i]).measurement.at_most(
                    samples[peak as int].measurement,
                )
            &&& forall|i: int|
                peak < i < n ==> (#[trigger] samples[i]).measurement.below(
                    samples[peak as int].measurement,
                )
        }),
    decreases n,
{
    if n > 1 {
        lemma_peak(samples, (n - 1) as nat);
        let before: nat = peak_index(samples, (n - 1) as nat);
        assert(!samples[before as int].measurement.is_nan());
    } else {
        assert(!samples[0].measurement.is_nan());
    }
}

/// The measurements of some samples.
pub open spec fn measurements(samples: Seq<SpectralSample>) -> Seq<Binary32> {
    Seq::new(samples.len(), |i: int| samples[i].measurement)
}

fn collect_measurements(samples: &[SpectralSample]) -> (v: Vec<Binary32>)
    ensures
        v@ == measurements(samples@),
{
    let mut v: Vec<Binary32> = Vec::new();
    let mut i: usize = 0;
    while i < samples.len()
        invariant
            i <= samples@.len(),
            v@ == measurements(samples@).subrange(0, i as int),
        decreases samples@.len() - i,
    {
        v.push(samples[i].measurement);
        i = i + 1;
        assert(v@ =~= measurements(samples@).subrange(0, i as int));
    }
    assert(v@ =~= measurements(samples@));
    v
}

/// The number of sources among the first `n` faders.
pub open spec fn sources_before(entries: Seq<UIEntry>, n: nat) -> nat
    decreases n,
{
    if n == 0 {
        0
    } else {
        sources_before(entries, (n - 1) as nat) + if entries[n - 1] is Source {
            1nat
        } else {
            0nat
        }
    }
}

/// Whether fader `n` is numbered as it was found: sources and emitters each in their
/// order, and every emitter under the source that was found last before it.
pub open spec fn numbered(entries: Seq<UIEntry>, handle_sources: Seq<usize>, n: int) -> bool {
    let sources: nat = sources_before(entries, n as nat);
    match entries[n] {
        UIEntry::Source { label, source_index, .. } => {
            &&& source_index == sources
            &&& label@ == "S"@ + decimal(sources)
        },
        UIEntry::Emitter { peak_nm, color_name, handle_index, source_entry_index, .. } => {
            &&& handle_index == n - sources
            &&& handle_index < handle_sources.len()
            &&& source_entry_index < n
            &&& match entries[source_entry_index as int] {
                UIEntry::Source { source_index, .. } => source_index
                    == handle_sources[handle_index as int],
                UIEntry::Emitter { .. } => false,
            }
            &&& handle_sources[handle_index as int] == sources - 1
            &&& color_name == color_of(peak_nm)
        },
    }
}

/// The faders found so far.
#[derive(Debug, PartialEq, Eq)]
pub struct Catalog {
    pub entries: Vec<UIEntry>,
    /// For each emitter, the source that it belongs to.
    pub handle_sources: Vec<usize>,
    /// The number of sources.
    pub num_sources: usize,
    /// The fader of the source that was found last.
    pub current: usize,
}

impl Catalog {
    pub open spec fn wf(self) -> bool {
        &&& entries_valid(self.entries@)
        &&& self.num_sources == sources_before(self.entries@, self.entries@.len())
        &&& self.handle_sources@.len() + self.num_sources == self.entries@.len()
        &&& forall|n: int|
            0 <= n < self.entries@.len() ==> numbered(self.entries@, self.handle_sources@, n)
        &&& self.num_sources > 0 ==> {
            &&& self.current < self.entries@.len()
            &&& match self.entries@[self.current as int] {
                UIEntry::Source { source_index, .. } => source_index == self.num_sources - 1,
                UIEntry::Emitter { .. } => false,
            }
        }
    }

    /// A catalog without faders.
    pub fn new() -> (catalog: Catalog)
        ensures
            catalog.wf(),
            catalog.entries@.len() == 0,
            catalog.handle_sources@.len() == 0,
            catalog.num_sources == 0,
    {
        Catalog { entries: Vec::new(), handle_sources: Vec::new(), num_sources: 0, current: 0 }
    }

    /// Adds the next source, at the default flux.
    pub fn add_source(&mut self)
        requires
            old(self).wf(),
            old(self).entries@.len() < usize::MAX,
        ensures
            final(self).wf(),
            final(self).num_sources == old(self).num_sources + 1,
            final(self).handle_sources == old(self).handle_sources,
            final(self).current == old(self).entries@.len(),
            final(self).entries@.len() == old(self).entries@.len() + 1,
            final(self).entries@.drop_last() == old(self).entries@,
            match final(self).entries@.last() {
                UIEntry::Source { label, flux, source_index } => {
                    &&& label@ == "S"@ + decimal(old(self).num_sources as nat)
                    &&& flux == default_source_flux()
                    &&& source_index == old(self).num_sources
                },
                UIEntry::Emitter { .. } => false,
            },
    {
        let ghost before: Seq<UIEntry> = self.entries@;
        let source_index: usize = self.num_sources;
        let mut label: String = String::new();
        w(&mut label, "S");
        push_decimal(&mut label, source_index as u128);
        assert(label@ =~= "S"@ + decimal(source_index as nat));
        self.current = self.entries.len();
        self.entries.push(
            UIEntry::Source { label, flux: default_source_flux(), source_index },
        );
        self.num_sources = source_index + 1;
        proof {
            lemma_grown(before, self.handle_sources@, self.entries@, self.handle_sources@);
            assert(numbered(self.entries@, self.handle_sources@, before.len() as int));
            assert(entry_valid(self.entries@, before.len() as int));
        }
        assert(self.entries@.drop_last() =~= before);
    }

    /// Adds the next emitter of the source that was found last: emitter `ei` of source
    /// `si` of fixture `fi`, dark, with its spectrum if that could be read.
    pub fn add_emitter(
        &mut self,
        fi: usize,
        si: usize,
        ei: usize,
        spectral_data: Option<Vec<SpectralSample>>,
    )
        requires
            old(self).wf(),
            old(self).num_sources > 0,
        ensures
            final(self).wf(),
            final(self).num_sources == old(self).num_sources,
            final(self).current == old(self).current,
            final(self).handle_sources@ == old(self).handle_sources@.push(
                (old(self).num_sources - 1) as usize,
            ),
            final(self).entries@.len() == old(self).entries@.len() + 1,
            final(self).entries@.drop_last() == old(self).entries@,
            match final(self).entries@.last() {
                UIEntry::Source { .. } => false,
                UIEntry::Emitter {
                    label,
                    flux,
                    spectrum,
                    peak_nm,
                    color_name,
                    handle_index,
                    source_entry_index,
                } => {
                    &&& label@ == "F"@ + decimal(fi as nat) + "S"@ + decimal(si as nat) + "E"@
                        + decimal(ei as nat)
                    &&& flux == Binary32::zero()
                    &&& match spectral_data {
                        Some(samples) => {
                            &&& spectrum is Some
                            &&& spectrum->0@ == measurements(samples@)
                            &&& peak_nm == peak_wavelength(samples@)
                        },
                        None => spectrum is None && peak_nm == Binary32::zero(),
                    }
                    &&& color_name == color_of(peak_nm)
                    &&& handle_index == old(self).handle_sources@.len()
                    &&& source_entry_index == old(self).current
                },
            },
    {
        let ghost before: Seq<UIEntry> = self.entries@;
        let ghost sources: Seq<usize> = self.handle_sources@;
        let mut label: String = String::new();
        w(&mut label, "F");
        push_decimal(&mut label, fi as u128);
        w(&mut label, "S");
        push_decimal(&mut label, si as u128);
        w(&mut label, "E");
        push_decimal(&mut label, ei as u128);
        assert(label@ =~= "F"@ + decimal(fi as nat) + "S"@ + decimal(si as nat) + "E"@ + decimal(
            ei as nat,
        ));
        let (spectrum, peak_nm): (Option<Vec<Binary32>>, Binary32) = match &spectral_data {
            Some(samples) => (
                Some(collect_measurements(samples.as_slice())),
                peak_of(samples.as_slice()),
            ),
            None => (None, Binary32::zero()),
        };
        let handle_index: usize = self.handle_sources.len();
        self.entries.push(
            UIEntry::Emitter {
                label,
                flux: Binary32::zero(),
                spectrum,
                peak_nm,
                color_name: wavelength_color(peak_nm),
                handle_index,
                source_entry_index: self.current,
            },
        );
        self.handle_sources.push(self.num_sources - 1);
        proof {
            lemma_grown(before, sources, self.entries@, self.handle_sources@);
            assert(numbered(self.entries@, self.handle_sources@, before.len() as int));
            assert(entry_valid(self.entries@, before.len() as int));
        }
        assert(self.entries@.drop_last() =~= before);
    }

    /// The faders and the device that they are for, unless no emitter was found.
    pub fn finish(self) -> (r: Option<(Vec<UIEntry>, Device)>)
        requires
            self.wf(),
        ensures
            r is None <==> self.handle_sources@.len() == 0,
            match r {
                Some((entries, device)) => {
                    &&& entries == self.entries
                    &&& entries@.len() > 0
                    &&& entries_valid(entries@)
                    &&& device.handle_sources == self.handle_sources
                    &&& device.source_count == self.num_sources
                    &&& device.source_fluxes@ == Seq::new(
                        self.num_sources as nat,
                        |i: int| default_source_flux(),
                    )
                },
                None => true,
            },
    {
        if self.handle_sources.len() == 0 {
            None
        } else {
            let device: Device = Device::new(
                self.handle_sources,
                self.num_sources,
                self.num_sources,
            );
            Some((self.entries, device))
        }
    }
}

/// Every fader of a catalog is for a source or an emitter that was found.
pub proof fn law_faders_have_targets(catalog: Catalog, n: int)
    requires
        catalog.wf(),
        0 <= n < catalog.entries@.len(),
    ensures
        match command_of(catalog.entries@[n]) {
            DeviceCommand::SetSource(source, _) => source < catalog.num_sources,
            DeviceCommand::SetEmitter(handle, _) => {
                &&& handle < catalog.handle_sources@.len()
                &&& catalog.handle_sources@[handle as int] < catalog.num_sources
            },
        },
{
    let entries: Seq<UIEntry> = catalog.entries@;
    assert(numbered(entries, catalog.handle_sources@, n));
    lemma_sources_grow(entries, (n + 1) as nat, entries.len());
}

/// No two faders of a catalog are for the same source or for the same emitter.
pub proof fn law_faders_are_distinct(catalog: Catalog, m: int, n: int)
    requires
        catalog.wf(),
        0 <= m < n < catalog.entries@.len(),
    ensures
        match (command_of(catalog.entries@[m]), command_of(catalog.entries@[n])) {
            (DeviceCommand::SetSource(a, _), DeviceCommand::SetSource(b, _)) => a < b,
            (DeviceCommand::SetEmitter(a, _), DeviceCommand::SetEmitter(b, _)) => a < b,
            _ => true,
        },
{
    assert(numbered(catalog.entries@, catalog.handle_sources@, m));
    assert(numbered(catalog.entries@, catalog.handle_sources@, n));
    lemma_sources_grow(catalog.entries@, (m + 1) as nat, n as nat);
}

proof fn lemma_sources_grow(entries: Seq<UIEntry>, m: nat, n: nat)
    requires
        m <= n <= entries.len(),
    ensures
        sources_before(entries, m) <= sources_before(entries, n) <= sources_before(entries, m) + (n
            - m),
    decreases n - m,
{
    if m < n {
        lemma_sources_grow(entries, m, (n - 1) as nat);
    }
}

proof fn lemma_sources_before(entries: Seq<UIEntry>, more: Seq<UIEntry>, n: nat)
    requires
        n <= entries.len() <= more.len(),
        forall|i: int| 0 <= i < entries.len() ==> entries[i] == more[i],
    ensures
        sources_before(more, n) == sources_before(entries, n),
    decreases n,
{
    if n > 0 {
        lemma_sources_before(entries, more, (n - 1) as nat);
    }
}

/// Faders keep their numbers when more are found.
proof fn lemma_grown(
    entries: Seq<UIEntry>,
    handle_sources: Seq<usize>,
    more: Seq<UIEntry>,
    more_sources: Seq<usize>,
)
    requires
        entries_valid(entries),
        forall|n: int| 0 <= n < entries.len() ==> numbered(entries, handle_sources, n),
        entries.len() <= more.len(),
        handle_sources.len() <= more_sources.len(),
        forall|i: int| 0 <= i < entries.len() ==> entries[i] == more[i],
        forall|i: int| 0 <= i < handle_sources.len() ==> handle_sources[i] == more_sources[i],
    ensures
        sources_before(more, entries.len()) == sources_before(entries, entries.len()),
        forall|n: int| 0 <= n < entries.len() ==> numbered(more, more_sources, n),
        forall|n: int| 0 <= n < entries.len() ==> entry_valid(more, n),
{
    lemma_sources_before(entries, more, entries.len());
    assert forall|n: int| 0 <= n < entries.len() implies numbered(more, more_sources, n) by {
        assert(numbered(entries, handle_sources, n));
        lemma_sources_before(entries, more, n as nat);
    }
    assert forall|n: int| 0 <= n < entries.len() implies entry_valid(more, n) by {
        assert(entry_valid(entries, n));
    }
}

/// One more measurement is the new peak unless it is below the one at the peak so far.
pub proof fn law_peak_moves(samples: Seq<SpectralSample>, sample: SpectralSample)
    ensures
        samples.len() == 0 ==> peak_wavelength(samples).bits == 0 && peak_wavelength(
            samples.push(sample),
        ) == sample.wavelength,
        samples.len() > 0 ==> ({
            let peak: int = peak_index(samples, samples.len()) as int;
            &&& peak_wavelength(samples) == samples[peak].wavelength
            &&& peak_wavelength(samples.push(sample)) == if sample.measurement.below(
                samples[peak].measurement,
            ) {
                peak_wavelength(samples)
            } else {
                sample.wavelength
            }
        }),
{
    let more: Seq<SpectralSample> = samples.push(sample);
    lemma_peak_prefix(samples, sample, samples.len());
}

proof fn lemma_peak_prefix(samples: Seq<SpectralSample>, sample: SpectralSample, n: nat)
    requires
        n <= samples.len(),
    ensures
        peak_index(samples.push(sample), n) == peak_index(samples, n),
        n > 0 ==> peak_index(samples, n) < n,
    decreases n,
{
    if n > 1 {
        lemma_peak_prefix(samples, sample, (n - 1) as nat);
    }
}

/// The measurements are those of the samples, one for each, in their order.
pub proof fn law_measurements(samples: Seq<SpectralSample>, i: int)
    requires
        0 <= i < samples.len(),
    ensures
        measurements(samples).len() == samples.len(),
        measurements(samples)[i] == samples[i].measurement,
{
}

} // verus!
