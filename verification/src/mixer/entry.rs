//! The faders of the desk.

use vstd::arithmetic::power2::pow2;
use vstd::prelude::*;

use crate::binary32::{
    from_integer, law_from_integer_exact, law_order_is_value_order, Binary32, FRACTION_PLACES,
};

verus! {

/// The flux of a source that nobody has moved.
#[verifier::allow_in_spec]
pub fn default_source_flux() -> Binary32
    returns
        Binary32::one(),
{
    Binary32::one()
}

/// The flux of a fixture: one half.
#[verifier::allow_in_spec]
pub fn fixture_flux() -> Binary32
    returns
        (Binary32 { bits: 0x3f00_0000 }),
{
    Binary32 { bits: 0x3f00_0000 }
}

/// A fader.
#[derive(Debug, PartialEq, Eq)]
pub enum UIEntry {
    /// The master flux of a source.
    Source { label: String, flux: Binary32, source_index: usize },
    /// The flux of an emitter, and the spectrum that it gives at full flux.
    Emitter {
        label: String,
        flux: Binary32,
        spectrum: Option<Vec<Binary32>>,
        peak_nm: Binary32,
        color_name: &'static str,
        handle_index: usize,
        source_entry_index: usize,
    },
}

impl UIEntry {
    /// The flux that the fader is at.
    pub open spec fn level(self) -> Binary32 {
        match self {
            UIEntry::Source { flux, .. } => flux,
            UIEntry::Emitter { flux, .. } => flux,
        }
    }

    /// The same fader at another flux.
    pub open spec fn at_level(self, new: Binary32) -> UIEntry {
        match self {
            UIEntry::Source { label, flux, source_index } => UIEntry::Source {
                label,
                flux: new,
                source_index,
            },
            UIEntry::Emitter {
                label,
                flux,
                spectrum,
                peak_nm,
                color_name,
                handle_index,
                source_entry_index,
            } => UIEntry::Emitter {
                label,
                flux: new,
                spectrum,
                peak_nm,
                color_name,
                handle_index,
                source_entry_index,
            },
        }
    }

    /// The flux that the fader is at.
    pub fn flux(&self) -> (r: Binary32)
        ensures
            r == self.level(),
    {
        match self {
            UIEntry::Source { flux, .. } => *flux,
            UIEntry::Emitter { flux, .. } => *flux,
        }
    }

    /// Moves the fader.
    pub fn set_flux(&mut self, new: Binary32)
        ensures
            *final(self) == old(self).at_level(new),
    {
        match self {
            UIEntry::Source { flux, .. } => {
                *flux = new;
            },
            UIEntry::Emitter { flux, .. } => {
                *flux = new;
            },
        }
    }
}

/// Whether a flux lies from zero to one.
pub open spec fn in_unit(flux: Binary32) -> bool {
    !flux.negative() && flux.magnitude() <= Binary32::one().magnitude()
}

/// The name of the color of light of a wavelength.
pub open spec fn color_of(nm: Binary32) -> &'static str {
    if nm.below(from_integer(450)) {
        "violet"
    } else if nm.below(from_integer(480)) {
        "blue"
    } else if nm.below(from_integer(500)) {
        "cyan"
    } else if nm.below(from_integer(530)) {
        "green"
    } else if nm.below(from_integer(570)) {
        "lime"
    } else if nm.below(from_integer(600)) {
        "amber"
    } else if nm.below(from_integer(640)) {
        "orange"
    } else {
        "red"
    }
}

/// The name of the color of light of a wavelength, in nanometres.
pub fn wavelength_color(nm: Binary32) -> (name: &'static str)
    ensures
        name == color_of(nm),
{
    if nm.lt(Binary32::from_usize(450)) {
        "violet"
    } else if nm.lt(Binary32::from_usize(480)) {
        "blue"
    } else if nm.lt(Binary32::from_usize(500)) {
        "cyan"
    } else if nm.lt(Binary32::from_usize(530)) {
        "green"
    } else if nm.lt(Binary32::from_usize(570)) {
        "lime"
    } else if nm.lt(Binary32::from_usize(600)) {
        "amber"
    } else if nm.lt(Binary32::from_usize(640)) {
        "orange"
    } else {
        "red"
    }
}

/// The level of a fader is its flux, and moving it changes that and nothing else.
pub proof fn law_faders_move(entry: UIEntry, new: Binary32)
    ensures
        match entry {
            UIEntry::Source { label, flux, source_index } => {
                &&& entry.level() == flux
                &&& entry.at_level(new) == (UIEntry::Source { label, flux: new, source_index })
            },
            UIEntry::Emitter {
                label,
                flux,
                spectrum,
                peak_nm,
                color_name,
                handle_index,
                source_entry_index,
            } => {
                &&& entry.level() == flux
                &&& entry.at_level(new) == (UIEntry::Emitter {
                    label,
                    flux: new,
                    spectrum,
                    peak_nm,
                    color_name,
                    handle_index,
                    source_entry_index,
                })
            },
        },
        entry.at_level(new).level() == new,
        entry.at_level(entry.level()) == entry,
{
}

/// The colors follow each other from violet to red: each begins where the one before ends.
pub proof fn law_colors(nm: Binary32)
    requires
        nm.is_finite(),
    ensures
        ({
            let unit: int = pow2(FRACTION_PLACES as nat) as int;
            let v: int = nm.value();
            let name: &'static str = color_of(nm);
            &&& v < 450 * unit ==> name == "violet"
            &&& 450 * unit <= v < 480 * unit ==> name == "blue"
            &&& 480 * unit <= v < 500 * unit ==> name == "cyan"
            &&& 500 * unit <= v < 530 * unit ==> name == "green"
            &&& 530 * unit <= v < 570 * unit ==> name == "lime"
            &&& 570 * unit <= v < 600 * unit ==> name == "amber"
            &&& 600 * unit <= v < 640 * unit ==> name == "orange"
            &&& 640 * unit <= v ==> name == "red"
        }),
{
    lemma_threshold(nm, 450);
    lemma_threshold(nm, 480);
    lemma_threshold(nm, 500);
    lemma_threshold(nm, 530);
    lemma_threshold(nm, 570);
    lemma_threshold(nm, 600);
    lemma_threshold(nm, 640);
}

proof fn lemma_threshold(nm: Binary32, n: nat)
    requires
        nm.is_finite(),
        n < 1000,
    ensures
        nm.below(from_integer(n)) <==> nm.value() < n * pow2(FRACTION_PLACES as nat),
{
    law_from_integer_exact(n);
    law_order_is_value_order(nm, from_integer(n));
}

/// What has no value is red, and so is what is beyond every wavelength.
pub proof fn law_colors_beyond(nm: Binary32)
    ensures
        nm.is_nan() ==> color_of(nm) == "red",
        nm.is_infinite() && !nm.negative() ==> color_of(nm) == "red",
        nm.is_infinite() && nm.negative() ==> color_of(nm) == "violet",
{
    if nm.is_infinite() {
        law_from_integer_exact(450);
        law_from_integer_exact(480);
        law_from_integer_exact(500);
        law_from_integer_exact(530);
        law_from_integer_exact(570);
        law_from_integer_exact(600);
        law_from_integer_exact(640);
    }
}

} // verus!
