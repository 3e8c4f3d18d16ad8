//! From commands of the desk to the least that the device must be told.
//!
//! Commands that have piled up are taken together in one round. Of several for the
//! same emitter or source only the last counts. A round sets the emitters, then
//! displays every source that was touched, then the fixture.

use vstd::prelude::*;

use crate::binary32::Binary32;
use crate::mixer::entry::{default_source_flux, fixture_flux};

verus! {

/// What the desk asks of the device.
#[derive(Clone, Copy, Debug, PartialEq, Eq, Structural)]
pub enum DeviceCommand {
    /// To set the emitter of a handle.
    SetEmitter(usize, Binary32),
    /// To set the master flux of a source.
    SetSource(usize, Binary32),
}

/// A flux for each of some resources.
pub type Levels = Seq<(usize, Binary32)>;

/// Where a resource stands among the first `n`, or `n` if it is not there.
pub open spec fn find(levels: Levels, key: usize, n: nat) -> nat
    decreases n,
{
    if n == 0 {
        0
    } else {
        let i: nat = find(levels, key, (n - 1) as nat);
        if i < n - 1 || levels[n - 1].0 == key {
            i
        } else {
            n
        }
    }
}

/// Levels after one more: a resource that is there keeps its place.
pub open spec fn put(levels: Levels, key: usize, flux: Binary32) -> Levels {
    let i: nat = find(levels, key, levels.len());
    if i < levels.len() {
        levels.update(i as int, (key, flux))
    } else {
        levels.push((key, flux))
    }
}

/// What some commands come to for the emitters.
pub open spec fn emitter_levels(commands: Seq<DeviceCommand>) -> Levels
    decreases commands.len(),
{
    if commands.len() == 0 {
        Seq::empty()
    } else {
        let before: Levels = emitter_levels(commands.drop_last());
        match commands.last() {
            DeviceCommand::SetEmitter(key, flux) => put(before, key, flux),
            DeviceCommand::SetSource(_, _) => before,
        }
    }
}

/// What some commands come to for the sources.
pub open spec fn source_levels(commands: Seq<DeviceCommand>) -> Levels
    decreases commands.len(),
{
    if commands.len() == 0 {
        Seq::empty()
    } else {
        let before: Levels = source_levels(commands.drop_last());
        match commands.last() {
            DeviceCommand::SetEmitter(_, _) => before,
            DeviceCommand::SetSource(key, flux) => put(before, key, flux),
        }
    }
}

proof fn lemma_find(levels: Levels, key: usize, n: nat)
    requires
        n <= levels.len(),
    ensures
        find(levels, key, n) <= n,
        find(levels, key, n) < n ==> levels[find(levels, key, n) as int].0 == key,
        forall|j: int| 0 <= j < find(levels, key, n) ==> (#[trigger] levels[j]).0 != key,
    decreases n,
{
    if n > 0 {
        lemma_find(levels, key, (n - 1) as nat);
    }
}

/// Puts a level into a table.
fn put_level(table: &mut Vec<(usize, Binary32)>, key: usize, flux: Binary32)
    ensures
        final(table)@ == put(old(table)@, key, flux),
{
    let ghost before: Levels = table@;
    let mut i: usize = 0;
    while i < table.len() && table[i].0 != key
        invariant
            i <= table@.len(),
            table@ == before,
            find(before, key, i as nat) == i,
        decreases table@.len() - i,
    {
        i = i + 1;
    }
    proof {
        if i < before.len() {
            lemma_find_stays(before, key, (i + 1) as nat, before.len());
        }
    }
    if i < table.len() {
        table.set(i, (key, flux));
    } else {
        table.push((key, flux));
    }
}

proof fn lemma_find_stays(levels: Levels, key: usize, m: nat, n: nat)
    requires
        m <= n <= levels.len(),
        find(levels, key, m) < m,
    ensures
        find(levels, key, n) == find(levels, key, m),
    decreases n - m,
{
    if m < n {
        lemma_find_stays(levels, key, m, (n - 1) as nat);
    }
}

/// What some commands come to.
#[derive(Debug, PartialEq, Eq)]
pub struct Batch {
    pub emitters: Vec<(usize, Binary32)>,
    pub sources: Vec<(usize, Binary32)>,
}

/// Takes commands together.
pub fn coalesce(commands: &[DeviceCommand]) -> (batch: Batch)
    ensures
        batch.emitters@ == emitter_levels(commands@),
        batch.sources@ == source_levels(commands@),
{
    let mut emitters: Vec<(usize, Binary32)> = Vec::new();
    let mut sources: Vec<(usize, Binary32)> = Vec::new();
    let mut i: usize = 0;
    assert(commands@.subrange(0, 0) =~= Seq::empty());
    while i < commands.len()
        invariant
            i <= commands@.len(),
            emitters@ == emitter_levels(commands@.subrange(0, i as int)),
            sources@ == source_levels(commands@.subrange(0, i as int)),
        decreases commands@.len() - i,
    {
        match commands[i] {
            DeviceCommand::SetEmitter(key, flux) => put_level(&mut emitters, key, flux),
            DeviceCommand::SetSource(key, flux) => put_level(&mut sources, key, flux),
        }
        i = i + 1;
        assert(commands@.subrange(0, i as int).drop_last() =~= commands@.subrange(0, i - 1));
    }
    assert(commands@.subrange(0, i as int) =~= commands@);
    Batch { emitters, sources }
}

/// Fluxes after some levels; levels beyond the last flux change nothing.
pub open spec fn with_levels(fluxes: Seq<Binary32>, levels: Levels) -> Seq<Binary32>
    decreases levels.len(),
{
    if levels.len() == 0 {
        fluxes
    } else {
        let before: Seq<Binary32> = with_levels(fluxes, levels.drop_last());
        let (key, flux): (usize, Binary32) = levels.last();
        if key < before.len() {
            before.update(key as int, flux)
        } else {
            before
        }
    }
}

/// Those levels whose resource is among the first `count`.
pub open spec fn within(levels: Levels, count: nat) -> Levels
    decreases levels.len(),
{
    if levels.len() == 0 {
        Seq::empty()
    } else {
        let before: Levels = within(levels.drop_last(), count);
        if levels.last().0 < count {
            before.push(levels.last())
        } else {
            before
        }
    }
}

/// Sources with one more, unless it is there.
pub open spec fn touched(sources: Seq<usize>, source: usize) -> Seq<usize> {
    if sources.contains(source) {
        sources
    } else {
        sources.push(source)
    }
}

/// The sources that some levels name.
pub open spec fn named(levels: Levels) -> Seq<usize>
    decreases levels.len(),
{
    if levels.len() == 0 {
        Seq::empty()
    } else {
        touched(named(levels.drop_last()), levels.last().0)
    }
}

/// The sources that are touched when the first `n` emitters have been set, those
/// of emitters that could not be set left out.
pub open spec fn touched_by(
    sources: Seq<usize>,
    handle_sources: Seq<usize>,
    emitters: Levels,
    errors: Seq<Option<String>>,
    n: nat,
) -> Seq<usize>
    decreases n,
{
    if n == 0 {
        sources
    } else {
        let before: Seq<usize> = touched_by(
            sources,
            handle_sources,
            emitters,
            errors,
            (n - 1) as nat,
        );
        if errors[n - 1] is None {
            touched(before, handle_sources[emitters[n - 1].0 as int])
        } else {
            before
        }
    }
}

/// The flux of a source, or the default for one that is not tracked.
pub open spec fn master(fluxes: Seq<Binary32>, source: usize) -> Binary32 {
    if source < fluxes.len() {
        fluxes[source as int]
    } else {
        default_source_flux()
    }
}

/// The displays of some sources, those that do not exist left out.
pub open spec fn displays_of(sources: Seq<usize>, fluxes: Seq<Binary32>, count: nat) -> Levels
    decreases sources.len(),
{
    if sources.len() == 0 {
        Seq::empty()
    } else {
        let before: Levels = displays_of(sources.drop_last(), fluxes, count);
        if sources.last() < count {
            before.push((sources.last(), master(fluxes, sources.last())))
        } else {
            before
        }
    }
}

/// What is known of a device while it is driven.
#[derive(Debug, PartialEq, Eq)]
pub struct Device {
    /// For each emitter handle, the source that it belongs to.
    pub handle_sources: Vec<usize>,
    /// The number of sources.
    pub source_count: usize,
    /// The master flux of each tracked source.
    pub source_fluxes: Vec<Binary32>,
}

/// The first part of a round: the emitters to set, and the sources touched so far.
#[derive(Debug, PartialEq, Eq)]
pub struct Round {
    pub emitters: Vec<(usize, Binary32)>,
    pub affected: Vec<usize>,
}

/// The second part of a round: the sources to display, and then, if there is a flux
/// for it, the fixture of the first emitter.
#[derive(Debug, PartialEq, Eq)]
pub struct Displays {
    pub sources: Vec<(usize, Binary32)>,
    pub fixture: Option<Binary32>,
}

/// What brings a device to a known state: the sources to display, then the emitters
/// to set, then, if there is a flux for it, the fixture of the first emitter.
#[derive(Debug, PartialEq, Eq)]
pub struct Initialization {
    pub sources: Vec<(usize, Binary32)>,
    pub emitters: Vec<(usize, Binary32)>,
    pub fixture: Option<Binary32>,
}

/// The same flux for each of the first `count` resources.
pub open spec fn uniform(count: nat, flux: Binary32) -> Levels {
    Seq::new(count, |i: int| (i as usize, flux))
}

/// The same flux for each of the first `count` resources.
fn uniform_levels(count: usize, flux: Binary32) -> (levels: Vec<(usize, Binary32)>)
    ensures
        levels@ == uniform(count as nat, flux),
{
    let mut levels: Vec<(usize, Binary32)> = Vec::new();
    let mut i: usize = 0;
    while i < count
        invariant
            i <= count,
            levels@ == uniform(i as nat, flux),
        decreases count - i,
    {
        levels.push((i, flux));
        i = i + 1;
        assert(levels@ =~= uniform(i as nat, flux));
    }
    levels
}

/// Adds a source, unless it is there.
fn touch(sources: &mut Vec<usize>, source: usize)
    ensures
        final(sources)@ == touched(old(sources)@, source),
{
    let mut i: usize = 0;
    while i < sources.len()
        invariant
            i <= sources@.len(),
            sources@ == old(sources)@,
            forall|j: int| 0 <= j < i ==> sources@[j] != source,
        decreases sources@.len() - i,
    {
        if sources[i] == source {
            assert(sources@[i as int] == source);
            return;
        }
        i = i + 1;
    }
    sources.push(source);
}

impl Device {
    /// A device with the given sources, all at the default flux.
    pub fn new(handle_sources: Vec<usize>, source_count: usize, num_sources: usize) -> (device:
        Device)
        ensures
            device.handle_sources == handle_sources,
            device.source_count == source_count,
            device.source_fluxes@ == Seq::new(num_sources as nat, |i: int| default_source_flux()),
            device.source_fluxes@.len() == num_sources,
            forall|i: int|
                0 <= i < num_sources ==> (#[trigger] device.source_fluxes@[i]).bits == 0x3f80_0000,
    {
        let mut source_fluxes: Vec<Binary32> = Vec::new();
        let mut i: usize = 0;
        while i < num_sources
            invariant
                i <= num_sources,
                source_fluxes@ == Seq::new(i as nat, |i: int| default_source_flux()),
            decreases num_sources - i,
        {
            source_fluxes.push(default_source_flux());
            i = i + 1;
        }
        Device { handle_sources, source_count, source_fluxes }
    }

    /// What brings the device to a known state: every source at the default flux,
    /// every emitter dark.
    pub fn initialization(&self) -> (r: Initialization)
        ensures
            r.sources@ == uniform(self.source_count as nat, default_source_flux()),
            r.emitters@ == uniform(self.handle_sources@.len(), Binary32::zero()),
            r.fixture == if self.handle_sources@.len() > 0 {
                Some(fixture_flux())
            } else {
                None
            },
            r.sources@.len() == self.source_count,
            forall|i: int|
                0 <= i < self.source_count ==> #[trigger] r.sources@[i] == (
                    i as usize,
                    Binary32 { bits: 0x3f80_0000 },
                ),
            r.emitters@.len() == self.handle_sources@.len(),
            forall|i: int|
                0 <= i < self.handle_sources@.len() ==> #[trigger] r.emitters@[i] == (
                    i as usize,
                    Binary32 { bits: 0 },
                ),
            r.fixture is Some ==> r.fixture->0.bits == 0x3f00_0000,
    {
        Initialization {
            sources: uniform_levels(self.source_count, default_source_flux()),
            emitters: uniform_levels(self.handle_sources.len(), Binary32::zero()),
            fixture: if self.handle_sources.len() > 0 {
                Some(fixture_flux())
            } else {
                None
            },
        }
    }

    /// Begins a round: takes the commands together, tracks the fluxes of the sources,
    /// and gives the emitters to set. What names no source or emitter is left out.
    pub fn begin_round(&mut self, commands: &[DeviceCommand]) -> (round: Round)
        ensures
            final(self).handle_sources == old(self).handle_sources,
            final(self).source_count == old(self).source_count,
            final(self).source_fluxes@ == with_levels(
                old(self).source_fluxes@,
                source_levels(commands@),
            ),
            round.emitters@ == within(
                emitter_levels(commands@),
                old(self).handle_sources@.len(),
            ),
            round.affected@ == named(
                within(source_levels(commands@), old(self).source_fluxes@.len()),
            ),
            round.affected@.no_duplicates(),
            forall|i: int|
                0 <= i < round.emitters@.len() ==> (#[trigger] round.emitters@[i]).0 < old(
                    self,
                ).handle_sources@.len(),
            final(self).source_fluxes@.len() == old(self).source_fluxes@.len(),
            forall|source: usize, c: int, flux: Binary32|
                source < old(self).source_fluxes@.len() && #[trigger] last_sets_source(
                    commands@,
                    c,
                    source,
                    flux,
                ) ==> final(self).source_fluxes@[source as int] == flux,
            forall|source: usize|
                source < old(self).source_fluxes@.len() && !#[trigger] sets_source(
                    commands@,
                    source,
                ) ==> final(self).source_fluxes@[source as int] == old(
                    self,
                ).source_fluxes@[source as int],
            forall|source: usize| #[trigger]
                round.affected@.contains(source) <==> source < old(self).source_fluxes@.len()
                    && sets_source(commands@, source),
            distinct(round.emitters@),
            forall|i: int|
                0 <= i < round.emitters@.len() ==> sets_emitter(
                    commands@,
                    (#[trigger] round.emitters@[i]).0,
                ),
            forall|i: int, c: int, flux: Binary32|
                0 <= i < round.emitters@.len() && #[trigger] last_sets_emitter(
                    commands@,
                    c,
                    (#[trigger] round.emitters@[i]).0,
                    flux,
                ) ==> round.emitters@[i].1 == flux,
            forall|handle: usize|
                handle < old(self).handle_sources@.len() && #[trigger] sets_emitter(
                    commands@,
                    handle,
                ) ==> exists|i: int|
                    0 <= i < round.emitters@.len() && (#[trigger] round.emitters@[i]).0 == handle,
    {
        assert(self.source_fluxes.len() == self.source_fluxes@.len());
        let batch: Batch = coalesce(commands);
        let ghost levels: Levels = source_levels(commands@);
        let ghost fluxes: Seq<Binary32> = self.source_fluxes@;
        let mut affected: Vec<usize> = Vec::new();
        let mut i: usize = 0;
        assert(levels.subrange(0, 0) =~= Seq::empty());
        while i < batch.sources.len()
            invariant
                i <= batch.sources@.len(),
                batch.sources@ == levels,
                self.handle_sources == old(self).handle_sources,
                self.source_count == old(self).source_count,
                self.source_fluxes@.len() == fluxes.len(),
                self.source_fluxes@ == with_levels(fluxes, levels.subrange(0, i as int)),
                affected@ == named(within(levels.subrange(0, i as int), fluxes.len())),
            decreases batch.sources@.len() - i,
        {
            let (source, flux): (usize, Binary32) = batch.sources[i];
            proof {
                let rest: Levels = levels.subrange(0, i + 1);
                assert(rest.drop_last() =~= levels.subrange(0, i as int));
                assert(rest.last() == (source, flux));
                let kept: Levels = within(levels.subrange(0, i as int), fluxes.len());
                assert(kept.push((source, flux)).drop_last() =~= kept);
            }
            if source < self.source_fluxes.len() {
                self.source_fluxes.set(source, flux);
                touch(&mut affected, source);
            }
            i = i + 1;
        }
        assert(levels.subrange(0, i as int) =~= levels);
        let handles: usize = self.handle_sources.len();
        let ghost all: Levels = emitter_levels(commands@);
        let mut emitters: Vec<(usize, Binary32)> = Vec::new();
        let mut j: usize = 0;
        assert(all.subrange(0, 0) =~= Seq::empty());
        while j < batch.emitters.len()
            invariant
                j <= batch.emitters@.len(),
                batch.emitters@ == all,
                emitters@ == within(all.subrange(0, j as int), handles as nat),
            decreases batch.emitters@.len() - j,
        {
            let level: (usize, Binary32) = batch.emitters[j];
            assert(all.subrange(0, j + 1).drop_last() =~= all.subrange(0, j as int));
            if level.0 < handles {
                emitters.push(level);
            }
            j = j + 1;
        }
        assert(all.subrange(0, j as int) =~= all);
        proof {
            lemma_within(all, handles as nat);
            law_round_touches_sources(commands@, fluxes.len());
            assert forall|source: usize|
                source < fluxes.len() implies #[trigger] self.source_fluxes@[source as int]
                == with_levels(fluxes, levels)[source as int] by {}
            assert forall|source: usize, c: int, flux: Binary32|
                source < fluxes.len() && #[trigger] last_sets_source(
                    commands@,
                    c,
                    source,
                    flux,
                ) implies self.source_fluxes@[source as int] == flux by {
                law_round_sets_sources(fluxes, commands@, source);
            }
            assert forall|source: usize|
                source < fluxes.len() && !#[trigger] sets_source(
                    commands@,
                    source,
                ) implies self.source_fluxes@[source as int] == fluxes[source as int] by {
                law_round_sets_sources(fluxes, commands@, source);
            }
            law_round_sets_emitters(commands@, handles as nat, 0);
            assert forall|i: int, c: int, flux: Binary32|
                0 <= i < emitters@.len() && #[trigger] last_sets_emitter(
                    commands@,
                    c,
                    (#[trigger] emitters@[i]).0,
                    flux,
                ) implies emitters@[i].1 == flux by {
                law_round_sets_emitters(commands@, handles as nat, emitters@[i].0);
            }
            assert forall|i: int| 0 <= i < emitters@.len() implies sets_emitter(
                commands@,
                (#[trigger] emitters@[i]).0,
            ) by {
                law_round_sets_emitters(commands@, handles as nat, emitters@[i].0);
            }
            assert forall|handle: usize|
                handle < handles && #[trigger] sets_emitter(commands@, handle) implies exists|
                i: int,
            | 0 <= i < emitters@.len() && (#[trigger] emitters@[i]).0 == handle by {
                law_round_sets_emitters(commands@, handles as nat, handle);
            }
        }
        Round { emitters, affected }
    }

    /// Ends a round: given what went wrong with each emitter, the displays that make
    /// it visible. The fixture is displayed if any source was touched.
    pub fn displays(&self, round: Round, errors: &[Option<String>]) -> (displays: Displays)
        requires
            errors@.len() == round.emitters@.len(),
            forall|i: int|
                0 <= i < round.emitters@.len() ==> (#[trigger] round.emitters@[i]).0
                    < self.handle_sources@.len(),
        ensures
            ({
                let affected: Seq<usize> = touched_by(
                    round.affected@,
                    self.handle_sources@,
                    round.emitters@,
                    errors@,
                    errors@.len(),
                );
                &&& displays.sources@ == displays_of(
                    affected,
                    self.source_fluxes@,
                    self.source_count as nat,
                )
                &&& displays.fixture == if affected.len() > 0 && self.handle_sources@.len() > 0 {
                    Some(fixture_flux())
                } else {
                    None
                }
            }),
            forall|k: int|
                0 <= k < displays.sources@.len() ==> {
                    let (source, flux): (usize, Binary32) = #[trigger] displays.sources@[k];
                    &&& source < self.source_count
                    &&& is_touched(self.handle_sources@, round, errors@, source)
                    &&& source < self.source_fluxes@.len() ==> flux
                        == self.source_fluxes@[source as int]
                    &&& source >= self.source_fluxes@.len() ==> flux == Binary32::one()
                },
            forall|source: usize|
                source < self.source_count && #[trigger] is_touched(
                    self.handle_sources@,
                    round,
                    errors@,
                    source,
                ) ==> exists|k: int|
                    0 <= k < displays.sources@.len() && (#[trigger] displays.sources@[k]).0
                        == source,
            round.affected@.no_duplicates() ==> distinct(displays.sources@),
            displays.fixture is Some <==> self.handle_sources@.len() > 0 && exists|source: usize|
                #[trigger] is_touched(self.handle_sources@, round, errors@, source),
            displays.fixture is Some ==> displays.fixture->0.bits == 0x3f00_0000,
    {
        let ghost first: Seq<usize> = round.affected@;
        let mut affected: Vec<usize> = round.affected;
        let mut i: usize = 0;
        while i < errors.len()
            invariant
                i <= errors@.len(),
                errors@.len() == round.emitters@.len(),
                forall|i: int|
                    0 <= i < round.emitters@.len() ==> (#[trigger] round.emitters@[i]).0
                        < self.handle_sources@.len(),
                affected@ == touched_by(
                    first,
                    self.handle_sources@,
                    round.emitters@,
                    errors@,
                    i as nat,
                ),
            decreases errors@.len() - i,
        {
            let handle: usize = round.emitters[i].0;
            if errors[i].is_none() {
                touch(&mut affected, self.handle_sources[handle]);
            }
            i = i + 1;
        }
        let mut sources: Vec<(usize, Binary32)> = Vec::new();
        let mut j: usize = 0;
        assert(affected@.subrange(0, 0) =~= Seq::empty());
        while j < affected.len()
            invariant
                j <= affected@.len(),
                sources@ == displays_of(
                    affected@.subrange(0, j as int),
                    self.source_fluxes@,
                    self.source_count as nat,
                ),
            decreases affected@.len() - j,
        {
            let source: usize = affected[j];
            assert(affected@.subrange(0, j + 1).drop_last() =~= affected@.subrange(0, j as int));
            if source < self.source_count {
                let flux: Binary32 = if source < self.source_fluxes.len() {
                    self.source_fluxes[source]
                } else {
                    default_source_flux()
                };
                sources.push((source, flux));
            }
            j = j + 1;
        }
        assert(affected@.subrange(0, j as int) =~= affected@);
        let fixture: Option<Binary32> = if affected.len() > 0 && self.handle_sources.len() > 0 {
            Some(fixture_flux())
        } else {
            None
        };
        proof {
            law_display_fluxes(affected@, self.source_fluxes@, self.source_count as nat);
            lemma_touched_are(self.handle_sources@, round, errors@);
            if affected@.len() > 0 {
                assert(affected@.contains(affected@[0]));
                assert(is_touched(self.handle_sources@, round, errors@, affected@[0]));
            }
        }
        Displays { sources, fixture }
    }
}

/// Whether a round touches a source: its own flux was set, or one of its emitters could be
/// set.
pub open spec fn is_touched(
    handle_sources: Seq<usize>,
    round: Round,
    errors: Seq<Option<String>>,
    source: usize,
) -> bool {
    ||| round.affected@.contains(source)
    ||| exists|i: int|
        0 <= i < round.emitters@.len() && errors[i] is None
            && handle_sources[#[trigger] round.emitters@[i].0 as int] == source
}

proof fn lemma_touched_are(
    handle_sources: Seq<usize>,
    round: Round,
    errors: Seq<Option<String>>,
)
    requires
        errors.len() == round.emitters@.len(),
    ensures
        ({
            let affected: Seq<usize> = touched_by(
                round.affected@,
                handle_sources,
                round.emitters@,
                errors,
                errors.len(),
            );
            &&& round.affected@.no_duplicates() ==> affected.no_duplicates()
            &&& forall|s: usize|
                #![trigger affected.contains(s)]
                #![trigger is_touched(handle_sources, round, errors, s)]
                affected.contains(s) <==> is_touched(handle_sources, round, errors, s)
        }),
{
    lemma_touched_members(
        round.affected@,
        handle_sources,
        round.emitters@,
        errors,
        errors.len(),
    );
    if round.affected@.no_duplicates() {
        lemma_touched_by(round.affected@, handle_sources, round.emitters@, errors, errors.len());
    }
}

proof fn lemma_touched_members(
    sources: Seq<usize>,
    handle_sources: Seq<usize>,
    emitters: Levels,
    errors: Seq<Option<String>>,
    n: nat,
)
    requires
        n <= errors.len() == emitters.len(),
    ensures
        forall|s: usize| #[trigger]
            touched_by(sources, handle_sources, emitters, errors, n).contains(s)
                <==> sources.contains(s) || (exists|i: int|
                0 <= i < n && errors[i] is None
                    && handle_sources[#[trigger] emitters[i].0 as int] == s),
    decreases n,
{
    if n > 0 {
        let m: nat = (n - 1) as nat;
        lemma_touched_members(sources, handle_sources, emitters, errors, m);
        let before: Seq<usize> = touched_by(sources, handle_sources, emitters, errors, m);
        let source: usize = handle_sources[emitters[m as int].0 as int];
        let after: Seq<usize> = touched_by(sources, handle_sources, emitters, errors, n);
        assert forall|s: usize| #[trigger]
            after.contains(s) <==> sources.contains(s) || (exists|i: int|
                0 <= i < n && errors[i] is None
                    && handle_sources[#[trigger] emitters[i].0 as int] == s) by {
            assert(before.contains(s) <==> sources.contains(s) || (exists|i: int|
                0 <= i < m && errors[i] is None
                    && handle_sources[#[trigger] emitters[i].0 as int] == s));
            if errors[m as int] is None {
                if s == source {
                    assert(handle_sources[emitters[m as int].0 as int] == s);
                    if !before.contains(s) {
                        assert(after[after.len() - 1] == s);
                    }
                }
                if before.contains(s) {
                    let i: int = choose|i: int| 0 <= i < before.len() && before[i] == s;
                    assert(after[i] == s);
                }
                if after.contains(s) && !before.contains(s) {
                    let i: int = choose|i: int| 0 <= i < after.len() && after[i] == s;
                    if i < before.len() {
                        assert(before[i] == s);
                    }
                }
            }
        }
    }
}

/// The last of the errors of a round, in the order in which the device was told.
pub open spec fn last_of(errors: Seq<Option<String>>) -> Option<String>
    decreases errors.len(),
{
    if errors.len() == 0 {
        None
    } else if errors.last() is Some {
        errors.last()
    } else {
        last_of(errors.drop_last())
    }
}

/// The last of the errors of a round, if there is one.
pub fn last_error(errors: Vec<Option<String>>) -> (error: Option<String>)
    ensures
        error == last_of(errors@),
{
    let mut rest: Vec<Option<String>> = errors;
    while rest.len() > 0
        invariant
            last_of(rest@) == last_of(errors@),
        decreases rest@.len(),
    {
        let ghost before: Seq<Option<String>> = rest@;
        let last: Option<Option<String>> = rest.pop();
        assert(rest@ =~= before.drop_last());
        match last {
            Some(Some(error)) => {
                return Some(error);
            },
            _ => {},
        }
    }
    None
}

proof fn lemma_within(levels: Levels, count: nat)
    ensures
        forall|i: int|
            0 <= i < within(levels, count).len() ==> (#[trigger] within(levels, count)[i]).0
                < count,
    decreases levels.len(),
{
    if levels.len() > 0 {
        let before: Levels = within(levels.drop_last(), count);
        let kept: Levels = within(levels, count);
        lemma_within(levels.drop_last(), count);
        assert forall|i: int| 0 <= i < kept.len() implies (#[trigger] kept[i]).0 < count by {
            if i < before.len() {
                assert(kept[i] == before[i]);
            }
        }
    }
}

/// A round keeps a level if its resource exists, and no other level.
pub proof fn law_known_levels_are_kept(levels: Levels, count: nat, level: (usize, Binary32))
    ensures
        within(levels, count).contains(level) <==> levels.contains(level) && level.0 < count,
    decreases levels.len(),
{
    let kept: Levels = within(levels, count);
    if levels.len() > 0 {
        let init: Levels = levels.drop_last();
        let before: Levels = within(init, count);
        law_known_levels_are_kept(init, count, level);
        if kept.contains(level) {
            let i: int = choose|i: int| 0 <= i < kept.len() && kept[i] == level;
            if i < before.len() {
                assert(before[i] == level);
                let j: int = choose|j: int| 0 <= j < init.len() && init[j] == level;
                assert(levels[j] == level);
            } else {
                assert(levels[levels.len() - 1] == level);
            }
        }
        if levels.contains(level) && level.0 < count {
            let j: int = choose|j: int| 0 <= j < levels.len() && levels[j] == level;
            if j < init.len() {
                assert(init[j] == level);
                let i: int = choose|i: int| 0 <= i < before.len() && before[i] == level;
                assert(kept[i] == level);
            } else {
                assert(kept[kept.len() - 1] == level);
            }
        }
    }
}

/// The flux that levels give a resource.
pub open spec fn lookup(levels: Levels, key: usize) -> Option<Binary32> {
    let i: nat = find(levels, key, levels.len());
    if i < levels.len() {
        Some(levels[i as int].1)
    } else {
        None
    }
}

/// Whether no resource occurs twice.
pub open spec fn distinct(levels: Levels) -> bool {
    forall|i: int, j: int| 0 <= i < j < levels.len() ==> levels[i].0 != levels[j].0
}

/// The flux of the last command for an emitter.
pub open spec fn last_for_emitter(commands: Seq<DeviceCommand>, key: usize) -> Option<Binary32>
    decreases commands.len(),
{
    if commands.len() == 0 {
        None
    } else {
        match commands.last() {
            DeviceCommand::SetEmitter(k, flux) if k == key => Some(flux),
            _ => last_for_emitter(commands.drop_last(), key),
        }
    }
}

/// The flux of the last command for a source.
pub open spec fn last_for_source(commands: Seq<DeviceCommand>, key: usize) -> Option<Binary32>
    decreases commands.len(),
{
    if commands.len() == 0 {
        None
    } else {
        match commands.last() {
            DeviceCommand::SetSource(k, flux) if k == key => Some(flux),
            _ => last_for_source(commands.drop_last(), key),
        }
    }
}

/// The first place of a resource is where `find` finds it.
proof fn lemma_find_is(levels: Levels, key: usize, i: nat)
    requires
        i < levels.len(),
        levels[i as int].0 == key,
        forall|j: int| 0 <= j < i ==> (#[trigger] levels[j]).0 != key,
    ensures
        find(levels, key, levels.len()) == i,
{
    lemma_find(levels, key, levels.len());
    let f: nat = find(levels, key, levels.len());
    if f > i {
        assert(levels[i as int].0 != key);
    }
    if f < i {
        assert(levels[f as int].0 != key);
    }
}

proof fn lemma_put(levels: Levels, key: usize, flux: Binary32)
    requires
        distinct(levels),
    ensures
        distinct(put(levels, key, flux)),
        forall|k: usize|
            #[trigger] lookup(put(levels, key, flux), k) == if k == key {
                Some(flux)
            } else {
                lookup(levels, k)
            },
{
    let after: Levels = put(levels, key, flux);
    let at: nat = find(levels, key, levels.len());
    lemma_find(levels, key, levels.len());
    assert forall|k: usize| #[trigger] lookup(after, k) == if k == key {
        Some(flux)
    } else {
        lookup(levels, k)
    } by {
        lemma_find(levels, k, levels.len());
        lemma_find(after, k, after.len());
        let i: nat = find(levels, k, levels.len());
        if k == key {
            lemma_find_is(after, k, at);
        } else if i < levels.len() {
            assert forall|j: int| 0 <= j < i implies (#[trigger] after[j]).0 != k by {
                assert(levels[j].0 != k);
            }
            lemma_find_is(after, k, i);
        } else {
            let g: nat = find(after, k, after.len());
            if g < after.len() {
                assert(after[g as int].0 == k);
                if g < levels.len() {
                    assert(levels[g as int].0 != k);
                }
            }
        }
    }
}

/// Of several commands for the same emitter the last one counts, and no emitter is
/// set twice.
pub proof fn law_last_emitter_command_counts(commands: Seq<DeviceCommand>)
    ensures
        distinct(emitter_levels(commands)),
        forall|key: usize| #[trigger]
            lookup(emitter_levels(commands), key) == last_for_emitter(commands, key),
    decreases commands.len(),
{
    if commands.len() > 0 {
        law_last_emitter_command_counts(commands.drop_last());
        let before: Levels = emitter_levels(commands.drop_last());
        match commands.last() {
            DeviceCommand::SetEmitter(key, flux) => lemma_put(before, key, flux),
            DeviceCommand::SetSource(_, _) => {},
        }
    }
}

/// Of several commands for the same source the last one counts, and no source is
/// touched twice.
pub proof fn law_last_source_command_counts(commands: Seq<DeviceCommand>)
    ensures
        distinct(source_levels(commands)),
        forall|key: usize| #[trigger]
            lookup(source_levels(commands), key) == last_for_source(commands, key),
    decreases commands.len(),
{
    if commands.len() > 0 {
        law_last_source_command_counts(commands.drop_last());
        let before: Levels = source_levels(commands.drop_last());
        match commands.last() {
            DeviceCommand::SetEmitter(_, _) => {},
            DeviceCommand::SetSource(key, flux) => lemma_put(before, key, flux),
        }
    }
}

/// Fluxes of sources after commands that are carried out one by one.
pub open spec fn one_by_one(fluxes: Seq<Binary32>, commands: Seq<DeviceCommand>) -> Seq<Binary32>
    decreases commands.len(),
{
    if commands.len() == 0 {
        fluxes
    } else {
        let before: Seq<Binary32> = one_by_one(fluxes, commands.drop_last());
        match commands.last() {
            DeviceCommand::SetSource(key, flux) if key < before.len() => before.update(
                key as int,
                flux,
            ),
            _ => before,
        }
    }
}

proof fn lemma_with_levels(fluxes: Seq<Binary32>, levels: Levels)
    requires
        distinct(levels),
    ensures
        with_levels(fluxes, levels).len() == fluxes.len(),
        forall|i: int|
            0 <= i < fluxes.len() && i <= usize::MAX ==> #[trigger] with_levels(fluxes, levels)[i]
                == match lookup(levels, i as usize) {
                Some(flux) => flux,
                None => fluxes[i],
            },
    decreases levels.len(),
{
    if levels.len() > 0 {
        let init: Levels = levels.drop_last();
        let (key, flux): (usize, Binary32) = levels.last();
        lemma_with_levels(fluxes, init);
        assert forall|i: int| 0 <= i < fluxes.len() && i <= usize::MAX implies #[trigger]
        with_levels(fluxes, levels)[i] == match lookup(levels, i as usize) {
            Some(flux) => flux,
            None => fluxes[i],
        } by {
            let k: usize = i as usize;
            lemma_find(init, k, init.len());
            lemma_find(levels, k, levels.len());
            let f: nat = find(init, k, init.len());
            if f < init.len() {
                assert(levels[f as int] == init[f as int]);
                assert forall|j: int| 0 <= j < f implies (#[trigger] levels[j]).0 != k by {
                    assert(init[j].0 != k);
                }
                lemma_find_is(levels, k, f);
                assert(levels[f as int].0 != levels[levels.len() - 1].0);
            } else if key == k {
                assert forall|j: int| 0 <= j < init.len() implies (#[trigger] levels[j]).0
                    != k by {
                    assert(init[j].0 != k);
                }
                lemma_find_is(levels, k, init.len());
            } else {
                let g: nat = find(levels, k, levels.len());
                if g < init.len() {
                    assert(init[g as int].0 != k);
                }
            }
        }
    }
}

/// Taking commands together leaves the sources at the fluxes that they would have if
/// every command were carried out by itself.
pub proof fn law_coalescing_loses_nothing(fluxes: Seq<Binary32>, commands: Seq<DeviceCommand>)
    requires
        fluxes.len() <= usize::MAX,
    ensures
        with_levels(fluxes, source_levels(commands)) == one_by_one(fluxes, commands),
    decreases commands.len(),
{
    let together: Seq<Binary32> = with_levels(fluxes, source_levels(commands));
    law_last_source_command_counts(commands);
    lemma_with_levels(fluxes, source_levels(commands));
    if commands.len() > 0 {
        let init: Seq<DeviceCommand> = commands.drop_last();
        law_coalescing_loses_nothing(fluxes, init);
        law_last_source_command_counts(init);
        lemma_with_levels(fluxes, source_levels(init));
        let single: Seq<Binary32> = one_by_one(fluxes, commands);
        assert forall|i: int| 0 <= i < fluxes.len() implies together[i] == single[i] by {
            assert(lookup(source_levels(commands), i as usize) == last_for_source(
                commands,
                i as usize,
            ));
            assert(lookup(source_levels(init), i as usize) == last_for_source(init, i as usize));
            assert(with_levels(fluxes, source_levels(init))[i] == one_by_one(fluxes, init)[i]);
        }
        assert(together =~= single);
    }
}

proof fn lemma_named(levels: Levels)
    ensures
        named(levels).no_duplicates(),
        forall|s: usize| #[trigger]
            named(levels).contains(s) <==> exists|i: int|
                0 <= i < levels.len() && levels[i].0 == s,
    decreases levels.len(),
{
    if levels.len() > 0 {
        let init: Levels = levels.drop_last();
        lemma_named(init);
        lemma_touched(named(init), levels.last().0);
        assert forall|s: usize| #[trigger]
            named(levels).contains(s) <==> exists|i: int|
                0 <= i < levels.len() && levels[i].0 == s by {
            if exists|i: int| 0 <= i < levels.len() && levels[i].0 == s {
                let i: int = choose|i: int| 0 <= i < levels.len() && levels[i].0 == s;
                if i < init.len() {
                    assert(init[i].0 == s);
                    assert(named(init).contains(s));
                }
            }
            if named(levels).contains(s) {
                if named(init).contains(s) {
                    let i: int = choose|i: int| 0 <= i < init.len() && init[i].0 == s;
                    assert(levels[i].0 == s);
                } else {
                    assert(levels[levels.len() - 1].0 == s);
                }
            }
        }
    }
}

proof fn lemma_touched(sources: Seq<usize>, source: usize)
    requires
        sources.no_duplicates(),
    ensures
        touched(sources, source).no_duplicates(),
        forall|s: usize| #[trigger]
            touched(sources, source).contains(s) <==> sources.contains(s) || s == source,
{
    let after: Seq<usize> = touched(sources, source);
    if !sources.contains(source) {
        assert forall|s: usize| #[trigger]
            after.contains(s) <==> sources.contains(s) || s == source by {
            if sources.contains(s) {
                let i: int = choose|i: int| 0 <= i < sources.len() && sources[i] == s;
                assert(after[i] == s);
            }
            if s == source {
                assert(after[after.len() - 1] == s);
            }
            if after.contains(s) {
                let i: int = choose|i: int| 0 <= i < after.len() && after[i] == s;
                if i < sources.len() {
                    assert(sources[i] == s);
                }
            }
        }
        assert forall|i: int, j: int|
            0 <= i < after.len() && 0 <= j < after.len() && i != j implies after[i] != after[j] by {
            if i == sources.len() {
                assert(sources[j] == after[j]);
            } else if j == sources.len() {
                assert(sources[i] == after[i]);
            } else {
                assert(sources[i] != sources[j]);
            }
        }
    }
}

/// In a round a source is touched if its own flux was set or if one of its emitters
/// could be set, no other source is, and none is touched twice.
pub proof fn law_touched_sources(
    levels: Levels,
    handle_sources: Seq<usize>,
    emitters: Levels,
    errors: Seq<Option<String>>,
)
    requires
        errors.len() == emitters.len(),
    ensures
        ({
            let affected: Seq<usize> = touched_by(
                named(levels),
                handle_sources,
                emitters,
                errors,
                errors.len(),
            );
            &&& affected.no_duplicates()
            &&& forall|s: usize| #[trigger]
                affected.contains(s) <==> (exists|i: int| 0 <= i < levels.len() && levels[i].0 == s)
                    || (exists|i: int|
                    0 <= i < emitters.len() && errors[i] is None
                        && handle_sources[#[trigger] emitters[i].0 as int] == s)
        }),
{
    lemma_named(levels);
    lemma_touched_by(named(levels), handle_sources, emitters, errors, errors.len());
}

proof fn lemma_touched_by(
    sources: Seq<usize>,
    handle_sources: Seq<usize>,
    emitters: Levels,
    errors: Seq<Option<String>>,
    n: nat,
)
    requires
        n <= errors.len() == emitters.len(),
        sources.no_duplicates(),
    ensures
        ({
            let affected: Seq<usize> = touched_by(sources, handle_sources, emitters, errors, n);
            &&& affected.no_duplicates()
            &&& forall|s: usize| #[trigger]
                affected.contains(s) <==> sources.contains(s) || (exists|i: int|
                    0 <= i < n && errors[i] is None
                        && handle_sources[#[trigger] emitters[i].0 as int] == s)
        }),
    decreases n,
{
    if n > 0 {
        let m: nat = (n - 1) as nat;
        lemma_touched_by(sources, handle_sources, emitters, errors, m);
        let before: Seq<usize> = touched_by(sources, handle_sources, emitters, errors, m);
        let source: usize = handle_sources[emitters[m as int].0 as int];
        lemma_touched(before, source);
        let affected: Seq<usize> = touched_by(sources, handle_sources, emitters, errors, n);
        assert forall|s: usize| #[trigger]
            affected.contains(s) <==> sources.contains(s) || (exists|i: int|
                0 <= i < n && errors[i] is None
                    && handle_sources[#[trigger] emitters[i].0 as int] == s) by {
            assert(before.contains(s) <==> sources.contains(s) || (exists|i: int|
                0 <= i < m && errors[i] is None
                    && handle_sources[#[trigger] emitters[i].0 as int] == s));
            if errors[m as int] is None && s == source {
                assert(handle_sources[emitters[m as int].0 as int] == s);
            }
        }
    }
}

/// Each source that was touched and exists is displayed, at its master flux, and no
/// other source is.
pub proof fn law_displayed_sources(sources: Seq<usize>, fluxes: Seq<Binary32>, count: nat)
    ensures
        forall|s: usize, flux: Binary32| #[trigger]
            displays_of(sources, fluxes, count).contains((s, flux)) <==> sources.contains(s) && s
                < count && flux == master(fluxes, s),
    decreases sources.len(),
{
    let shown: Levels = displays_of(sources, fluxes, count);
    if sources.len() > 0 {
        let init: Seq<usize> = sources.drop_last();
        let before: Levels = displays_of(init, fluxes, count);
        law_displayed_sources(init, fluxes, count);
        assert forall|s: usize, flux: Binary32| #[trigger]
            shown.contains((s, flux)) <==> sources.contains(s) && s < count && flux == master(
                fluxes,
                s,
            ) by {
            assert(before.contains((s, flux)) <==> init.contains(s) && s < count && flux == master(
                fluxes,
                s,
            ));
            if shown.contains((s, flux)) {
                let i: int = choose|i: int| 0 <= i < shown.len() && shown[i] == (s, flux);
                if i < before.len() {
                    assert(before[i] == (s, flux));
                    let j: int = choose|j: int| 0 <= j < init.len() && init[j] == s;
                    assert(sources[j] == s);
                } else {
                    assert(sources[sources.len() - 1] == s);
                }
            }
            if sources.contains(s) && s < count && flux == master(fluxes, s) {
                let j: int = choose|j: int| 0 <= j < sources.len() && sources[j] == s;
                if j < init.len() {
                    assert(init[j] == s);
                    let i: int = choose|i: int| 0 <= i < before.len() && before[i] == (s, flux);
                    assert(shown[i] == (s, flux));
                } else {
                    assert(shown[shown.len() - 1] == (s, flux));
                }
            }
        }
    }
}

/// Whether command `c` is the last one that sets a source, and sets it to a flux.
pub open spec fn last_sets_source(
    commands: Seq<DeviceCommand>,
    c: int,
    source: usize,
    flux: Binary32,
) -> bool {
    &&& 0 <= c < commands.len()
    &&& commands[c] == DeviceCommand::SetSource(source, flux)
    &&& forall|d: int|
        c < d < commands.len() ==> !(#[trigger] commands[d] matches DeviceCommand::SetSource(k, _)
            && k == source)
}

/// Whether command `c` is the last one that sets an emitter, and sets it to a flux.
pub open spec fn last_sets_emitter(
    commands: Seq<DeviceCommand>,
    c: int,
    handle: usize,
    flux: Binary32,
) -> bool {
    &&& 0 <= c < commands.len()
    &&& commands[c] == DeviceCommand::SetEmitter(handle, flux)
    &&& forall|d: int|
        c < d < commands.len() ==> !(#[trigger] commands[d] matches DeviceCommand::SetEmitter(k, _)
            && k == handle)
}

/// Whether some command sets a source.
pub open spec fn sets_source(commands: Seq<DeviceCommand>, source: usize) -> bool {
    exists|c: int|
        0 <= c < commands.len() && (#[trigger] commands[c] matches DeviceCommand::SetSource(k, _)
            && k == source)
}

/// Whether some command sets an emitter.
pub open spec fn sets_emitter(commands: Seq<DeviceCommand>, handle: usize) -> bool {
    exists|c: int|
        0 <= c < commands.len() && (#[trigger] commands[c] matches DeviceCommand::SetEmitter(k, _)
            && k == handle)
}

proof fn lemma_last_for_source(commands: Seq<DeviceCommand>, source: usize)
    ensures
        last_for_source(commands, source) is None <==> !sets_source(commands, source),
        forall|c: int, flux: Binary32| #[trigger]
            last_sets_source(commands, c, source, flux) ==> last_for_source(commands, source)
                == Some(flux),
    decreases commands.len(),
{
    if commands.len() > 0 {
        let init: Seq<DeviceCommand> = commands.drop_last();
        let last: int = commands.len() - 1;
        lemma_last_for_source(init, source);
        if sets_source(init, source) {
            let c: int = choose|c: int|
                0 <= c < init.len() && (#[trigger] init[c] matches DeviceCommand::SetSource(k, _)
                    && k == source);
            assert(commands[c] == init[c]);
            assert(sets_source(commands, source));
        }
        if sets_source(commands, source) && !sets_source(init, source) {
            let c: int = choose|c: int|
                0 <= c < commands.len() && (
                #[trigger] commands[c] matches DeviceCommand::SetSource(k, _) && k == source);
            if c < last {
                assert(init[c] == commands[c]);
            }
        }
        assert(commands[last] == commands.last());
        assert forall|c: int, flux: Binary32| #[trigger]
            last_sets_source(commands, c, source, flux) implies last_for_source(commands, source)
            == Some(flux) by {
            if c < last {
                assert(commands[c] == init[c]);
                assert forall|d: int| c < d < init.len() implies !(
                #[trigger] init[d] matches DeviceCommand::SetSource(k, _) && k == source) by {
                    assert(commands[d] == init[d]);
                }
                assert(last_sets_source(init, c, source, flux));
            }
        }
    }
}

proof fn lemma_last_for_emitter(commands: Seq<DeviceCommand>, handle: usize)
    ensures
        last_for_emitter(commands, handle) is None <==> !sets_emitter(commands, handle),
        forall|c: int, flux: Binary32| #[trigger]
            last_sets_emitter(commands, c, handle, flux) ==> last_for_emitter(commands, handle)
                == Some(flux),
    decreases commands.len(),
{
    if commands.len() > 0 {
        let init: Seq<DeviceCommand> = commands.drop_last();
        let last: int = commands.len() - 1;
        lemma_last_for_emitter(init, handle);
        if sets_emitter(init, handle) {
            let c: int = choose|c: int|
                0 <= c < init.len() && (#[trigger] init[c] matches DeviceCommand::SetEmitter(k, _)
                    && k == handle);
            assert(commands[c] == init[c]);
            assert(sets_emitter(commands, handle));
        }
        if sets_emitter(commands, handle) && !sets_emitter(init, handle) {
            let c: int = choose|c: int|
                0 <= c < commands.len() && (
                #[trigger] commands[c] matches DeviceCommand::SetEmitter(k, _) && k == handle);
            if c < last {
                assert(init[c] == commands[c]);
            }
        }
        assert(commands[last] == commands.last());
        assert forall|c: int, flux: Binary32| #[trigger]
            last_sets_emitter(commands, c, handle, flux) implies last_for_emitter(commands, handle)
            == Some(flux) by {
            if c < last {
                assert(commands[c] == init[c]);
                assert forall|d: int| c < d < init.len() implies !(
                #[trigger] init[d] matches DeviceCommand::SetEmitter(k, _) && k == handle) by {
                    assert(commands[d] == init[d]);
                }
                assert(last_sets_emitter(init, c, handle, flux));
            }
        }
    }
}

/// After a round a tracked source is at the flux of the last command that set it, and one
/// that no command set is where it was.
pub proof fn law_round_sets_sources(
    fluxes: Seq<Binary32>,
    commands: Seq<DeviceCommand>,
    source: usize,
)
    requires
        source < fluxes.len() <= usize::MAX,
    ensures
        with_levels(fluxes, source_levels(commands)).len() == fluxes.len(),
        forall|c: int, flux: Binary32| #[trigger]
            last_sets_source(commands, c, source, flux) ==> with_levels(
                fluxes,
                source_levels(commands),
            )[source as int] == flux,
        !sets_source(commands, source) ==> with_levels(
            fluxes,
            source_levels(commands),
        )[source as int] == fluxes[source as int],
{
    law_last_source_command_counts(commands);
    lemma_with_levels(fluxes, source_levels(commands));
    lemma_last_for_source(commands, source);
    assert(lookup(source_levels(commands), source) == last_for_source(commands, source));
    assert(with_levels(fluxes, source_levels(commands))[source as int] == match lookup(
        source_levels(commands),
        source,
    ) {
        Some(flux) => flux,
        None => fluxes[source as int],
    });
}

/// A round sets each emitter that exists and that a command set, once, to the flux of the
/// last such command, and no other emitter.
pub proof fn law_round_sets_emitters(commands: Seq<DeviceCommand>, count: nat, handle: usize)
    ensures
        ({
            let set: Levels = within(emitter_levels(commands), count);
            &&& distinct(set)
            &&& (exists|i: int| 0 <= i < set.len() && (#[trigger] set[i]).0 == handle) <==> handle
                < count && sets_emitter(commands, handle)
            &&& forall|i: int, c: int, flux: Binary32|
                0 <= i < set.len() && (#[trigger] set[i]).0 == handle && #[trigger]
                last_sets_emitter(commands, c, handle, flux) ==> set[i].1 == flux
        }),
{
    let all: Levels = emitter_levels(commands);
    let set: Levels = within(all, count);
    law_last_emitter_command_counts(commands);
    lemma_last_for_emitter(commands, handle);
    lemma_within_is_distinct(all, count);
    lemma_within(all, count);
    assert(lookup(all, handle) == last_for_emitter(commands, handle));
    let f: nat = find(all, handle, all.len());
    lemma_find(all, handle, all.len());
    if handle < count && sets_emitter(commands, handle) {
        law_known_levels_are_kept(all, count, all[f as int]);
        assert(all.contains(all[f as int]));
        let i: int = choose|i: int| 0 <= i < set.len() && set[i] == all[f as int];
        assert(set[i].0 == handle);
    }
    assert forall|i: int| 0 <= i < set.len() && (#[trigger] set[i]).0 == handle implies handle
        < count && lookup(all, handle) == Some(set[i].1) by {
        law_known_levels_are_kept(all, count, set[i]);
        assert(set.contains(set[i]));
        let j: int = choose|j: int| 0 <= j < all.len() && all[j] == set[i];
        assert forall|h: int| 0 <= h < j implies (#[trigger] all[h]).0 != handle by {
            assert(all[h].0 != all[j].0);
        }
        lemma_find_is(all, handle, j as nat);
    }
}

proof fn lemma_within_is_distinct(levels: Levels, count: nat)
    requires
        distinct(levels),
    ensures
        distinct(within(levels, count)),
    decreases levels.len(),
{
    if levels.len() > 0 {
        let init: Levels = levels.drop_last();
        let before: Levels = within(init, count);
        let kept: Levels = within(levels, count);
        assert(distinct(init)) by {
            assert forall|i: int, j: int| 0 <= i < j < init.len() implies init[i].0
                != init[j].0 by {
                assert(levels[i].0 != levels[j].0);
            }
        }
        lemma_within_is_distinct(init, count);
        assert forall|i: int, j: int| 0 <= i < j < kept.len() implies kept[i].0 != kept[j].0 by {
            if j < before.len() {
                assert(before[i].0 != before[j].0);
            } else {
                law_known_levels_are_kept(init, count, before[i]);
                assert(before.contains(before[i]));
                let h: int = choose|h: int| 0 <= h < init.len() && init[h] == before[i];
                assert(levels[h].0 != levels[levels.len() - 1].0);
            }
        }
    }
}

/// A round touches each tracked source that a command set, once, and no other source.
pub proof fn law_round_touches_sources(commands: Seq<DeviceCommand>, count: nat)
    ensures
        named(within(source_levels(commands), count)).no_duplicates(),
        forall|source: usize| #[trigger]
            named(within(source_levels(commands), count)).contains(source) <==> source < count
                && sets_source(commands, source),
{
    let all: Levels = source_levels(commands);
    let kept: Levels = within(all, count);
    law_last_source_command_counts(commands);
    lemma_within(all, count);
    lemma_named(kept);
    assert forall|source: usize| #[trigger] named(kept).contains(source) <==> source < count
        && sets_source(commands, source) by {
        lemma_last_for_source(commands, source);
        assert(lookup(all, source) == last_for_source(commands, source));
        let f: nat = find(all, source, all.len());
        lemma_find(all, source, all.len());
        if source < count && sets_source(commands, source) {
            law_known_levels_are_kept(all, count, all[f as int]);
            assert(all.contains(all[f as int]));
            let i: int = choose|i: int| 0 <= i < kept.len() && kept[i] == all[f as int];
            assert(kept[i].0 == source);
        }
        if named(kept).contains(source) {
            let i: int = choose|i: int| 0 <= i < kept.len() && kept[i].0 == source;
            law_known_levels_are_kept(all, count, kept[i]);
            assert(kept.contains(kept[i]));
            let j: int = choose|j: int| 0 <= j < all.len() && all[j] == kept[i];
            if f == all.len() {
                assert(all[j].0 != source);
            }
        }
    }
}

/// Each source is displayed at the flux that is tracked for it; one that is not tracked is
/// displayed at one. Exactly the touched sources that exist are displayed, each once.
pub proof fn law_display_fluxes(sources: Seq<usize>, fluxes: Seq<Binary32>, count: nat)
    ensures
        ({
            let shown: Levels = displays_of(sources, fluxes, count);
            &&& forall|k: int|
                0 <= k < shown.len() ==> {
                    let (source, flux): (usize, Binary32) = #[trigger] shown[k];
                    &&& source < count
                    &&& sources.contains(source)
                    &&& source < fluxes.len() ==> flux == fluxes[source as int]
                    &&& source >= fluxes.len() ==> flux == Binary32::one()
                }
            &&& forall|source: usize|
                source < count && #[trigger] sources.contains(source) ==> exists|k: int|
                    0 <= k < shown.len() && (#[trigger] shown[k]).0 == source
            &&& sources.no_duplicates() ==> distinct(shown)
        }),
    decreases sources.len(),
{
    let shown: Levels = displays_of(sources, fluxes, count);
    law_displayed_sources(sources, fluxes, count);
    assert forall|k: int| 0 <= k < shown.len() implies {
        let (source, flux): (usize, Binary32) = #[trigger] shown[k];
        &&& source < count
        &&& sources.contains(source)
        &&& source < fluxes.len() ==> flux == fluxes[source as int]
        &&& source >= fluxes.len() ==> flux == Binary32::one()
    } by {
        assert(shown.contains((shown[k].0, shown[k].1)));
    }
    assert forall|source: usize| source < count && #[trigger] sources.contains(source) implies exists|
        k: int,
    | 0 <= k < shown.len() && (#[trigger] shown[k]).0 == source by {
        assert(shown.contains((source, master(fluxes, source))));
        let k: int = choose|k: int|
            0 <= k < shown.len() && shown[k] == (source, master(fluxes, source));
        assert(shown[k].0 == source);
    }
    if sources.no_duplicates() && sources.len() > 0 {
        let init: Seq<usize> = sources.drop_last();
        let before: Levels = displays_of(init, fluxes, count);
        law_display_fluxes(init, fluxes, count);
        assert forall|i: int, j: int| 0 <= i < j < shown.len() implies shown[i].0
            != shown[j].0 by {
            if j < before.len() {
                assert(before[i].0 != before[j].0);
            } else {
                assert(init.contains(before[i].0));
                let h: int = choose|h: int| 0 <= h < init.len() && init[h] == before[i].0;
                assert(sources[h] != sources[sources.len() - 1]);
            }
        }
    }
}

/// The error that is reported is the last one: none came after it, and none is reported
/// only if there was none.
pub proof fn law_last_error(errors: Seq<Option<String>>)
    ensures
        last_of(errors) is None <==> forall|i: int|
            0 <= i < errors.len() ==> #[trigger] errors[i] is None,
        last_of(errors) is Some ==> exists|i: int|
            0 <= i < errors.len() && #[trigger] errors[i] == last_of(errors) && forall|j: int|
                i < j < errors.len() ==> #[trigger] errors[j] is None,
    decreases errors.len(),
{
    if errors.len() > 0 {
        let init: Seq<Option<String>> = errors.drop_last();
        let last: int = errors.len() - 1;
        law_last_error(init);
        if errors[last] is Some {
            assert(errors[last] == last_of(errors));
        } else {
            if last_of(init) is Some {
                let i: int = choose|i: int|
                    0 <= i < init.len() && #[trigger] init[i] == last_of(init) && forall|j: int|
                        i < j < init.len() ==> #[trigger] init[j] is None;
                assert(errors[i] == init[i]);
                assert forall|j: int| i < j < errors.len() implies #[trigger] errors[j] is None by {
                    if j < last {
                        assert(init[j] is None);
                    }
                }
            } else {
                assert forall|i: int| 0 <= i < errors.len() implies #[trigger] errors[i] is None by {
                    if i < last {
                        assert(init[i] is None);
                    }
                }
            }
        }
    }
}

} // verus!
