//! How a device is explored: runtime by runtime, fixture by fixture, source by source
//! and emitter by emitter. What does not answer is passed over.

use vstd::prelude::*;

use crate::binary32::Binary32;
use crate::mixer::catalog::{measurements, peak_wavelength, Catalog, SpectralSample};
use crate::mixer::entry::{color_of, default_source_flux, UIEntry};
use crate::text::decimal;

verus! {

/// What is to be asked next. A fixture, a source or an emitter goes by its place among
/// those that were found beside it, and carries their number.
#[derive(Clone, Copy, Debug, PartialEq, Eq, Structural)]
pub enum Query {
    /// The host of a runtime.
    Host { runtime: usize },
    /// How many fixtures the host has.
    Fixtures { runtime: usize },
    /// How many sources a fixture has.
    Sources { runtime: usize, fixture: usize, fixtures: usize },
    /// How many emitters a source has.
    Emitters { runtime: usize, fixture: usize, fixtures: usize, source: usize, sources: usize },
    /// The spectrum of an emitter.
    Spectrum {
        runtime: usize,
        fixture: usize,
        fixtures: usize,
        source: usize,
        sources: usize,
        emitter: usize,
        emitters: usize,
    },
    /// Nothing more.
    Finished,
}

/// What is answered.
#[derive(Debug, PartialEq, Eq)]
pub enum Answer {
    /// Nothing.
    Failed,
    /// The host is there.
    Reached,
    /// So many were found.
    Found(usize),
    /// The spectrum.
    Measured(Vec<SpectralSample>),
}

/// The first question about a runtime.
pub open spec fn at_runtime(runtimes: usize, runtime: int) -> Query {
    if runtime < runtimes {
        Query::Host { runtime: runtime as usize }
    } else {
        Query::Finished
    }
}

/// The first question about a fixture, or about what follows the last one.
pub open spec fn at_fixture(runtimes: usize, runtime: usize, fixture: int, fixtures: usize) -> Query {
    if fixture < fixtures {
        Query::Sources { runtime, fixture: fixture as usize, fixtures }
    } else {
        at_runtime(runtimes, runtime + 1)
    }
}

/// The first question about a source, or about what follows the last one.
pub open spec fn at_source(
    runtimes: usize,
    runtime: usize,
    fixture: usize,
    fixtures: usize,
    source: int,
    sources: usize,
) -> Query {
    if source < sources {
        Query::Emitters { runtime, fixture, fixtures, source: source as usize, sources }
    } else {
        at_fixture(runtimes, runtime, fixture + 1, fixtures)
    }
}

/// The question about an emitter, or about what follows the last one.
pub open spec fn at_emitter(
    runtimes: usize,
    runtime: usize,
    fixture: usize,
    fixtures: usize,
    source: usize,
    sources: usize,
    emitter: int,
    emitters: usize,
) -> Query {
    if emitter < emitters {
        Query::Spectrum {
            runtime,
            fixture,
            fixtures,
            source,
            sources,
            emitter: emitter as usize,
            emitters,
        }
    } else {
        at_source(runtimes, runtime, fixture, fixtures, source + 1, sources)
    }
}

/// What is to be asked after an answer.
pub open spec fn query_after(runtimes: usize, query: Query, answer: Answer) -> Query {
    match query {
        Query::Host { runtime } => match answer {
            Answer::Reached => Query::Fixtures { runtime },
            _ => at_runtime(runtimes, runtime + 1),
        },
        Query::Fixtures { runtime } => match answer {
            Answer::Found(n) => at_fixture(runtimes, runtime, 0, n),
            _ => at_runtime(runtimes, runtime + 1),
        },
        Query::Sources { runtime, fixture, fixtures } => match answer {
            Answer::Found(n) => at_source(runtimes, runtime, fixture, fixtures, 0, n),
            _ => at_fixture(runtimes, runtime, fixture + 1, fixtures),
        },
        Query::Emitters { runtime, fixture, fixtures, source, sources } => match answer {
            Answer::Found(n) => at_emitter(
                runtimes,
                runtime,
                fixture,
                fixtures,
                source,
                sources,
                0,
                n,
            ),
            _ => at_source(runtimes, runtime, fixture, fixtures, source + 1, sources),
        },
        Query::Spectrum { runtime, fixture, fixtures, source, sources, emitter, emitters } => {
            at_emitter(
                runtimes,
                runtime,
                fixture,
                fixtures,
                source,
                sources,
                emitter + 1,
                emitters,
            )
        },
        Query::Finished => Query::Finished,
    }
}

/// Whether a place is one of those that were found.
pub open spec fn query_valid(runtimes: usize, query: Query) -> bool {
    match query {
        Query::Host { runtime } => runtime < runtimes,
        Query::Fixtures { runtime } => runtime < runtimes,
        Query::Sources { runtime, fixture, fixtures } => runtime < runtimes && fixture < fixtures,
        Query::Emitters { runtime, fixture, fixtures, source, sources } => runtime < runtimes
            && fixture < fixtures && source < sources,
        Query::Spectrum { runtime, fixture, fixtures, source, sources, emitter, emitters } => runtime
            < runtimes && fixture < fixtures && source < sources && emitter < emitters,
        Query::Finished => true,
    }
}

/// Whether a fader is that of source number `n`.
pub open spec fn is_source_fader(entry: UIEntry, n: nat) -> bool {
    match entry {
        UIEntry::Source { label, flux, source_index } => {
            &&& label@ == "S"@ + decimal(n)
            &&& flux == default_source_flux()
            &&& source_index == n
        },
        UIEntry::Emitter { .. } => false,
    }
}

/// Whether a fader is that of emitter number `n`, which belongs to the source of fader
/// `source_entry`, is named by its place, and has the spectrum that was answered.
pub open spec fn is_emitter_fader(
    entry: UIEntry,
    n: nat,
    source_entry: usize,
    fixture: usize,
    source: usize,
    emitter: usize,
    answer: Answer,
) -> bool {
    match entry {
        UIEntry::Source { .. } => false,
        UIEntry::Emitter {
            label,
            flux,
            spectrum,
            peak_nm,
            color_name,
            handle_index,
            source_entry_index,
        } => {
            &&& label@ == "F"@ + decimal(fixture as nat) + "S"@ + decimal(source as nat) + "E"@
                + decimal(emitter as nat)
            &&& flux == Binary32::zero()
            &&& match answer {
                Answer::Measured(samples) => {
                    &&& spectrum is Some
                    &&& spectrum->0@ == measurements(samples@)
                    &&& peak_nm == peak_wavelength(samples@)
                },
                _ => spectrum is None && peak_nm == Binary32::zero(),
            }
            &&& color_name == color_of(peak_nm)
            &&& handle_index == n
            &&& source_entry_index == source_entry
        },
    }
}

/// An exploration under way.
#[derive(Debug, PartialEq, Eq)]
pub struct Exploration {
    pub runtimes: usize,
    pub query: Query,
    pub catalog: Catalog,
}

impl Exploration {
    pub open spec fn wf(self) -> bool {
        &&& self.catalog.wf()
        &&& query_valid(self.runtimes, self.query)
        &&& self.query is Emitters || self.query is Spectrum ==> self.catalog.num_sources > 0
    }

    /// Starts with the first runtime.
    pub fn new(runtimes: usize) -> (exploration: Exploration)
        ensures
            exploration.wf(),
            exploration.runtimes == runtimes,
            exploration.query == at_runtime(runtimes, 0),
            exploration.catalog.entries@.len() == 0,
            exploration.catalog.handle_sources@.len() == 0,
            exploration.catalog.num_sources == 0,
    {
        let query: Query = if 0 < runtimes {
            Query::Host { runtime: 0 }
        } else {
            Query::Finished
        };
        Exploration { runtimes, query, catalog: Catalog::new() }
    }

    /// Takes an answer to the last question, and finds the next. Each emitter that was
    /// asked for its spectrum gets a fader, and then each source that is asked for its
    /// emitters.
    pub fn answer(&mut self, answer: Answer)
        requires
            old(self).wf(),
            old(self).catalog.entries@.len() + 1 < usize::MAX,
        ensures
            final(self).wf(),
            final(self).runtimes == old(self).runtimes,
            final(self).query == query_after(old(self).runtimes, old(self).query, answer),
            ({
                let before: Catalog = old(self).catalog;
                let after: Catalog = final(self).catalog;
                let emitter: nat = if old(self).query is Spectrum {
                    1
                } else {
                    0
                };
                let source: nat = if final(self).query is Emitters {
                    1
                } else {
                    0
                };
                let n: int = before.entries@.len() as int;
                &&& after.entries@.len() == n + emitter + source
                &&& after.entries@.subrange(0, n) == before.entries@
                &&& after.num_sources == before.num_sources + source
                &&& after.current == if source == 1 {
                    n + emitter
                } else {
                    before.current as int
                }
                &&& after.handle_sources@ == before.handle_sources@ + Seq::new(
                    emitter,
                    |i: int| (before.num_sources - 1) as usize,
                )
                &&& old(self).query is Spectrum ==> is_emitter_fader(
                    after.entries@[n],
                    before.handle_sources@.len(),
                    before.current,
                    old(self).query->Spectrum_fixture,
                    old(self).query->Spectrum_source,
                    old(self).query->Spectrum_emitter,
                    answer,
                )
                &&& final(self).query is Emitters ==> is_source_fader(
                    after.entries@[n + emitter],
                    before.num_sources as nat,
                )
            }),
            ({
                let before: Catalog = old(self).catalog;
                let after: Catalog = final(self).catalog;
                let n: int = before.entries@.len() as int;
                old(self).query matches Query::Spectrum { fixture, source, emitter, .. } ==> (
                after.entries@[n] matches UIEntry::Emitter {
                    label,
                    flux,
                    spectrum,
                    peak_nm,
                    color_name,
                    handle_index,
                    source_entry_index,
                } && {
                    &&& label@ == "F"@ + decimal(fixture as nat) + "S"@ + decimal(source as nat)
                        + "E"@ + decimal(emitter as nat)
                    &&& flux.bits == 0
                    &&& color_name == color_of(peak_nm)
                    &&& handle_index == before.handle_sources@.len()
                    &&& source_entry_index == before.current
                    &&& after.entries@[source_entry_index as int] is Source
                    &&& answer matches Answer::Measured(samples) ==> {
                        &&& spectrum matches Some(kept) && kept@ == measurements(samples@)
                        &&& peak_nm == peak_wavelength(samples@)
                    }
                    &&& answer !is Measured ==> spectrum is None && peak_nm.bits == 0
                })
            }),
            ({
                let before: Catalog = old(self).catalog;
                let after: Catalog = final(self).catalog;
                final(self).query is Emitters ==> (
                after.entries@.last() matches UIEntry::Source { label, flux, source_index } && {
                    &&& label@ == "S"@ + decimal(before.num_sources as nat)
                    &&& flux.bits == 0x3f80_0000
                    &&& source_index == before.num_sources
                })
            }),
    {
        let next: Query = next_query(self.runtimes, self.query, &answer);
        let ghost before: Catalog = self.catalog;
        let query: Query = self.query;
        if let Query::Spectrum { fixture, source, emitter, .. } = query {
            let spectral_data: Option<Vec<SpectralSample>> = match answer {
                Answer::Measured(samples) => Some(samples),
                _ => None,
            };
            self.catalog.add_emitter(fixture, source, emitter, spectral_data);
        }
        let ghost middle: Catalog = self.catalog;
        proof {
            lemma_grown_by(before.entries@, middle.entries@);
        }
        self.query = next;
        if let Query::Emitters { .. } = next {
            self.catalog.add_source();
        }
        proof {
            lemma_grown_by(middle.entries@, self.catalog.entries@);
            assert(self.catalog.entries@.subrange(0, before.entries@.len() as int)
                =~= before.entries@);
            assert(self.catalog.handle_sources@ =~= before.handle_sources@ + Seq::new(
                if query is Spectrum {
                    1
                } else {
                    0
                },
                |i: int| (before.num_sources - 1) as usize,
            ));
        }
    }
}

proof fn lemma_grown_by(entries: Seq<UIEntry>, more: Seq<UIEntry>)
    requires
        more == entries || (more.len() == entries.len() + 1 && more.drop_last() == entries),
    ensures
        forall|i: int| 0 <= i < entries.len() ==> more[i] == entries[i],
{
    if more != entries {
        assert forall|i: int| 0 <= i < entries.len() implies more[i] == entries[i] by {
            assert(more.drop_last()[i] == more[i]);
        }
    }
}

/// The first question about a runtime.
fn enter_runtime(runtimes: usize, runtime: usize) -> (query: Query)
    requires
        runtime < runtimes,
    ensures
        query == at_runtime(runtimes, runtime + 1),
{
    if runtime + 1 < runtimes {
        Query::Host { runtime: runtime + 1 }
    } else {
        Query::Finished
    }
}

/// The first question about a fixture, or about what follows the last one.
fn enter_fixture(runtimes: usize, runtime: usize, fixture: usize, fixtures: usize) -> (query: Query)
    requires
        runtime < runtimes,
    ensures
        query == at_fixture(runtimes, runtime, fixture as int, fixtures),
{
    if fixture < fixtures {
        Query::Sources { runtime, fixture, fixtures }
    } else {
        enter_runtime(runtimes, runtime)
    }
}

/// The first question about a source, or about what follows the last one.
fn enter_source(
    runtimes: usize,
    runtime: usize,
    fixture: usize,
    fixtures: usize,
    source: usize,
    sources: usize,
) -> (query: Query)
    requires
        runtime < runtimes,
        fixture < fixtures,
    ensures
        query == at_source(runtimes, runtime, fixture, fixtures, source as int, sources),
{
    if source < sources {
        Query::Emitters { runtime, fixture, fixtures, source, sources }
    } else {
        enter_fixture(runtimes, runtime, fixture + 1, fixtures)
    }
}

/// What is to be asked after an answer.
pub fn next_query(runtimes: usize, query: Query, answer: &Answer) -> (next: Query)
    requires
        query_valid(runtimes, query),
    ensures
        next == query_after(runtimes, query, *answer),
        query_valid(runtimes, next),
{
    match query {
        Query::Host { runtime } => match answer {
            Answer::Reached => Query::Fixtures { runtime },
            _ => enter_runtime(runtimes, runtime),
        },
        Query::Fixtures { runtime } => match answer {
            Answer::Found(n) => enter_fixture(runtimes, runtime, 0, *n),
            _ => enter_runtime(runtimes, runtime),
        },
        Query::Sources { runtime, fixture, fixtures } => match answer {
            Answer::Found(n) => enter_source(runtimes, runtime, fixture, fixtures, 0, *n),
            _ => enter_fixture(runtimes, runtime, fixture + 1, fixtures),
        },
        Query::Emitters { runtime, fixture, fixtures, source, sources } => match answer {
            Answer::Found(n) if 0 < *n => Query::Spectrum {
                runtime,
                fixture,
                fixtures,
                source,
                sources,
                emitter: 0,
                emitters: *n,
            },
            _ => enter_source(runtimes, runtime, fixture, fixtures, source + 1, sources),
        },
        Query::Spectrum { runtime, fixture, fixtures, source, sources, emitter, emitters } => {
            if emitter + 1 < emitters {
                Query::Spectrum {
                    runtime,
                    fixture,
                    fixtures,
                    source,
                    sources,
                    emitter: emitter + 1,
                    emitters,
                }
            } else {
                enter_source(runtimes, runtime, fixture, fixtures, source + 1, sources)
            }
        },
        Query::Finished => Query::Finished,
    }
}

/// The place of a question in the order in which questions are asked.
pub open spec fn place_of(query: Query) -> (int, int, int, int) {
    match query {
        Query::Host { runtime } => (2 * runtime, 0, 0, 0),
        Query::Fixtures { runtime } => (2 * runtime + 1, 0, 0, 0),
        Query::Sources { runtime, fixture, .. } => (2 * runtime + 1, fixture + 1, 0, 0),
        Query::Emitters { runtime, fixture, source, .. } => (
            2 * runtime + 1,
            fixture + 1,
            source + 1,
            0,
        ),
        Query::Spectrum { runtime, fixture, source, emitter, .. } => (
            2 * runtime + 1,
            fixture + 1,
            source + 1,
            emitter + 1,
        ),
        Query::Finished => (0, 0, 0, 0),
    }
}

/// Whether one place comes before another.
pub open spec fn comes_before(p: (int, int, int, int), q: (int, int, int, int)) -> bool {
    ||| p.0 < q.0
    ||| p.0 == q.0 && p.1 < q.1
    ||| p.0 == q.0 && p.1 == q.1 && p.2 < q.2
    ||| p.0 == q.0 && p.1 == q.1 && p.2 == q.2 && p.3 < q.3
}

/// An exploration never turns back: each question comes after the one before, until
/// nothing is left to ask.
pub proof fn law_exploration_advances(runtimes: usize, query: Query, answer: Answer)
    requires
        query_valid(runtimes, query),
        query !is Finished,
    ensures
        query_after(runtimes, query, answer) is Finished || comes_before(
            place_of(query),
            place_of(query_after(runtimes, query, answer)),
        ),
{
}

/// What every question is answered.
pub type World = spec_fn(Query) -> Answer;

/// The questions that are asked about the runtimes from `runtime` on: of each, whether its
/// host is there, and then all about it.
pub open spec fn runtime_questions(world: World, runtimes: usize, runtime: nat) -> Seq<Query>
    decreases runtimes - runtime,
{
    if runtime >= runtimes {
        Seq::empty()
    } else {
        let host: Query = Query::Host { runtime: runtime as usize };
        seq![host] + (if world(host) is Reached {
            host_questions(world, runtime)
        } else {
            Seq::empty()
        }) + runtime_questions(world, runtimes, runtime + 1)
    }
}

/// The questions about a host: how many fixtures it has, and all about each of them.
pub open spec fn host_questions(world: World, runtime: nat) -> Seq<Query> {
    let first: Query = Query::Fixtures { runtime: runtime as usize };
    seq![first] + match world(first) {
        Answer::Found(n) => fixture_questions(world, runtime, 0, n),
        _ => Seq::empty(),
    }
}

/// The questions about the fixtures from `fixture` on.
pub open spec fn fixture_questions(
    world: World,
    runtime: nat,
    fixture: nat,
    fixtures: usize,
) -> Seq<Query>
    decreases fixtures - fixture,
{
    if fixture >= fixtures {
        Seq::empty()
    } else {
        let first: Query = Query::Sources {
            runtime: runtime as usize,
            fixture: fixture as usize,
            fixtures,
        };
        seq![first] + (match world(first) {
            Answer::Found(n) => source_questions(world, runtime, fixture, fixtures, 0, n),
            _ => Seq::empty(),
        }) + fixture_questions(world, runtime, fixture + 1, fixtures)
    }
}

/// The questions about the sources from `source` on.
pub open spec fn source_questions(
    world: World,
    runtime: nat,
    fixture: nat,
    fixtures: usize,
    source: nat,
    sources: usize,
) -> Seq<Query>
    decreases sources - source,
{
    if source >= sources {
        Seq::empty()
    } else {
        let first: Query = Query::Emitters {
            runtime: runtime as usize,
            fixture: fixture as usize,
            fixtures,
            source: source as usize,
            sources,
        };
        seq![first] + (match world(first) {
            Answer::Found(n) => emitter_questions(
                runtime,
                fixture,
                fixtures,
                source,
                sources,
                0,
                n,
            ),
            _ => Seq::empty(),
        }) + source_questions(world, runtime, fixture, fixtures, source + 1, sources)
    }
}

/// The questions about the emitters from `emitter` on.
pub open spec fn emitter_questions(
    runtime: nat,
    fixture: nat,
    fixtures: usize,
    source: nat,
    sources: usize,
    emitter: nat,
    emitters: usize,
) -> Seq<Query>
    decreases emitters - emitter,
{
    if emitter >= emitters {
        Seq::empty()
    } else {
        seq![
            Query::Spectrum {
                runtime: runtime as usize,
                fixture: fixture as usize,
                fixtures,
                source: source as usize,
                sources,
                emitter: emitter as usize,
                emitters,
            },
        ] + emitter_questions(runtime, fixture, fixtures, source, sources, emitter + 1, emitters)
    }
}

/// The first `n` questions of an exploration, beginning with `query`.
pub open spec fn asked(world: World, runtimes: usize, query: Query, n: nat) -> Seq<Query>
    decreases n,
{
    if n == 0 {
        Seq::empty()
    } else {
        seq![query] + asked(
            world,
            runtimes,
            query_after(runtimes, query, world(query)),
            (n - 1) as nat,
        )
    }
}

/// What is to be asked after `n` answers, beginning with `query`.
pub open spec fn asked_next(world: World, runtimes: usize, query: Query, n: nat) -> Query
    decreases n,
{
    if n == 0 {
        query
    } else {
        asked_next(
            world,
            runtimes,
            query_after(runtimes, query, world(query)),
            (n - 1) as nat,
        )
    }
}

/// Whether an exploration asks some questions, one after the other, and then comes to
/// another.
pub open spec fn leads(
    world: World,
    runtimes: usize,
    query: Query,
    questions: Seq<Query>,
    next: Query,
) -> bool {
    &&& asked(world, runtimes, query, questions.len()) == questions
    &&& asked_next(world, runtimes, query, questions.len()) == next
}

/// An exploration asks about every runtime, every fixture that a host tells of, every
/// source that a fixture tells of and every emitter that a source tells of, in this order,
/// and about nothing else. It finishes when all of it was asked, and not before.
pub proof fn law_exploration_is_complete(world: World, runtimes: usize, start: Exploration)
    requires
        start.runtimes == runtimes,
        start.query == at_runtime(runtimes, 0),
    ensures
        leads(
            world,
            runtimes,
            start.query,
            runtime_questions(world, runtimes, 0),
            Query::Finished,
        ),
        runtimes > 0 ==> start.query == (Query::Host { runtime: 0 }),
        forall|n: nat|
            n < runtime_questions(world, runtimes, 0).len() ==> #[trigger] asked_next(
                world,
                runtimes,
                start.query,
                n,
            ) !is Finished,
{
    lemma_runtimes(world, runtimes, 0);
    let questions: Seq<Query> = runtime_questions(world, runtimes, 0);
    assert forall|n: nat| n < questions.len() implies #[trigger] asked_next(
        world,
        runtimes,
        start.query,
        n,
    ) !is Finished by {
        lemma_asked_index(world, runtimes, start.query, questions.len(), n);
        lemma_no_finish(world, runtimes, 0, n as int);
    }
}

/// A question about a runtime leads to the end only if it is the last runtime.
pub proof fn law_every_runtime_is_asked(runtimes: usize, query: Query, answer: Answer)
    requires
        query_valid(runtimes, query),
        query !is Finished,
        query_after(runtimes, query, answer) is Finished,
    ensures
        runtime_of(query) + 1 == runtimes,
{
}

/// The runtime that a question is about.
pub open spec fn runtime_of(query: Query) -> int {
    match query {
        Query::Host { runtime } => runtime as int,
        Query::Fixtures { runtime } => runtime as int,
        Query::Sources { runtime, .. } => runtime as int,
        Query::Emitters { runtime, .. } => runtime as int,
        Query::Spectrum { runtime, .. } => runtime as int,
        Query::Finished => -1,
    }
}

proof fn lemma_asked_index(world: World, runtimes: usize, query: Query, n: nat, i: nat)
    requires
        i < n,
    ensures
        asked(world, runtimes, query, n).len() == n,
        asked(world, runtimes, query, n)[i as int] == asked_next(world, runtimes, query, i),
    decreases n,
{
    let next: Query = query_after(runtimes, query, world(query));
    lemma_asked_len(world, runtimes, query, n);
    if i > 0 {
        lemma_asked_index(world, runtimes, next, (n - 1) as nat, (i - 1) as nat);
    }
}

proof fn lemma_asked_len(world: World, runtimes: usize, query: Query, n: nat)
    ensures
        asked(world, runtimes, query, n).len() == n,
    decreases n,
{
    if n > 0 {
        lemma_asked_len(
            world,
            runtimes,
            query_after(runtimes, query, world(query)),
            (n - 1) as nat,
        );
    }
}

proof fn lemma_no_finish(world: World, runtimes: usize, runtime: nat, i: int)
    requires
        0 <= i < runtime_questions(world, runtimes, runtime).len(),
    ensures
        runtime_questions(world, runtimes, runtime)[i] !is Finished,
    decreases runtimes - runtime,
{
    let host: Query = Query::Host { runtime: runtime as usize };
    let inner: Seq<Query> = if world(host) is Reached {
        host_questions(world, runtime)
    } else {
        Seq::empty()
    };
    if i >= 1 + inner.len() {
        lemma_no_finish(world, runtimes, runtime + 1, i - 1 - inner.len());
    } else if i >= 1 {
        let first: Query = Query::Fixtures { runtime: runtime as usize };
        if i >= 2 {
            lemma_no_finish_fixtures(
                world,
                runtime,
                0,
                world(first)->Found_0,
                i - 2,
            );
        }
    }
}

proof fn lemma_no_finish_fixtures(
    world: World,
    runtime: nat,
    fixture: nat,
    fixtures: usize,
    i: int,
)
    requires
        0 <= i < fixture_questions(world, runtime, fixture, fixtures).len(),
    ensures
        fixture_questions(world, runtime, fixture, fixtures)[i] !is Finished,
    decreases fixtures - fixture,
{
    let first: Query = Query::Sources {
        runtime: runtime as usize,
        fixture: fixture as usize,
        fixtures,
    };
    let inner: Seq<Query> = match world(first) {
        Answer::Found(n) => source_questions(world, runtime, fixture, fixtures, 0, n),
        _ => Seq::empty(),
    };
    if i >= 1 + inner.len() {
        lemma_no_finish_fixtures(world, runtime, fixture + 1, fixtures, i - 1 - inner.len());
    } else if i >= 1 {
        lemma_no_finish_sources(
            world,
            runtime,
            fixture,
            fixtures,
            0,
            world(first)->Found_0,
            i - 1,
        );
    }
}

proof fn lemma_no_finish_sources(
    world: World,
    runtime: nat,
    fixture: nat,
    fixtures: usize,
    source: nat,
    sources: usize,
    i: int,
)
    requires
        0 <= i < source_questions(world, runtime, fixture, fixtures, source, sources).len(),
    ensures
        source_questions(world, runtime, fixture, fixtures, source, sources)[i] !is Finished,
    decreases sources - source,
{
    let first: Query = Query::Emitters {
        runtime: runtime as usize,
        fixture: fixture as usize,
        fixtures,
        source: source as usize,
        sources,
    };
    let inner: Seq<Query> = match world(first) {
        Answer::Found(n) => emitter_questions(runtime, fixture, fixtures, source, sources, 0, n),
        _ => Seq::empty(),
    };
    if i >= 1 + inner.len() {
        lemma_no_finish_sources(
            world,
            runtime,
            fixture,
            fixtures,
            source + 1,
            sources,
            i - 1 - inner.len(),
        );
    } else if i >= 1 {
        lemma_no_finish_emitters(
            runtime,
            fixture,
            fixtures,
            source,
            sources,
            0,
            world(first)->Found_0,
            i - 1,
        );
    }
}

proof fn lemma_no_finish_emitters(
    runtime: nat,
    fixture: nat,
    fixtures: usize,
    source: nat,
    sources: usize,
    emitter: nat,
    emitters: usize,
    i: int,
)
    requires
        0 <= i < emitter_questions(
            runtime,
            fixture,
            fixtures,
            source,
            sources,
            emitter,
            emitters,
        ).len(),
    ensures
        emitter_questions(
            runtime,
            fixture,
            fixtures,
            source,
            sources,
            emitter,
            emitters,
        )[i] !is Finished,
    decreases emitters - emitter,
{
    if i > 0 {
        lemma_no_finish_emitters(
            runtime,
            fixture,
            fixtures,
            source,
            sources,
            emitter + 1,
            emitters,
            i - 1,
        );
    }
}

/// What leads on from where something leads to follows it.
proof fn lemma_leads(
    world: World,
    runtimes: usize,
    query: Query,
    first: Seq<Query>,
    middle: Query,
    second: Seq<Query>,
    last: Query,
)
    requires
        leads(world, runtimes, query, first, middle),
        leads(world, runtimes, middle, second, last),
    ensures
        leads(world, runtimes, query, first + second, last),
    decreases first.len(),
{
    let next: Query = query_after(runtimes, query, world(query));
    if first.len() == 0 {
        assert(first + second =~= second);
    } else {
        let rest: Seq<Query> = first.subrange(1, first.len() as int);
        let whole: Seq<Query> = asked(world, runtimes, query, first.len());
        assert(whole == seq![query] + asked(world, runtimes, next, (first.len() - 1) as nat));
        lemma_asked_len(world, runtimes, next, (first.len() - 1) as nat);
        assert(rest =~= asked(world, runtimes, next, rest.len()));
        lemma_leads(world, runtimes, next, rest, middle, second, last);
        assert(first[0] == query);
        assert(seq![query] + (rest + second) =~= first + second);
        assert((first + second).len() - 1 == (rest + second).len());
    }
}

/// One question leads to the next.
proof fn lemma_leads_one(world: World, runtimes: usize, query: Query)
    ensures
        leads(
            world,
            runtimes,
            query,
            seq![query],
            query_after(runtimes, query, world(query)),
        ),
{
    let next: Query = query_after(runtimes, query, world(query));
    assert(asked(world, runtimes, next, 0) =~= Seq::empty());
    assert(asked(world, runtimes, query, 1) == seq![query] + asked(world, runtimes, next, 0));
    assert(seq![query] + Seq::<Query>::empty() =~= seq![query]);
    assert(asked_next(world, runtimes, next, 0) == next);
    assert(seq![query].len() == 1);
}

proof fn lemma_leads_nothing(world: World, runtimes: usize, query: Query)
    ensures
        leads(world, runtimes, query, Seq::empty(), query),
{
    assert(asked(world, runtimes, query, 0) =~= Seq::empty());
}

proof fn lemma_emitters(
    world: World,
    runtimes: usize,
    runtime: usize,
    fixture: usize,
    fixtures: usize,
    source: usize,
    sources: usize,
    emitter: nat,
    emitters: usize,
)
    ensures
        leads(
            world,
            runtimes,
            at_emitter(
                runtimes,
                runtime,
                fixture,
                fixtures,
                source,
                sources,
                emitter as int,
                emitters,
            ),
            emitter_questions(
                runtime as nat,
                fixture as nat,
                fixtures,
                source as nat,
                sources,
                emitter,
                emitters,
            ),
            at_source(runtimes, runtime, fixture, fixtures, source + 1, sources),
        ),
    decreases emitters - emitter,
{
    let query: Query = at_emitter(
        runtimes,
        runtime,
        fixture,
        fixtures,
        source,
        sources,
        emitter as int,
        emitters,
    );
    if emitter >= emitters {
        lemma_leads_nothing(world, runtimes, query);
    } else {
        lemma_emitters(
            world,
            runtimes,
            runtime,
            fixture,
            fixtures,
            source,
            sources,
            emitter + 1,
            emitters,
        );
        lemma_leads_one(world, runtimes, query);
        lemma_leads(
            world,
            runtimes,
            query,
            seq![query],
            query_after(runtimes, query, world(query)),
            emitter_questions(
                runtime as nat,
                fixture as nat,
                fixtures,
                source as nat,
                sources,
                emitter + 1,
                emitters,
            ),
            at_source(runtimes, runtime, fixture, fixtures, source + 1, sources),
        );
    }
}

proof fn lemma_sources(
    world: World,
    runtimes: usize,
    runtime: usize,
    fixture: usize,
    fixtures: usize,
    source: nat,
    sources: usize,
)
    ensures
        leads(
            world,
            runtimes,
            at_source(runtimes, runtime, fixture, fixtures, source as int, sources),
            source_questions(world, runtime as nat, fixture as nat, fixtures, source, sources),
            at_fixture(runtimes, runtime, fixture + 1, fixtures),
        ),
    decreases sources - source,
{
    let query: Query = at_source(runtimes, runtime, fixture, fixtures, source as int, sources);
    let end: Query = at_fixture(runtimes, runtime, fixture + 1, fixtures);
    if source >= sources {
        lemma_leads_nothing(world, runtimes, query);
    } else {
        let next: Query = at_source(
            runtimes,
            runtime,
            fixture,
            fixtures,
            (source + 1) as int,
            sources,
        );
        let rest: Seq<Query> = source_questions(
            world,
            runtime as nat,
            fixture as nat,
            fixtures,
            source + 1,
            sources,
        );
        lemma_sources(world, runtimes, runtime, fixture, fixtures, source + 1, sources);
        lemma_leads_one(world, runtimes, query);
        let middle: Query = query_after(runtimes, query, world(query));
        let inner: Seq<Query> = match world(query) {
            Answer::Found(n) => emitter_questions(
                runtime as nat,
                fixture as nat,
                fixtures,
                source,
                sources,
                0,
                n,
            ),
            _ => Seq::empty(),
        };
        if let Answer::Found(n) = world(query) {
            lemma_emitters(
                world,
                runtimes,
                runtime,
                fixture,
                fixtures,
                source as usize,
                sources,
                0,
                n,
            );
        } else {
            lemma_leads_nothing(world, runtimes, next);
        }
        assert(leads(world, runtimes, middle, inner, next));
        lemma_leads(world, runtimes, query, seq![query], middle, inner, next);
        lemma_leads(world, runtimes, query, seq![query] + inner, next, rest, end);
    }
}

proof fn lemma_fixtures(
    world: World,
    runtimes: usize,
    runtime: usize,
    fixture: nat,
    fixtures: usize,
)
    ensures
        leads(
            world,
            runtimes,
            at_fixture(runtimes, runtime, fixture as int, fixtures),
            fixture_questions(world, runtime as nat, fixture, fixtures),
            at_runtime(runtimes, runtime + 1),
        ),
    decreases fixtures - fixture,
{
    let query: Query = at_fixture(runtimes, runtime, fixture as int, fixtures);
    let end: Query = at_runtime(runtimes, runtime + 1);
    if fixture >= fixtures {
        lemma_leads_nothing(world, runtimes, query);
    } else {
        let next: Query = at_fixture(runtimes, runtime, (fixture + 1) as int, fixtures);
        let rest: Seq<Query> = fixture_questions(world, runtime as nat, fixture + 1, fixtures);
        lemma_fixtures(world, runtimes, runtime, fixture + 1, fixtures);
        lemma_leads_one(world, runtimes, query);
        let middle: Query = query_after(runtimes, query, world(query));
        let inner: Seq<Query> = match world(query) {
            Answer::Found(n) => source_questions(
                world,
                runtime as nat,
                fixture,
                fixtures,
                0,
                n,
            ),
            _ => Seq::empty(),
        };
        if let Answer::Found(n) = world(query) {
            lemma_sources(world, runtimes, runtime, fixture as usize, fixtures, 0, n);
        } else {
            lemma_leads_nothing(world, runtimes, next);
        }
        assert(leads(world, runtimes, middle, inner, next));
        lemma_leads(world, runtimes, query, seq![query], middle, inner, next);
        lemma_leads(world, runtimes, query, seq![query] + inner, next, rest, end);
    }
}

proof fn lemma_host(world: World, runtimes: usize, runtime: usize)
    ensures
        leads(
            world,
            runtimes,
            Query::Fixtures { runtime },
            host_questions(world, runtime as nat),
            at_runtime(runtimes, runtime + 1),
        ),
{
    let query: Query = Query::Fixtures { runtime };
    let end: Query = at_runtime(runtimes, runtime + 1);
    let middle: Query = query_after(runtimes, query, world(query));
    lemma_leads_one(world, runtimes, query);
    if let Answer::Found(n) = world(query) {
        lemma_fixtures(world, runtimes, runtime, 0, n);
        lemma_leads(
            world,
            runtimes,
            query,
            seq![query],
            middle,
            fixture_questions(world, runtime as nat, 0, n),
            end,
        );
    } else {
        assert(seq![query] + Seq::<Query>::empty() =~= seq![query]);
    }
}

proof fn lemma_runtimes(world: World, runtimes: usize, runtime: nat)
    ensures
        leads(
            world,
            runtimes,
            at_runtime(runtimes, runtime as int),
            runtime_questions(world, runtimes, runtime),
            Query::Finished,
        ),
    decreases runtimes - runtime,
{
    let query: Query = at_runtime(runtimes, runtime as int);
    if runtime >= runtimes {
        lemma_leads_nothing(world, runtimes, query);
    } else {
        let next: Query = at_runtime(runtimes, (runtime + 1) as int);
        let rest: Seq<Query> = runtime_questions(world, runtimes, runtime + 1);
        lemma_runtimes(world, runtimes, runtime + 1);
        lemma_leads_one(world, runtimes, query);
        let middle: Query = query_after(runtimes, query, world(query));
        let inner: Seq<Query> = if world(query) is Reached {
            host_questions(world, runtime)
        } else {
            Seq::empty()
        };
        if world(query) is Reached {
            lemma_host(world, runtimes, runtime as usize);
        } else {
            lemma_leads_nothing(world, runtimes, next);
        }
        assert(leads(world, runtimes, middle, inner, next));
        lemma_leads(world, runtimes, query, seq![query], middle, inner, next);
        lemma_leads(world, runtimes, query, seq![query] + inner, next, rest, Query::Finished);
    }
}

} // verus!
