use light_mixer::binary32::Binary32;
use light_mixer::mixer::catalog::{peak_of, SpectralSample};
use light_mixer::mixer::entry::UIEntry;
use light_mixer::mixer::exploration::{Answer, Exploration, Query};

fn b(x: f32) -> Binary32 {
    Binary32::from_bits(x.to_bits())
}

fn samples(values: &[(f32, f32)]) -> Vec<SpectralSample> {
    values
        .iter()
        .map(|&(wavelength, measurement)| SpectralSample {
            wavelength: b(wavelength),
            measurement: b(measurement),
        })
        .collect()
}

fn explore(runtimes: usize, answers: Vec<Answer>) -> (Vec<Query>, Exploration) {
    let mut exploration = Exploration::new(runtimes);
    let mut queries = Vec::new();
    for answer in answers {
        queries.push(exploration.query);
        exploration.answer(answer);
    }
    (queries, exploration)
}

#[test]
fn peak_is_the_last_greatest() {
    assert_eq!(peak_of(&[]), b(0.0));
    assert_eq!(peak_of(&samples(&[(400.0, 3.0)])), b(400.0));
    assert_eq!(peak_of(&samples(&[(400.0, 1.0), (410.0, 3.0), (420.0, 2.0)])), b(410.0));
    assert_eq!(peak_of(&samples(&[(400.0, 3.0), (410.0, 3.0), (420.0, 2.0)])), b(410.0));
    assert_eq!(peak_of(&samples(&[(400.0, 3.0), (410.0, 1.0), (420.0, 3.0)])), b(420.0));
    for mask in 0..243u32 {
        let mut rest = mask;
        let values: Vec<(f32, f32)> = (0..5)
            .map(|i| {
                let m = [0.0f32, 1.0, f32::NAN][(rest % 3) as usize];
                rest /= 3;
                (400.0 + i as f32, m)
            })
            .collect();
        let expected = values
            .iter()
            .max_by(|x, y| x.1.partial_cmp(&y.1).unwrap_or(std::cmp::Ordering::Equal))
            .map(|s| s.0)
            .unwrap_or(0.0);
        assert_eq!(peak_of(&samples(&values)), b(expected));
    }
}

#[test]
fn device_in_full() {
    let (queries, exploration) = explore(
        1,
        vec![
            Answer::Reached,
            Answer::Found(2),
            Answer::Found(1),
            Answer::Found(1),
            Answer::Measured(samples(&[(440.0, 1.0), (470.0, 2.0)])),
            Answer::Found(2),
            Answer::Found(0),
            Answer::Found(2),
            Answer::Failed,
            Answer::Measured(samples(&[(650.0, 1.0)])),
        ],
    );
    assert_eq!(
        queries,
        vec![
            Query::Host { runtime: 0 },
            Query::Fixtures { runtime: 0 },
            Query::Sources { runtime: 0, fixture: 0, fixtures: 2 },
            Query::Emitters { runtime: 0, fixture: 0, fixtures: 2, source: 0, sources: 1 },
            Query::Spectrum {
                runtime: 0,
                fixture: 0,
                fixtures: 2,
                source: 0,
                sources: 1,
                emitter: 0,
                emitters: 1,
            },
            Query::Sources { runtime: 0, fixture: 1, fixtures: 2 },
            Query::Emitters { runtime: 0, fixture: 1, fixtures: 2, source: 0, sources: 2 },
            Query::Emitters { runtime: 0, fixture: 1, fixtures: 2, source: 1, sources: 2 },
            Query::Spectrum {
                runtime: 0,
                fixture: 1,
                fixtures: 2,
                source: 1,
                sources: 2,
                emitter: 0,
                emitters: 2,
            },
            Query::Spectrum {
                runtime: 0,
                fixture: 1,
                fixtures: 2,
                source: 1,
                sources: 2,
                emitter: 1,
                emitters: 2,
            },
        ]
    );
    assert_eq!(exploration.query, Query::Finished);
    let (entries, device) = exploration.catalog.finish().unwrap();
    let source = |n: usize| UIEntry::Source {
        label: format!("S{}", n),
        flux: b(1.0),
        source_index: n,
    };
    assert_eq!(
        entries,
        vec![
            source(0),
            UIEntry::Emitter {
                label: String::from("F0S0E0"),
                flux: b(0.0),
                spectrum: Some(vec![b(1.0), b(2.0)]),
                peak_nm: b(470.0),
                color_name: "blue",
                handle_index: 0,
                source_entry_index: 0,
            },
            source(1),
            source(2),
            UIEntry::Emitter {
                label: String::from("F1S1E0"),
                flux: b(0.0),
                spectrum: None,
                peak_nm: b(0.0),
                color_name: "violet",
                handle_index: 1,
                source_entry_index: 3,
            },
            UIEntry::Emitter {
                label: String::from("F1S1E1"),
                flux: b(0.0),
                spectrum: Some(vec![b(1.0)]),
                peak_nm: b(650.0),
                color_name: "red",
                handle_index: 2,
                source_entry_index: 3,
            },
        ]
    );
    assert_eq!(device.handle_sources, vec![0, 2, 2]);
    assert_eq!(device.source_count, 3);
    assert_eq!(device.source_fluxes, vec![b(1.0); 3]);
}

#[test]
fn what_fails_is_passed_over() {
    let (queries, exploration) = explore(
        3,
        vec![
            Answer::Failed,   // the first host
            Answer::Reached,  // the second
            Answer::Failed,   // its fixtures
            Answer::Reached,  // the third host
            Answer::Found(2), // its fixtures
            Answer::Failed,   // the sources of the first
            Answer::Found(1), // of the second
            Answer::Failed,   // its emitters
        ],
    );
    assert_eq!(queries[1], Query::Host { runtime: 1 });
    assert_eq!(queries[3], Query::Host { runtime: 2 });
    assert_eq!(queries[6], Query::Sources { runtime: 2, fixture: 1, fixtures: 2 });
    assert_eq!(exploration.query, Query::Finished);
    assert_eq!(exploration.catalog.entries.len(), 1);
    // Without an emitter there is nothing to mix.
    assert_eq!(exploration.catalog.finish(), None);
}

#[test]
fn nothing_to_explore() {
    let (_, exploration) = explore(0, vec![]);
    assert_eq!(exploration.query, Query::Finished);
    let (queries, exploration) = explore(1, vec![Answer::Reached, Answer::Found(0)]);
    assert_eq!(queries.len(), 2);
    assert_eq!(exploration.query, Query::Finished);
    let mut exploration = exploration;
    exploration.answer(Answer::Reached);
    assert_eq!(exploration.query, Query::Finished);
}
