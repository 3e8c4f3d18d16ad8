use light_mixer::binary32::Binary32;
use light_mixer::mixer::device::{
    coalesce, last_error, Device, DeviceCommand, Displays, Round,
};

fn b(x: f32) -> Binary32 {
    Binary32::from_bits(x.to_bits())
}

fn emitter(i: usize, x: f32) -> DeviceCommand {
    DeviceCommand::SetEmitter(i, b(x))
}

fn source(i: usize, x: f32) -> DeviceCommand {
    DeviceCommand::SetSource(i, b(x))
}

#[test]
fn last_command_counts() {
    let batch = coalesce(&[
        emitter(3, 0.1),
        source(0, 0.2),
        emitter(1, 0.3),
        emitter(3, 0.4),
        source(0, 0.5),
        source(2, 0.6),
        emitter(3, 0.7),
    ]);
    assert_eq!(batch.emitters, vec![(3, b(0.7)), (1, b(0.3))]);
    assert_eq!(batch.sources, vec![(0, b(0.5)), (2, b(0.6))]);
}

#[test]
fn known_state_at_the_start() {
    let device = Device::new(vec![0, 0, 1], 2, 2);
    assert_eq!(device.source_fluxes, vec![b(1.0), b(1.0)]);
    let init = device.initialization();
    assert_eq!(init.sources, vec![(0, b(1.0)), (1, b(1.0))]);
    assert_eq!(init.emitters, vec![(0, b(0.0)), (1, b(0.0)), (2, b(0.0))]);
    assert_eq!(init.fixture, Some(b(0.5)));
    assert_eq!(Device::new(vec![], 1, 1).initialization().fixture, None);
}

#[test]
fn touched_sources_are_displayed() {
    let mut device = Device::new(vec![0, 0, 1, 2], 3, 3);
    let round = device.begin_round(&[source(0, 0.25), emitter(2, 0.5), emitter(1, 0.75)]);
    assert_eq!(
        round,
        Round { emitters: vec![(2, b(0.5)), (1, b(0.75))], affected: vec![0] }
    );
    let displays = device.displays(round, &[None, None]);
    assert_eq!(
        displays,
        Displays { sources: vec![(0, b(0.25)), (1, b(1.0))], fixture: Some(b(0.5)) }
    );
    // The flux of a source is remembered.
    let round = device.begin_round(&[emitter(0, 1.0)]);
    let displays = device.displays(round, &[None]);
    assert_eq!(displays.sources, vec![(0, b(0.25))]);
}

#[test]
fn source_of_a_failed_emitter_is_not_displayed() {
    let mut device = Device::new(vec![0, 1], 2, 2);
    let round = device.begin_round(&[emitter(0, 1.0), emitter(1, 1.0)]);
    let displays = device.displays(round, &[Some(String::from("lost")), None]);
    assert_eq!(displays.sources, vec![(1, b(1.0))]);
    let round = device.begin_round(&[emitter(0, 1.0)]);
    let displays = device.displays(round, &[Some(String::from("lost"))]);
    assert_eq!(displays, Displays { sources: vec![], fixture: None });
}

#[test]
fn unknown_resources_are_left_out() {
    let mut device = Device::new(vec![0], 1, 1);
    let round = device.begin_round(&[source(1, 0.5), emitter(1, 0.5)]);
    assert_eq!(round, Round { emitters: vec![], affected: vec![] });
    assert_eq!(device.source_fluxes, vec![b(1.0)]);
    // A source that is tracked but is not there is touched, and not displayed.
    let mut device = Device::new(vec![0, 5], 1, 2);
    let round = device.begin_round(&[source(1, 0.5)]);
    let displays = device.displays(round, &[]);
    assert_eq!(displays, Displays { sources: vec![], fixture: Some(b(0.5)) });
    // One that is there but is not tracked has the default flux.
    let mut device = Device::new(vec![1], 2, 1);
    let round = device.begin_round(&[emitter(0, 0.5)]);
    assert_eq!(device.displays(round, &[None]).sources, vec![(1, b(1.0))]);
}

#[test]
fn together_as_one_by_one() {
    let commands = [
        source(0, 0.1),
        source(1, 0.2),
        emitter(0, 0.9),
        source(0, 0.3),
        source(7, 0.4),
        source(1, 0.5),
        source(2, 0.6),
    ];
    let mut together = Device::new(vec![0], 3, 3);
    together.begin_round(&commands);
    let mut single = Device::new(vec![0], 3, 3);
    for command in commands {
        single.begin_round(&[command]);
    }
    assert_eq!(together, single);
    assert_eq!(together.source_fluxes, vec![b(0.3), b(0.5), b(0.6)]);
}

#[test]
fn last_error_is_reported() {
    assert_eq!(last_error(vec![]), None);
    assert_eq!(last_error(vec![None, None]), None);
    assert_eq!(
        last_error(vec![Some(String::from("a")), None, Some(String::from("b")), None]),
        Some(String::from("b"))
    );
}
