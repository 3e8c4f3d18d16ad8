use light_mixer::binary32::Binary32;
use light_mixer::message::{
    Command, CommandMessage, Configuration, EmitterCommand, EmitterInfo, Error, Event,
    EventMessage, Flux, Identifier, SourceCommand, SourceEvent, SourceInfo,
};
use light_mixer::source::{
    display_reply, emitter_count_reply, emitter_info_reply, Emitter, Enumeration, RemoteSource,
    Reply, Source,
};

fn id(value: u128) -> Identifier {
    Identifier { value }
}

fn half() -> Flux {
    Flux::Relative(Binary32::from_bits(0.5f32.to_bits()))
}

fn remote() -> RemoteSource<&'static str> {
    RemoteSource::new(SourceInfo { identifier: id(7) }, "runtime")
}

fn event(event: SourceEvent) -> Reply {
    Ok(EventMessage { event: Event::Source(event) })
}

fn count(n: u32) -> Reply {
    event(SourceEvent::EmitterCount(n))
}

fn info(value: u128) -> Reply {
    event(SourceEvent::EmitterInfo(EmitterInfo { identifier: id(value) }))
}

fn lost() -> Error {
    Error::Debug(String::from("lost"))
}

#[test]
fn commands_of_a_source() {
    let source = remote();
    assert_eq!(source.identifier(), id(7));
    assert_eq!(source.remote, "runtime");
    let to_source = |command| CommandMessage {
        command: Command::Source(command),
        resource: Some(id(7)),
    };
    assert_eq!(source.emitter_count(), to_source(SourceCommand::EmitterCount));
    assert_eq!(source.emitter_info(3), to_source(SourceCommand::EmitterInfo(3)));
    assert_eq!(
        source.display(Configuration::Encoded(vec![1, 2]), half()),
        to_source(SourceCommand::Display(Configuration::Encoded(vec![1, 2]), half()))
    );
    assert_eq!(
        source.set_emitter_flux(id(9), half()),
        CommandMessage {
            command: Command::Emitter(EmitterCommand::FluxSet(half())),
            resource: Some(id(9)),
        }
    );
    let twin = source.clone();
    assert_eq!(twin.identifier(), id(7));
    assert_eq!(twin.remote, "runtime");
}

#[test]
fn replies_of_a_source() {
    assert_eq!(emitter_count_reply(count(4)), Ok(4));
    assert_eq!(emitter_info_reply(info(5)), Ok(EmitterInfo { identifier: id(5) }));
    assert_eq!(
        display_reply(event(SourceEvent::Display(Configuration::Manual, half()))),
        Ok((Configuration::Manual, half()))
    );
}

#[test]
fn replies_to_another_command_are_unexpected() {
    let other = || Ok(EventMessage { event: Event::Other });
    let display = || event(SourceEvent::Display(Configuration::Manual, half()));
    for reply in [info(1), display(), other()] {
        assert_eq!(emitter_count_reply(reply), Err(Error::UnexpectedResponse));
    }
    for reply in [count(1), display(), other()] {
        assert_eq!(emitter_info_reply(reply), Err(Error::UnexpectedResponse));
    }
    for reply in [count(1), info(1), other()] {
        assert_eq!(display_reply(reply), Err(Error::UnexpectedResponse));
    }
}

#[test]
fn faults_on_the_way_are_passed_on() {
    assert_eq!(emitter_count_reply(Err(lost())), Err(lost()));
    assert_eq!(emitter_info_reply(Err(lost())), Err(lost()));
    assert_eq!(display_reply(Err(lost())), Err(lost()));
}

fn enumerate(replies: Vec<Reply>) -> (Vec<CommandMessage>, Enumeration) {
    let source = remote();
    let mut enumeration = source.emitters();
    let mut commands = Vec::new();
    for reply in replies {
        if let Some(command) = source.next_command(&enumeration) {
            commands.push(command);
        }
        enumeration = enumeration.take(reply);
    }
    (commands, enumeration)
}

#[test]
fn enumeration_in_full() {
    let source = remote();
    let (commands, enumeration) = enumerate(vec![count(3), info(10), info(20), info(30)]);
    assert_eq!(
        commands,
        vec![
            source.emitter_count(),
            source.emitter_info(0),
            source.emitter_info(1),
            source.emitter_info(2),
        ]
    );
    assert_eq!(source.next_command(&enumeration), None);
    assert_eq!(enumeration, Enumeration::Ended(Ok(vec![id(10), id(20), id(30)])));
}

#[test]
fn enumeration_of_nothing() {
    let (commands, enumeration) = enumerate(vec![count(0)]);
    assert_eq!(commands.len(), 1);
    assert_eq!(enumeration, Enumeration::Ended(Ok(vec![])));
}

#[test]
fn enumeration_ends_with_the_first_error() {
    let (commands, enumeration) = enumerate(vec![Err(lost()), count(1)]);
    assert_eq!(commands.len(), 1);
    assert_eq!(enumeration, Enumeration::Ended(Err(lost())));

    let (commands, enumeration) = enumerate(vec![count(3), info(1), count(2), Err(lost())]);
    assert_eq!(commands.len(), 3);
    assert_eq!(enumeration, Enumeration::Ended(Err(Error::UnexpectedResponse)));
}

struct Lamp {
    emitters: Vec<Box<dyn Emitter>>,
}

struct Diode {
    identifier: Identifier,
}

impl Emitter for Diode {
    fn identifier(&self) -> Identifier {
        self.identifier
    }
}

impl Source for Lamp {
    fn identifier(&self) -> Identifier {
        id(1)
    }

    fn display(
        &mut self,
        config: Configuration,
        target_flux: Flux,
    ) -> Result<(Configuration, Flux), Error> {
        Ok((config, target_flux))
    }

    fn emitters(&self) -> &[Box<dyn Emitter>] {
        &self.emitters
    }
}

#[test]
fn sources_are_made_by_their_users() {
    let mut lamp = Lamp { emitters: vec![Box::new(Diode { identifier: id(2) })] };
    let source: &mut dyn Source = &mut lamp;
    assert_eq!(source.identifier(), id(1));
    assert_eq!(source.emitters()[0].identifier(), id(2));
    assert_eq!(
        source.display(Configuration::Manual, half()),
        Ok((Configuration::Manual, half()))
    );
}
