//! Light sources, and the commands and answers of a source that is reached
//! through a runtime.
//!
//! Nothing is sent from here: each operation of a remote source is the command to
//! send, and what the answer to it means.

use vstd::prelude::*;

use crate::message::{
    Command, CommandMessage, Configuration, EmitterCommand, EmitterInfo, Error, Event,
    EventMessage, Flux, Identifier, SourceCommand, SourceEvent, SourceInfo,
};

verus! {

/// An emitter of a light source.
pub trait Emitter: Send + Sync {
    fn identifier(&self) -> Identifier;
}

/// Represents a light source containing one or more emitters.
pub trait Source: Send + Sync {
    fn identifier(&self) -> Identifier;

    fn display(&mut self, config: Configuration, target_flux: Flux) -> Result<
        (Configuration, Flux),
        Error,
    >;

    fn emitters(&self) -> &[Box<dyn Emitter>];
}

/// A source accessed via remote runtime communication.
pub struct RemoteSource<R> {
    pub info: SourceInfo,
    pub remote: R,
}

impl<R: Clone> Clone for RemoteSource<R> {
    /// The same source, reached through a clone of the runtime.
    fn clone(&self) -> (source: RemoteSource<R>)
        ensures
            source.info == self.info,
            cloned(self.remote, source.remote),
    {
        RemoteSource { info: self.info, remote: self.remote.clone() }
    }
}

impl<R> RemoteSource<R> {
    /// Create a new RemoteSource with the given runtime and source info.
    pub fn new(info: SourceInfo, remote: R) -> (source: RemoteSource<R>)
        ensures
            source.info == info,
            source.remote == remote,
    {
        RemoteSource { info, remote }
    }

    /// Get the source identifier.
    pub fn identifier(&self) -> (identifier: Identifier)
        ensures
            identifier == self.info.identifier,
    {
        self.info.identifier
    }

    /// The command that fetches the number of emitters in this source.
    pub fn emitter_count(&self) -> (message: CommandMessage)
        ensures
            message == source_message(self.info.identifier, SourceCommand::EmitterCount),
    {
        CommandMessage::root(Command::Source(SourceCommand::EmitterCount), Some(self.identifier()))
    }

    /// The display command to the source.
    pub fn display(&self, config: Configuration, target_flux: Flux) -> (message: CommandMessage)
        ensures
            message == source_message(
                self.info.identifier,
                SourceCommand::Display(config, target_flux),
            ),
    {
        CommandMessage::root(
            Command::Source(SourceCommand::Display(config, target_flux)),
            Some(self.identifier()),
        )
    }

    /// The command that queries emitter info by index.
    pub fn emitter_info(&self, index: u32) -> (message: CommandMessage)
        ensures
            message == source_message(self.info.identifier, SourceCommand::EmitterInfo(index)),
    {
        CommandMessage::root(
            Command::Source(SourceCommand::EmitterInfo(index)),
            Some(self.identifier()),
        )
    }

    /// The enumeration of all emitter identifiers in this source.
    pub fn emitters(&self) -> (enumeration: Enumeration)
        ensures
            enumeration@ == EnumerationView::Counting,
    {
        Enumeration::Counting
    }

    /// The next command of an enumeration of the emitters in this source, until it has
    /// ended.
    pub fn next_command(&self, enumeration: &Enumeration) -> (message: Option<CommandMessage>)
        requires
            enumeration.wf(),
        ensures
            message == command_for(self.info.identifier, enumeration@),
    {
        match enumeration {
            Enumeration::Counting => Some(self.emitter_count()),
            Enumeration::Listing { count, ids } => Some(self.emitter_info(ids.len() as u32)),
            Enumeration::Ended(_) => None,
        }
    }

    /// The command that sets the flux on a specific emitter (fire-and-forget).
    pub fn set_emitter_flux(&self, emitter_id: Identifier, flux: Flux) -> (message: CommandMessage)
        ensures
            message == (CommandMessage {
                command: Command::Emitter(EmitterCommand::FluxSet(flux)),
                resource: Some(emitter_id),
            }),
    {
        CommandMessage::root(Command::Emitter(EmitterCommand::FluxSet(flux)), Some(emitter_id))
    }
}

/// A command to a source.
pub open spec fn source_message(source: Identifier, command: SourceCommand) -> CommandMessage {
    CommandMessage { command: Command::Source(command), resource: Some(source) }
}

/// What came back for a command: an answer, or what went wrong on the way.
pub type Reply = Result<EventMessage, Error>;

/// The number of emitters that a reply tells.
pub open spec fn count_in(reply: Reply) -> Result<u32, Error> {
    match reply {
        Ok(message) => match message.event {
            Event::Source(SourceEvent::EmitterCount(count)) => Ok(count),
            _ => Err(Error::UnexpectedResponse),
        },
        Err(error) => Err(error),
    }
}

/// The configuration and flux that a reply tells.
pub open spec fn display_in(reply: Reply) -> Result<(Configuration, Flux), Error> {
    match reply {
        Ok(message) => match message.event {
            Event::Source(SourceEvent::Display(config, flux)) => Ok((config, flux)),
            _ => Err(Error::UnexpectedResponse),
        },
        Err(error) => Err(error),
    }
}

/// The emitter that a reply tells of.
pub open spec fn info_in(reply: Reply) -> Result<EmitterInfo, Error> {
    match reply {
        Ok(message) => match message.event {
            Event::Source(SourceEvent::EmitterInfo(info)) => Ok(info),
            _ => Err(Error::UnexpectedResponse),
        },
        Err(error) => Err(error),
    }
}

/// Reads the reply to an `emitter_count` command.
pub fn emitter_count_reply(reply: Reply) -> (r: Result<u32, Error>)
    ensures
        r == count_in(reply),
{
    match reply {
        Ok(message) => match message.event {
            Event::Source(SourceEvent::EmitterCount(count)) => Ok(count),
            _ => Err(Error::UnexpectedResponse),
        },
        Err(error) => Err(error),
    }
}

/// Reads the reply to a `display` command.
pub fn display_reply(reply: Reply) -> (r: Result<(Configuration, Flux), Error>)
    ensures
        r == display_in(reply),
{
    match reply {
        Ok(message) => match message.event {
            Event::Source(SourceEvent::Display(config, flux)) => Ok((config, flux)),
            _ => Err(Error::UnexpectedResponse),
        },
        Err(error) => Err(error),
    }
}

/// Reads the reply to an `emitter_info` command.
pub fn emitter_info_reply(reply: Reply) -> (r: Result<EmitterInfo, Error>)
    ensures
        r == info_in(reply),
{
    match reply {
        Ok(message) => match message.event {
            Event::Source(SourceEvent::EmitterInfo(info)) => Ok(info),
            _ => Err(Error::UnexpectedResponse),
        },
        Err(error) => Err(error),
    }
}

/// How far the enumeration of the emitters of a source has come.
#[derive(Debug, PartialEq, Eq)]
pub enum Enumeration {
    /// The number of emitters is to be asked.
    Counting,
    /// The emitters are asked for one after the other.
    Listing { count: u32, ids: Vec<Identifier> },
    /// Nothing more is to be asked.
    Ended(Result<Vec<Identifier>, Error>),
}

/// An enumeration, with the identifiers as a sequence.
pub enum EnumerationView {
    Counting,
    Listing { count: nat, ids: Seq<Identifier> },
    Ended(Result<Seq<Identifier>, Error>),
}

impl View for Enumeration {
    type V = EnumerationView;

    open spec fn view(&self) -> EnumerationView {
        match self {
            Enumeration::Counting => EnumerationView::Counting,
            Enumeration::Listing { count, ids } => EnumerationView::Listing {
                count: *count as nat,
                ids: ids@,
            },
            Enumeration::Ended(Ok(ids)) => EnumerationView::Ended(Ok(ids@)),
            Enumeration::Ended(Err(error)) => EnumerationView::Ended(Err(*error)),
        }
    }
}

/// What an enumeration asks next.
pub open spec fn command_for(source: Identifier, enumeration: EnumerationView) -> Option<
    CommandMessage,
> {
    match enumeration {
        EnumerationView::Counting => Some(source_message(source, SourceCommand::EmitterCount)),
        EnumerationView::Listing { count, ids } => Some(
            source_message(source, SourceCommand::EmitterInfo(ids.len() as u32)),
        ),
        EnumerationView::Ended(_) => None,
    }
}

/// An enumeration that has some of the identifiers; it has ended with the last one.
pub open spec fn listing(count: nat, ids: Seq<Identifier>) -> EnumerationView {
    if ids.len() < count {
        EnumerationView::Listing { count, ids }
    } else {
        EnumerationView::Ended(Ok(ids))
    }
}

/// An enumeration after a reply. The first reply that tells nothing ends it with its error.
pub open spec fn enumeration_after(enumeration: EnumerationView, reply: Reply) -> EnumerationView {
    match enumeration {
        EnumerationView::Counting => match count_in(reply) {
            Ok(count) => listing(count as nat, Seq::empty()),
            Err(error) => EnumerationView::Ended(Err(error)),
        },
        EnumerationView::Listing { count, ids } => match info_in(reply) {
            Ok(info) => listing(count, ids.push(info.identifier)),
            Err(error) => EnumerationView::Ended(Err(error)),
        },
        EnumerationView::Ended(_) => enumeration,
    }
}

impl Enumeration {
    /// Whether an enumeration that has not ended lacks an identifier.
    pub open spec fn wf(self) -> bool {
        match self {
            Enumeration::Listing { count, ids } => ids@.len() < count,
            _ => true,
        }
    }

    /// Takes the reply to the last command.
    pub fn take(self, reply: Reply) -> (next: Enumeration)
        requires
            self.wf(),
        ensures
            next.wf(),
            next@ == enumeration_after(self@, reply),
    {
        match self {
            Enumeration::Counting => match emitter_count_reply(reply) {
                Ok(count) => {
                    if count > 0 {
                        Enumeration::Listing { count, ids: Vec::new() }
                    } else {
                        Enumeration::Ended(Ok(Vec::new()))
                    }
                },
                Err(error) => Enumeration::Ended(Err(error)),
            },
            Enumeration::Listing { count, ids } => match emitter_info_reply(reply) {
                Ok(info) => {
                    let mut ids: Vec<Identifier> = ids;
                    ids.push(info.identifier);
                    if ids.len() < count as usize {
                        Enumeration::Listing { count, ids }
                    } else {
                        Enumeration::Ended(Ok(ids))
                    }
                },
                Err(error) => Enumeration::Ended(Err(error)),
            },
            Enumeration::Ended(result) => Enumeration::Ended(result),
        }
    }
}

/// An enumeration after some replies.
pub open spec fn enumeration_run(enumeration: EnumerationView, replies: Seq<Reply>) -> EnumerationView
    decreases replies.len(),
{
    if replies.len() == 0 {
        enumeration
    } else {
        enumeration_after(enumeration_run(enumeration, replies.drop_last()), replies.last())
    }
}

/// The identifiers that some replies tell.
pub open spec fn identifiers_in(replies: Seq<Reply>) -> Seq<Identifier> {
    Seq::new(replies.len(), |i: int| info_in(replies[i])->Ok_0.identifier)
}

/// A source that tells its number of emitters and then each of them is enumerated in
/// full and in order, and the enumeration does not end before.
pub proof fn law_enumeration_is_complete(first: Reply, rest: Seq<Reply>)
    requires
        count_in(first) is Ok,
        rest.len() <= count_in(first)->Ok_0,
        forall|i: int| 0 <= i < rest.len() ==> info_in(#[trigger] rest[i]) is Ok,
    ensures
        enumeration_run(EnumerationView::Counting, seq![first] + rest) == listing(
            count_in(first)->Ok_0 as nat,
            identifiers_in(rest),
        ),
    decreases rest.len(),
{
    let replies: Seq<Reply> = seq![first] + rest;
    if rest.len() == 0 {
        assert(replies.drop_last() =~= Seq::empty());
        assert(replies.last() == first);
        assert(identifiers_in(rest) =~= Seq::empty());
        assert(enumeration_run(EnumerationView::Counting, Seq::empty())
            == EnumerationView::Counting);
    } else {
        let init: Seq<Reply> = rest.drop_last();
        assert(replies.drop_last() =~= seq![first] + init);
        assert forall|i: int| 0 <= i < init.len() implies info_in(#[trigger] init[i]) is Ok by {
            assert(info_in(rest[i]) is Ok);
        }
        law_enumeration_is_complete(first, init);
        assert(replies.last() == rest[rest.len() - 1]);
        assert(info_in(rest[rest.len() - 1]) is Ok);
        assert(identifiers_in(init).push(info_in(rest.last())->Ok_0.identifier)
            =~= identifiers_in(rest));
    }
}

/// The first reply that tells nothing is the result: at once if it should have told the
/// number of emitters, and after any number of emitters that were told, as long as one
/// was missing.
pub proof fn law_enumeration_fails_with_first_error(
    first: Reply,
    rest: Seq<Reply>,
    failed: Reply,
)
    requires
        count_in(first) is Ok ==> {
            &&& rest.len() < count_in(first)->Ok_0
            &&& forall|i: int| 0 <= i < rest.len() ==> info_in(#[trigger] rest[i]) is Ok
            &&& info_in(failed) is Err
        },
    ensures
        count_in(first) is Err ==> enumeration_run(EnumerationView::Counting, seq![first])
            == EnumerationView::Ended(Err(count_in(first)->Err_0)),
        count_in(first) is Ok ==> enumeration_run(
            EnumerationView::Counting,
            (seq![first] + rest).push(failed),
        ) == EnumerationView::Ended(Err(info_in(failed)->Err_0)),
{
    if count_in(first) is Ok {
        let replies: Seq<Reply> = (seq![first] + rest).push(failed);
        law_enumeration_is_complete(first, rest);
        assert(replies.drop_last() =~= seq![first] + rest);
    } else {
        assert(seq![first].drop_last() =~= Seq::<Reply>::empty());
        assert(enumeration_run(EnumerationView::Counting, Seq::empty())
            == EnumerationView::Counting);
    }
}

/// An enumeration that has ended stays as it is: whatever comes after the first reply
/// that tells nothing, its error is the result.
pub proof fn law_enumeration_ends_once(
    result: Result<Seq<Identifier>, Error>,
    replies: Seq<Reply>,
)
    ensures
        enumeration_run(EnumerationView::Ended(result), replies) == EnumerationView::Ended(result),
    decreases replies.len(),
{
    if replies.len() > 0 {
        law_enumeration_ends_once(result, replies.drop_last());
    }
}

/// What replies mean: the answer that belongs to a command tells its result, any other
/// answer is unexpected, and a fault is passed on.
pub proof fn law_replies(reply: Reply)
    ensures
        match reply {
            Ok(message) => match message.event {
                Event::Source(SourceEvent::EmitterCount(count)) => {
                    &&& count_in(reply) == Ok::<u32, Error>(count)
                    &&& info_in(reply) == Err::<EmitterInfo, Error>(Error::UnexpectedResponse)
                    &&& display_in(reply) == Err::<(Configuration, Flux), Error>(
                        Error::UnexpectedResponse,
                    )
                },
                Event::Source(SourceEvent::EmitterInfo(info)) => {
                    &&& info_in(reply) == Ok::<EmitterInfo, Error>(info)
                    &&& count_in(reply) == Err::<u32, Error>(Error::UnexpectedResponse)
                    &&& display_in(reply) == Err::<(Configuration, Flux), Error>(
                        Error::UnexpectedResponse,
                    )
                },
                Event::Source(SourceEvent::Display(config, flux)) => {
                    &&& display_in(reply) == Ok::<(Configuration, Flux), Error>((config, flux))
                    &&& count_in(reply) == Err::<u32, Error>(Error::UnexpectedResponse)
                    &&& info_in(reply) == Err::<EmitterInfo, Error>(Error::UnexpectedResponse)
                },
                Event::Other => {
                    &&& count_in(reply) == Err::<u32, Error>(Error::UnexpectedResponse)
                    &&& info_in(reply) == Err::<EmitterInfo, Error>(Error::UnexpectedResponse)
                    &&& display_in(reply) == Err::<(Configuration, Flux), Error>(
                        Error::UnexpectedResponse,
                    )
                },
            },
            Err(error) => {
                &&& count_in(reply) == Err::<u32, Error>(error)
                &&& info_in(reply) == Err::<EmitterInfo, Error>(error)
                &&& display_in(reply) == Err::<(Configuration, Flux), Error>(error)
            },
        },
{
}

/// An enumeration asks the source for the number of its emitters, and then for one after
/// the other, from the first on.
pub proof fn law_enumeration_asks_in_order(source: Identifier, enumeration: EnumerationView)
    ensures
        match enumeration {
            EnumerationView::Counting => command_for(source, enumeration) == Some(
                CommandMessage {
                    command: Command::Source(SourceCommand::EmitterCount),
                    resource: Some(source),
                },
            ),
            EnumerationView::Listing { count, ids } => command_for(source, enumeration) == Some(
                CommandMessage {
                    command: Command::Source(SourceCommand::EmitterInfo(ids.len() as u32)),
                    resource: Some(source),
                },
            ),
            EnumerationView::Ended(_) => command_for(source, enumeration) is None,
        },
{
}

/// An enumeration that was told of `count` emitters takes so many replies: it goes on as
/// long as one is missing, and then ends with the identifiers in the order of the replies.
pub proof fn law_enumeration_takes_as_many(first: EventMessage, rest: Seq<Reply>, count: u32)
    requires
        first.event == Event::Source(SourceEvent::EmitterCount(count)),
        rest.len() <= count,
        forall|i: int|
            0 <= i < rest.len() ==> (#[trigger] rest[i] matches Ok(message)
                && message.event matches Event::Source(SourceEvent::EmitterInfo(_))),
    ensures
        match enumeration_run(EnumerationView::Counting, seq![Ok(first)] + rest) {
            EnumerationView::Counting => false,
            EnumerationView::Listing { count: told, ids } => {
                &&& rest.len() < count
                &&& told == count
                &&& ids.len() == rest.len()
                &&& forall|i: int|
                    0 <= i < rest.len() ==> told_identifier(rest[i]) == Some(#[trigger] ids[i])
            },
            EnumerationView::Ended(Ok(ids)) => {
                &&& rest.len() == count
                &&& ids.len() == count
                &&& forall|i: int|
                    0 <= i < rest.len() ==> told_identifier(rest[i]) == Some(#[trigger] ids[i])
            },
            EnumerationView::Ended(Err(_)) => false,
        },
{
    let reply: Reply = Ok(first);
    law_replies(reply);
    assert forall|i: int| 0 <= i < rest.len() implies info_in(#[trigger] rest[i]) is Ok
        && told_identifier(rest[i]) == Some(info_in(rest[i])->Ok_0.identifier) by {
        law_replies(rest[i]);
    }
    law_enumeration_is_complete(reply, rest);
    let ids: Seq<Identifier> = identifiers_in(rest);
    assert forall|i: int| 0 <= i < rest.len() implies told_identifier(rest[i]) == Some(
        #[trigger] ids[i],
    ) by {
        assert(info_in(rest[i]) is Ok);
    }
}

/// The identifier that a reply holds.
pub open spec fn told_identifier(reply: Reply) -> Option<Identifier> {
    match reply {
        Ok(message) => match message.event {
            Event::Source(SourceEvent::EmitterInfo(info)) => Some(info.identifier),
            _ => None,
        },
        Err(_) => None,
    }
}

/// A command to a source goes to that source.
pub proof fn law_source_messages(source: Identifier, command: SourceCommand)
    ensures
        source_message(source, command).resource == Some(source),
        source_message(source, command).command == Command::Source(command),
{
}

} // verus!
