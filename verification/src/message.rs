//! The part of the device protocol that concerns sources and their emitters.

use vstd::prelude::*;

use crate::binary32::Binary32;

verus! {

/// The name of a resource on a device.
#[derive(Clone, Copy, Debug, PartialEq, Eq, Structural)]
pub struct Identifier {
    pub value: u128,
}

/// How bright a resource is to be.
#[derive(Clone, Copy, Debug, PartialEq, Eq, Structural)]
pub enum Flux {
    /// A share of the full flux, from zero to one.
    Relative(Binary32),
}

/// How a source or a fixture finds the flux of its emitters.
#[derive(Debug, PartialEq, Eq)]
pub enum Configuration {
    /// Each emitter has the flux that was set on it.
    Manual,
    /// Any other configuration, in the encoding of the device, which is carried unread.
    Encoded(Vec<u8>),
}

/// What a device tells of a source.
#[derive(Clone, Copy, Debug, PartialEq, Eq, Structural)]
pub struct SourceInfo {
    pub identifier: Identifier,
}

/// What a device tells of an emitter.
#[derive(Clone, Copy, Debug, PartialEq, Eq, Structural)]
pub struct EmitterInfo {
    pub identifier: Identifier,
}

/// What can be asked of a source.
#[derive(Debug, PartialEq, Eq)]
pub enum SourceCommand {
    EmitterCount,
    EmitterInfo(u32),
    Display(Configuration, Flux),
}

/// What can be asked of an emitter.
#[derive(Debug, PartialEq, Eq)]
pub enum EmitterCommand {
    FluxSet(Flux),
}

/// What can be asked of a resource.
#[derive(Debug, PartialEq, Eq)]
pub enum Command {
    Source(SourceCommand),
    Emitter(EmitterCommand),
}

/// A command and the resource that it is for.
#[derive(Debug, PartialEq, Eq)]
pub struct CommandMessage {
    pub command: Command,
    pub resource: Option<Identifier>,
}

impl CommandMessage {
    /// A command that answers no other message.
    pub fn root(command: Command, resource: Option<Identifier>) -> (message: CommandMessage)
        ensures
            message.command == command,
            message.resource == resource,
    {
        CommandMessage { command, resource }
    }
}

/// What a source answers.
#[derive(Debug, PartialEq, Eq)]
pub enum SourceEvent {
    EmitterCount(u32),
    EmitterInfo(EmitterInfo),
    Display(Configuration, Flux),
}

/// What a device answers.
#[derive(Debug, PartialEq, Eq)]
pub enum Event {
    Source(SourceEvent),
    /// An event of any other resource.
    Other,
}

/// An answer of a device.
#[derive(Debug, PartialEq, Eq)]
pub struct EventMessage {
    pub event: Event,
}

/// What can go wrong.
#[derive(Debug, PartialEq, Eq)]
pub enum Error {
    /// The answer does not belong to the command.
    UnexpectedResponse,
    /// Any other fault, described.
    Debug(String),
}

} // verus!
