//! Routing a decoded packet to what its receiver should do.
use vstd::prelude::*;
use crate::packet::{command_of, Command, Packet};

verus! {

/// What the receiver of a packet does with it.
#[derive(Debug, Clone, Copy, PartialEq, Eq, Structural)]
pub enum Action {
    /// Hand the payload to the display as (part of) a screen update.
    DrawScreenBuffer,
    /// Acknowledge receipt.
    Acknowledge,
    /// The command is unknown: drop the packet.
    Ignore,
}

/// The action for a command.
pub open spec fn action_for(c: Command) -> Action {
    match c {
        Command::CMD_SCREEN_BUFFER => Action::DrawScreenBuffer,
        Command::CMD_ACK => Action::Acknowledge,
        Command::CMD_INVALID => Action::Ignore,
    }
}

/// The action that the command byte of `packet` asks for.
pub fn dispatch(packet: &Packet) -> (r: Action)
    ensures
        r == action_for(command_of(packet.data@[0])),
{
    match Command::from(packet.command()) {
        Command::CMD_SCREEN_BUFFER => Action::DrawScreenBuffer,
        Command::CMD_ACK => Action::Acknowledge,
        Command::CMD_INVALID => Action::Ignore,
    }
}

} // verus!
