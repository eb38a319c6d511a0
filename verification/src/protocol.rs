//! The shapes of the packets that carry game events to the agent.

use crate::chat::Component;
use vstd::prelude::*;

verus! {

/// The direction in which a packet travels.
#[derive(Clone, Copy, Debug, PartialEq, Eq, Structural)]
pub enum PacketFlow {
    ClientToServer,
    ServerToClient,
}

/// The player has left combat.
#[derive(Clone, Debug)]
pub struct ClientboundPlayerCombatEndPacket {
    pub duration: u32,
    pub killer_id: u32,
}

/// A chat message from the server itself.
#[derive(Clone, Debug)]
pub struct ClientboundSystemChatPacket {
    pub content: Component,
    pub overlay: bool,
}

/// The server refuses the login and says why.
#[derive(Clone, Debug)]
pub struct ClientboundLoginDisconnectPacket {
    pub reason: Component,
}

} // verus!
