//! The stages that a client connection goes through.

use vstd::prelude::*;

verus! {

/// The stage of a connection.
#[derive(Clone, Copy, Debug, PartialEq, Eq)]
pub enum ConnectionState {
    Handshaking,
    Status,
    Login,
    Play,
}

impl ConnectionState {
    /// The name of the stage as it is written in packet tables.
    pub open spec fn name(&self) -> Seq<char> {
        match self {
            ConnectionState::Handshaking => "handshake"@,
            ConnectionState::Status => "status"@,
            ConnectionState::Login => "login"@,
            ConnectionState::Play => "play"@,
        }
    }

    /// The name of the stage as it is written in packet tables.
    pub fn as_str(&self) -> (name: &'static str)
        ensures
            name@ == self.name(),
    {
        match self {
            ConnectionState::Handshaking => "handshake",
            ConnectionState::Status => "status",
            ConnectionState::Login => "login",
            ConnectionState::Play => "play",
        }
    }
}

} // verus!
