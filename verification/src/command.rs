//! The two-variant client/server message envelope that the network
//! relay around the game exchanges. The core only defines the shapes;
//! serialization and transport live with the relay.

use vstd::prelude::*;

verus! {

/// A message a client sends: free chat, or a command line to act on.
#[derive(Debug)]
pub enum FromClientMessage {
    Chat(String),
    Command(String),
}

/// A message the server sends back: a type tag with its payload.
#[derive(Debug)]
pub struct FromServerMessage {
    pub message_type: u8,
    pub input_data: String,
}

} // verus!
