//! Game-lobby and chat protocol of a small online arena game.
//!
//! The server keeps one text slot per player and relays the slots of the
//! other players to each connected client; the client frames its own state,
//! splits the relayed roster into player records and keeps a chat log.

pub mod text;
pub mod lobby;
pub mod roster;
pub mod chat;
pub mod report;
pub mod bullets;
pub mod laws;
