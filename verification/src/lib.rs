//! Game server for a networked game of Mafia: lobby assembly, connection
//! bookkeeping, the wire framing of messages and the rules of the game itself,
//! written as state machines whose input and output are plain values.
pub mod answers;
pub mod chance;
pub mod connection;
pub mod game;
pub mod laws;
pub mod mafia;
pub mod model;
pub mod player;
pub mod rounds;
pub mod server;
pub mod tally;
pub mod text;
pub mod wire;
