//! Who is connected, and what they may say: the rules of the session, as far as they are
//! not the sockets themselves.
pub mod lan;
pub mod link;
pub mod handshake;
pub mod wire;
