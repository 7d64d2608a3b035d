//! A small point-to-point encrypted chat core: a finite-field
//! Diffie-Hellman handshake over a byte stream, a keystream cipher derived
//! from the shared secret, and length-prefixed wire framing, together with
//! the hex-dump, grid-pathfinding and word-frequency utilities that live
//! beside it.

pub mod chat;
pub mod cipher;
pub mod errors;
pub mod frame;
pub mod grid;
pub mod hexutil;
pub mod keystream;
pub mod modexp;
pub mod session;
pub mod wordfreq;
