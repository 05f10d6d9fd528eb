//! Verified core of the PhoneTile ping game: the wire frames exchanged between
//! the server and the phones, the client session state machine, and the
//! bookkeeping of the ping game loop.
pub mod bytes;
pub mod network;
pub mod frame;
pub mod ping;
