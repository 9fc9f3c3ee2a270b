//! Core of a peer-to-peer file-transfer client: the self-delimiting value
//! encoding, the peer wire protocol, the block planner and the peer session.
pub mod decimal;
pub mod bencode;
pub mod bencode_laws;
pub mod display;
pub mod messages;
pub mod planner;
pub mod session;
pub mod peer;
pub mod tracker;
