//! Peer discovery, message framing and chunked file transfer for a
//! serverless LAN messenger.
pub mod message;
pub mod frame;
mod ids;
pub mod network;
pub mod transfer;
