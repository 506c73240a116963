//! Finding which peers hold a piece: broadcast requests and the answers to them.

pub mod client;
pub mod proto;
pub mod server;
