//! Fetching the content of pieces from the peers that hold them.

pub mod client;
pub mod proto;
pub mod server;
