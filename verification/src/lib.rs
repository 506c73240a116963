//! Content-addressed pieces of files, the manifests that list them, a
//! directory that finds them again, and the decisions of the discovery and
//! download protocols that move them between peers.

pub mod directory;
pub mod download;
pub mod discovery;
pub mod manifest;
pub mod piece;
pub mod rmp_codec;
pub mod table;
