//! Unity release versions and their build hashes: a parser for version
//! strings, a catalog of known releases, resolution of the best release for a
//! version prefix and channel, and the lookup table that a server answers from.

pub mod catalog;
pub mod channel;
pub mod prefix;
pub mod resolve;
pub mod table;
pub mod text;
pub mod update;
pub mod version;
