//! A verified credential-store core for a container-registry credential
//! helper: all registry credentials live in one remote secret, a JSON object
//! mapping registry URL to a JSON-encoded username/secret record. This crate
//! holds the codec for that blob and the read-modify-write operations on the
//! decoded map; fetching and writing the remote secret itself is left to the
//! caller.

pub mod codec;
pub mod entries;
pub mod json;
pub mod store;

use vstd::prelude::*;

verus! {

/// Why a codec or store operation failed.
#[derive(Debug, Clone, Copy, PartialEq, Eq, Structural)]
pub enum CredError {
    /// The blob or an entry in it is not valid JSON of the expected shape.
    Format,
    /// The requested registry URL has no usable credential record.
    NotFound,
}

} // verus!
