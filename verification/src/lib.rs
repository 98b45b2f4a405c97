//! A range-addressable file store for chunked uploads.
//!
//! The store accepts byte-range chunks in any order, persists each under a
//! name that encodes its starting offset, merges all chunks for a logical
//! path into one file on finalize, records gzip provenance in the file name,
//! and serves whole files or byte ranges back out.

pub mod artifact;
pub mod cache;
pub mod globext;
pub mod laws;
pub mod range;
pub mod store;
pub mod strutil;

use vstd::prelude::*;

verus! {

/// The failures the store can report.
///
/// `MalformedRange` rejects a byte-range descriptor that does not follow the
/// `"bytes <start>-<end>/<total>"` grammar. `NotFound` reports a read of a
/// logical path with neither a plain nor a gzip-tagged file. `IoError` is
/// reserved for the surrounding I/O layer, which maps filesystem failures to
/// it; the in-memory store itself never produces it.
#[derive(Clone, Copy, Debug, PartialEq, Eq, Structural)]
pub enum StoreError {
    MalformedRange,
    IoError,
    NotFound,
}

} // verus!
