//! Decisions of the artifact endpoints, apart from their transport: the
//! supported protocol version, the mapping from a run and an item path to
//! the logical path in the store, the gzip flag read from the content
//! encoding, and the byte range an upload covers.

use crate::range::{parse_range, parse_range_spec};
use crate::strutil::str_eq;
use crate::StoreError;
use core::ops::Range;
use vstd::prelude::*;
use vstd::string::*;

verus! {

/// The protocol version a request declares.
pub struct VersionQuery {
    pub api_version: String,
}

/// The item path an upload addresses within its run.
pub struct ItemPathQuery {
    pub path: String,
}

/// The total size a finalize request declares.
pub struct FinalizeQuery {
    pub size: usize,
}

/// The one protocol version the artifact endpoints accept.
pub fn is_supported_version(version: &VersionQuery) -> (r: bool)
    ensures
        r == (version.api_version@ == "6.0-preview"@),
{
    str_eq(version.api_version.as_str(), "6.0-preview")
}

/// The logical directory of a run's artifacts under the store root.
pub fn artifact_dir(run_id: &str) -> (r: String)
    ensures
        r@ == "artifacts/"@ + run_id@,
{
    let mut s: String = String::from_str("artifacts/");
    s.append(run_id);
    s
}

/// The logical path an uploaded item is stored under.
pub fn artifact_path(run_id: &str, item_path: &str) -> (r: String)
    ensures
        r@ == "artifacts/"@ + run_id@ + "/"@ + item_path@,
{
    let mut s = artifact_dir(run_id);
    s.append("/");
    s.append(item_path);
    s
}

/// Whether a declared content encoding marks the payload as gzip.
pub fn is_gzip_encoding(encoding: &Option<String>) -> (r: bool)
    ensures
        r == match encoding {
            Some(e) => e@ == "gzip"@,
            None => false,
        },
{
    match encoding {
        Some(e) => str_eq(e.as_str(), "gzip"),
        None => false,
    }
}

/// The byte range an upload covers: the parsed content range when one was
/// declared — rejected when malformed — else the whole payload, `[0, len)`.
pub fn upload_range(range: &Option<String>, input_len: usize) -> (r: Result<
    Range<usize>,
    StoreError,
>)
    ensures
        match range {
            Some(t) => (match r {
                Ok(rg) => parse_range_spec(t@) == Some((rg.start as nat, rg.end as nat)),
                Err(e) => parse_range_spec(t@) is None && e == StoreError::MalformedRange,
            }),
            None => (match r {
                Ok(rg) => rg.start == 0 && rg.end == input_len,
                Err(_) => false,
            }),
        },
{
    match range {
        Some(t) => parse_range(t.as_str()),
        None => Ok(Range { start: 0, end: input_len }),
    }
}

/// Whether a finalize's declared size agrees with the merged byte count.
/// A mismatch is reported to the caller as a warning, never as a failure.
pub fn size_matches(declared: &FinalizeQuery, merged: usize) -> (r: bool)
    ensures
        r == (declared.size == merged),
{
    declared.size == merged
}

} // verus!
