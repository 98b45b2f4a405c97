//! The range codec: parses the textual byte-range descriptor
//! `"bytes <start>-<end>/<total>"` into a half-open numeric interval.

use crate::strutil::{
    all_digits, dec_val, find_sub, first_occurrence, is_prefix, parse_usize_digits,
    starts_with_str,
};
use crate::StoreError;
use core::ops::Range;
use vstd::prelude::*;
use vstd::string::*;

verus! {

/// The interval a well-formed descriptor denotes, or `None` when the text
/// does not follow the grammar: the prefix `"bytes "`, then a nonempty run
/// of digits, `'-'`, a nonempty run of digits, and `'/'` followed by
/// anything. The wire format's end position is inclusive, so the half-open
/// interval runs one past it: `"bytes 10-19/20"` denotes `[10, 20)`. The
/// part after the first `'/'` (the declared total) is not read; the `'/'`
/// considered is the first one after the prefix, and the `'-'` the first
/// one before that `'/'`. An interval that does not fit in `usize` is
/// rejected.
pub open spec fn parse_range_spec(s: Seq<char>) -> Option<(nat, nat)> {
    if !is_prefix("bytes "@, s) {
        None
    } else {
        let body = s.skip("bytes "@.len() as int);
        let islash = first_occurrence(body, "/"@);
        if islash > body.len() {
            None
        } else {
            let rangepart = body.take(islash);
            let idash = first_occurrence(rangepart, "-"@);
            if idash > rangepart.len() {
                None
            } else {
                let sdig = rangepart.take(idash);
                let edig = rangepart.skip(idash + "-"@.len());
                if sdig.len() > 0 && all_digits(sdig) && dec_val(sdig) <= usize::MAX && edig.len()
                    > 0 && all_digits(edig) && dec_val(edig) < usize::MAX {
                    Some((dec_val(sdig), dec_val(edig) + 1))
                } else {
                    None
                }
            }
        }
    }
}

/// Parses a byte-range descriptor of the form `"bytes <start>-<end>/<total>"`,
/// whose `<end>` is inclusive, into the half-open interval `[start, end + 1)`.
/// The declared total is ignored. Returns `MalformedRange` exactly when the
/// text does not follow the grammar.
pub fn parse_range(input: &str) -> (r: Result<Range<usize>, StoreError>)
    ensures
        ({
            let p = parse_range_spec(input@);
            match r {
                Ok(rg) => p == Some((rg.start as nat, rg.end as nat)),
                Err(e) => p is None && e == StoreError::MalformedRange,
            }
        }),
{
    if !starts_with_str(input, "bytes ") {
        return Err(StoreError::MalformedRange);
    }
    let input_len: usize = input.unicode_len();
    let prefix_len: usize = "bytes ".unicode_len();
    let body = input.substring_char(prefix_len, input_len);
    assert(body@ =~= input@.skip("bytes "@.len() as int));
    let islash = match find_sub(body, "/") {
        Some(i) => i,
        None => {
            return Err(StoreError::MalformedRange);
        },
    };
    let rangepart = body.substring_char(0, islash);
    assert(rangepart@ =~= body@.take(islash as int));
    let idash = match find_sub(rangepart, "-") {
        Some(i) => i,
        None => {
            return Err(StoreError::MalformedRange);
        },
    };
    let rangepart_len: usize = rangepart.unicode_len();
    let dash_len: usize = "-".unicode_len();
    let sdig = rangepart.substring_char(0, idash);
    let edig = rangepart.substring_char(idash + dash_len, rangepart_len);
    assert(sdig@ =~= rangepart@.take(idash as int));
    assert(edig@ =~= rangepart@.skip(idash + "-"@.len()));
    let start = match parse_usize_digits(sdig) {
        Some(v) => v,
        None => {
            return Err(StoreError::MalformedRange);
        },
    };
    let end_incl = match parse_usize_digits(edig) {
        Some(v) => v,
        None => {
            return Err(StoreError::MalformedRange);
        },
    };
    if end_incl == usize::MAX {
        return Err(StoreError::MalformedRange);
    }
    Ok(Range { start, end: end_incl + 1 })
}

} // verus!
