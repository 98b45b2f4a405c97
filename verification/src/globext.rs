//! Shell-style pattern matching, supplied by the `glob` crate.
//!
//! The store selects chunk files by matching their names against a pattern.
//! What a pattern matches is not restated here: the result is only given a
//! name, `glob_matches`, which the store's contracts build on.

use vstd::prelude::*;

verus! {

/// Whether `pattern` is a well-formed shell-style pattern that matches
/// `name`, as `glob::Pattern` decides it with default match options.
/// Both functions depend on their string arguments alone.
pub uninterp spec fn glob_matches(pattern: Seq<char>, name: Seq<char>) -> bool;

/// Relies on glob::Pattern::new and glob::Pattern::matches: compiles
/// `pattern` and asks whether it matches `name`; a malformed pattern
/// matches nothing. Both are pure functions of their arguments.
#[verifier::external_body]
pub fn glob_match(pattern: &str, name: &str) -> (r: bool)
    ensures
        r == glob_matches(pattern@, name@),
{
    match glob::Pattern::new(pattern) {
        Ok(p) => p.matches(name),
        Err(_) => false,
    }
}

} // verus!
