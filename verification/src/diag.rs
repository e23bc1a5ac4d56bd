use vstd::prelude::*;

verus! {

/// A diagnostic for a failed validation of a listing or of a rename plan.
///
/// Paths are byte strings; line numbers are 1-based positions in the listing
/// text the user saw, so a caller can render a source-anchored report.
#[derive(Debug)]
pub enum Diagnostic {
    /// The input held no paths at all (an empty walk, or text whose lines are
    /// all blank).
    EmptyInput,
    /// The listing names `path` on line `line`, but no such file exists.
    MissingPath { path: Vec<u8>, line: usize },
    /// The origin listing holds `origins` paths but the target listing holds
    /// `targets`: positional pairing is impossible.
    CountMismatch { origins: usize, targets: usize },
    /// Two lines of the target listing name the same path: two files cannot
    /// both become `path`.
    DuplicateTarget { path: Vec<u8>, first_line: usize, second_line: usize },
    /// No unused temporary name could be found for staging a rename cycle —
    /// a fatal internal condition, not a listing error. The plan's staging
    /// scheme is proved to find one, so the library never reports this kind;
    /// it remains so that every caller can render the full set.
    UnresolvableConflict,
}

} // verus!
