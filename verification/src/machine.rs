//! What the library asks of the machine it runs on: how wide the terminal
//! is, and whether a path is there. Nothing is known of either answer
//! before it is given.

use vstd::prelude::*;

verus! {

/// Calls `terminal_size::terminal_size` and keeps the number of columns.
/// That function looks at standard output, standard error and standard
/// input in turn and reports the size of the first that is a terminal, or
/// `None` if none is. Nothing is claimed of the answer.
#[verifier::external_body]
pub(crate) fn terminal_columns() -> (columns: Option<u16>) {
    match terminal_size::terminal_size() {
        Some((width, _)) => Some(width.0),
        None => None,
    }
}

/// Calls `std::path::Path::exists`, which says whether the path points at
/// something that is there now; it answers `false` too where it cannot
/// tell. Nothing is claimed of the answer.
#[verifier::external_body]
pub(crate) fn path_exists(path: &str) -> (there: bool) {
    std::path::Path::new(path).exists()
}

} // verus!
