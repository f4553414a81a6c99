//! The run's invocation settings: where the input sequence comes from.

use vstd::prelude::*;

verus! {

/// The caller's choice of input: a file holding the sequence, or the
/// sequence given directly. Argument and file handling happen outside the
/// library; the settings only carry the choice.
pub struct Settings {
    /// The path of a file to read the sequence from.
    pub file: Option<String>,
    /// The sequence given on the command line.
    pub sequence: Option<String>,
}

} // verus!
