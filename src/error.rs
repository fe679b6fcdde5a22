//! Why a transcript could not be read or replayed.

use vstd::prelude::*;

verus! {

#[derive(Debug, Clone, Copy, PartialEq, Eq, Structural)]
pub enum FsError {
    /// A command line lacks a token: nothing after the prompt, or `cd` without a target;
    /// or an `ls` output line has a size but no name.
    MissingArgument,
    /// The word after the prompt is neither `cd` nor `ls`.
    InvalidCommand,
    /// The transcript does not begin with a `cd`.
    InvalidRoot,
    /// A `cd ..` while already at the root.
    InvalidOperation,
    /// An `ls` output line that is not one size-or-`dir` word and one name.
    MalformedOutput,
}

} // verus!
