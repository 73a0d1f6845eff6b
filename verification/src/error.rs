//! What can go wrong between a makefile's text and its recipes.

use vstd::prelude::*;

verus! {

#[derive(Clone, Copy, Debug, PartialEq, Eq, Structural)]
pub enum MakeError {
    /// The parser does not take the makefile grammar.
    Language,
    /// The parser gave no tree.
    NotParsed,
    /// There is no current directory.
    NoCurrentDir,
    /// The path of the current directory is no UTF-8.
    CurrentDirNotUtf8,
    /// The text does not follow the grammar at this place; both numbers count
    /// from zero.
    ErrorNode { row: usize, column: usize },
    /// A rule without targets.
    NoTarget,
    /// An assignment without a name.
    NoVariableName,
    /// The bytes of a node are no UTF-8 text.
    InvalidUtf8,
    /// A match without the group that its pattern has.
    NoCaptureGroup,
}

} // verus!
