//! The failures that the store reports to its callers.

use vstd::prelude::*;

verus! {

/// Why a representation could not be read as a graph.
#[derive(Debug, Clone, Copy, PartialEq, Eq, Structural)]
pub enum ParseReason {
    /// The text nests too deeply, or holds keys or an exponent that are too
    /// long, to be read.
    Oversize,
    /// The text is not a JSON document.
    Syntax,
    /// An object lacks a field that the format requires.
    MissingField,
    /// An object key that should name a node is not a decimal integer.
    InvalidKey,
    /// A value is of another kind than the format requires at its place.
    WrongShape,
}

/// A failed operation of the store.
#[derive(Debug, Clone, Copy, PartialEq, Eq, Structural)]
pub enum GraphError {
    /// The operation named a node that the graph does not hold.
    NodeNotFound { id: i32 },
    /// The representation is not that of a graph.
    ParseError { reason: ParseReason },
}

} // verus!
