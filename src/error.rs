use vstd::prelude::*;

verus! {

/// Why a blob could not be turned into a tree.
#[derive(Debug, Clone, Copy, PartialEq, Eq, Structural)]
pub enum DtbError {
    /// The header's magic number, versions or block offsets do not fit the buffer.
    MalformedHeader,
    /// The structure block ends in the middle of a token.
    UnexpectedEof,
    /// A token tag is unknown, or a node name is not a NUL-terminated UTF-8 string.
    MalformedToken,
    /// A property's name offset does not lead to a NUL-terminated name in the strings block.
    UnknownPropertyName,
    /// An end of node with no open node; or, at the end of a structure that left no node open,
    /// no root node at all or content outside the single root node.
    UnbalancedTree,
    /// The end of the structure block while nodes are still open.
    UnclosedNodes,
}

} // verus!
