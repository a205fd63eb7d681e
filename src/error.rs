use vstd::prelude::*;

verus! {

/// Errors raised while resolving a variant or reading its content.
#[derive(Debug, Clone, Copy, PartialEq, Eq, Structural)]
pub enum DeError {
    /// The event at the resolution point is neither a text nor a start tag.
    Unsupported,
    /// The input ended before the expected closing tag.
    UnexpectedEof,
    /// A closing tag does not carry the name of the tag it closes.
    EndEventMismatch,
    /// An event that the content being read cannot hold at this point.
    UnexpectedEvent,
}

} // verus!
