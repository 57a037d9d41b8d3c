use vstd::prelude::*;

verus! {

/// What can make an evaluation fail.
#[derive(Debug)]
pub enum EvaluationError {
    /// The predictions source does not exist; holds its path.
    FileNotFound(String),
    /// The reference payload is not available.
    MissingGroundTruth,
    /// A corpus holds no document.
    EmptyInput,
    /// A document's `fields` member is not an object; holds the document id.
    InvalidFields(String),
    /// Flattening met a leaf with no path: the tree is a bare scalar.
    InvalidFieldStructure,
    /// A payload is not valid JSON; holds the parser's message.
    InvalidJson(String),
    /// Reading or writing failed; holds the message.
    Io(String),
}

} // verus!
