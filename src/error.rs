use vstd::prelude::*;

verus! {

/// Everything that can go wrong while building or reading a configuration.
#[derive(Debug, PartialEq)]
pub enum ConfigurationError {
    /// Raw input could not be parsed into a tree; carries the parser's message.
    TransformError(String),
    /// A path could not be parsed into a compound key; carries the offending path.
    KeyParseError(String),
    /// A value was found but has a type other than the one requested.
    TypeConversionError,
    /// A merge was asked for without any tree to merge.
    NoRoots,
}

} // verus!
