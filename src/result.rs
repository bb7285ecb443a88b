use vstd::prelude::*;

verus! {

/// The errors of the library.
#[derive(Debug)]
pub enum DictError {
    /// A read failed, or a window lies outside the data it was asked of.
    Io(String),
    /// Bytes that had to be text are not valid UTF-8.
    Utf8,
    /// A numeric `.ifo` field is not a decimal number; holds the offending value.
    Parse(Vec<u8>),
    /// A structural violation: a count that disagrees, a missing file, a bad rule.
    My(String),
    /// Nothing found; holds the neighborhood hint.
    NotFound(usize),
}

} // verus!
