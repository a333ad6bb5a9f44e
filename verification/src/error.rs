use vstd::prelude::*;

verus! {

/// A fatal condition. Every error aborts the whole run: a single malformed
/// record invalidates the result, so there is no skip-and-continue mode.
#[derive(Debug, PartialEq, Eq)]
pub enum Error {
    /// The buffer's final byte is not the record terminator.
    MissingTerminator,
    /// A line holds no key/value separator.
    MissingSeparator,
    /// A value does not match the decimal grammar; holds the offending text.
    InvalidValue(Vec<u8>),
}

} // verus!
