//! The failures that the library reports.

use vstd::prelude::*;
use vstd::string::StringExecFns;

verus! {

/// A URL component that cannot be brought into canonical form. The message names
/// the offending value.
#[derive(Debug, Clone, PartialEq, Eq)]
pub struct InvalidUrl {
    pub message: String,
}

/// An attempt to change query parameters in place. The message names the
/// operation that returns a changed copy instead.
#[derive(Debug, Clone, PartialEq, Eq)]
pub struct ImmutableContainerError {
    pub message: String,
}

/// Bytes that are not the UTF-8 encoding of any text.
#[derive(Debug, Clone, Copy, PartialEq, Eq)]
pub struct EncodingError {}

impl InvalidUrl {
    /// An error with the given message.
    pub fn new(message: &str) -> (e: Self)
        ensures
            e.message@ == message@,
    {
        InvalidUrl { message: message.to_owned() }
    }

    /// An error whose message is `prefix`, then `value`, then `suffix`.
    pub fn naming(prefix: &str, value: &str, suffix: &str) -> (e: Self)
        ensures
            e.message@ == prefix@ + value@ + suffix@,
    {
        let mut message = prefix.to_owned();
        message.append(value);
        message.append(suffix);
        InvalidUrl { message }
    }
}

impl ImmutableContainerError {
    /// An error with the given message.
    pub fn new(message: &str) -> (e: Self)
        ensures
            e.message@ == message@,
    {
        ImmutableContainerError { message: message.to_owned() }
    }
}

} // verus!
