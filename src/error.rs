use vstd::prelude::*;

verus! {

/// Why an exchange with the server failed.
#[derive(Clone, Copy, Debug, PartialEq, Eq, Structural)]
pub enum ExchangeError {
    /// A non-empty line of a packet has no key/value separator.
    MalformedRecord,
    /// A record has no `type` field, or an `entry` record lacks `key` or `value`.
    MalformedResponse,
    /// The server sent a record of type `err`.
    ServerError,
    /// A packet is not valid UTF-8 text.
    InvalidText,
}

} // verus!
