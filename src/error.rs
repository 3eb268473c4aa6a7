//! The failures that a chat exchange can report.
use vstd::prelude::*;

verus! {

/// A failure of a chat exchange, by kind.
#[derive(Debug, PartialEq, Eq)]
pub enum AiError {
    /// Reading from the transport failed; decoding cannot go on.
    Transport(String),
    /// The provider answered with a status outside the success range.
    Api { status: u16, body: String },
    /// A data frame's payload was not a valid structured chunk. It is
    /// reported and skipped; decoding goes on.
    FrameParse(String),
    /// The byte stream ended before the termination sentinel.
    AbnormalTermination,
    /// A complete response held no text where the answer belongs.
    MissingText,
}

/// Whether an HTTP status code is in the success range 200 to 299.
pub open spec fn is_success(status: u16) -> bool {
    200 <= status <= 299
}

/// Keeps a non-success status with the body that came with it.
pub fn check_status(status: u16, body: String) -> (r: Result<(), AiError>)
    ensures
        is_success(status) ==> r == Ok::<(), AiError>(()),
        !is_success(status) ==> r == Err::<(), AiError>(AiError::Api { status, body }),
{
    if 200 <= status && status <= 299 {
        Ok(())
    } else {
        Err(AiError::Api { status, body })
    }
}

} // verus!
