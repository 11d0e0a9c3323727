//! The error of an operation refused by a rate limit.
use vstd::prelude::*;
use vstd::string::*;
use std::time::Duration;

verus! {

/// An operation was refused by a rate limit; it may be tried again after
/// `retry_after`.
#[derive(Debug)]
pub struct RateLimitExceededError {
    pub message: String,
    pub retry_after: Duration,
}

impl RateLimitExceededError {
    /// The error with `message`, to be retried after `retry_after`.
    pub fn new(message: &str, retry_after: Duration) -> (r: RateLimitExceededError)
        ensures
            r.message@ == message@,
            r.retry_after == retry_after,
    {
        RateLimitExceededError { message: String::from_str(message), retry_after }
    }

    /// The text of the error.
    pub fn text(&self) -> (r: String)
        ensures
            r@ == "Rate limit exceeded: "@ + self.message@,
    {
        let mut r = String::from_str("Rate limit exceeded: ");
        r.append(self.message.as_str());
        r
    }
}

} // verus!
