//! Status of an outbound mail, as recorded per send attempt.

use vstd::prelude::*;

verus! {

/// Where a queued mail stands: being sent, delivered to the relay, or
/// failed (with the relay's words, when it gave any).
pub enum EmailStatus {
    Sending,
    Sent,
    Failed(Option<String>),
}

impl EmailStatus {
    /// Whether the attempt is settled (delivered or failed).
    pub fn is_settled(&self) -> (r: bool)
        ensures
            r == !(self is Sending),
    {
        match self {
            EmailStatus::Sending => false,
            EmailStatus::Sent => true,
            EmailStatus::Failed(_) => true,
        }
    }
}

} // verus!
