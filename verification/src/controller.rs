use vstd::prelude::*;

verus! {

/// The delay, in seconds, after which a failed pass is tried again.
pub const RETRY_DELAY_SECONDS: u64 = 15;

/// What the control loop is asked to do with an object once a pass has ended.
#[derive(Clone, Copy, Debug, PartialEq, Eq, Structural)]
pub struct Action {
    /// `None`: wait for the next change of the object or of its secret.
    /// `Some(s)`: run another pass after `s` seconds.
    pub requeue_after: Option<u64>,
}

impl Action {
    /// Wait until the object or its secret changes; do not poll.
    pub fn await_change() -> (action: Action)
        ensures
            action.requeue_after.is_none(),
    {
        Action { requeue_after: None }
    }

    /// Run another pass after `seconds` seconds.
    pub fn requeue(seconds: u64) -> (action: Action)
        ensures
            action.requeue_after == Some(seconds),
    {
        Action { requeue_after: Some(seconds) }
    }
}

/// Why a pass over one object failed.
#[derive(Debug)]
pub enum ControllerError {
    /// The store could not be read; the text is the cause.
    SecretGetFailed(String),
    /// The store refused the write; the text is the cause.
    SecretApplyFailed(String),
    /// The object lacks a field that identifies it; the text is the field's path.
    MissingObjectKey(&'static str),
}

impl ControllerError {
    /// The error as one line of text.
    pub open spec fn message(self) -> Seq<char> {
        match self {
            ControllerError::SecretGetFailed(cause) => "Failed to get secret: "@ + cause@,
            ControllerError::SecretApplyFailed(cause) => "Failed to apply secret: "@ + cause@,
            ControllerError::MissingObjectKey(key) => "MissingObjectKey: "@ + key@,
        }
    }

    /// The error as one line of text.
    pub fn to_text(&self) -> (text: String)
        ensures
            text@ == self.message(),
    {
        match self {
            ControllerError::SecretGetFailed(cause) => String::from_str(
                "Failed to get secret: ",
            ).concat(cause.as_str()),
            ControllerError::SecretApplyFailed(cause) => String::from_str(
                "Failed to apply secret: ",
            ).concat(cause.as_str()),
            ControllerError::MissingObjectKey(key) => String::from_str("MissingObjectKey: ").concat(
                key,
            ),
        }
    }
}

/// What to do after a failed pass: whatever the error and however often the pass has
/// failed before, try again after `RETRY_DELAY_SECONDS`.
pub fn error_policy(error: &ControllerError) -> (action: Action)
    ensures
        action.requeue_after == Some(RETRY_DELAY_SECONDS),
{
    Action::requeue(RETRY_DELAY_SECONDS)
}

} // verus!
