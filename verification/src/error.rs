//! The error taxonomy of the command channel.

use vstd::prelude::*;

verus! {

/// Why an operation of the command channel failed.
#[derive(Clone, Copy, Debug, PartialEq, Eq, Structural)]
pub enum ChannelError {
    /// The bytes are not a structurally valid message. The message is discarded
    /// and never retried.
    MalformedMessage,
    /// The authentication tag of an inbound message does not match.
    AuthenticationFailed,
    /// The counter of an inbound message is not above the last accepted one.
    ReplayRejected,
    /// The handshake did not reach `Authorized` before its deadline.
    HandshakeTimeout,
    /// The transport could not carry the bytes.
    LinkError,
    /// No response arrived before the request's deadline.
    Timeout,
    /// The session is past its validity window or has used up its counters and
    /// has to be renegotiated.
    SessionExpired,
    /// The operation needs an `Authorized` session and there is none.
    NotAuthorized,
    /// The handshake is not in the state that the step belongs to.
    UnexpectedState,
    /// The ephemeral key was used by an earlier handshake attempt.
    KeyReused,
    /// Every request number has been given out.
    Exhausted,
    /// No channel is registered for the vehicle.
    UnknownVehicle,
    /// A channel is registered for the vehicle already.
    DuplicateVehicle,
    /// A reply answers no request that is in flight: it came too late, or was
    /// never asked for.
    UnmatchedReply,
}

impl ChannelError {
    /// Whether the whole command may be sent again without risk: only a link
    /// failure is known to have happened before any effect on the vehicle.
    pub open spec fn retry_is_safe_spec(self) -> bool {
        self == ChannelError::LinkError
    }

    /// Whether the error is an integrity violation, after which the session is
    /// invalidated.
    pub open spec fn invalidates_session_spec(self) -> bool {
        self == ChannelError::AuthenticationFailed || self == ChannelError::ReplayRejected
    }

    /// Whether the whole command may be sent again without risk.
    #[verifier::when_used_as_spec(retry_is_safe_spec)]
    pub fn retry_is_safe(self) -> (r: bool)
        ensures
            r == self.retry_is_safe_spec(),
    {
        match self {
            ChannelError::LinkError => true,
            _ => false,
        }
    }

    /// Whether the error is an integrity violation.
    #[verifier::when_used_as_spec(invalidates_session_spec)]
    pub fn invalidates_session(self) -> (r: bool)
        ensures
            r == self.invalidates_session_spec(),
    {
        match self {
            ChannelError::AuthenticationFailed => true,
            ChannelError::ReplayRejected => true,
            _ => false,
        }
    }
}

} // verus!
