//! Shared model types of the wire protocol.

use vstd::prelude::*;

verus! {

/// A user's role, as stored in the `role` column.
#[derive(PartialEq, Eq, Structural, Clone, Copy, Debug)]
pub enum Role {
    Basic,
    Privileged,
    Admin,
}

impl Role {
    /// The integer code a role is stored and sent as.
    pub fn code(&self) -> (r: i64)
        ensures
            r == match self {
                Role::Basic => 0int,
                Role::Privileged => 1int,
                Role::Admin => 2int,
            },
    {
        match self {
            Role::Basic => 0,
            Role::Privileged => 1,
            Role::Admin => 2,
        }
    }

    /// The role a stored integer code stands for; out-of-range codes fall
    /// back to the basic role.
    pub fn from_code(code: i64) -> (r: Role)
        ensures
            r == if code == 1 {
                Role::Privileged
            } else if code == 2 {
                Role::Admin
            } else {
                Role::Basic
            },
    {
        if code == 1 {
            Role::Privileged
        } else if code == 2 {
            Role::Admin
        } else {
            Role::Basic
        }
    }
}

impl Default for Role {
    /// A user is basic until promoted.
    fn default() -> (r: Role)
        ensures
            r == Role::Basic,
    {
        Role::Basic
    }
}

/// An authentication request: the opaque credential a client presents.
pub struct AuthRequest {
    pub api_key: String,
}

/// The body of an error reply.
pub struct ErrorResponse {
    pub error: String,
}

/// A connection-level failure, fatal for the affected connection only.
#[derive(Debug)]
pub enum ConnectionError {
    /// The websocket failed.
    WebSocket(String),
    /// The credential handshake did not succeed.
    AuthenticationFailed,
    /// The client registry failed.
    ClientError(String),
}

} // verus!
