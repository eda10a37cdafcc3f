//! The error vocabulary shared by every component of the session engine.

use vstd::prelude::*;

verus! {

/// Why a command or a join attempt was rejected.
#[derive(Debug, Clone, Copy, PartialEq, Eq, Structural)]
pub enum PlancError {
    /// The message could not be understood, or was not legal for the caller.
    InvalidMessage,
    /// The caller lacks the admin role required by the command.
    InsufficientPermissions,
    /// Another live user already holds the requested name.
    DuplicateName,
    /// The directory already holds the configured maximum of sessions.
    MaxSessionsExceeded,
    /// The session already holds the configured maximum of users.
    MaxUsersExceeded,
    /// The named user is not present in the session.
    UnknownUserId,
    /// The caller has been kicked from the session.
    UserKicked,
}

impl PlancError {
    /// The wording used when an error is reported to a client, matching the
    /// variant's name.
    pub fn message(&self) -> (r: &'static str)
        ensures
            r@ == self.spec_message(),
    {
        match self {
            PlancError::InvalidMessage => "InvalidMessage",
            PlancError::InsufficientPermissions => "InsufficientPermissions",
            PlancError::DuplicateName => "DuplicateName",
            PlancError::MaxSessionsExceeded => "MaxSessionsExceeded",
            PlancError::MaxUsersExceeded => "MaxUsersExceeded",
            PlancError::UnknownUserId => "UnknownUserId",
            PlancError::UserKicked => "UserKicked",
        }
    }

    /// The characters of [`Self::message`].
    pub open spec fn spec_message(self) -> Seq<char> {
        match self {
            PlancError::InvalidMessage => "InvalidMessage"@,
            PlancError::InsufficientPermissions => "InsufficientPermissions"@,
            PlancError::DuplicateName => "DuplicateName"@,
            PlancError::MaxSessionsExceeded => "MaxSessionsExceeded"@,
            PlancError::MaxUsersExceeded => "MaxUsersExceeded"@,
            PlancError::UnknownUserId => "UnknownUserId"@,
            PlancError::UserKicked => "UserKicked"@,
        }
    }
}

} // verus!
