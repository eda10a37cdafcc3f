//! The shared state of one session and the wire message vocabulary.

use vstd::prelude::*;

verus! {

/// The state one session keeps for one user.
#[derive(Debug, Clone, PartialEq)]
pub struct UserState {
    /// Display name chosen by the user; `None` until a name change succeeds.
    pub name: Option<String>,
    /// The submitted estimation value; `None` means "has not voted".
    pub points: Option<String>,
    /// Spectators watch without voting and never hold a points value.
    pub is_spectator: bool,
    /// Set when the user's transport ended abnormally; the entry is kept so
    /// a reconnecting client can take the identity over by name.
    pub is_stale: bool,
    /// Set when an admin revoked the user's access; never shown to viewers.
    pub kicked: bool,
}

/// The mathematical value of a [`UserState`]: the same fields with strings
/// replaced by their character sequences.
pub struct UserStateView {
    pub name: Option<Seq<char>>,
    pub points: Option<Seq<char>>,
    pub is_spectator: bool,
    pub is_stale: bool,
    pub kicked: bool,
}

impl View for UserState {
    type V = UserStateView;

    open spec fn view(&self) -> UserStateView {
        UserStateView {
            name: match self.name {
                Some(s) => Some(s@),
                None => None,
            },
            points: match self.points {
                Some(s) => Some(s@),
                None => None,
            },
            is_spectator: self.is_spectator,
            is_stale: self.is_stale,
            kicked: self.kicked,
        }
    }
}

impl UserStateView {
    /// The state a user starts in: no name, no vote, no flags.
    pub open spec fn init() -> UserStateView {
        UserStateView {
            name: None,
            points: None,
            is_spectator: false,
            is_stale: false,
            kicked: false,
        }
    }
}

impl Default for UserState {
    /// A fresh user: no name, no vote, not a spectator, live, not kicked.
    fn default() -> (r: UserState)
        ensures
            r@ == UserStateView::init(),
    {
        UserState { name: None, points: None, is_spectator: false, is_stale: false, kicked: false }
    }
}

/// The authoritative state of one session: its users and the optional admin.
///
/// Users are keyed by the numeric identifier the session allocated at join
/// time; on the wire the identifier appears as its decimal numeral.
#[derive(Debug, Clone, PartialEq)]
pub struct SessionState {
    /// One entry per user, keyed by user identifier; no order is significant.
    pub users: Vec<(u64, UserState)>,
    /// The single user allowed to reset points and kick users, if any.
    pub admin: Option<u64>,
}

/// The mathematical value of a [`SessionState`].
pub struct SessionStateView {
    pub users: Seq<(u64, UserStateView)>,
    pub admin: Option<u64>,
}

impl View for SessionState {
    type V = SessionStateView;

    open spec fn view(&self) -> SessionStateView {
        SessionStateView {
            users: self.users@.map_values(|p: (u64, UserState)| (p.0, p.1@)),
            admin: self.admin,
        }
    }
}

impl SessionStateView {
    /// Whether some entry carries the identifier `id`.
    pub open spec fn has_user(self, id: u64) -> bool {
        exists|i: int| 0 <= i < self.users.len() && self.users[i].0 == id
    }

    /// The index of the entry carrying `id`; meaningful only when
    /// [`Self::has_user`] holds and identifiers are unique.
    pub open spec fn user_idx(self, id: u64) -> int {
        choose|i: int| 0 <= i < self.users.len() && self.users[i].0 == id
    }

    /// The state of the user carrying `id`.
    pub open spec fn user(self, id: u64) -> UserStateView {
        self.users[self.user_idx(id)].1
    }

    /// No two entries share a user identifier.
    pub open spec fn ids_unique(self) -> bool {
        forall|i: int, j: int|
            0 <= i < j < self.users.len() ==> self.users[i].0 != self.users[j].0
    }

    /// No two entries share a non-null name, whether stale or live. The
    /// name-change rule only ever hands a name to one user: a duplicate
    /// among live users is rejected, and a stale holder is consumed by the
    /// takeover, so the stronger statement is invariant.
    pub open spec fn names_unique(self) -> bool {
        forall|i: int, j: int|
            0 <= i < j < self.users.len() ==> !(self.users[i].1.name is Some
                && self.users[i].1.name == self.users[j].1.name)
    }

    /// Spectators never carry a vote.
    pub open spec fn spectators_unvoted(self) -> bool {
        forall|i: int|
            0 <= i < self.users.len() ==> (self.users[i].1.is_spectator
                ==> self.users[i].1.points is None)
    }

    /// The admin, if set, is one of the users and not stale: claiming is
    /// done by a connected user, and a departing admin gives the role up
    /// in the same mutation that removes or stales its entry.
    pub open spec fn admin_ok(self) -> bool {
        match self.admin {
            Some(a) => self.has_user(a) && !self.user(a).is_stale,
            None => true,
        }
    }

    /// Every invariant of a session state.
    pub open spec fn wf(self) -> bool {
        &&& self.ids_unique()
        &&& self.names_unique()
        &&& self.spectators_unvoted()
        &&& self.admin_ok()
    }
}

impl Default for SessionState {
    /// A fresh session state: no users, no admin.
    fn default() -> (r: SessionState)
        ensures
            r@.users.len() == 0,
            r@.admin is None,
            r@.wf(),
    {
        SessionState { users: Vec::new(), admin: None }
    }
}

/// A command sent by a client to the session it joined.
#[derive(Debug, Clone, PartialEq)]
pub enum ClientMessage {
    /// Choose or change the display name (at most 32 characters).
    NameChange(String),
    /// Submit an estimation value (at most 8 characters).
    SetPoints(String),
    /// Clear every user's points; admin only.
    ResetPoints,
    /// Ask for the caller's own user identifier.
    Whoami,
    /// Become the admin of a session that has none.
    ClaimSession,
    /// Revoke the named user's access; admin only. The payload is the
    /// target's identifier as a decimal numeral.
    KickUser(String),
    /// Enter or leave spectator mode; entering clears the caller's points.
    SetSpectator(bool),
}

/// The mathematical value of a [`ClientMessage`].
pub enum ClientMessageView {
    NameChange(Seq<char>),
    SetPoints(Seq<char>),
    ResetPoints,
    Whoami,
    ClaimSession,
    KickUser(Seq<char>),
    SetSpectator(bool),
}

impl View for ClientMessage {
    type V = ClientMessageView;

    open spec fn view(&self) -> ClientMessageView {
        match self {
            ClientMessage::NameChange(s) => ClientMessageView::NameChange(s@),
            ClientMessage::SetPoints(s) => ClientMessageView::SetPoints(s@),
            ClientMessage::ResetPoints => ClientMessageView::ResetPoints,
            ClientMessage::Whoami => ClientMessageView::Whoami,
            ClientMessage::ClaimSession => ClientMessageView::ClaimSession,
            ClientMessage::KickUser(s) => ClientMessageView::KickUser(s@),
            ClientMessage::SetSpectator(b) => ClientMessageView::SetSpectator(*b),
        }
    }
}

/// An event sent by the session to a client.
#[derive(Debug, Clone, PartialEq)]
pub enum ServerMessage {
    /// A new projection of the session state for this viewer.
    State(SessionState),
    /// The caller's own user identifier, as a decimal numeral.
    Whoami(String),
    /// A rejected command or a failed join, described in words.
    Error(String),
    /// A periodic no-op that keeps idle connections open.
    KeepAlive,
}

/// The mathematical value of a [`ServerMessage`].
pub enum ServerMessageView {
    State(SessionStateView),
    Whoami(Seq<char>),
    Error(Seq<char>),
    KeepAlive,
}

impl View for ServerMessage {
    type V = ServerMessageView;

    open spec fn view(&self) -> ServerMessageView {
        match self {
            ServerMessage::State(s) => ServerMessageView::State(s@),
            ServerMessage::Whoami(s) => ServerMessageView::Whoami(s@),
            ServerMessage::Error(s) => ServerMessageView::Error(s@),
            ServerMessage::KeepAlive => ServerMessageView::KeepAlive,
        }
    }
}

} // verus!
