//! The session state engine.
//!
//! A [`Session`] owns one session's authoritative state and applies every
//! mutation as one atomic step: a join, a command from a connected user, or
//! the cleanup when a connection ends. The surrounding runtime serialises
//! calls (one mutation at a time) and broadcasts the resulting snapshots;
//! every rule about what a mutation may do is decided and proved here.
//!
//! The spec functions [`step_command`], [`step_join`] and [`step_leave`]
//! state the transition rules; the methods are proved to implement them
//! exactly and to preserve [`SessionStateView::wf`].

use vstd::prelude::*;

use crate::error::PlancError;
use crate::numerals::{dec_digits, lemma_dec_digits_injective, u64_to_dec};
use crate::protocol::{
    ClientMessage, ClientMessageView, ServerMessage, SessionState, SessionStateView, UserState,
    UserStateView,
};

verus! {

/// Whether a user other than `caller` that is not stale holds the name `n`.
pub open spec fn other_live_holder(s: SessionStateView, caller: u64, n: Seq<char>) -> bool {
    exists|i: int|
        0 <= i < s.users.len() && s.users[i].0 != caller && !s.users[i].1.is_stale
            && s.users[i].1.name == Some(n)
}

/// Whether some stale user holds the name `n`.
pub open spec fn has_stale_holder(s: SessionStateView, n: Seq<char>) -> bool {
    exists|i: int|
        0 <= i < s.users.len() && s.users[i].1.is_stale && s.users[i].1.name == Some(n)
}

/// The index of the stale holder of `n`; unique when names are unique.
pub open spec fn stale_holder_idx(s: SessionStateView, n: Seq<char>) -> int {
    choose|i: int|
        0 <= i < s.users.len() && s.users[i].1.is_stale && s.users[i].1.name == Some(n)
}

/// The name-change rule. A too-long name is not a legal message; a name
/// held by another live user is rejected; a name held by a stale user makes
/// the caller take that identity over (its vote and spectator flag move to
/// the caller, the stale entry disappears); otherwise the name is set.
pub open spec fn step_name_change(s: SessionStateView, caller: u64, n: Seq<char>) -> Result<
    SessionStateView,
    PlancError,
> {
    if n.len() > 32 {
        Err(PlancError::InvalidMessage)
    } else if other_live_holder(s, caller, n) {
        Err(PlancError::DuplicateName)
    } else if has_stale_holder(s, n) {
        let j = stale_holder_idx(s, n);
        let ci = s.user_idx(caller);
        let taken = UserStateView {
            name: Some(n),
            points: s.users[j].1.points,
            is_spectator: s.users[j].1.is_spectator,
            is_stale: false,
            kicked: s.users[ci].1.kicked,
        };
        Ok(
            SessionStateView {
                users: s.users.update(ci, (caller, taken)).remove(j),
                admin: s.admin,
            },
        )
    } else {
        let ci = s.user_idx(caller);
        let renamed = UserStateView { name: Some(n), ..s.users[ci].1 };
        Ok(SessionStateView { users: s.users.update(ci, (caller, renamed)), admin: s.admin })
    }
}

/// The voting rule: spectators may not vote, values are at most eight
/// characters.
pub open spec fn step_set_points(s: SessionStateView, caller: u64, p: Seq<char>) -> Result<
    SessionStateView,
    PlancError,
> {
    if p.len() > 8 {
        Err(PlancError::InvalidMessage)
    } else if s.user(caller).is_spectator {
        Err(PlancError::InvalidMessage)
    } else {
        let ci = s.user_idx(caller);
        let voted = UserStateView { points: Some(p), ..s.users[ci].1 };
        Ok(SessionStateView { users: s.users.update(ci, (caller, voted)), admin: s.admin })
    }
}

/// The reset rule: only the admin clears every vote.
pub open spec fn step_reset_points(s: SessionStateView, caller: u64) -> Result<
    SessionStateView,
    PlancError,
> {
    if s.admin == Some(caller) {
        Ok(
            SessionStateView {
                users: s.users.map_values(
                    |p: (u64, UserStateView)| (p.0, UserStateView { points: None, ..p.1 }),
                ),
                admin: s.admin,
            },
        )
    } else {
        Err(PlancError::InsufficientPermissions)
    }
}

/// The claim rule: the first claimant of an unclaimed session becomes admin.
pub open spec fn step_claim(s: SessionStateView, caller: u64) -> Result<
    SessionStateView,
    PlancError,
> {
    if s.admin is None {
        Ok(SessionStateView { users: s.users, admin: Some(caller) })
    } else {
        Err(PlancError::InsufficientPermissions)
    }
}

/// Whether some user's identifier has `t` as its decimal numeral.
pub open spec fn has_user_numeral(s: SessionStateView, t: Seq<char>) -> bool {
    exists|i: int| 0 <= i < s.users.len() && dec_digits(s.users[i].0 as nat) == t
}

/// The index of the user whose identifier reads `t`; unique when
/// identifiers are unique.
pub open spec fn user_numeral_idx(s: SessionStateView, t: Seq<char>) -> int {
    choose|i: int| 0 <= i < s.users.len() && dec_digits(s.users[i].0 as nat) == t
}

/// The kick rule: only the admin kicks, and only users that exist. The
/// target is named by the decimal numeral of its identifier. Kicking an
/// already-kicked user that still exists is a no-op, not an error.
pub open spec fn step_kick(s: SessionStateView, caller: u64, t: Seq<char>) -> Result<
    SessionStateView,
    PlancError,
> {
    if s.admin != Some(caller) {
        Err(PlancError::InsufficientPermissions)
    } else if has_user_numeral(s, t) {
        let ki = user_numeral_idx(s, t);
        let kicked = UserStateView { kicked: true, ..s.users[ki].1 };
        Ok(
            SessionStateView {
                users: s.users.update(ki, (s.users[ki].0, kicked)),
                admin: s.admin,
            },
        )
    } else {
        Err(PlancError::UnknownUserId)
    }
}

/// The spectator rule: the flag is set as asked and the caller's vote is
/// cleared, so a spectator never carries one.
pub open spec fn step_set_spectator(s: SessionStateView, caller: u64, b: bool) -> Result<
    SessionStateView,
    PlancError,
> {
    let ci = s.user_idx(caller);
    let changed = UserStateView { is_spectator: b, points: None, ..s.users[ci].1 };
    Ok(SessionStateView { users: s.users.update(ci, (caller, changed)), admin: s.admin })
}

/// What one command does to the state. `Whoami` reads without writing;
/// every other command either mutates under its rule or leaves the state
/// exactly as it was and reports why.
pub open spec fn step_command(s: SessionStateView, caller: u64, msg: ClientMessageView) -> Result<
    SessionStateView,
    PlancError,
> {
    match msg {
        ClientMessageView::NameChange(n) => step_name_change(s, caller, n),
        ClientMessageView::SetPoints(p) => step_set_points(s, caller, p),
        ClientMessageView::ResetPoints => step_reset_points(s, caller),
        ClientMessageView::Whoami => Ok(s),
        ClientMessageView::ClaimSession => step_claim(s, caller),
        ClientMessageView::KickUser(t) => step_kick(s, caller, t),
        ClientMessageView::SetSpectator(b) => step_set_spectator(s, caller, b),
    }
}

/// What a join does to the state when capacity allows it.
pub open spec fn step_join(s: SessionStateView, id: u64) -> SessionStateView {
    SessionStateView { users: s.users.push((id, UserStateView::init())), admin: s.admin }
}

/// What the cleanup after a connection does: an abnormal end preserves the
/// entry marked stale, any other end removes it; either way a departing
/// admin gives the role up. A user already gone leaves nothing to do.
pub open spec fn step_leave(s: SessionStateView, id: u64, abnormal: bool) -> SessionStateView {
    if s.has_user(id) {
        let ci = s.user_idx(id);
        let users = if abnormal {
            s.users.update(ci, (id, UserStateView { is_stale: true, ..s.users[ci].1 }))
        } else {
            s.users.remove(ci)
        };
        let admin = if s.admin == Some(id) {
            None
        } else {
            s.admin
        };
        SessionStateView { users, admin }
    } else {
        s
    }
}

/// The fixed string shown in place of another user's vote while voting is
/// still open.
pub open spec fn sentinel() -> Seq<char> {
    "-1"@
}

/// Whether every user that still may vote has voted: no retained (not
/// kicked) non-spectator is without points.
pub open spec fn all_voted(s: SessionStateView) -> bool {
    forall|i: int|
        0 <= i < s.users.len() && !(#[trigger] s.users[i]).1.kicked && !s.users[i].1.is_spectator
            ==> s.users[i].1.points is Some
}

/// One entry as `viewer` sees it: while `masking` is on, another user's cast
/// vote is replaced by the sentinel; one's own vote, and absent votes, show
/// as they are.
pub open spec fn mask_entry(p: (u64, UserStateView), viewer: u64, masking: bool) -> (
    u64,
    UserStateView,
) {
    if masking && p.0 != viewer && p.1.points is Some {
        (p.0, UserStateView { points: Some(sentinel()), ..p.1 })
    } else {
        p
    }
}

/// The user list as `viewer` sees it: kicked users are dropped, the rest
/// are masked entry by entry.
pub open spec fn project_users(
    users: Seq<(u64, UserStateView)>,
    viewer: u64,
    masking: bool,
) -> Seq<(u64, UserStateView)>
    decreases users.len(),
{
    if users.len() == 0 {
        Seq::empty()
    } else {
        let rest = project_users(users.drop_first(), viewer, masking);
        if users[0].1.kicked {
            rest
        } else {
            seq![mask_entry(users[0], viewer, masking)] + rest
        }
    }
}

/// The state as `viewer` sees it; votes are hidden while voting is open.
pub open spec fn spec_project(s: SessionStateView, viewer: u64) -> SessionStateView {
    SessionStateView { users: project_users(s.users, viewer, !all_voted(s)), admin: s.admin }
}

/// What the projection task does with one snapshot for one viewer.
pub enum Projection {
    /// The viewer is no longer present; the task stops silently.
    Evicted,
    /// The viewer has been kicked; one final error event is sent and the
    /// task stops.
    Kicked,
    /// The viewer's private view of the snapshot, to be sent as a state
    /// event.
    State(SessionState),
}

impl SessionState {
    /// Derives `viewer`'s private view of this snapshot; see
    /// [`spec_project`] for the masking rule.
    pub fn project(&self, viewer: u64) -> (r: Projection)
        requires
            self@.wf(),
        ensures
            match r {
                Projection::Evicted => !self@.has_user(viewer),
                Projection::Kicked => self@.has_user(viewer) && self@.user(viewer).kicked,
                Projection::State(p) => self@.has_user(viewer) && !self@.user(viewer).kicked && p@
                    == spec_project(self@, viewer),
            },
    {
        let ghost su = self@.users;
        let vi = match find_user(&self.users, viewer) {
            Some(vi) => vi,
            None => {
                return Projection::Evicted;
            },
        };
        proof {
            lemma_user_idx_is(self@, viewer, vi as int);
        }
        if self.users[vi].1.kicked {
            return Projection::Kicked;
        }
        let count = self.users.len();
        let mut masking = false;
        let mut i: usize = 0;
        while i < count
            invariant
                0 <= i <= count,
                count == su.len(),
                su == self@.users,
                masking <==> (exists|k: int|
                    0 <= k < i && !(#[trigger] su[k]).1.kicked && !su[k].1.is_spectator
                        && su[k].1.points is None),
            decreases count - i,
        {
            let u = &self.users[i].1;
            let open_vote = !u.kicked && !u.is_spectator && u.points.is_none();
            proof {
                assert(su[i as int].1 == self.users@[i as int].1@);
                assert(open_vote == (!su[i as int].1.kicked && !su[i as int].1.is_spectator
                    && su[i as int].1.points is None));
            }
            if open_vote {
                masking = true;
            }
            i = i + 1;
        }
        proof {
            assert(masking == !all_voted(self@));
        }
        let mut out: Vec<(u64, UserState)> = Vec::new();
        let mut i: usize = 0;
        while i < count
            invariant
                0 <= i <= count,
                count == su.len(),
                su == self@.users,
                masking == !all_voted(self@),
                out@.map_values(|p: (u64, UserState)| (p.0, p.1@)) == project_users(
                    su.take(i as int),
                    viewer,
                    masking,
                ),
            decreases count - i,
        {
            let ghost out_pre = out@.map_values(|p: (u64, UserState)| (p.0, p.1@));
            let e = &self.users[i];
            if !e.1.kicked {
                let masked = masking && e.0 != viewer && e.1.points.is_some();
                let points = if masked {
                    Some("-1".to_owned())
                } else {
                    clone_opt_string(&e.1.points)
                };
                let u = UserState {
                    name: clone_opt_string(&e.1.name),
                    points,
                    is_spectator: e.1.is_spectator,
                    is_stale: e.1.is_stale,
                    kicked: e.1.kicked,
                };
                out.push((e.0, u));
                proof {
                    assert(out@.map_values(|p: (u64, UserState)| (p.0, p.1@)) =~= out_pre.push(
                        mask_entry(su[i as int], viewer, masking),
                    ));
                }
            }
            proof {
                assert(su.take(i + 1) =~= su.take(i as int).push(su[i as int]));
                lemma_project_users_push(su.take(i as int), su[i as int], viewer, masking);
            }
            i = i + 1;
        }
        proof {
            assert(su.take(count as int) =~= su);
        }
        let p = SessionState { users: out, admin: self.admin };
        Projection::State(p)
    }
}

/// Projection distributes over appending one entry at the back.
proof fn lemma_project_users_push(
    us: Seq<(u64, UserStateView)>,
    e: (u64, UserStateView),
    viewer: u64,
    masking: bool,
)
    ensures
        project_users(us.push(e), viewer, masking) == if e.1.kicked {
            project_users(us, viewer, masking)
        } else {
            project_users(us, viewer, masking).push(mask_entry(e, viewer, masking))
        },
    decreases us.len(),
{
    if us.len() == 0 {
        assert(us.push(e).drop_first() =~= Seq::<(u64, UserStateView)>::empty());
        assert(us.push(e)[0] == e);
        assert(project_users(Seq::<(u64, UserStateView)>::empty(), viewer, masking)
            =~= Seq::<(u64, UserStateView)>::empty());
        assert(us =~= Seq::<(u64, UserStateView)>::empty());
        if !e.1.kicked {
            assert(seq![mask_entry(e, viewer, masking)] + Seq::<(u64, UserStateView)>::empty()
                =~= project_users(us, viewer, masking).push(mask_entry(e, viewer, masking)));
        }
    } else {
        assert(us.push(e).drop_first() =~= us.drop_first().push(e));
        assert(us.push(e)[0] == us[0]);
        lemma_project_users_push(us.drop_first(), e, viewer, masking);
        if !us[0].1.kicked && !e.1.kicked {
            assert(seq![mask_entry(us[0], viewer, masking)] + project_users(
                us.drop_first(),
                viewer,
                masking,
            ).push(mask_entry(e, viewer, masking)) =~= (seq![mask_entry(us[0], viewer, masking)]
                + project_users(us.drop_first(), viewer, masking)).push(
                mask_entry(e, viewer, masking),
            ));
        }
    }
}

/// Every projected entry is the mask of some retained source entry.
proof fn lemma_project_users_entries(us: Seq<(u64, UserStateView)>, viewer: u64, masking: bool)
    ensures
        forall|i: int|
            0 <= i < project_users(us, viewer, masking).len() ==> exists|j: int|
                0 <= j < us.len() && !us[j].1.kicked && #[trigger] project_users(
                    us,
                    viewer,
                    masking,
                )[i] == mask_entry(us[j], viewer, masking),
    decreases us.len(),
{
    if us.len() > 0 {
        lemma_project_users_entries(us.drop_first(), viewer, masking);
        let rest = project_users(us.drop_first(), viewer, masking);
        assert forall|i: int|
            0 <= i < project_users(us, viewer, masking).len() implies exists|j: int|
            0 <= j < us.len() && !us[j].1.kicked && #[trigger] project_users(us, viewer, masking)[i]
                == mask_entry(us[j], viewer, masking) by {
            if us[0].1.kicked {
                let j0 = choose|j0: int|
                    0 <= j0 < us.drop_first().len() && !us.drop_first()[j0].1.kicked && rest[i]
                        == mask_entry(us.drop_first()[j0], viewer, masking);
                assert(us.drop_first()[j0] == us[j0 + 1]);
                assert(project_users(us, viewer, masking)[i] == mask_entry(
                    us[j0 + 1],
                    viewer,
                    masking,
                ));
            } else {
                if i == 0 {
                    assert(project_users(us, viewer, masking)[0] == mask_entry(us[0], viewer, masking));
                } else {
                    let j0 = choose|j0: int|
                        0 <= j0 < us.drop_first().len() && !us.drop_first()[j0].1.kicked && rest[i
                            - 1] == mask_entry(us.drop_first()[j0], viewer, masking);
                    assert(us.drop_first()[j0] == us[j0 + 1]);
                    assert(project_users(us, viewer, masking)[i] == mask_entry(
                        us[j0 + 1],
                        viewer,
                        masking,
                    ));
                }
            }
        }
    }
}

/// With masking off, the projection does not depend on the viewer.
proof fn lemma_project_users_viewer_blind(us: Seq<(u64, UserStateView)>, v1: u64, v2: u64)
    ensures
        project_users(us, v1, false) == project_users(us, v2, false),
    decreases us.len(),
{
    if us.len() > 0 {
        lemma_project_users_viewer_blind(us.drop_first(), v1, v2);
    }
}

/// Once every vote is in, all viewers see one and the same projection.
pub proof fn lemma_projection_agreement(s: SessionStateView, v1: u64, v2: u64)
    requires
        all_voted(s),
    ensures
        spec_project(s, v1) == spec_project(s, v2),
{
    lemma_project_users_viewer_blind(s.users, v1, v2);
}

/// Once every vote is in, each projected entry is a source entry unchanged:
/// the real values are shown.
pub proof fn lemma_projection_reveals(s: SessionStateView, viewer: u64)
    requires
        all_voted(s),
    ensures
        forall|i: int|
            0 <= i < spec_project(s, viewer).users.len() ==> exists|j: int|
                0 <= j < s.users.len() && !s.users[j].1.kicked && #[trigger] spec_project(
                    s,
                    viewer,
                ).users[i] == s.users[j],
{
    lemma_project_users_entries(s.users, viewer, false);
}

/// While voting is open, the projection shows another user's vote only as
/// absent or as the sentinel, and shows whether that user has voted, never
/// what was voted.
pub proof fn lemma_projection_masks(s: SessionStateView, viewer: u64)
    requires
        !all_voted(s),
    ensures
        forall|i: int|
            0 <= i < spec_project(s, viewer).users.len() && (#[trigger] spec_project(
                s,
                viewer,
            ).users[i]).0 != viewer ==> {
                let shown = spec_project(s, viewer).users[i].1.points;
                &&& (shown is None || shown == Some(sentinel()))
                &&& exists|j: int|
                    0 <= j < s.users.len() && !(#[trigger] s.users[j]).1.kicked && s.users[j].0
                        == spec_project(s, viewer).users[i].0 && (shown is Some
                        <==> s.users[j].1.points is Some)
            },
{
    lemma_project_users_entries(s.users, viewer, true);
    assert forall|i: int|
        0 <= i < spec_project(s, viewer).users.len() && (#[trigger] spec_project(
            s,
            viewer,
        ).users[i]).0 != viewer implies {
        let shown = spec_project(s, viewer).users[i].1.points;
        &&& (shown is None || shown == Some(sentinel()))
        &&& exists|j: int|
            0 <= j < s.users.len() && !(#[trigger] s.users[j]).1.kicked && s.users[j].0
                == spec_project(s, viewer).users[i].0 && (shown is Some <==> s.users[j].1.points
                is Some)
    } by {
        let p = project_users(s.users, viewer, true);
        let j = choose|j: int|
            0 <= j < s.users.len() && !s.users[j].1.kicked && p[i] == mask_entry(
                s.users[j],
                viewer,
                true,
            );
        assert(p[i] == mask_entry(s.users[j], viewer, true));
        assert(s.users[j].0 == p[i].0);
    }
}

/// One session: its identity, its capacity, the identifier counter and the
/// authoritative state.
pub struct Session {
    /// The name under which the directory created this session.
    pub session_id: String,
    /// How many users may be present at once.
    pub max_users: usize,
    /// The next identifier to hand out; seeded at one, never reused.
    pub next_user_id: u64,
    /// The authoritative state, replaced wholesale by each mutation.
    pub state: SessionState,
}

impl Session {
    /// The session invariant: the state is well formed, capacity is
    /// respected, and every identifier in use was allocated by the counter.
    pub open spec fn wf(self) -> bool {
        &&& self.state@.wf()
        &&& self.state@.users.len() <= self.max_users
        &&& self.next_user_id >= 1
        &&& forall|i: int|
            0 <= i < self.state@.users.len() ==> (#[trigger] self.state@.users[i].0)
                < self.next_user_id
    }

    /// A fresh session with no users, no admin, and identifiers starting
    /// at one.
    pub fn new(session_id: &str, max_users: usize) -> (r: Session)
        requires
            max_users >= 1,
        ensures
            r.wf(),
            r.session_id@ == session_id@,
            r.max_users == max_users,
            r.next_user_id == 1,
            r.state@.users.len() == 0,
            r.state@.admin is None,
    {
        let r = Session {
            session_id: session_id.to_owned(),
            max_users,
            next_user_id: 1,
            state: SessionState::default(),
        };
        proof {
            assert(r.state@.users =~= Seq::<(u64, UserStateView)>::empty());
        }
        r
    }

    /// Allocates the next user identifier and admits the user if the
    /// session is not full. The identifier is spent either way, as the
    /// counter is bumped before the capacity check.
    pub fn join(&mut self) -> (r: Result<u64, PlancError>)
        requires
            old(self).wf(),
            old(self).next_user_id < u64::MAX,
        ensures
            final(self).wf(),
            final(self).session_id == old(self).session_id,
            final(self).max_users == old(self).max_users,
            final(self).next_user_id == old(self).next_user_id + 1,
            match r {
                Ok(id) => {
                    &&& id == old(self).next_user_id
                    &&& old(self).state@.users.len() < old(self).max_users
                    &&& final(self).state@ == step_join(old(self).state@, id)
                    &&& final(self).state@.has_user(id)
                    &&& final(self).state@.user(id) == UserStateView::init()
                },
                Err(e) => {
                    &&& e == PlancError::MaxUsersExceeded
                    &&& old(self).state@.users.len() >= old(self).max_users
                    &&& final(self).state@ == old(self).state@
                },
            },
    {
        let id = self.next_user_id;
        self.next_user_id = self.next_user_id + 1;
        if self.state.users.len() >= self.max_users {
            return Err(PlancError::MaxUsersExceeded);
        }
        let ghost before = self.state@;
        self.state.users.push((id, UserState::default()));
        proof {
            assert(self.state@.users =~= before.users.push((id, UserStateView::init())));
            assert(self.state@ == step_join(before, id));
            assert forall|i: int| 0 <= i < self.state@.users.len() implies (
            #[trigger] self.state@.users[i].0) < self.next_user_id by {
                if i < before.users.len() {
                    assert(before.users[i].0 < id);
                }
            }
            lemma_step_join_wf(before, id);
            lemma_user_idx_is(self.state@, id, self.state@.users.len() - 1);
        }
        Ok(id)
    }

    /// The entry of `user_id`, or `UnknownUserId` if no such user exists.
    pub fn user_state(&self, user_id: u64) -> (r: Result<&UserState, PlancError>)
        requires
            self.wf(),
        ensures
            match r {
                Ok(u) => self.state@.has_user(user_id) && u@ == self.state@.user(user_id),
                Err(e) => e == PlancError::UnknownUserId && !self.state@.has_user(user_id),
            },
    {
        match find_user(&self.state.users, user_id) {
            Some(i) => {
                let u = &self.state.users[i].1;
                proof {
                    lemma_user_idx_is(self.state@, user_id, i as int);
                }
                Ok(u)
            },
            None => Err(PlancError::UnknownUserId),
        }
    }

    /// The test the command loop makes before each command: processing
    /// ends with `UserKicked` the moment the caller's own kicked flag is
    /// set, and with `UnknownUserId` when the entry no longer exists.
    pub fn check_connection(&self, user_id: u64) -> (r: Result<(), PlancError>)
        requires
            self.wf(),
        ensures
            match r {
                Ok(()) => self.state@.has_user(user_id) && !self.state@.user(user_id).kicked,
                Err(e) => if self.state@.has_user(user_id) {
                    e == PlancError::UserKicked && self.state@.user(user_id).kicked
                } else {
                    e == PlancError::UnknownUserId
                },
            },
    {
        match self.user_state(user_id) {
            Ok(user) => {
                if user.kicked {
                    Err(PlancError::UserKicked)
                } else {
                    Ok(())
                }
            },
            Err(e) => Err(e),
        }
    }

    /// Applies one command from the connected user `caller`, exactly as
    /// [`step_command`] says: on success the new state is the rule's
    /// result and only `Whoami` gets a direct reply; on failure the state
    /// is untouched and the rule's error is returned.
    pub fn apply_command(&mut self, caller: u64, msg: &ClientMessage) -> (r: Result<
        Option<ServerMessage>,
        PlancError,
    >)
        requires
            old(self).wf(),
            old(self).state@.has_user(caller),
            !old(self).state@.user(caller).is_stale,
        ensures
            final(self).wf(),
            final(self).session_id == old(self).session_id,
            final(self).max_users == old(self).max_users,
            final(self).next_user_id == old(self).next_user_id,
            match step_command(old(self).state@, caller, msg@) {
                Ok(s2) => r is Ok && final(self).state@ == s2,
                Err(e) => r == Err::<Option<ServerMessage>, PlancError>(e) && final(self).state@
                    == old(self).state@,
            },
            match r {
                Ok(reply) => match msg@ {
                    ClientMessageView::Whoami => reply matches Some(m) && m@
                        == crate::protocol::ServerMessageView::Whoami(dec_digits(caller as nat)),
                    _ => reply is None,
                },
                Err(_) => true,
            },
    {
        match msg {
            ClientMessage::NameChange(n) => match self.do_name_change(caller, n) {
                Ok(()) => Ok(None),
                Err(e) => Err(e),
            },
            ClientMessage::SetPoints(p) => match self.do_set_points(caller, p) {
                Ok(()) => Ok(None),
                Err(e) => Err(e),
            },
            ClientMessage::ResetPoints => match self.do_reset_points(caller) {
                Ok(()) => Ok(None),
                Err(e) => Err(e),
            },
            ClientMessage::Whoami => Ok(Some(ServerMessage::Whoami(u64_to_dec(caller)))),
            ClientMessage::ClaimSession => match self.do_claim(caller) {
                Ok(()) => Ok(None),
                Err(e) => Err(e),
            },
            ClientMessage::KickUser(t) => match self.do_kick(caller, t) {
                Ok(()) => Ok(None),
                Err(e) => Err(e),
            },
            ClientMessage::SetSpectator(b) => {
                self.do_set_spectator(caller, *b);
                Ok(None)
            },
        }
    }

    /// Cleanup after `user_id`'s connection ended; see [`step_leave`].
    pub fn leave(&mut self, user_id: u64, abnormal: bool)
        requires
            old(self).wf(),
        ensures
            final(self).wf(),
            final(self).session_id == old(self).session_id,
            final(self).max_users == old(self).max_users,
            final(self).next_user_id == old(self).next_user_id,
            final(self).state@ == step_leave(old(self).state@, user_id, abnormal),
    {
        let ghost before = self.state@;
        match find_user(&self.state.users, user_id) {
            Some(i) => {
                proof {
                    lemma_user_idx_is(before, user_id, i as int);
                }
                if abnormal {
                    let e = entry_mut(&mut self.state.users, i);
                    e.is_stale = true;
                } else {
                    self.state.users.remove(i);
                }
                if let Some(a) = self.state.admin {
                    if a == user_id {
                        self.state.admin = None;
                    }
                }
                proof {
                    if abnormal {
                        assert(self.state@.users =~= before.users.update(
                            i as int,
                            (user_id, UserStateView { is_stale: true, ..before.users[i as int].1 }),
                        ));
                    } else {
                        assert(self.state@.users =~= before.users.remove(i as int));
                    }
                    assert(self.state@ == step_leave(before, user_id, abnormal));
                    lemma_step_leave_wf(before, user_id, abnormal);
                }
            },
            None => {
                proof {
                    assert(self.state@ == step_leave(before, user_id, abnormal));
                }
            },
        }
    }
}

/// The index of `id` in `users`, by linear search.
fn find_user(users: &Vec<(u64, UserState)>, id: u64) -> (r: Option<usize>)
    ensures
        match r {
            Some(i) => i < users@.len() && users@[i as int].0 == id,
            None => forall|i: int| 0 <= i < users@.len() ==> (#[trigger] users@[i]).0 != id,
        },
{
    let mut i: usize = 0;
    while i < users.len()
        invariant
            0 <= i <= users@.len(),
            forall|k: int| 0 <= k < i ==> (#[trigger] users@[k]).0 != id,
        decreases users@.len() - i,
    {
        if users[i].0 == id {
            return Some(i);
        }
        i = i + 1;
    }
    None
}

/// A mutable borrow of the user half of entry `i`, with the identifier
/// half pinned.
fn entry_mut(users: &mut Vec<(u64, UserState)>, i: usize) -> (r: &mut UserState)
    requires
        i < old(users).len(),
    ensures
        *r == old(users)@[i as int].1,
        final(users)@ == old(users)@.update(i as int, ((old(users)@[i as int].0, *final(r)))),
{
    &mut users[i].1
}

/// A copy of an optional string, equal to the original.
fn clone_opt_string(s: &Option<String>) -> (r: Option<String>)
    ensures
        r == *s,
{
    match s {
        Some(x) => Some(x.clone()),
        None => None,
    }
}

/// An index holding `id` is the index `user_idx` names, when identifiers
/// are unique: the handle that connects positional reasoning about
/// `users` to the by-identifier functions of the contracts.
pub proof fn lemma_user_idx_is(s: SessionStateView, id: u64, i: int)
    requires
        s.ids_unique(),
        0 <= i < s.users.len(),
        s.users[i].0 == id,
    ensures
        s.has_user(id),
        s.user_idx(id) == i,
        s.user(id) == s.users[i].1,
{
    assert(s.has_user(id));
    let j = s.user_idx(id);
    if i != j {
        assert(s.users[i].0 == s.users[j].0);
    }
}

/// Admitting a fresh user preserves the state invariant.
proof fn lemma_step_join_wf(s: SessionStateView, id: u64)
    requires
        s.wf(),
        !s.has_user(id),
    ensures
        step_join(s, id).wf(),
{
    let t = step_join(s, id);
    assert forall|i: int, j: int| 0 <= i < j < t.users.len() implies t.users[i].0 != t.users[j].0
    by {
        if j == t.users.len() - 1 {
            assert(s.has_user(id) <== s.users[i].0 == id);
        }
    }
    assert(t.names_unique());
    assert(t.spectators_unvoted());
    match t.admin {
        Some(a) => {
            let k = s.user_idx(a);
            lemma_user_idx_is(t, a, k);
        },
        None => {},
    }
}

/// Cleanup preserves the state invariant.
proof fn lemma_step_leave_wf(s: SessionStateView, id: u64, abnormal: bool)
    requires
        s.wf(),
    ensures
        step_leave(s, id, abnormal).wf(),
{
    if s.has_user(id) {
        let ci = s.user_idx(id);
        let t = step_leave(s, id, abnormal);
        if abnormal {
            assert(t.ids_unique());
            assert forall|i: int, j: int|
                0 <= i < j < t.users.len() implies !(t.users[i].1.name is Some && t.users[i].1.name
                == t.users[j].1.name) by {
                assert(t.users[i].1.name == s.users[i].1.name);
                assert(t.users[j].1.name == s.users[j].1.name);
            }
            assert(t.spectators_unvoted());
            match t.admin {
                Some(a) => {
                    let k = s.user_idx(a);
                    assert(s.users[k].0 == a);
                    assert(k != ci);
                    lemma_user_idx_is(t, a, k);
                },
                None => {},
            }
        } else {
            assert forall|i: int, j: int| 0 <= i < j < t.users.len() implies t.users[i].0
                != t.users[j].0 by {
                lemma_remove_frame(s.users, ci, i);
                lemma_remove_frame(s.users, ci, j);
            }
            assert forall|i: int, j: int|
                0 <= i < j < t.users.len() implies !(t.users[i].1.name is Some && t.users[i].1.name
                == t.users[j].1.name) by {
                lemma_remove_frame(s.users, ci, i);
                lemma_remove_frame(s.users, ci, j);
            }
            assert forall|i: int|
                0 <= i < t.users.len() && t.users[i].1.is_spectator implies t.users[i].1.points
                is None by {
                lemma_remove_frame(s.users, ci, i);
            }
            match t.admin {
                Some(a) => {
                    let k = s.user_idx(a);
                    assert(s.users[k].0 == a);
                    assert(k != ci);
                    if k < ci {
                        lemma_remove_frame(s.users, ci, k);
                        lemma_user_idx_is(t, a, k);
                    } else {
                        lemma_remove_frame(s.users, ci, k - 1);
                        lemma_user_idx_is(t, a, k - 1);
                    }
                },
                None => {},
            }
        }
    }
}

/// An entry of a sequence with one index removed is an entry of the
/// original.
proof fn lemma_remove_frame(users: Seq<(u64, UserStateView)>, r: int, i: int)
    requires
        0 <= r < users.len(),
        0 <= i < users.len() - 1,
    ensures
        users.remove(r)[i] == if i < r {
            users[i]
        } else {
            users[i + 1]
        },
{
}

/// Updating one entry without touching its identifier, its name or the
/// spectator rule preserves the state invariant.
proof fn lemma_update_wf(s: SessionStateView, i: int, u2: UserStateView)
    requires
        s.wf(),
        0 <= i < s.users.len(),
        u2.name == s.users[i].1.name,
        u2.is_stale == s.users[i].1.is_stale,
        u2.is_spectator ==> u2.points is None,
    ensures
        (SessionStateView { users: s.users.update(i, ((s.users[i].0, u2))), admin: s.admin }).wf(),
{
    let t = SessionStateView { users: s.users.update(i, ((s.users[i].0, u2))), admin: s.admin };
    assert(t.ids_unique());
    assert(t.names_unique());
    assert(t.spectators_unvoted());
    match t.admin {
        Some(a) => {
            let k = s.user_idx(a);
            lemma_user_idx_is(t, a, k);
        },
        None => {},
    }
}

impl Session {
    /// The index of `caller`, which is known to be present.
    fn find_present(&self, caller: u64) -> (i: usize)
        requires
            self.wf(),
            self.state@.has_user(caller),
        ensures
            i < self.state@.users.len(),
            self.state@.users[i as int].0 == caller,
            self.state@.user_idx(caller) == i,
            self.state@.user(caller) == self.state@.users[i as int].1,
    {
        match find_user(&self.state.users, caller) {
            Some(i) => {
                proof {
                    lemma_user_idx_is(self.state@, caller, i as int);
                }
                i
            },
            None => {
                proof {
                    assert(false);
                }
                0
            },
        }
    }

    /// The name-change rule; see [`step_name_change`].
    fn do_name_change(&mut self, caller: u64, n: &String) -> (r: Result<(), PlancError>)
        requires
            old(self).wf(),
            old(self).state@.has_user(caller),
            !old(self).state@.user(caller).is_stale,
        ensures
            final(self).wf(),
            final(self).session_id == old(self).session_id,
            final(self).max_users == old(self).max_users,
            final(self).next_user_id == old(self).next_user_id,
            match step_name_change(old(self).state@, caller, n@) {
                Ok(s2) => r is Ok && final(self).state@ == s2,
                Err(e) => r == Err::<(), PlancError>(e) && final(self).state@ == old(self).state@,
            },
    {
        let ghost before = self.state@;
        if n.as_str().unicode_len() > 32 {
            return Err(PlancError::InvalidMessage);
        }
        let mut live_holder = false;
        let mut stale_idx: Option<usize> = None;
        let count = self.state.users.len();
        let mut i: usize = 0;
        while i < count
            invariant
                0 <= i <= count,
                count == before.users.len(),
                self == old(self),
                before == self.state@,
                live_holder <==> exists|k: int|
                    0 <= k < i && before.users[k].0 != caller && !before.users[k].1.is_stale
                        && before.users[k].1.name == Some(n@),
                match stale_idx {
                    Some(j) => 0 <= j < i && before.users[j as int].1.is_stale
                        && before.users[j as int].1.name == Some(n@),
                    None => forall|k: int|
                        0 <= k < i ==> !((#[trigger] before.users[k]).1.is_stale
                            && before.users[k].1.name == Some(n@)),
                },
            decreases count - i,
        {
            let entry = &self.state.users[i];
            let matches_name = match &entry.1.name {
                Some(m) => *m == *n,
                None => false,
            };
            if matches_name {
                proof {
                    assert(before.users[i as int].1.name == Some(n@));
                }
                if entry.1.is_stale {
                    stale_idx = Some(i);
                } else if entry.0 != caller {
                    live_holder = true;
                }
            }
            proof {
                if !matches_name {
                    assert(before.users[i as int].1.name != Some(n@));
                }
            }
            i = i + 1;
        }
        if live_holder {
            return Err(PlancError::DuplicateName);
        }
        proof {
            assert(!other_live_holder(before, caller, n@));
        }
        match stale_idx {
            Some(j) => {
                proof {
                    assert(has_stale_holder(before, n@));
                    let j2 = stale_holder_idx(before, n@);
                    if j2 != j as int {
                        assert(before.users[j2].1.name == Some(n@));
                        assert(before.users[j as int].1.name == Some(n@));
                        assert(false);
                    }
                }
                let stale_points = clone_opt_string(&self.state.users[j].1.points);
                let stale_spectator = self.state.users[j].1.is_spectator;
                let ci = self.find_present(caller);
                proof {
                    assert(ci as int != j as int);
                }
                let e = entry_mut(&mut self.state.users, ci);
                e.name = Some(n.clone());
                e.points = stale_points;
                e.is_spectator = stale_spectator;
                e.is_stale = false;
                self.state.users.remove(j);
                proof {
                    let taken = UserStateView {
                        name: Some(n@),
                        points: before.users[j as int].1.points,
                        is_spectator: before.users[j as int].1.is_spectator,
                        is_stale: false,
                        kicked: before.users[ci as int].1.kicked,
                    };
                    assert(self.state@.users =~= before.users.update(
                        ci as int,
                        (caller, taken),
                    ).remove(j as int));
                    assert(self.state@ == step_name_change(before, caller, n@)->Ok_0);
                    lemma_takeover_wf(before, caller, n@);
                }
                Ok(())
            },
            None => {
                proof {
                    assert(!has_stale_holder(before, n@));
                }
                let ci = self.find_present(caller);
                let e = entry_mut(&mut self.state.users, ci);
                e.name = Some(n.clone());
                proof {
                    let renamed = UserStateView { name: Some(n@), ..before.users[ci as int].1 };
                    assert(self.state@.users =~= before.users.update(ci as int, (caller, renamed)));
                    assert(self.state@ == step_name_change(before, caller, n@)->Ok_0);
                    lemma_rename_wf(before, caller, n@);
                }
                Ok(())
            },
        }
    }

    /// The voting rule; see [`step_set_points`].
    fn do_set_points(&mut self, caller: u64, p: &String) -> (r: Result<(), PlancError>)
        requires
            old(self).wf(),
            old(self).state@.has_user(caller),
        ensures
            final(self).wf(),
            final(self).session_id == old(self).session_id,
            final(self).max_users == old(self).max_users,
            final(self).next_user_id == old(self).next_user_id,
            match step_set_points(old(self).state@, caller, p@) {
                Ok(s2) => r is Ok && final(self).state@ == s2,
                Err(e) => r == Err::<(), PlancError>(e) && final(self).state@ == old(self).state@,
            },
    {
        let ghost before = self.state@;
        if p.as_str().unicode_len() > 8 {
            return Err(PlancError::InvalidMessage);
        }
        let ci = self.find_present(caller);
        if self.state.users[ci].1.is_spectator {
            return Err(PlancError::InvalidMessage);
        }
        let e = entry_mut(&mut self.state.users, ci);
        e.points = Some(p.clone());
        proof {
            let voted = UserStateView { points: Some(p@), ..before.users[ci as int].1 };
            assert(self.state@.users =~= before.users.update(ci as int, (caller, voted)));
            assert(self.state@ == step_set_points(before, caller, p@)->Ok_0);
            lemma_update_wf(before, ci as int, voted);
        }
        Ok(())
    }

    /// The reset rule; see [`step_reset_points`].
    fn do_reset_points(&mut self, caller: u64) -> (r: Result<(), PlancError>)
        requires
            old(self).wf(),
        ensures
            final(self).wf(),
            final(self).session_id == old(self).session_id,
            final(self).max_users == old(self).max_users,
            final(self).next_user_id == old(self).next_user_id,
            match step_reset_points(old(self).state@, caller) {
                Ok(s2) => r is Ok && final(self).state@ == s2,
                Err(e) => r == Err::<(), PlancError>(e) && final(self).state@ == old(self).state@,
            },
    {
        let ghost before = self.state@;
        let is_admin = match self.state.admin {
            Some(a) => a == caller,
            None => false,
        };
        if !is_admin {
            return Err(PlancError::InsufficientPermissions);
        }
        let count = self.state.users.len();
        let mut i: usize = 0;
        while i < count
            invariant
                0 <= i <= count,
                count == self.state@.users.len(),
                self.state@.users.len() == before.users.len(),
                self.session_id == old(self).session_id,
                self.max_users == old(self).max_users,
                self.next_user_id == old(self).next_user_id,
                self.state@.admin == before.admin,
                forall|k: int|
                    0 <= k < i ==> (#[trigger] self.state@.users[k]) == (
                    before.users[k].0,
                    UserStateView { points: None, ..before.users[k].1 },
                    ),
                forall|k: int|
                    i <= k < count ==> (#[trigger] self.state@.users[k]) == before.users[k],
            decreases count - i,
        {
            let ghost pre = self.state@.users;
            let e = entry_mut(&mut self.state.users, i);
            e.points = None;
            proof {
                assert(self.state@.users =~= pre.update(
                    i as int,
                    (pre[i as int].0, UserStateView { points: None, ..pre[i as int].1 }),
                ));
            }
            i = i + 1;
        }
        proof {
            assert(self.state@.users =~= before.users.map_values(
                |p: (u64, UserStateView)| (p.0, UserStateView { points: None, ..p.1 }),
            ));
            assert(self.state@ == step_reset_points(before, caller)->Ok_0);
            lemma_reset_wf(before);
        }
        Ok(())
    }

    /// The claim rule; see [`step_claim`].
    fn do_claim(&mut self, caller: u64) -> (r: Result<(), PlancError>)
        requires
            old(self).wf(),
            old(self).state@.has_user(caller),
            !old(self).state@.user(caller).is_stale,
        ensures
            final(self).wf(),
            final(self).session_id == old(self).session_id,
            final(self).max_users == old(self).max_users,
            final(self).next_user_id == old(self).next_user_id,
            match step_claim(old(self).state@, caller) {
                Ok(s2) => r is Ok && final(self).state@ == s2,
                Err(e) => r == Err::<(), PlancError>(e) && final(self).state@ == old(self).state@,
            },
    {
        if self.state.admin.is_some() {
            return Err(PlancError::InsufficientPermissions);
        }
        self.state.admin = Some(caller);
        Ok(())
    }

    /// The kick rule; see [`step_kick`].
    fn do_kick(&mut self, caller: u64, t: &String) -> (r: Result<(), PlancError>)
        requires
            old(self).wf(),
        ensures
            final(self).wf(),
            final(self).session_id == old(self).session_id,
            final(self).max_users == old(self).max_users,
            final(self).next_user_id == old(self).next_user_id,
            match step_kick(old(self).state@, caller, t@) {
                Ok(s2) => r is Ok && final(self).state@ == s2,
                Err(e) => r == Err::<(), PlancError>(e) && final(self).state@ == old(self).state@,
            },
    {
        let ghost before = self.state@;
        let is_admin = match self.state.admin {
            Some(a) => a == caller,
            None => false,
        };
        if !is_admin {
            return Err(PlancError::InsufficientPermissions);
        }
        let target = match crate::numerals::parse_u64_dec(t.as_str()) {
            Some(num) => num,
            None => {
                proof {
                    assert forall|k: int| 0 <= k < before.users.len() implies dec_digits(
                        (#[trigger] before.users[k]).0 as nat,
                    ) != t@ by {}
                    assert(!has_user_numeral(before, t@));
                }
                return Err(PlancError::UnknownUserId);
            },
        };
        match find_user(&self.state.users, target) {
            Some(i) => {
                proof {
                    assert(dec_digits(before.users[i as int].0 as nat) == t@);
                    assert(has_user_numeral(before, t@));
                    let k = user_numeral_idx(before, t@);
                    if k != i as int {
                        lemma_dec_digits_injective(before.users[k].0 as nat, target as nat);
                        assert(before.users[k].0 == target);
                        assert(false);
                    }
                }
                let e = entry_mut(&mut self.state.users, i);
                e.kicked = true;
                proof {
                    let kicked = UserStateView { kicked: true, ..before.users[i as int].1 };
                    assert(self.state@.users =~= before.users.update(
                        i as int,
                        (before.users[i as int].0, kicked),
                    ));
                    assert(self.state@ == step_kick(before, caller, t@)->Ok_0);
                    lemma_update_wf(before, i as int, kicked);
                }
                Ok(())
            },
            None => {
                proof {
                    assert forall|k: int| 0 <= k < before.users.len() implies dec_digits(
                        (#[trigger] before.users[k]).0 as nat,
                    ) != t@ by {
                        if dec_digits(before.users[k].0 as nat) == t@ {
                            lemma_dec_digits_injective(before.users[k].0 as nat, target as nat);
                        }
                    }
                    assert(!has_user_numeral(before, t@));
                }
                Err(PlancError::UnknownUserId)
            },
        }
    }

    /// The spectator rule; see [`step_set_spectator`].
    fn do_set_spectator(&mut self, caller: u64, b: bool)
        requires
            old(self).wf(),
            old(self).state@.has_user(caller),
        ensures
            final(self).wf(),
            final(self).session_id == old(self).session_id,
            final(self).max_users == old(self).max_users,
            final(self).next_user_id == old(self).next_user_id,
            Ok::<SessionStateView, PlancError>(final(self).state@) == step_set_spectator(
                old(self).state@,
                caller,
                b,
            ),
    {
        let ghost before = self.state@;
        let ci = self.find_present(caller);
        let e = entry_mut(&mut self.state.users, ci);
        e.is_spectator = b;
        e.points = None;
        proof {
            let changed = UserStateView {
                is_spectator: b,
                points: None,
                ..before.users[ci as int].1
            };
            assert(self.state@.users =~= before.users.update(ci as int, (caller, changed)));
            assert(self.state@ == step_set_spectator(before, caller, b)->Ok_0);
            lemma_update_wf(before, ci as int, changed);
        }
    }
}

/// Setting a name nobody else holds preserves the state invariant.
proof fn lemma_rename_wf(s: SessionStateView, caller: u64, n: Seq<char>)
    requires
        s.wf(),
        s.has_user(caller),
        !s.user(caller).is_stale,
        !other_live_holder(s, caller, n),
        !has_stale_holder(s, n),
    ensures
        step_name_change(s, caller, n) matches Ok(t) ==> t.wf(),
{
    if n.len() <= 32 {
        let ci = s.user_idx(caller);
        let renamed = UserStateView { name: Some(n), ..s.users[ci].1 };
        let t = SessionStateView { users: s.users.update(ci, (caller, renamed)), admin: s.admin };
        assert(t.ids_unique());
        assert forall|i: int, j: int|
            0 <= i < j < t.users.len() implies !(t.users[i].1.name is Some && t.users[i].1.name
            == t.users[j].1.name) by {
            if i == ci || j == ci {
                let o = if i == ci {
                    j
                } else {
                    i
                };
                assert(t.users[o] == s.users[o]);
                if s.users[o].1.name == Some(n) {
                    if s.users[o].1.is_stale {
                        assert(has_stale_holder(s, n));
                    } else {
                        assert(s.users[o].0 != caller);
                        assert(other_live_holder(s, caller, n));
                    }
                    assert(false);
                }
            }
        }
        assert(t.spectators_unvoted());
        match t.admin {
            Some(a) => {
                let k = s.user_idx(a);
                lemma_user_idx_is(t, a, k);
            },
            None => {},
        }
    }
}

/// A takeover hands the stale identity to the caller and preserves the
/// state invariant.
proof fn lemma_takeover_wf(s: SessionStateView, caller: u64, n: Seq<char>)
    requires
        s.wf(),
        s.has_user(caller),
        !s.user(caller).is_stale,
        !other_live_holder(s, caller, n),
        has_stale_holder(s, n),
        n.len() <= 32,
    ensures
        step_name_change(s, caller, n) matches Ok(t) ==> t.wf(),
{
    let j = stale_holder_idx(s, n);
    let ci = s.user_idx(caller);
    assert(s.users[j].1.is_stale && s.users[j].1.name == Some(n));
    assert(ci != j);
    let taken = UserStateView {
        name: Some(n),
        points: s.users[j].1.points,
        is_spectator: s.users[j].1.is_spectator,
        is_stale: false,
        kicked: s.users[ci].1.kicked,
    };
    let u = s.users.update(ci, (caller, taken));
    let t = SessionStateView { users: u.remove(j), admin: s.admin };
    assert forall|i: int, k: int| 0 <= i < k < t.users.len() implies t.users[i].0 != t.users[k].0
    by {
        lemma_remove_frame(u, j, i);
        lemma_remove_frame(u, j, k);
    }
    assert forall|i: int, k: int|
        0 <= i < k < t.users.len() implies !(t.users[i].1.name is Some && t.users[i].1.name
        == t.users[k].1.name) by {
        lemma_remove_frame(u, j, i);
        lemma_remove_frame(u, j, k);
        let i0 = if i < j {
            i
        } else {
            i + 1
        };
        let k0 = if k < j {
            k
        } else {
            k + 1
        };
        if t.users[i].1.name is Some && t.users[i].1.name == t.users[k].1.name {
            if i0 == ci || k0 == ci {
                let o0 = if i0 == ci {
                    k0
                } else {
                    i0
                };
                assert(u[o0] == s.users[o0]);
                assert(s.users[o0].1.name == Some(n));
                if o0 != j {
                    assert(!(s.users[j].1.name is Some && s.users[j].1.name == s.users[o0].1.name)
                        || !(s.users[o0].1.name is Some && s.users[o0].1.name
                        == s.users[j].1.name));
                    assert(false);
                }
                assert(false);
            } else {
                assert(u[i0] == s.users[i0] && u[k0] == s.users[k0]);
                assert(false);
            }
        }
    }
    assert forall|i: int|
        0 <= i < t.users.len() && t.users[i].1.is_spectator implies t.users[i].1.points is None
    by {
        lemma_remove_frame(u, j, i);
    }
    match t.admin {
        Some(a) => {
            let k = s.user_idx(a);
            assert(s.users[k].0 == a);
            assert(!s.users[k].1.is_stale);
            assert(k != j);
            if k < j {
                lemma_remove_frame(u, j, k);
                lemma_user_idx_is(t, a, k);
            } else {
                lemma_remove_frame(u, j, k - 1);
                lemma_user_idx_is(t, a, k - 1);
            }
        },
        None => {},
    }
}

/// Session safety: a well-formed session never exceeds its configured
/// capacity, and no two live (not stale) users share a non-null name.
/// Every mutation — `join`, `apply_command`, `leave` — ensures `wf` of
/// the result, so by induction both bounds hold after any sequence of
/// operations on a fresh session.
pub proof fn lemma_session_safety(s: Session, i: int, j: int)
    requires
        s.wf(),
        0 <= i < s.state@.users.len(),
        0 <= j < s.state@.users.len(),
        i != j,
        !s.state@.users[i].1.is_stale,
        !s.state@.users[j].1.is_stale,
    ensures
        s.state@.users.len() <= s.max_users,
        s.state@.users[i].1.name is Some ==> s.state@.users[i].1.name != s.state@.users[j].1.name,
{
}

/// Reconnection takeover: when a stale user holds the requested name and
/// no live user does, a name change leaves exactly one entry with that
/// name — the caller's, now live, carrying the stale user's vote and
/// spectator flag — and the stale identifier is gone, with one entry fewer
/// in all.
pub proof fn lemma_takeover_resurrects(s: SessionStateView, caller: u64, n: Seq<char>)
    requires
        s.wf(),
        s.has_user(caller),
        !s.user(caller).is_stale,
        !other_live_holder(s, caller, n),
        has_stale_holder(s, n),
        n.len() <= 32,
    ensures
        step_name_change(s, caller, n) matches Ok(t) && {
            let t = step_name_change(s, caller, n)->Ok_0;
            let stale = s.users[stale_holder_idx(s, n)].1;
            let old_id = s.users[stale_holder_idx(s, n)].0;
            &&& t.has_user(caller)
            &&& t.user(caller) == (UserStateView {
                name: Some(n),
                points: stale.points,
                is_spectator: stale.is_spectator,
                is_stale: false,
                kicked: s.user(caller).kicked,
            })
            &&& !t.has_user(old_id)
            &&& t.users.len() == s.users.len() - 1
            &&& forall|i: int|
                0 <= i < t.users.len() && (#[trigger] t.users[i]).0 != caller ==> t.users[i].1.name
                    != Some(n)
        },
{
    lemma_takeover_wf(s, caller, n);
    let j = stale_holder_idx(s, n);
    let ci = s.user_idx(caller);
    assert(s.users[j].1.is_stale && s.users[j].1.name == Some(n));
    assert(s.users[ci].0 == caller);
    assert(ci != j);
    let old_id = s.users[j].0;
    assert(old_id != caller);
    let taken = UserStateView {
        name: Some(n),
        points: s.users[j].1.points,
        is_spectator: s.users[j].1.is_spectator,
        is_stale: false,
        kicked: s.users[ci].1.kicked,
    };
    let u = s.users.update(ci, (caller, taken));
    let t = step_name_change(s, caller, n)->Ok_0;
    assert(t.users == u.remove(j));
    let ci2 = if ci < j {
        ci
    } else {
        ci - 1
    };
    lemma_remove_frame(u, j, ci2);
    assert(t.users[ci2] == (caller, taken));
    lemma_user_idx_is(t, caller, ci2);
    assert forall|i: int| 0 <= i < t.users.len() implies (#[trigger] t.users[i]).0 != old_id by {
        lemma_remove_frame(u, j, i);
        let i0 = if i < j {
            i
        } else {
            i + 1
        };
        if i0 != ci {
            assert(t.users[i] == s.users[i0]);
            assert(i0 != j);
        }
    }
    assert forall|i: int|
        0 <= i < t.users.len() && (#[trigger] t.users[i]).0 != caller implies t.users[i].1.name
        != Some(n) by {
        lemma_remove_frame(u, j, i);
        let i0 = if i < j {
            i
        } else {
            i + 1
        };
        assert(i0 != ci);
        assert(t.users[i] == s.users[i0]);
        assert(i0 != j);
        if s.users[i0].1.name == Some(n) {
            assert(!(s.users[j].1.name is Some && s.users[j].1.name == s.users[i0].1.name) || !(
            s.users[i0].1.name is Some && s.users[i0].1.name == s.users[j].1.name));
            assert(false);
        }
    }
}

/// Clearing every vote preserves the state invariant.
proof fn lemma_reset_wf(s: SessionStateView)
    requires
        s.wf(),
    ensures
        (SessionStateView {
            users: s.users.map_values(
                |p: (u64, UserStateView)| (p.0, UserStateView { points: None, ..p.1 }),
            ),
            admin: s.admin,
        }).wf(),
{
    let t = SessionStateView {
        users: s.users.map_values(
            |p: (u64, UserStateView)| (p.0, UserStateView { points: None, ..p.1 }),
        ),
        admin: s.admin,
    };
    assert(t.ids_unique());
    assert(t.names_unique());
    assert(t.spectators_unvoted());
    match t.admin {
        Some(a) => {
            let k = s.user_idx(a);
            lemma_user_idx_is(t, a, k);
        },
        None => {},
    }
}

} // verus!
