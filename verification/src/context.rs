//! The session directory: one per process, shared by every connection.
//!
//! The directory maps session names to sessions and enforces the global
//! session limit. Ownership is counted explicitly: every acquired handle
//! ([`ServiceContext::get_session`]) must be given back
//! ([`ServiceContext::release_session`]), and an entry whose count reached
//! zero is garbage — it stays until the drop notification
//! ([`ServiceContext::cleanup_session`]) removes it, and removal
//! double-checks that the entry is still dead, because a new session under
//! the same name may have been registered in between.

use vstd::prelude::*;

use crate::error::PlancError;
use crate::session::Session;

verus! {

/// The limits a directory is configured with.
pub struct ServiceContextConfig {
    /// How many sessions may exist at once.
    pub max_sessions: usize,
    /// How many users each session may hold at once.
    pub max_users: usize,
}

/// One directory entry: a session, its name, and how many owners hold it.
pub struct SessionEntry {
    /// The name under which the session was created.
    pub session_id: String,
    /// How many acquired handles are outstanding; zero means dead.
    pub refs: usize,
    /// The session itself.
    pub session: Session,
}

/// The directory of live sessions.
pub struct ServiceContext {
    /// The configured limits.
    pub config: ServiceContextConfig,
    /// The registered sessions, at most one per name.
    pub sessions: Vec<SessionEntry>,
}

/// The directory invariant: names are unique, every session is well
/// formed and configured with the directory's user limit, and the session
/// limit is respected.
pub open spec fn dir_wf(config: ServiceContextConfig, entries: Seq<SessionEntry>) -> bool {
    &&& config.max_sessions >= 1
    &&& config.max_users >= 1
    &&& entries.len() <= config.max_sessions
    &&& forall|i: int, j: int|
        0 <= i < j < entries.len() ==> entries[i].session_id@ != entries[j].session_id@
    &&& forall|i: int| 0 <= i < entries.len() ==> (#[trigger] entries[i]).session.wf()
    &&& forall|i: int|
        0 <= i < entries.len() ==> (#[trigger] entries[i]).session.max_users == config.max_users
}

impl ServiceContext {
    /// Whether some entry carries the name `id`.
    pub open spec fn has_entry(self, id: Seq<char>) -> bool {
        exists|i: int| 0 <= i < self.sessions@.len() && self.sessions@[i].session_id@ == id
    }

    /// The index of the entry named `id`; meaningful only when
    /// [`Self::has_entry`] holds and names are unique.
    pub open spec fn entry_idx(self, id: Seq<char>) -> int {
        choose|i: int| 0 <= i < self.sessions@.len() && self.sessions@[i].session_id@ == id
    }

    /// The entry named `id`.
    pub open spec fn entry(self, id: Seq<char>) -> SessionEntry {
        self.sessions@[self.entry_idx(id)]
    }

    /// Whether the entry named `id` exists and has owners.
    pub open spec fn has_live_entry(self, id: Seq<char>) -> bool {
        self.has_entry(id) && self.entry(id).refs >= 1
    }

    /// The directory invariant; see [`dir_wf`].
    pub open spec fn wf(self) -> bool {
        dir_wf(self.config, self.sessions@)
    }

    /// An empty directory under the given limits.
    pub fn new(config: ServiceContextConfig) -> (r: ServiceContext)
        requires
            config.max_sessions >= 1,
            config.max_users >= 1,
        ensures
            r.wf(),
            r.sessions@.len() == 0,
            r.config == config,
    {
        ServiceContext { config, sessions: Vec::new() }
    }

    /// How many entries the directory holds, dead ones included.
    pub fn session_count(&self) -> (r: usize)
        ensures
            r == self.sessions@.len(),
    {
        self.sessions.len()
    }

    /// Whether an entry named `session_id` exists, dead or live.
    pub fn has_session(&self, session_id: &str) -> (r: bool)
        ensures
            r == self.has_entry(session_id@),
    {
        let sid = session_id.to_owned();
        match find_entry(&self.sessions, &sid) {
            Some(_) => true,
            None => false,
        }
    }

    /// Acquires a handle on the session named `session_id`, creating the
    /// session if none is alive under that name. A dead entry found in the
    /// way is discarded first. Fails with `MaxSessionsExceeded`, creating
    /// nothing, when the directory is full.
    pub fn get_session(&mut self, session_id: &str) -> (r: Result<(), PlancError>)
        requires
            old(self).wf(),
            // Machine limit: each handle belongs to one live join task, so
            // the count cannot reach the address-space bound.
            old(self).has_live_entry(session_id@) ==> old(self).entry(session_id@).refs
                < usize::MAX,
        ensures
            final(self).wf(),
            final(self).config == old(self).config,
            match r {
                Ok(()) => {
                    if old(self).has_live_entry(session_id@) {
                        final(self).sessions@ == old(self).sessions@.update(
                            old(self).entry_idx(session_id@),
                            (SessionEntry {
                                refs: (old(self).entry(session_id@).refs + 1) as usize,
                                ..old(self).entry(session_id@)
                            }),
                        )
                    } else {
                        {
                            let cleaned = if old(self).has_entry(session_id@) {
                                old(self).sessions@.remove(old(self).entry_idx(session_id@))
                            } else {
                                old(self).sessions@
                            };
                            let e = final(self).sessions@.last();
                            &&& final(self).sessions@.len() == cleaned.len() + 1
                            &&& final(self).sessions@.take(cleaned.len() as int) == cleaned
                            &&& e.session_id@ == session_id@
                            &&& e.refs == 1
                            &&& e.session.session_id@ == session_id@
                            &&& e.session.max_users == old(self).config.max_users
                            &&& e.session.next_user_id == 1
                            &&& e.session.state@.users.len() == 0
                            &&& e.session.state@.admin is None
                        }
                    }
                },
                Err(err) => {
                    &&& err == PlancError::MaxSessionsExceeded
                    &&& !old(self).has_entry(session_id@)
                    &&& old(self).sessions@.len() >= old(self).config.max_sessions
                    &&& final(self).sessions@ == old(self).sessions@
                },
            },
    {
        let ghost before = *old(self);
        let sid = session_id.to_owned();
        match find_entry(&self.sessions, &sid) {
            Some(i) => {
                proof {
                    lemma_entry_idx_is(before, session_id@, i as int);
                }
                if self.sessions[i].refs >= 1 {
                    let e = entry_ref_mut(&mut self.sessions, i);
                    e.refs = e.refs + 1;
                    proof {
                        assert(final(self).sessions@ =~= before.sessions@.update(
                            i as int,
                            (SessionEntry {
                                refs: (before.sessions@[i as int].refs + 1) as usize,
                                ..before.sessions@[i as int]
                            }),
                        ));
                        lemma_update_entry_wf(
                            before,
                            i as int,
                            (SessionEntry {
                                refs: (before.sessions@[i as int].refs + 1) as usize,
                                ..before.sessions@[i as int]
                            }),
                        );
                    }
                    Ok(())
                } else {
                    self.sessions.remove(i);
                    proof {
                        lemma_remove_entry_wf(before, i as int);
                        assert forall|k: int|
                            0 <= k < self.sessions@.len() implies (
                        #[trigger] self.sessions@[k]).session_id@ != session_id@ by {
                            if k < i as int {
                                assert(self.sessions@[k] == before.sessions@[k]);
                            } else {
                                assert(self.sessions@[k] == before.sessions@[k + 1]);
                            }
                        }
                    }
                    self.create_session(session_id, Ghost(before), Ghost(true))
                }
            },
            None => self.create_session(session_id, Ghost(before), Ghost(false)),
        }
    }

    /// Registers a fresh session under `session_id`, which no current
    /// entry carries, or fails when the directory is full.
    fn create_session(
        &mut self,
        session_id: &str,
        Ghost(before): Ghost<ServiceContext>,
        Ghost(was_dead): Ghost<bool>,
    ) -> (r: Result<(), PlancError>)
        requires
            old(self).wf(),
            before.wf(),
            old(self).config == before.config,
            forall|k: int|
                0 <= k < old(self).sessions@.len() ==> (
                #[trigger] old(self).sessions@[k]).session_id@ != session_id@,
            if was_dead {
                before.has_entry(session_id@) && !before.has_live_entry(session_id@)
                    && old(self).sessions@ == before.sessions@.remove(
                    before.entry_idx(session_id@),
                )
            } else {
                !before.has_entry(session_id@) && old(self).sessions@ == before.sessions@
            },
        ensures
            final(self).wf(),
            final(self).config == before.config,
            match r {
                Ok(()) => {
                    let cleaned = if before.has_entry(session_id@) {
                        before.sessions@.remove(before.entry_idx(session_id@))
                    } else {
                        before.sessions@
                    };
                    let e = final(self).sessions@.last();
                    &&& !before.has_live_entry(session_id@)
                    &&& final(self).sessions@.len() == cleaned.len() + 1
                    &&& final(self).sessions@.take(cleaned.len() as int) == cleaned
                    &&& e.session_id@ == session_id@
                    &&& e.refs == 1
                    &&& e.session.session_id@ == session_id@
                    &&& e.session.max_users == before.config.max_users
                    &&& e.session.next_user_id == 1
                    &&& e.session.state@.users.len() == 0
                    &&& e.session.state@.admin is None
                },
                Err(err) => {
                    &&& err == PlancError::MaxSessionsExceeded
                    &&& !before.has_entry(session_id@)
                    &&& before.sessions@.len() >= before.config.max_sessions
                    &&& final(self).sessions@ == before.sessions@
                },
            },
    {
        if self.sessions.len() >= self.config.max_sessions {
            proof {
                if was_dead {
                    assert(before.sessions@.len() <= before.config.max_sessions);
                    assert(self.sessions@.len() == before.sessions@.len() - 1);
                    assert(false);
                }
            }
            return Err(PlancError::MaxSessionsExceeded);
        }
        let ghost pre = self.sessions@;
        let session = Session::new(session_id, self.config.max_users);
        let entry = SessionEntry { session_id: session_id.to_owned(), refs: 1, session };
        self.sessions.push(entry);
        proof {
            assert(self.sessions@.take(pre.len() as int) =~= pre);
            assert forall|i: int, j: int|
                0 <= i < j < self.sessions@.len() implies self.sessions@[i].session_id@
                != self.sessions@[j].session_id@ by {
                if j < self.sessions@.len() - 1 {
                    assert(self.sessions@[i] == pre[i] && self.sessions@[j] == pre[j]);
                } else {
                    assert(self.sessions@[i] == pre[i]);
                }
            }
        }
        Ok(())
    }

    /// Gives one acquired handle on `session_id` back.
    pub fn release_session(&mut self, session_id: &str)
        requires
            old(self).wf(),
            old(self).has_live_entry(session_id@),
        ensures
            final(self).wf(),
            final(self).config == old(self).config,
            final(self).sessions@ == old(self).sessions@.update(
                old(self).entry_idx(session_id@),
                (SessionEntry {
                    refs: (old(self).entry(session_id@).refs - 1) as usize,
                    ..old(self).entry(session_id@)
                }),
            ),
    {
        let ghost before = *old(self);
        let sid = session_id.to_owned();
        match find_entry(&self.sessions, &sid) {
            Some(i) => {
                proof {
                    lemma_entry_idx_is(before, session_id@, i as int);
                }
                let e = entry_ref_mut(&mut self.sessions, i);
                e.refs = e.refs - 1;
                proof {
                    assert(final(self).sessions@ =~= before.sessions@.update(
                        i as int,
                        (SessionEntry {
                            refs: (before.sessions@[i as int].refs - 1) as usize,
                            ..before.sessions@[i as int]
                        }),
                    ));
                    lemma_update_entry_wf(
                        before,
                        i as int,
                        (SessionEntry {
                            refs: (before.sessions@[i as int].refs - 1) as usize,
                            ..before.sessions@[i as int]
                        }),
                    );
                }
            },
            None => {
                proof {
                    assert(false);
                }
            },
        }
    }

    /// The drop notification: removes the entry named `session_id` only if
    /// it is still dead. A live entry under the same name — a session
    /// recreated since the owner count fell to zero — is left alone.
    pub fn cleanup_session(&mut self, session_id: &str)
        requires
            old(self).wf(),
        ensures
            final(self).wf(),
            final(self).config == old(self).config,
            if old(self).has_entry(session_id@) && old(self).entry(session_id@).refs == 0 {
                final(self).sessions@ == old(self).sessions@.remove(
                    old(self).entry_idx(session_id@),
                )
            } else {
                final(self).sessions@ == old(self).sessions@
            },
    {
        let ghost before = *old(self);
        let sid = session_id.to_owned();
        match find_entry(&self.sessions, &sid) {
            Some(i) => {
                proof {
                    lemma_entry_idx_is(before, session_id@, i as int);
                }
                if self.sessions[i].refs == 0 {
                    self.sessions.remove(i);
                    proof {
                        lemma_remove_entry_wf(before, i as int);
                    }
                }
            },
            None => {},
        }
    }

    /// A mutable borrow of the session named `session_id`, through which
    /// the runtime applies joins, commands and cleanups.
    pub fn session_mut(&mut self, session_id: &str) -> (r: Option<&mut Session>)
        requires
            old(self).wf(),
        ensures
            match r {
                Some(s) => {
                    &&& old(self).has_entry(session_id@)
                    &&& *s == old(self).entry(session_id@).session
                    &&& final(self).config == old(self).config
                    &&& final(self).sessions@ == old(self).sessions@.update(
                        old(self).entry_idx(session_id@),
                        (SessionEntry { session: *final(s), ..old(self).entry(session_id@) }),
                    )
                },
                None => !old(self).has_entry(session_id@) && *final(self) == *old(self),
            },
    {
        let ghost before = *old(self);
        let sid = session_id.to_owned();
        match find_entry(&self.sessions, &sid) {
            Some(i) => {
                proof {
                    lemma_entry_idx_is(before, session_id@, i as int);
                }
                let e = entry_ref_mut(&mut self.sessions, i);
                let s = &mut e.session;
                Some(s)
            },
            None => None,
        }
    }
}

/// The index of the entry named `sid`, by linear search.
fn find_entry(sessions: &Vec<SessionEntry>, sid: &String) -> (r: Option<usize>)
    ensures
        match r {
            Some(i) => i < sessions@.len() && sessions@[i as int].session_id@ == sid@,
            None => forall|i: int|
                0 <= i < sessions@.len() ==> (#[trigger] sessions@[i]).session_id@ != sid@,
        },
{
    let mut i: usize = 0;
    while i < sessions.len()
        invariant
            0 <= i <= sessions@.len(),
            forall|k: int| 0 <= k < i ==> (#[trigger] sessions@[k]).session_id@ != sid@,
        decreases sessions@.len() - i,
    {
        if sessions[i].session_id == *sid {
            return Some(i);
        }
        i = i + 1;
    }
    None
}

/// A mutable borrow of entry `i`.
fn entry_ref_mut(sessions: &mut Vec<SessionEntry>, i: usize) -> (r: &mut SessionEntry)
    requires
        i < old(sessions).len(),
    ensures
        *r == old(sessions)@[i as int],
        final(sessions)@ == old(sessions)@.update(i as int, *final(r)),
{
    &mut sessions[i]
}

/// An index holding `id` is the index `entry_idx` names, when names are
/// unique.
proof fn lemma_entry_idx_is(c: ServiceContext, id: Seq<char>, i: int)
    requires
        c.wf(),
        0 <= i < c.sessions@.len(),
        c.sessions@[i].session_id@ == id,
    ensures
        c.has_entry(id),
        c.entry_idx(id) == i,
        c.entry(id) == c.sessions@[i],
{
    assert(c.has_entry(id));
    let j = c.entry_idx(id);
    if i != j {
        assert(c.sessions@[i].session_id@ == c.sessions@[j].session_id@);
    }
}

/// Replacing an entry by one with the same name and a well-formed session
/// under the same limit preserves the directory invariant.
proof fn lemma_update_entry_wf(c: ServiceContext, i: int, e: SessionEntry)
    requires
        c.wf(),
        0 <= i < c.sessions@.len(),
        e.session_id@ == c.sessions@[i].session_id@,
        e.session.wf(),
        e.session.max_users == c.config.max_users,
    ensures
        dir_wf(c.config, c.sessions@.update(i, e)),
{
    let t = c.sessions@.update(i, e);
    assert(forall|k: int|
        0 <= k < t.len() ==> (#[trigger] t[k]) == if k == i {
            e
        } else {
            c.sessions@[k]
        });
}

/// Removing an entry preserves the directory invariant.
proof fn lemma_remove_entry_wf(c: ServiceContext, i: int)
    requires
        c.wf(),
        0 <= i < c.sessions@.len(),
    ensures
        dir_wf(c.config, c.sessions@.remove(i)),
{
    let t = c.sessions@.remove(i);
    assert(forall|k: int|
        0 <= k < t.len() ==> (#[trigger] t[k]) == if k < i {
            c.sessions@[k]
        } else {
            c.sessions@[k + 1]
        });
}

} // verus!
