use planc::protocol::UserState;
use planc::session::Projection;
use planc::{ClientMessage, PlancError, ServerMessage, Session};

fn user_of(s: &Session, id: u64) -> &UserState {
    s.state
        .users
        .iter()
        .find(|e| e.0 == id)
        .map(|e| &e.1)
        .expect("user present")
}

fn has_user(s: &Session, id: u64) -> bool {
    s.state.users.iter().any(|e| e.0 == id)
}

#[test]
fn join_allocates_sequential_ids() {
    let mut s = Session::new("demo", 8);
    assert_eq!(s.join(), Ok(1));
    assert_eq!(s.join(), Ok(2));
    assert_eq!(s.join(), Ok(3));
    assert_eq!(s.state.users.len(), 3);
}

#[test]
fn capacity_join_is_rejected_without_side_effects() {
    // With room for one user, a second join fails and adds nothing.
    let mut s = Session::new("s", 1);
    assert_eq!(s.join(), Ok(1));
    assert_eq!(s.join(), Err(PlancError::MaxUsersExceeded));
    assert_eq!(s.state.users.len(), 1);
    assert!(!has_user(&s, 2));
    // The identifier was spent: the next successful join does not reuse it.
    s.leave(1, false);
    assert_eq!(s.join(), Ok(3));
}

#[test]
fn users_never_exceed_capacity_and_names_stay_unique() {
    let mut s = Session::new("demo", 2);
    assert_eq!(s.join(), Ok(1));
    assert_eq!(s.join(), Ok(2));
    assert_eq!(s.join(), Err(PlancError::MaxUsersExceeded));
    assert!(s.state.users.len() <= 2);

    assert_eq!(
        s.apply_command(1, &ClientMessage::NameChange("Ann".to_string())),
        Ok(None)
    );
    assert_eq!(
        s.apply_command(2, &ClientMessage::NameChange("Ann".to_string())),
        Err(PlancError::DuplicateName)
    );
    assert_eq!(user_of(&s, 2).name, None);
    // Renaming to one's own current name is allowed.
    assert_eq!(
        s.apply_command(1, &ClientMessage::NameChange("Ann".to_string())),
        Ok(None)
    );
}

#[test]
fn name_change_rules() {
    let mut s = Session::new("demo", 4);
    assert_eq!(s.join(), Ok(1));
    let long = "x".repeat(33);
    assert_eq!(
        s.apply_command(1, &ClientMessage::NameChange(long)),
        Err(PlancError::InvalidMessage)
    );
    let exactly32 = "x".repeat(32);
    assert_eq!(
        s.apply_command(1, &ClientMessage::NameChange(exactly32.clone())),
        Ok(None)
    );
    assert_eq!(user_of(&s, 1).name.as_deref(), Some(exactly32.as_str()));
}

#[test]
fn spectator_set_points_fails_and_changes_nothing() {
    let mut s = Session::new("demo", 4);
    assert_eq!(s.join(), Ok(1));
    assert_eq!(s.apply_command(1, &ClientMessage::SetPoints("3".to_string())), Ok(None));
    assert_eq!(s.apply_command(1, &ClientMessage::SetSpectator(true)), Ok(None));
    // Entering spectator mode cleared the vote.
    assert_eq!(user_of(&s, 1).points, None);
    assert_eq!(
        s.apply_command(1, &ClientMessage::SetPoints("5".to_string())),
        Err(PlancError::InvalidMessage)
    );
    assert_eq!(user_of(&s, 1).points, None);
    // Leaving spectator mode allows voting again.
    assert_eq!(s.apply_command(1, &ClientMessage::SetSpectator(false)), Ok(None));
    assert_eq!(s.apply_command(1, &ClientMessage::SetPoints("5".to_string())), Ok(None));
    assert_eq!(user_of(&s, 1).points.as_deref(), Some("5"));
}

#[test]
fn set_points_length_rule() {
    let mut s = Session::new("demo", 4);
    assert_eq!(s.join(), Ok(1));
    assert_eq!(
        s.apply_command(1, &ClientMessage::SetPoints("123456789".to_string())),
        Err(PlancError::InvalidMessage)
    );
    assert_eq!(s.apply_command(1, &ClientMessage::SetPoints("12345678".to_string())), Ok(None));
}

#[test]
fn whoami_replies_without_mutation() {
    let mut s = Session::new("demo", 4);
    assert_eq!(s.join(), Ok(1));
    assert_eq!(s.join(), Ok(2));
    match s.apply_command(2, &ClientMessage::Whoami) {
        Ok(Some(ServerMessage::Whoami(id))) => assert_eq!(id, "2"),
        other => panic!("unexpected reply: {:?}", other.is_ok()),
    }
    assert_eq!(s.state.users.len(), 2);
}

#[test]
fn reset_points_requires_admin_and_clears_all() {
    let mut s = Session::new("demo", 4);
    assert_eq!(s.join(), Ok(1));
    assert_eq!(s.join(), Ok(2));
    assert_eq!(s.apply_command(1, &ClientMessage::SetPoints("3".to_string())), Ok(None));
    assert_eq!(s.apply_command(2, &ClientMessage::SetPoints("8".to_string())), Ok(None));
    assert_eq!(
        s.apply_command(2, &ClientMessage::ResetPoints),
        Err(PlancError::InsufficientPermissions)
    );
    assert_eq!(user_of(&s, 1).points.as_deref(), Some("3"));
    assert_eq!(s.apply_command(1, &ClientMessage::ClaimSession), Ok(None));
    assert_eq!(s.apply_command(1, &ClientMessage::ResetPoints), Ok(None));
    assert_eq!(user_of(&s, 1).points, None);
    assert_eq!(user_of(&s, 2).points, None);
}

#[test]
fn kick_rules_and_idempotence() {
    let mut s = Session::new("demo", 4);
    assert_eq!(s.join(), Ok(1));
    assert_eq!(s.join(), Ok(2));
    // Only the admin may kick.
    assert_eq!(
        s.apply_command(1, &ClientMessage::KickUser("2".to_string())),
        Err(PlancError::InsufficientPermissions)
    );
    assert_eq!(s.apply_command(1, &ClientMessage::ClaimSession), Ok(None));
    // A nonexistent identifier is rejected, a malformed one likewise.
    assert_eq!(
        s.apply_command(1, &ClientMessage::KickUser("99".to_string())),
        Err(PlancError::UnknownUserId)
    );
    assert_eq!(
        s.apply_command(1, &ClientMessage::KickUser("abc".to_string())),
        Err(PlancError::UnknownUserId)
    );
    // A non-canonical numeral names no user, even if the number matches.
    assert_eq!(
        s.apply_command(1, &ClientMessage::KickUser("02".to_string())),
        Err(PlancError::UnknownUserId)
    );
    // Kicking an existing user succeeds, and kicking again is a no-op,
    // not an error.
    assert_eq!(s.apply_command(1, &ClientMessage::KickUser("2".to_string())), Ok(None));
    assert!(user_of(&s, 2).kicked);
    assert_eq!(s.apply_command(1, &ClientMessage::KickUser("2".to_string())), Ok(None));
    assert!(user_of(&s, 2).kicked);
}

#[test]
fn claim_session_scenario() {
    // Session "demo": user A joins and claims, B joins and cannot claim;
    // A kicks B; B's next projection is the termination signal and B is
    // gone from other viewers' projections.
    let mut s = Session::new("demo", 8);
    assert_eq!(s.join(), Ok(1));
    assert_eq!(s.apply_command(1, &ClientMessage::ClaimSession), Ok(None));
    assert_eq!(s.state.admin, Some(1));
    assert_eq!(s.join(), Ok(2));
    assert_eq!(
        s.apply_command(2, &ClientMessage::ClaimSession),
        Err(PlancError::InsufficientPermissions)
    );
    assert_eq!(s.state.admin, Some(1));
    assert_eq!(s.apply_command(1, &ClientMessage::KickUser("2".to_string())), Ok(None));
    match s.state.project(2) {
        Projection::Kicked => {}
        _ => panic!("kicked viewer must see the termination signal"),
    }
    match s.state.project(1) {
        Projection::State(p) => {
            assert!(p.users.iter().all(|e| e.0 != 2));
            assert!(p.users.iter().any(|e| e.0 == 1));
        }
        _ => panic!("admin still sees the session"),
    }
}

#[test]
fn masking_hides_votes_until_everyone_voted() {
    let mut s = Session::new("demo", 8);
    assert_eq!(s.join(), Ok(1));
    assert_eq!(s.join(), Ok(2));
    assert_eq!(s.apply_command(2, &ClientMessage::SetPoints("3".to_string())), Ok(None));

    // Voting is open: viewer 1 sees user 2's vote only as the sentinel.
    match s.state.project(1) {
        Projection::State(p) => {
            let u2 = p.users.iter().find(|e| e.0 == 2).expect("user 2 shown");
            assert_eq!(u2.1.points.as_deref(), Some("-1"));
            let u1 = p.users.iter().find(|e| e.0 == 1).expect("user 1 shown");
            assert_eq!(u1.1.points, None);
        }
        _ => panic!("viewer 1 sees the session"),
    }
    // A viewer's own vote is shown as cast.
    match s.state.project(2) {
        Projection::State(p) => {
            let u2 = p.users.iter().find(|e| e.0 == 2).expect("user 2 shown");
            assert_eq!(u2.1.points.as_deref(), Some("3"));
        }
        _ => panic!("viewer 2 sees the session"),
    }

    // Once every non-spectator has voted, everyone sees the real values,
    // and all projections agree.
    assert_eq!(s.apply_command(1, &ClientMessage::SetPoints("8".to_string())), Ok(None));
    let p1 = match s.state.project(1) {
        Projection::State(p) => p,
        _ => panic!("viewer 1 sees the session"),
    };
    let p2 = match s.state.project(2) {
        Projection::State(p) => p,
        _ => panic!("viewer 2 sees the session"),
    };
    for p in [&p1, &p2] {
        let u1 = p.users.iter().find(|e| e.0 == 1).expect("user 1 shown");
        let u2 = p.users.iter().find(|e| e.0 == 2).expect("user 2 shown");
        assert_eq!(u1.1.points.as_deref(), Some("8"));
        assert_eq!(u2.1.points.as_deref(), Some("3"));
    }
}

#[test]
fn spectators_do_not_hold_votes_open() {
    let mut s = Session::new("demo", 8);
    assert_eq!(s.join(), Ok(1));
    assert_eq!(s.join(), Ok(2));
    assert_eq!(s.apply_command(2, &ClientMessage::SetSpectator(true)), Ok(None));
    assert_eq!(s.apply_command(1, &ClientMessage::SetPoints("5".to_string())), Ok(None));
    // The only non-spectator has voted: values are revealed.
    match s.state.project(2) {
        Projection::State(p) => {
            let u1 = p.users.iter().find(|e| e.0 == 1).expect("user 1 shown");
            assert_eq!(u1.1.points.as_deref(), Some("5"));
        }
        _ => panic!("viewer 2 sees the session"),
    }
}

#[test]
fn evicted_viewer_projection_stops_silently() {
    let mut s = Session::new("demo", 8);
    assert_eq!(s.join(), Ok(1));
    s.leave(1, false);
    match s.state.project(1) {
        Projection::Evicted => {}
        _ => panic!("a removed viewer is evicted"),
    }
}

#[test]
fn reconnection_takeover() {
    // A stale user named Alice with points "5" is taken over by a new
    // connection choosing the same name: one entry remains, live, with
    // the preserved vote, and the old identifier is gone.
    let mut s = Session::new("demo", 8);
    assert_eq!(s.join(), Ok(1));
    assert_eq!(
        s.apply_command(1, &ClientMessage::NameChange("Alice".to_string())),
        Ok(None)
    );
    assert_eq!(s.apply_command(1, &ClientMessage::SetPoints("5".to_string())), Ok(None));
    s.leave(1, true);
    assert!(user_of(&s, 1).is_stale);
    assert_eq!(user_of(&s, 1).points.as_deref(), Some("5"));

    assert_eq!(s.join(), Ok(2));
    assert_eq!(
        s.apply_command(2, &ClientMessage::NameChange("Alice".to_string())),
        Ok(None)
    );
    assert!(!has_user(&s, 1));
    let alice_entries: Vec<_> = s
        .state
        .users
        .iter()
        .filter(|e| e.1.name.as_deref() == Some("Alice"))
        .collect();
    assert_eq!(alice_entries.len(), 1);
    assert_eq!(alice_entries[0].0, 2);
    assert_eq!(alice_entries[0].1.points.as_deref(), Some("5"));
    assert!(!alice_entries[0].1.is_stale);
}

#[test]
fn stale_entries_occupy_capacity_and_absent_leave_is_a_no_op() {
    let mut s = Session::new("demo", 2);
    assert_eq!(s.join(), Ok(1));
    s.leave(1, true);
    assert_eq!(s.join(), Ok(2));
    // The stale entry still counts toward the user limit.
    assert_eq!(s.join(), Err(PlancError::MaxUsersExceeded));
    // Leaving twice changes nothing further.
    s.leave(1, false);
    s.leave(1, false);
    assert_eq!(s.state.users.len(), 1);
}

#[test]
fn normal_leave_removes_and_clears_admin() {
    let mut s = Session::new("demo", 8);
    assert_eq!(s.join(), Ok(1));
    assert_eq!(s.join(), Ok(2));
    assert_eq!(s.apply_command(1, &ClientMessage::ClaimSession), Ok(None));
    s.leave(1, false);
    assert!(!has_user(&s, 1));
    assert_eq!(s.state.admin, None);
    // The remaining user can now claim.
    assert_eq!(s.apply_command(2, &ClientMessage::ClaimSession), Ok(None));
}

#[test]
fn abnormal_leave_of_admin_clears_admin_but_keeps_entry() {
    let mut s = Session::new("demo", 8);
    assert_eq!(s.join(), Ok(1));
    assert_eq!(s.apply_command(1, &ClientMessage::ClaimSession), Ok(None));
    s.leave(1, true);
    assert!(has_user(&s, 1));
    assert!(user_of(&s, 1).is_stale);
    assert_eq!(s.state.admin, None);
}

#[test]
fn kicked_user_state_is_reported() {
    let mut s = Session::new("demo", 8);
    assert_eq!(s.join(), Ok(1));
    assert_eq!(s.join(), Ok(2));
    assert_eq!(s.apply_command(1, &ClientMessage::ClaimSession), Ok(None));
    assert_eq!(s.apply_command(1, &ClientMessage::KickUser("2".to_string())), Ok(None));
    assert!(s.user_state(2).expect("user 2 exists").kicked);
    assert_eq!(s.user_state(99).err(), Some(PlancError::UnknownUserId));
    // The command loop's gate: a kicked caller is cut off, a live one
    // passes, a vanished one is unknown.
    assert_eq!(s.check_connection(2), Err(PlancError::UserKicked));
    assert_eq!(s.check_connection(1), Ok(()));
    assert_eq!(s.check_connection(99), Err(PlancError::UnknownUserId));
}
