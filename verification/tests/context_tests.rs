use planc::{PlancError, ServiceContext, ServiceContextConfig};

#[test]
fn ctx_refcounting_test() {
    let mut ctx = ServiceContext::new(ServiceContextConfig { max_sessions: 16, max_users: 8 });
    assert_eq!(ctx.session_count(), 0);

    let session = ctx.get_session("abcd");
    assert!(session.is_ok());
    assert_eq!(ctx.session_count(), 1);
    assert!(ctx.has_session("abcd"));

    ctx.release_session("abcd");
    ctx.cleanup_session("abcd");
    assert_eq!(ctx.session_count(), 0);
}

#[test]
fn session_limit_is_enforced() {
    let mut ctx = ServiceContext::new(ServiceContextConfig { max_sessions: 2, max_users: 4 });
    assert!(ctx.get_session("a").is_ok());
    assert!(ctx.get_session("b").is_ok());
    assert_eq!(ctx.get_session("c"), Err(PlancError::MaxSessionsExceeded));
    assert_eq!(ctx.session_count(), 2);
    assert!(!ctx.has_session("c"));
}

#[test]
fn acquiring_twice_shares_one_session() {
    let mut ctx = ServiceContext::new(ServiceContextConfig { max_sessions: 1, max_users: 4 });
    assert!(ctx.get_session("room").is_ok());
    // The same name resolves to the existing session, not a new one.
    assert!(ctx.get_session("room").is_ok());
    assert_eq!(ctx.session_count(), 1);

    // One handle released: the entry stays, the drop notification does
    // nothing while an owner remains.
    ctx.release_session("room");
    ctx.cleanup_session("room");
    assert_eq!(ctx.session_count(), 1);

    ctx.release_session("room");
    ctx.cleanup_session("room");
    assert_eq!(ctx.session_count(), 0);
}

#[test]
fn dead_entry_is_replaced_on_lookup() {
    let mut ctx = ServiceContext::new(ServiceContextConfig { max_sessions: 1, max_users: 4 });
    assert!(ctx.get_session("room").is_ok());
    {
        let s = ctx.session_mut("room").expect("session exists");
        assert!(s.join().is_ok());
    }
    // The owner goes away without the drop notification having run yet:
    // the dead entry still occupies the directory.
    ctx.release_session("room");
    assert_eq!(ctx.session_count(), 1);

    // A new lookup under the same name discards the dead entry and
    // creates a fresh session, even though the directory looked full.
    assert!(ctx.get_session("room").is_ok());
    assert_eq!(ctx.session_count(), 1);
    let s = ctx.session_mut("room").expect("session exists");
    assert_eq!(s.state.users.len(), 0);
}

#[test]
fn cleanup_leaves_a_recreated_session_alone() {
    let mut ctx = ServiceContext::new(ServiceContextConfig { max_sessions: 2, max_users: 4 });
    assert!(ctx.get_session("room").is_ok());
    ctx.release_session("room");
    // A new session under the same name appears before the stale drop
    // notification arrives; the notification must not remove it.
    assert!(ctx.get_session("room").is_ok());
    ctx.cleanup_session("room");
    assert_eq!(ctx.session_count(), 1);
    assert!(ctx.has_session("room"));
}
