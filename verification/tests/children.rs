//! The registry of child processes.

use vocan::proc::{
    deregister, register, resume, scratch_prefix, should_sweep, terminate_all, Registry,
};

#[test]
fn registration_is_undone_when_the_guard_drops() {
    let mut r = Registry::new();
    resume(&mut r);
    let before = r.live_count();
    let guard = register(&mut r, 4242);
    assert_eq!(r.live_count(), before + 1, "child should be registered");
    deregister(&mut r, guard);
    assert_eq!(r.live_count(), before, "guard must deregister on drop");
}

#[test]
fn terminate_all_unblocks_a_waiting_child() {
    let mut r = Registry::new();
    resume(&mut r);
    let a = register(&mut r, 11);
    let b = register(&mut r, 22);
    let mut tokens = terminate_all(&mut r);
    tokens.sort();
    assert_eq!(tokens, vec![11, 22], "every running child is to be killed");
    deregister(&mut r, a);
    deregister(&mut r, b);
    assert_eq!(r.live_count(), 0);
    resume(&mut r);
    assert!(register(&mut r, 33).id.is_some());
}

#[test]
fn a_child_registering_after_terminate_all_is_killed_immediately() {
    let mut r = Registry::new();
    resume(&mut r);
    assert!(terminate_all(&mut r).is_empty());
    let guard = register(&mut r, 7);
    assert!(guard.id.is_none(), "the caller must kill it");
    assert_eq!(
        r.live_count(),
        0,
        "a child killed at registration must not be tracked"
    );
    deregister(&mut r, guard);
    resume(&mut r);
}

#[test]
fn no_child_gets_in_between_a_stop_and_the_next_run() {
    let mut r = Registry::new();
    let a = register(&mut r, 1);
    let b = register(&mut r, 2);
    terminate_all(&mut r);
    assert!(register(&mut r, 3).id.is_none());
    deregister(&mut r, a);
    assert!(register(&mut r, 4).id.is_none());
    assert_eq!(r.live_count(), 1, "a child stays tracked until its own handle is given up");
    deregister(&mut r, b);
    assert!(register(&mut r, 5).id.is_none());
    resume(&mut r);
    assert!(register(&mut r, 6).id.is_some());
    assert_eq!(r.live_count(), 1);
}

#[test]
fn ids_are_never_handed_out_twice() {
    let mut r = Registry::new();
    let a = register(&mut r, 1);
    let first = a.id;
    deregister(&mut r, a);
    let b = register(&mut r, 1);
    assert_ne!(first, b.id);
}

#[test]
fn scratch_directories_are_swept_once_they_are_old() {
    assert_eq!(scratch_prefix(123), "vocan-scratch-123");
    let own = scratch_prefix(123);
    assert!(should_sweep("vocan-scratch-9", &own, Some((86_401, 0))));
    assert!(should_sweep("vocan-scratch-9", &own, Some((86_400, 1))));
    assert!(!should_sweep("vocan-scratch-9", &own, Some((86_400, 0))));
    assert!(!should_sweep("vocan-scratch-9", &own, None));
    assert!(!should_sweep("vocan-scratch-123", &own, Some((999_999, 0))));
    assert!(!should_sweep("something-else", &own, Some((999_999, 0))));
}
