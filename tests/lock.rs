use screen_relay::lock::LockArbiter;

fn s(t: &str) -> String {
    t.to_string()
}

#[test]
fn free_lock_is_granted() {
    let mut lock = LockArbiter::new(100);
    assert_eq!(lock.holder(0), None);
    assert!(lock.request_lock(&s("a"), 0));
    assert_eq!(lock.holder(0), Some(s("a")));
    assert!(lock.is_holder(&s("a"), 50));
}

#[test]
fn second_requester_is_denied_while_held() {
    let mut lock = LockArbiter::new(100);
    assert!(lock.request_lock(&s("a"), 10));
    assert!(!lock.request_lock(&s("b"), 20));
    assert!(!lock.request_lock(&s("c"), 109));
    assert_eq!(lock.holder(109), Some(s("a")));
    assert!(!lock.is_holder(&s("b"), 20));
}

#[test]
fn holder_request_again_is_granted_and_renews() {
    let mut lock = LockArbiter::new(100);
    assert!(lock.request_lock(&s("a"), 0));
    assert!(lock.request_lock(&s("a"), 90));
    assert_eq!(lock.holder(150), Some(s("a")));
    assert_eq!(lock.holder(190), None);
}

#[test]
fn release_by_holder_frees_for_next_request() {
    let mut lock = LockArbiter::new(100);
    assert!(lock.request_lock(&s("a"), 0));
    assert!(!lock.release_lock(&s("b")));
    assert_eq!(lock.holder(1), Some(s("a")));
    assert!(lock.release_lock(&s("a")));
    assert_eq!(lock.holder(1), None);
    assert!(lock.request_lock(&s("b"), 2));
    assert!(!lock.request_lock(&s("c"), 2));
    assert_eq!(lock.holder(2), Some(s("b")));
}

#[test]
fn disconnect_of_holder_frees_lock() {
    let mut lock = LockArbiter::new(100);
    assert!(lock.request_lock(&s("a"), 0));
    assert!(!lock.peer_disconnected(&s("c")));
    assert!(lock.peer_disconnected(&s("a")));
    assert!(lock.request_lock(&s("c"), 1));
}

#[test]
fn expired_lease_lets_another_peer_in() {
    let mut lock = LockArbiter::new(100);
    assert!(lock.request_lock(&s("a"), 0));
    assert!(!lock.request_lock(&s("b"), 99));
    assert!(lock.request_lock(&s("b"), 100));
    assert_eq!(lock.holder(100), Some(s("b")));
}

#[test]
fn lease_end_saturates_at_clock_limit() {
    let mut lock = LockArbiter::new(u64::MAX);
    assert!(lock.request_lock(&s("a"), 5));
    assert_eq!(lock.holder(u64::MAX - 1), Some(s("a")));
    assert_eq!(lock.holder(u64::MAX), None);
}

#[test]
fn release_of_free_lock_does_nothing() {
    let mut lock = LockArbiter::new(10);
    assert!(!lock.release_lock(&s("a")));
    assert_eq!(lock.holder(0), None);
}

#[test]
fn requests_in_order_grant_only_first_requester() {
    let mut lock = LockArbiter::new(100);
    let reqs = vec![(s("a"), 10), (s("b"), 10), (s("a"), 20), (s("c"), 30)];
    assert_eq!(lock.request_in_order(&reqs), vec![true, false, true, false]);
    assert_eq!(lock.holder(30), Some(s("a")));
}

#[test]
fn requests_in_order_against_held_lock() {
    let mut lock = LockArbiter::new(100);
    assert!(lock.request_lock(&s("x"), 0));
    let reqs = vec![(s("a"), 1), (s("x"), 2), (s("b"), 50)];
    assert_eq!(lock.request_in_order(&reqs), vec![false, true, false]);
    assert_eq!(lock.holder(101), Some(s("x")));
    assert!(lock.request_in_order(&Vec::new()).is_empty());
}
