use screen_relay::message::{command_of, notify_all, Command, Envelope};
use screen_relay::relay::{JoinError, Registry};

fn s(t: &str) -> String {
    t.to_string()
}

fn signal_msg(kind: &str, data: &str, target: Option<&str>) -> Envelope {
    Envelope { kind: s(kind), data: s(data), target: target.map(s), room_id: Some(s("r")) }
}

#[test]
fn commands_are_classified_by_kind() {
    assert_eq!(command_of(&s("join")), Command::Join);
    assert_eq!(command_of(&s("leave")), Command::Leave);
    assert_eq!(command_of(&s("offer")), Command::Relay);
    assert_eq!(command_of(&s("new-peer")), Command::Relay);
    assert_eq!(command_of(&s("Join")), Command::Relay);
}

#[test]
fn notify_all_builds_one_notice_per_peer() {
    let ds = notify_all(&vec![s("a"), s("b")], &s("new-peer"), &s("c"), &s("r"));
    assert_eq!(ds.len(), 2);
    assert_eq!(ds[0].to, "a");
    assert_eq!(ds[1].to, "b");
    assert_eq!(ds[1].envelope.kind, "new-peer");
    assert_eq!(ds[1].envelope.data, "c");
    assert_eq!(ds[1].envelope.target, None);
    assert_eq!(ds[1].envelope.room_id, Some(s("r")));
}

#[test]
fn first_join_makes_room() {
    let mut reg = Registry::new();
    assert!(!reg.has_room(&s("r")));
    let (resp, ds) = reg.join(&s("r"), s("a")).ok().unwrap();
    assert_eq!(resp.peer_id, "a");
    assert!(resp.other_peers.is_empty());
    assert!(ds.is_empty());
    assert!(reg.has_room(&s("r")));
    assert_eq!(reg.peers_of(&s("r")), vec![s("a")]);
}

#[test]
fn join_reports_roster_and_notifies_present_peers() {
    let mut reg = Registry::new();
    reg.join(&s("r"), s("a")).ok().unwrap();
    reg.join(&s("r"), s("b")).ok().unwrap();
    let (resp, ds) = reg.join(&s("r"), s("c")).ok().unwrap();
    let mut others = resp.other_peers.clone();
    others.sort();
    assert_eq!(others, vec![s("a"), s("b")]);
    let mut told: Vec<String> = ds.iter().map(|d| d.to.clone()).collect();
    told.sort();
    assert_eq!(told, vec![s("a"), s("b")]);
    for d in &ds {
        assert_eq!(d.envelope.kind, "new-peer");
        assert_eq!(d.envelope.data, "c");
        assert_eq!(d.envelope.room_id, Some(s("r")));
    }
    let out = reg.signal(&s("r"), &s("a"), signal_msg("offer", "x", Some("c")));
    assert_eq!(out.len(), 1);
    assert_eq!(out[0].to, "c");
}

#[test]
fn join_with_taken_id_is_refused() {
    let mut reg = Registry::new();
    reg.join(&s("r"), s("a")).ok().unwrap();
    assert_eq!(reg.join(&s("r"), s("a")).err(), Some(JoinError::DuplicatePeer));
    assert_eq!(reg.peers_of(&s("r")), vec![s("a")]);
    assert!(reg.join(&s("other"), s("a")).is_ok());
}

#[test]
fn rooms_are_separate() {
    let mut reg = Registry::new();
    reg.join(&s("r"), s("a")).ok().unwrap();
    let (resp, ds) = reg.join(&s("q"), s("b")).ok().unwrap();
    assert!(resp.other_peers.is_empty());
    assert!(ds.is_empty());
    assert!(reg.signal(&s("q"), &s("b"), signal_msg("offer", "x", Some("a"))).is_empty());
}

#[test]
fn leave_notifies_remaining_peers() {
    let mut reg = Registry::new();
    reg.join(&s("r"), s("a")).ok().unwrap();
    reg.join(&s("r"), s("b")).ok().unwrap();
    reg.join(&s("r"), s("c")).ok().unwrap();
    let ds = reg.leave(&s("r"), &s("b"));
    assert_eq!(ds.len(), 2);
    assert_eq!(ds[0].to, "a");
    assert_eq!(ds[1].to, "c");
    assert_eq!(ds[0].envelope.kind, "peer-left");
    assert_eq!(ds[0].envelope.data, "b");
    assert_eq!(reg.peers_of(&s("r")), vec![s("a"), s("c")]);
}

#[test]
fn last_leave_removes_room_and_rejoin_starts_fresh() {
    let mut reg = Registry::new();
    reg.join(&s("r"), s("a")).ok().unwrap();
    reg.join(&s("r"), s("b")).ok().unwrap();
    reg.leave(&s("r"), &s("a"));
    let ds = reg.leave(&s("r"), &s("b"));
    assert!(ds.is_empty());
    assert!(!reg.has_room(&s("r")));
    let (resp, ds) = reg.join(&s("r"), s("c")).ok().unwrap();
    assert!(resp.other_peers.is_empty());
    assert!(ds.is_empty());
    assert_eq!(reg.peers_of(&s("r")), vec![s("c")]);
}

#[test]
fn leave_of_unknown_room_or_peer_does_nothing() {
    let mut reg = Registry::new();
    assert!(reg.leave(&s("r"), &s("a")).is_empty());
    reg.join(&s("r"), s("a")).ok().unwrap();
    assert!(reg.leave(&s("r"), &s("z")).is_empty());
    assert_eq!(reg.peers_of(&s("r")), vec![s("a")]);
    reg.leave(&s("r"), &s("a"));
    assert!(reg.leave(&s("r"), &s("a")).is_empty());
}

#[test]
fn signal_reaches_only_its_target() {
    let mut reg = Registry::new();
    reg.join(&s("r"), s("a")).ok().unwrap();
    reg.join(&s("r"), s("b")).ok().unwrap();
    reg.join(&s("r"), s("c")).ok().unwrap();
    let out = reg.signal(&s("r"), &s("a"), signal_msg("candidate", "x", Some("b")));
    assert_eq!(out.len(), 1);
    assert_eq!(out[0].to, "b");
    assert_eq!(out[0].envelope.kind, "candidate");
    assert_eq!(out[0].envelope.data, "x");
    assert_eq!(out[0].envelope.target, Some(s("a")));
    assert_eq!(out[0].envelope.room_id, Some(s("r")));
    assert!(out.iter().all(|d| d.to != "c"));
}

#[test]
fn signal_to_unknown_target_is_dropped() {
    let mut reg = Registry::new();
    reg.join(&s("r"), s("a")).ok().unwrap();
    assert!(reg.signal(&s("r"), &s("a"), signal_msg("offer", "x", Some("nonexistent"))).is_empty());
    assert!(reg.signal(&s("r"), &s("a"), signal_msg("offer", "x", None)).is_empty());
    assert!(reg.signal(&s("gone"), &s("a"), signal_msg("offer", "x", Some("a"))).is_empty());
}
