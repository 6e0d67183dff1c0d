use c_ares_resolver::interest::{poller_key, socket_for_key};
use c_ares_resolver::{Interest, InterestRegistry, PollerOp};

fn apply(poller: &mut Vec<(i32, Interest)>, op: PollerOp) {
    match op {
        PollerOp::Add(s, i) => {
            assert!(poller.iter().all(|(t, _)| *t != s), "socket added twice");
            poller.push((s, i));
        }
        PollerOp::Modify(s, i) => {
            let slot = poller.iter_mut().find(|(t, _)| *t == s).expect("modify of unknown socket");
            slot.1 = i;
        }
        PollerOp::Delete(s) => {
            let before = poller.len();
            poller.retain(|(t, _)| *t != s);
            assert_eq!(poller.len() + 1, before, "delete of unknown socket");
        }
        PollerOp::Nothing => {}
    }
}

#[test]
fn first_interest_adds_socket() {
    let mut reg = InterestRegistry::new();
    let op = reg.update(7, true, false);
    assert_eq!(op, PollerOp::Add(7, Interest::new(true, false)));
    assert_eq!(reg.interest_of(7), Some(Interest::new(true, false)));
}

#[test]
fn changed_interest_modifies_socket() {
    let mut reg = InterestRegistry::new();
    reg.update(7, true, false);
    let op = reg.update(7, false, true);
    assert_eq!(op, PollerOp::Modify(7, Interest::new(false, true)));
    assert_eq!(reg.interest_of(7), Some(Interest::new(false, true)));
}

#[test]
fn no_interest_deletes_registered_socket() {
    let mut reg = InterestRegistry::new();
    reg.update(7, true, true);
    assert_eq!(reg.update(7, false, false), PollerOp::Delete(7));
    assert_eq!(reg.interest_of(7), None);
}

#[test]
fn no_interest_in_unknown_socket_changes_nothing() {
    let mut reg = InterestRegistry::new();
    reg.update(3, true, false);
    assert_eq!(reg.update(7, false, false), PollerOp::Nothing);
    assert_eq!(reg.interest_of(7), None);
    assert_eq!(reg.interest_of(3), Some(Interest::new(true, false)));
}

#[test]
fn toggling_write_interest_adds_once_then_modifies() {
    let mut reg = InterestRegistry::new();
    let mut ops = Vec::new();
    for round in 0..6 {
        ops.push(reg.update(9, true, round % 2 == 1));
    }
    assert_eq!(ops[0], PollerOp::Add(9, Interest::new(true, false)));
    for (round, op) in ops.iter().enumerate().skip(1) {
        assert_eq!(*op, PollerOp::Modify(9, Interest::new(true, round % 2 == 1)));
    }
    assert!(ops.iter().all(|op| !matches!(op, PollerOp::Delete(_))));
}

#[test]
fn poller_ends_with_last_interest_of_each_socket() {
    let updates: [(i32, bool, bool); 9] = [
        (4, true, false),
        (5, false, true),
        (6, true, true),
        (4, false, false),
        (5, true, false),
        (7, false, false),
        (6, false, true),
        (4, true, true),
        (8, true, false),
    ];
    let mut reg = InterestRegistry::new();
    let mut poller: Vec<(i32, Interest)> = Vec::new();
    for (s, r, w) in updates {
        let op = reg.update(s, r, w);
        apply(&mut poller, op);
    }
    poller.sort_by_key(|(s, _)| *s);
    assert_eq!(
        poller,
        vec![
            (4, Interest::new(true, true)),
            (5, Interest::new(true, false)),
            (6, Interest::new(false, true)),
            (8, Interest::new(true, false)),
        ]
    );
}

#[test]
fn socket_dropped_and_readded_is_added_again() {
    let mut reg = InterestRegistry::new();
    assert!(matches!(reg.update(5, true, false), PollerOp::Add(5, _)));
    assert_eq!(reg.update(5, false, false), PollerOp::Delete(5));
    assert!(matches!(reg.update(5, false, true), PollerOp::Add(5, _)));
}

#[test]
fn rearm_covers_every_watched_socket_once() {
    let mut reg = InterestRegistry::new();
    reg.update(4, true, false);
    reg.update(5, true, true);
    reg.update(6, false, true);
    reg.update(5, false, false);
    let mut ops = reg.rearm_ops();
    ops.sort_by_key(|op| match op {
        PollerOp::Modify(s, _) => *s,
        _ => i32::MAX,
    });
    assert_eq!(
        ops,
        vec![
            PollerOp::Modify(4, Interest::new(true, false)),
            PollerOp::Modify(6, Interest::new(false, true)),
        ]
    );
}

#[test]
fn rearm_of_empty_registry_is_empty() {
    let reg = InterestRegistry::new();
    assert!(reg.rearm_ops().is_empty());
}

#[test]
fn only_new_or_changed_interest_wakes_the_loop() {
    let i = Interest::new(true, false);
    assert!(PollerOp::Add(3, i).announces_interest());
    assert!(PollerOp::Modify(3, i).announces_interest());
    assert!(!PollerOp::Delete(3).announces_interest());
    assert!(!PollerOp::Nothing.announces_interest());
}

#[test]
fn interest_is_active_when_either_flag_is_set() {
    assert!(Interest::new(true, false).is_active());
    assert!(Interest::new(false, true).is_active());
    assert!(Interest::new(true, true).is_active());
    assert!(!Interest::new(false, false).is_active());
}

#[test]
fn poller_keys_round_trip() {
    assert_eq!(poller_key(12), Some(12));
    assert_eq!(poller_key(-1), None);
    assert_eq!(socket_for_key(12), Some(12));
    assert_eq!(socket_for_key(i32::MAX as usize), Some(i32::MAX));
    assert_eq!(socket_for_key(i32::MAX as usize + 1), None);
    assert_eq!(socket_for_key(poller_key(31).unwrap()), Some(31));
}
