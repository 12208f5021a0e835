use microdns::legacy_unicast::{AnswerSet, IfaceAddr4};
use microdns::net::Ipv4Addr;
use microdns::responder::{Action, Event, Received, Responder, BIND_RETRY_MS, IDLE_MS};

fn answers(last: u8) -> AnswerSet {
    AnswerSet {
        hosts: vec!["bigfred.local.".into()],
        v4: vec![IfaceAddr4 {
            iface: "eth0".into(),
            addr: Ipv4Addr::new(192, 168, 1, last),
            mask: Ipv4Addr::new(255, 255, 255, 0),
            ifindex: 2,
        }],
        ..AnswerSet::default()
    }
}

/// A responder on the mDNS port that has joined its groups.
fn joined() -> Responder {
    let mut r = Responder::new(5353);
    r.advance(Event::Checked {
        rebind: false,
        epoch: 0,
    });
    assert!(matches!(r.action(), Action::BindV4));
    r.advance(Event::Bound { ok: true });
    assert!(matches!(r.action(), Action::BindV6));
    r.advance(Event::Bound { ok: true });
    assert!(matches!(r.action(), Action::ReadAnswers));
    r.advance(Event::Answers {
        answers: Some(answers(10)),
        epoch: 0,
    });
    assert!(matches!(r.action(), Action::ListIndexes));
    r.advance(Event::Indexes {
        indexes: vec![3, 2, 3],
    });
    match r.action() {
        Action::Join {
            v4: Some(a),
            v6: Some(b),
        } => {
            assert!(a.leave.is_empty());
            assert_eq!(a.join, vec![Ipv4Addr::new(192, 168, 1, 10)]);
            assert_eq!(b.join, vec![2, 3]);
        }
        other => panic!("{other:?}"),
    }
    r.advance(Event::Joined {
        v4: vec![true],
        v6: vec![true, false],
    });
    assert!(matches!(r.action(), Action::ReceiveV4));
    r
}

/// Ends the current round without a packet.
fn idle_round(r: &mut Responder) {
    r.advance(Event::Received {
        outcome: Received::Nothing,
    });
    assert!(matches!(r.action(), Action::ReceiveV6));
    r.advance(Event::Received {
        outcome: Received::Nothing,
    });
    assert!(matches!(r.action(), Action::Pause { ms: IDLE_MS }));
    r.advance(Event::Rested);
}

#[test]
fn same_answers_keep_memberships() {
    let mut r = joined();
    idle_round(&mut r);
    assert!(matches!(r.action(), Action::Check { take_rebind: true }));
    r.advance(Event::Checked {
        rebind: false,
        epoch: 0,
    });
    r.advance(Event::Answers {
        answers: Some(answers(10)),
        epoch: 0,
    });
    assert!(matches!(r.action(), Action::ReceiveV4));
}

#[test]
fn a_new_epoch_forces_a_rejoin() {
    let mut r = joined();
    idle_round(&mut r);
    r.advance(Event::Checked {
        rebind: false,
        epoch: 1,
    });
    r.advance(Event::Answers {
        answers: Some(answers(10)),
        epoch: 1,
    });
    r.advance(Event::Indexes {
        indexes: vec![2, 3],
    });
    match r.action() {
        Action::Join { v4: Some(a), .. } => {
            assert_eq!(a.leave, vec![Ipv4Addr::new(192, 168, 1, 10)]);
            assert_eq!(a.join, a.leave);
        }
        other => panic!("{other:?}"),
    }
}

#[test]
fn a_rebind_opens_new_sockets_and_rejoins() {
    let mut r = joined();
    idle_round(&mut r);
    r.advance(Event::Checked {
        rebind: true,
        epoch: 1,
    });
    assert!(matches!(r.action(), Action::BindV4));
    r.advance(Event::Bound { ok: true });
    r.advance(Event::Bound { ok: false });
    r.advance(Event::Answers {
        answers: Some(answers(10)),
        epoch: 1,
    });
    r.advance(Event::Indexes {
        indexes: vec![2, 3],
    });
    match r.action() {
        Action::Join {
            v4: Some(a),
            v6: None,
        } => assert!(a.leave.is_empty()),
        other => panic!("{other:?}"),
    }
}

#[test]
fn a_changed_address_replaces_the_membership() {
    let mut r = joined();
    idle_round(&mut r);
    r.advance(Event::Checked {
        rebind: false,
        epoch: 0,
    });
    r.advance(Event::Answers {
        answers: Some(answers(11)),
        epoch: 0,
    });
    r.advance(Event::Indexes {
        indexes: vec![2, 3],
    });
    match r.action() {
        Action::Join { v4: Some(a), .. } => {
            assert_eq!(a.leave, vec![Ipv4Addr::new(192, 168, 1, 10)]);
            assert_eq!(a.join, vec![Ipv4Addr::new(192, 168, 1, 11)]);
        }
        other => panic!("{other:?}"),
    }
}

#[test]
fn a_failed_bind_is_reported_once_and_retried() {
    let mut r = Responder::new(5353);
    r.advance(Event::Checked {
        rebind: false,
        epoch: 0,
    });
    assert!(r.reports_bind_failure());
    r.advance(Event::Bound { ok: false });
    r.advance(Event::Bound { ok: false });
    assert!(matches!(r.action(), Action::Pause { ms: BIND_RETRY_MS }));
    r.advance(Event::Rested);
    r.advance(Event::Checked {
        rebind: false,
        epoch: 0,
    });
    assert!(!r.reports_bind_failure());
}

#[test]
fn a_private_port_joins_nothing() {
    let mut r = Responder::new(40_000);
    assert!(matches!(r.action(), Action::Check { take_rebind: false }));
    r.advance(Event::Checked {
        rebind: true,
        epoch: 0,
    });
    r.advance(Event::Bound { ok: true });
    r.advance(Event::Bound { ok: false });
    assert!(matches!(r.action(), Action::ReceiveV4));
    r.advance(Event::Received {
        outcome: Received::Packet,
    });
    // A packet came in: the next round starts at once.
    assert!(matches!(r.action(), Action::Check { take_rebind: false }));
}

#[test]
fn a_failed_socket_is_opened_again() {
    let mut r = joined();
    r.advance(Event::Received {
        outcome: Received::Failed,
    });
    r.advance(Event::Received {
        outcome: Received::Packet,
    });
    r.advance(Event::Checked {
        rebind: false,
        epoch: 0,
    });
    assert!(matches!(r.action(), Action::BindV4));
}
