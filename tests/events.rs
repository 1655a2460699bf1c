use ordo::{project, Broadcasters, Projection, Role, RoomEvents};
use tokio::sync::broadcast::error::TryRecvError;

fn name(e: RoomEvents, role: Role) -> String {
    project(e, role).event_name()
}

#[test]
fn voter_count_goes_to_admin_and_voters() {
    assert!(matches!(project(RoomEvents::NewVoterCount(3), Role::Admin(1)), Projection::VoterCount(3)));
    assert!(matches!(project(RoomEvents::NewVoterCount(3), Role::Voter(2)), Projection::VoterCount(3)));
    assert!(matches!(project(RoomEvents::NewVoterCount(3), Role::Anonymous), Projection::Heartbeat));
    assert_eq!(name(RoomEvents::NewVoterCount(3), Role::Admin(1)), "voter-count");
}

#[test]
fn admin_only_events() {
    assert!(matches!(project(RoomEvents::NewVoter(4), Role::Admin(1)), Projection::NewVoterRow(4)));
    assert!(matches!(project(RoomEvents::NewVoter(4), Role::Voter(4)), Projection::Heartbeat));
    assert!(matches!(project(RoomEvents::NewVote(4), Role::Admin(1)), Projection::VoteRecorded(4)));
    assert!(matches!(project(RoomEvents::NewVote(4), Role::Voter(4)), Projection::Heartbeat));
    assert!(matches!(project(RoomEvents::NewVoteCount(2), Role::Admin(1)), Projection::VoteCount(2)));
    assert!(matches!(project(RoomEvents::NewVoteCount(2), Role::Voter(1)), Projection::Heartbeat));
    assert!(matches!(project(RoomEvents::VoteStartable(1), Role::Admin(1)), Projection::StartButton(1)));
    assert!(matches!(project(RoomEvents::VoteStartable(1), Role::Voter(1)), Projection::Heartbeat));
    assert!(matches!(project(RoomEvents::VoteEndable(1), Role::Admin(1)), Projection::EndButton(1)));
    assert!(matches!(project(RoomEvents::VoteEndable(1), Role::Anonymous), Projection::Heartbeat));
    assert_eq!(name(RoomEvents::NewVoter(4), Role::Admin(1)), "voter");
    assert_eq!(name(RoomEvents::NewVote(42), Role::Admin(1)), "vote:42");
    assert_eq!(name(RoomEvents::NewVoteCount(2), Role::Admin(1)), "vote-count");
    assert_eq!(name(RoomEvents::VoteStartable(1), Role::Admin(1)), "vote-startable");
    assert_eq!(name(RoomEvents::VoteEndable(1), Role::Admin(1)), "vote-endable");
}

#[test]
fn approval_goes_to_admin_and_to_that_voter_only() {
    assert!(matches!(project(RoomEvents::VoterApproved(5), Role::Admin(1)), Projection::VoterApprovedRow(5)));
    assert!(matches!(project(RoomEvents::VoterApproved(5), Role::Voter(5)), Projection::VoterApprovedNotice(5)));
    assert!(matches!(project(RoomEvents::VoterApproved(5), Role::Voter(6)), Projection::Heartbeat));
    assert_eq!(name(RoomEvents::VoterApproved(5), Role::Voter(5)), "voter-approved:5");
    assert_eq!(name(RoomEvents::VoterApproved(5), Role::Voter(6)), "ping");
}

#[test]
fn voter_only_events() {
    let opts = vec!["a".to_string(), "b".to_string()];
    match project(RoomEvents::VoteStarted(opts.clone()), Role::Voter(8)) {
        Projection::BallotForm(id, o) => {
            assert_eq!(id, 8);
            assert_eq!(o, opts);
        }
        _ => panic!("expected the ballot form"),
    }
    assert!(matches!(project(RoomEvents::VoteStarted(opts), Role::Admin(1)), Projection::Heartbeat));
    assert!(matches!(project(RoomEvents::VoteEnded, Role::Voter(8)), Projection::VoteEndedNotice));
    assert!(matches!(project(RoomEvents::VoteEnded, Role::Admin(1)), Projection::Heartbeat));
    assert_eq!(name(RoomEvents::VoteEnded, Role::Voter(8)), "vote-ended");
    assert_eq!(name(RoomEvents::VoteStarted(vec![]), Role::Voter(8)), "vote-started");
}

#[test]
fn anonymous_gets_heartbeats_only() {
    let all = vec![
        RoomEvents::NewVoter(1),
        RoomEvents::NewVoterCount(1),
        RoomEvents::VoterApproved(1),
        RoomEvents::VoteStartable(1),
        RoomEvents::VoteEndable(1),
        RoomEvents::VoteStarted(vec!["a".to_string()]),
        RoomEvents::VoteEnded,
        RoomEvents::NewVote(1),
        RoomEvents::NewVoteCount(1),
    ];
    for e in all {
        assert!(matches!(project(e, Role::Anonymous), Projection::Heartbeat));
    }
}

#[test]
fn late_subscriber_sees_no_backlog() {
    let mut bus = Broadcasters::new();
    for i in 0..5 {
        bus.send_event(1, RoomEvents::NewVoterCount(i));
    }
    let mut rx = bus.get_stream(1);
    assert!(matches!(rx.try_recv(), Err(TryRecvError::Empty)));
    bus.send_event(1, RoomEvents::NewVote(7));
    assert_eq!(rx.try_recv(), Ok(RoomEvents::NewVote(7)));
    assert!(matches!(rx.try_recv(), Err(TryRecvError::Empty)));
}

#[test]
fn stream_ends_after_teardown() {
    let mut bus = Broadcasters::new();
    let mut rx = bus.get_stream(3);
    bus.publish_all(3, vec![RoomEvents::VoteEnded, RoomEvents::NewVoteCount(2)]);
    bus.end_stream(3);
    assert_eq!(rx.try_recv(), Ok(RoomEvents::VoteEnded));
    assert_eq!(rx.try_recv(), Ok(RoomEvents::NewVoteCount(2)));
    assert!(matches!(rx.try_recv(), Err(TryRecvError::Closed)));
    bus.end_stream(3);
}

#[test]
fn rooms_have_separate_channels() {
    let mut bus = Broadcasters::new();
    let mut a = bus.get_stream(1);
    let mut b = bus.get_stream(2);
    bus.send_event(1, RoomEvents::VoteEnded);
    assert_eq!(a.try_recv(), Ok(RoomEvents::VoteEnded));
    assert!(matches!(b.try_recv(), Err(TryRecvError::Empty)));
}

#[test]
fn lagging_subscriber_skips_the_oldest() {
    let mut bus = Broadcasters::new();
    let mut rx = bus.get_stream(1);
    for i in 0..20 {
        bus.send_event(1, RoomEvents::NewVoteCount(i));
    }
    assert!(matches!(rx.try_recv(), Err(TryRecvError::Lagged(4))));
    assert_eq!(rx.try_recv(), Ok(RoomEvents::NewVoteCount(4)));
}

#[test]
fn send_after_teardown_goes_to_a_new_channel() {
    let mut bus = Broadcasters::new();
    let mut old = bus.get_stream(2);
    bus.end_stream(2);
    bus.send_event(2, RoomEvents::VoteEnded);
    assert!(matches!(old.try_recv(), Err(TryRecvError::Closed)));
    let mut fresh = bus.get_stream(2);
    assert!(matches!(fresh.try_recv(), Err(TryRecvError::Empty)));
    bus.send_event(2, RoomEvents::NewVote(1));
    assert_eq!(fresh.try_recv(), Ok(RoomEvents::NewVote(1)));
}

#[test]
fn every_subscriber_hears_events_in_publish_order() {
    let mut bus = Broadcasters::new();
    let mut a = bus.get_stream(1);
    let mut b = bus.get_stream(1);
    bus.publish_all(1, vec![RoomEvents::NewVote(1), RoomEvents::NewVoteCount(1), RoomEvents::VoteEndable(1)]);
    for rx in [&mut a, &mut b] {
        assert_eq!(rx.try_recv(), Ok(RoomEvents::NewVote(1)));
        assert_eq!(rx.try_recv(), Ok(RoomEvents::NewVoteCount(1)));
        assert_eq!(rx.try_recv(), Ok(RoomEvents::VoteEndable(1)));
        assert!(matches!(rx.try_recv(), Err(TryRecvError::Empty)));
    }
}
