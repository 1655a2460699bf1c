use tokio::sync::broadcast::error::TryRecvError;
use ordo::{
    Broadcasters,
    admit_voter, approve_voter, classify, create_room, end_vote, expire_room, join_room,
    room_page, start_vote, validate_room, vote, vote_admin_page, voter_page, Role, RoomError,
    RoomEvents, RoomState, RoomStatus,
};

fn strings(v: &[&str]) -> Vec<String> {
    v.iter().map(|s| s.to_string()).collect()
}

fn open_room(name: &str, options: &[&str], id: i64) -> (Option<RoomState>, String) {
    let room = create_room(name.to_string(), strings(options)).unwrap();
    let code = room.admin_code.clone();
    (Some(room.into_state(id)), code)
}

fn add_voter(slot: &mut Option<RoomState>, voter_id: i64) -> String {
    let code = join_room(slot).unwrap();
    admit_voter(slot.as_mut().unwrap(), voter_id, code.clone());
    code
}

#[test]
fn create_rejects_empty_name() {
    assert_eq!(create_room(String::new(), strings(&["a"])).err(), Some(RoomError::EmptyName));
}

#[test]
fn create_rejects_no_options() {
    assert_eq!(create_room("r".to_string(), vec![]).err(), Some(RoomError::NoOptions));
}

#[test]
fn create_rejects_empty_option() {
    assert_eq!(
        create_room("r".to_string(), strings(&["a", "", "b"])).err(),
        Some(RoomError::EmptyOption)
    );
}

#[test]
fn create_reports_empty_name_before_options() {
    assert_eq!(create_room(String::new(), vec![]).err(), Some(RoomError::EmptyName));
}

#[test]
fn create_keeps_every_option_in_canonical_order() {
    let room = create_room("r".to_string(), strings(&["b", "a", "b", "C"])).unwrap();
    assert_eq!(room.options, strings(&["C", "a", "b", "b"]));
    assert_eq!(room.name, "r");
    assert_eq!(room.admin_code.len(), 26);
}

#[test]
fn validate_orders_by_code_point() {
    let sorted = validate_room("r", &strings(&["é", "z", "ab", "a"])).unwrap();
    assert_eq!(sorted, strings(&["a", "ab", "z", "é"]));
}

#[test]
fn new_room_is_open_without_voters() {
    let (slot, code) = open_room("Lunch", &["Pizza", "Sushi"], 7);
    let st = slot.unwrap();
    assert_eq!(st.room.id, 7);
    assert_eq!(st.room.status, RoomStatus::Open);
    assert_eq!(st.room.admin_code, code);
    assert!(st.voters.is_empty());
}

#[test]
fn lunch_end_to_end() {
    let (mut slot, admin) = open_room("Lunch", &["Pizza", "Sushi"], 1);
    assert_eq!(slot.as_ref().unwrap().room.status, RoomStatus::Open);

    let voter = add_voter(&mut slot, 10);
    assert!(!slot.as_ref().unwrap().voters[0].approved);

    let events = approve_voter(&mut slot, 10, &admin).unwrap();
    assert_eq!(events.len(), 2);
    assert!(matches!(events[0], RoomEvents::VoterApproved(10)));
    assert!(matches!(events[1], RoomEvents::VoteStartable(1)));
    let again = approve_voter(&mut slot, 10, &admin).unwrap();
    assert_eq!(again, vec![RoomEvents::VoterApproved(10)]);

    let started = start_vote(&mut slot, &admin).unwrap();
    assert_eq!(slot.as_ref().unwrap().room.status, RoomStatus::Voting);
    match &started[0] {
        RoomEvents::VoteStarted(options) => assert_eq!(options, &strings(&["Pizza", "Sushi"])),
        _ => panic!("expected the ballot form"),
    }

    let events = vote(&mut slot, 10, &voter, strings(&["Sushi", "Pizza"])).unwrap();
    assert!(matches!(events[0], RoomEvents::NewVote(10)));
    assert!(matches!(events[1], RoomEvents::NewVoteCount(1)));
    assert!(matches!(events[2], RoomEvents::VoteEndable(1)));

    let result = end_vote(&mut slot, &admin, &mut Broadcasters::new()).unwrap();
    assert_eq!(slot.as_ref().unwrap().room.status, RoomStatus::Ended);
    assert_eq!(result.room_name, "Lunch");
    let scores: Vec<(String, usize)> =
        result.scores.iter().map(|s| (s.option.clone(), s.score)).collect();
    assert_eq!(scores, vec![("Sushi".to_string(), 2), ("Pizza".to_string(), 1)]);
}

#[test]
fn approve_fires_startable_only_for_the_first_approval() {
    let (mut slot, admin) = open_room("r", &["a", "b"], 1);
    add_voter(&mut slot, 1);
    add_voter(&mut slot, 2);
    let first = approve_voter(&mut slot, 1, &admin).unwrap();
    assert!(first.iter().any(|e| matches!(e, RoomEvents::VoteStartable(1))));
    let second = approve_voter(&mut slot, 2, &admin).unwrap();
    assert_eq!(second.len(), 1);
    assert!(matches!(second[0], RoomEvents::VoterApproved(2)));
}

#[test]
fn approve_twice_changes_nothing() {
    let (mut slot, admin) = open_room("r", &["a", "b"], 1);
    add_voter(&mut slot, 3);
    approve_voter(&mut slot, 3, &admin).unwrap();
    let before = format!("{:?}", slot);
    let events = approve_voter(&mut slot, 3, &admin).unwrap();
    assert_eq!(events, vec![RoomEvents::VoterApproved(3)]);
    assert_eq!(format!("{:?}", slot), before);
}

#[test]
fn approve_errors() {
    let (mut slot, admin) = open_room("r", &["a", "b"], 1);
    add_voter(&mut slot, 3);
    assert_eq!(approve_voter(&mut slot, 4, &admin), Err(RoomError::VoterNotFound));
    assert_eq!(approve_voter(&mut slot, 3, "wrong"), Err(RoomError::VoterNotFound));
    assert!(!slot.as_ref().unwrap().voters[0].approved);
    let mut gone: Option<RoomState> = None;
    assert_eq!(approve_voter(&mut gone, 3, &admin), Err(RoomError::VoterNotFound));
}

#[test]
fn join_needs_an_open_room() {
    let (mut slot, admin) = open_room("r", &["a"], 1);
    assert_eq!(join_room(&slot).unwrap().len(), 26);
    start_vote(&mut slot, &admin).unwrap();
    assert_eq!(join_room(&slot), Err(RoomError::RoomNotFound));
    assert_eq!(join_room(&None), Err(RoomError::RoomNotFound));
}

#[test]
fn admit_reports_count_then_voter() {
    let (mut slot, _) = open_room("r", &["a"], 5);
    add_voter(&mut slot, 1);
    let events = admit_voter(slot.as_mut().unwrap(), 2, "code".to_string());
    assert!(matches!(events[0], RoomEvents::NewVoterCount(2)));
    assert!(matches!(events[1], RoomEvents::NewVoter(2)));
    let st = slot.unwrap();
    assert_eq!(st.voters[1].room_id, 5);
    assert_eq!(st.voters[1].voter_code, "code");
    assert!(st.voters[1].ballot.is_none());
}

#[test]
fn start_needs_open_status_and_secret() {
    let (mut slot, admin) = open_room("r", &["a"], 1);
    assert_eq!(start_vote(&mut slot, "wrong"), Err(RoomError::RoomNotFound));
    assert_eq!(slot.as_ref().unwrap().room.status, RoomStatus::Open);
    start_vote(&mut slot, &admin).unwrap();
    assert_eq!(start_vote(&mut slot, &admin), Err(RoomError::RoomNotFound));
}

#[test]
fn end_needs_voting_status_and_secret() {
    let (mut slot, admin) = open_room("r", &["a"], 1);
    assert_eq!(end_vote(&mut slot, &admin, &mut Broadcasters::new()).err(), Some(RoomError::RoomNotFound));
    start_vote(&mut slot, &admin).unwrap();
    assert_eq!(end_vote(&mut slot, "wrong", &mut Broadcasters::new()).err(), Some(RoomError::RoomNotFound));
    assert_eq!(slot.as_ref().unwrap().room.status, RoomStatus::Voting);
    end_vote(&mut slot, &admin, &mut Broadcasters::new()).unwrap();
    assert_eq!(end_vote(&mut slot, &admin, &mut Broadcasters::new()).err(), Some(RoomError::RoomNotFound));
}

#[test]
fn ballot_must_hold_exactly_the_options() {
    let (mut slot, admin) = open_room("r", &["a", "b", "c"], 1);
    let code = add_voter(&mut slot, 1);
    approve_voter(&mut slot, 1, &admin).unwrap();
    start_vote(&mut slot, &admin).unwrap();
    for bad in [
        vec!["a", "b"],
        vec!["a", "b", "c", "c"],
        vec!["a", "b", "d"],
        vec!["a", "a", "b"],
        vec![],
    ] {
        assert_eq!(vote(&mut slot, 1, &code, strings(&bad)), Err(RoomError::UnknownOptions));
    }
    assert!(slot.as_ref().unwrap().voters[0].ballot.is_none());
    for good in [vec!["c", "b", "a"], vec!["b", "a", "c"], vec!["a", "b", "c"]] {
        assert!(vote(&mut slot, 1, &code, strings(&good)).is_ok());
    }
}

#[test]
fn ballot_with_repeated_options() {
    let (mut slot, admin) = open_room("r", &["x", "y", "x"], 1);
    let code = add_voter(&mut slot, 1);
    approve_voter(&mut slot, 1, &admin).unwrap();
    start_vote(&mut slot, &admin).unwrap();
    assert_eq!(vote(&mut slot, 1, &code, strings(&["x", "y", "y"])), Err(RoomError::UnknownOptions));
    assert!(vote(&mut slot, 1, &code, strings(&["y", "x", "x"])).is_ok());
}

#[test]
fn ballot_errors() {
    let (mut slot, admin) = open_room("r", &["a", "b"], 1);
    let code = add_voter(&mut slot, 1);
    approve_voter(&mut slot, 1, &admin).unwrap();
    assert_eq!(vote(&mut slot, 1, &code, strings(&["a", "b"])), Err(RoomError::RoomNotFound));
    start_vote(&mut slot, &admin).unwrap();
    assert_eq!(vote(&mut slot, 2, &code, strings(&["a", "b"])), Err(RoomError::VoterNotFound));
    assert_eq!(vote(&mut slot, 1, "wrong", strings(&["a", "b"])), Err(RoomError::VoterNotFound));
    let mut gone: Option<RoomState> = None;
    assert_eq!(vote(&mut gone, 1, &code, strings(&["a", "b"])), Err(RoomError::VoterNotFound));
}

#[test]
fn resubmission_replaces_the_ballot_and_is_not_the_first_again() {
    let (mut slot, admin) = open_room("r", &["a", "b"], 1);
    let code = add_voter(&mut slot, 1);
    approve_voter(&mut slot, 1, &admin).unwrap();
    start_vote(&mut slot, &admin).unwrap();
    let first = vote(&mut slot, 1, &code, strings(&["a", "b"])).unwrap();
    assert_eq!(first.len(), 3);
    let second = vote(&mut slot, 1, &code, strings(&["b", "a"])).unwrap();
    assert_eq!(second.len(), 2);
    assert!(matches!(second[1], RoomEvents::NewVoteCount(1)));
    assert_eq!(slot.as_ref().unwrap().voters[0].ballot, Some(strings(&["b", "a"])));
}

#[test]
fn end_counts_every_submitted_ballot() {
    let (mut slot, admin) = open_room("r", &["A", "B", "C"], 1);
    let c1 = add_voter(&mut slot, 1);
    let c2 = add_voter(&mut slot, 2);
    add_voter(&mut slot, 3);
    approve_voter(&mut slot, 1, &admin).unwrap();
    approve_voter(&mut slot, 2, &admin).unwrap();
    approve_voter(&mut slot, 3, &admin).unwrap();
    start_vote(&mut slot, &admin).unwrap();
    vote(&mut slot, 1, &c1, strings(&["A", "B", "C"])).unwrap();
    let second = vote(&mut slot, 2, &c2, strings(&["B", "A", "C"])).unwrap();
    assert_eq!(second, vec![RoomEvents::NewVote(2), RoomEvents::NewVoteCount(2)]);
    assert_eq!(vote_admin_page(slot.as_ref().unwrap()).recorded_votes, 2);
    let result = end_vote(&mut slot, &admin, &mut Broadcasters::new()).unwrap();
    let scores: Vec<(String, usize)> =
        result.scores.iter().map(|s| (s.option.clone(), s.score)).collect();
    assert_eq!(
        scores,
        vec![("A".to_string(), 5), ("B".to_string(), 5), ("C".to_string(), 2)]
    );
}

#[test]
fn end_without_ballots_scores_zero() {
    let (mut slot, admin) = open_room("r", &["b", "a"], 1);
    start_vote(&mut slot, &admin).unwrap();
    let result = end_vote(&mut slot, &admin, &mut Broadcasters::new()).unwrap();
    let scores: Vec<(String, usize)> =
        result.scores.iter().map(|s| (s.option.clone(), s.score)).collect();
    assert_eq!(scores, vec![("a".to_string(), 0), ("b".to_string(), 0)]);
}

#[test]
fn expiry_then_end_is_a_no_op() {
    let (mut slot, admin) = open_room("r", &["a"], 1);
    start_vote(&mut slot, &admin).unwrap();
    expire_room(&mut slot);
    assert!(slot.is_none());
    assert_eq!(end_vote(&mut slot, &admin, &mut Broadcasters::new()).err(), Some(RoomError::RoomNotFound));
    assert!(slot.is_none());
    expire_room(&mut slot);
    assert!(slot.is_none());
}

#[test]
fn end_then_expiry_removes_the_room() {
    let (mut slot, admin) = open_room("r", &["a"], 1);
    add_voter(&mut slot, 1);
    start_vote(&mut slot, &admin).unwrap();
    end_vote(&mut slot, &admin, &mut Broadcasters::new()).unwrap();
    assert!(slot.is_some());
    expire_room(&mut slot);
    assert!(slot.is_none());
}

#[test]
fn roles_from_secrets() {
    let (mut slot, admin) = open_room("r", &["a"], 9);
    let v1 = add_voter(&mut slot, 1);
    let v2 = add_voter(&mut slot, 2);
    assert_eq!(classify(&slot, Some(&admin), None), Role::Admin(9));
    assert_eq!(classify(&slot, Some(&admin), Some(&v1)), Role::Admin(9));
    assert_eq!(classify(&slot, None, Some(&v2)), Role::Voter(2));
    assert_eq!(classify(&slot, Some("wrong"), Some(&v1)), Role::Voter(1));
    assert_eq!(classify(&slot, Some("wrong"), Some("other")), Role::Anonymous);
    assert_eq!(classify(&slot, None, None), Role::Anonymous);
    assert_eq!(classify(&None, Some(&admin), Some(&v1)), Role::Anonymous);
}

#[test]
fn pages_of_a_room() {
    let (mut slot, admin) = open_room("Lunch", &["b", "a"], 4);
    let v1 = add_voter(&mut slot, 1);
    add_voter(&mut slot, 2);
    approve_voter(&mut slot, 2, &admin).unwrap();

    let page = room_page(&slot, &admin).unwrap();
    assert_eq!(page.id, 4);
    assert_eq!(page.name, "Lunch");
    assert_eq!(page.options, strings(&["a", "b"]));
    assert_eq!(page.voters.len(), 2);
    assert!(!page.voters[0].approved && page.voters[1].approved);
    assert_eq!(room_page(&slot, "wrong").err(), Some(RoomError::RoomNotFound));

    let vp = voter_page(&slot, 1, &v1).unwrap();
    assert_eq!((vp.id, vp.room_id, vp.voter_count, vp.approved), (1, 4, 2, false));
    assert_eq!(vp.room_name, "Lunch");
    assert_eq!(voter_page(&slot, 1, "wrong").err(), Some(RoomError::VoterNotFound));
    assert_eq!(voter_page(&slot, 3, &v1).err(), Some(RoomError::VoterNotFound));

    start_vote(&mut slot, &admin).unwrap();
    assert_eq!(room_page(&slot, &admin).err(), Some(RoomError::RoomNotFound));
    assert_eq!(voter_page(&slot, 1, &v1).err(), Some(RoomError::RoomNotFound));
    let ap = vote_admin_page(slot.as_ref().unwrap());
    assert_eq!(ap.room_id, 4);
    assert_eq!(ap.recorded_votes, 0);
    assert_eq!(ap.approved_voters.len(), 1);
    assert_eq!(ap.approved_voters[0].id, 2);
    assert!(!ap.approved_voters[0].voted);
}

#[test]
fn unapproved_voter_cannot_ballot() {
    let (mut slot, admin) = open_room("r", &["a", "b"], 1);
    let code = add_voter(&mut slot, 1);
    start_vote(&mut slot, &admin).unwrap();
    assert_eq!(vote(&mut slot, 1, &code, strings(&["b", "a"])), Err(RoomError::VoterNotFound));
    assert!(slot.as_ref().unwrap().voters[0].ballot.is_none());
    approve_voter(&mut slot, 1, &admin).unwrap();
    let events = vote(&mut slot, 1, &code, strings(&["b", "a"])).unwrap();
    assert_eq!(
        events,
        vec![RoomEvents::NewVote(1), RoomEvents::NewVoteCount(1), RoomEvents::VoteEndable(1)]
    );
}

#[test]
fn unknown_voter_and_wrong_secret_read_alike_on_approval() {
    let (mut slot, admin) = open_room("r", &["a"], 1);
    add_voter(&mut slot, 1);
    let unknown = approve_voter(&mut slot, 9, &admin);
    let wrong = approve_voter(&mut slot, 1, "wrong");
    assert_eq!(unknown, wrong);
}

#[test]
fn end_tells_subscribers_then_closes_the_channel() {
    let (mut slot, admin) = open_room("r", &["a"], 6);
    let mut bus = Broadcasters::new();
    let mut rx = bus.get_stream(6);
    let mut other = bus.get_stream(7);
    start_vote(&mut slot, &admin).unwrap();
    end_vote(&mut slot, &admin, &mut bus).unwrap();
    assert_eq!(rx.try_recv(), Ok(RoomEvents::VoteEnded));
    assert!(matches!(rx.try_recv(), Err(TryRecvError::Closed)));
    assert!(matches!(other.try_recv(), Err(TryRecvError::Empty)));
}

#[test]
fn refused_end_publishes_nothing() {
    let (mut slot, admin) = open_room("r", &["a"], 6);
    let mut bus = Broadcasters::new();
    let mut rx = bus.get_stream(6);
    assert_eq!(end_vote(&mut slot, &admin, &mut bus).err(), Some(RoomError::RoomNotFound));
    bus.send_event(6, RoomEvents::NewVote(1));
    assert_eq!(rx.try_recv(), Ok(RoomEvents::NewVote(1)));
}

#[test]
fn secrets_use_the_crockford_alphabet() {
    let room = create_room("r".to_string(), strings(&["a"])).unwrap();
    let alphabet = "0123456789ABCDEFGHJKMNPQRSTVWXYZ";
    assert!(room.admin_code.chars().all(|c| alphabet.contains(c)));
    let slot = Some(room.into_state(1));
    let code = join_room(&slot).unwrap();
    assert!(code.chars().all(|c| alphabet.contains(c)));
}
