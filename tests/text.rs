use ordo::{
    approve_voter_url, cookie, end_vote_url, generate_ulid, join_room_url, pluralize,
    room_listen_url, room_page_url, rooms_url, start_vote_url, vote_event, vote_url,
    voter_approved_event, voter_page_url,
};

#[test]
fn room_addresses() {
    assert_eq!(rooms_url(), "/rooms");
    assert_eq!(room_page_url(12), "/rooms/12");
    assert_eq!(start_vote_url(3), "/rooms/3/start");
    assert_eq!(end_vote_url(3), "/rooms/3/end");
    assert_eq!(room_listen_url(0), "/rooms/0/listen");
    assert_eq!(join_room_url(907), "/rooms/907/join");
}

#[test]
fn voter_addresses() {
    assert_eq!(voter_page_url(5), "/voters/5");
    assert_eq!(approve_voter_url(10), "/voters/10/approve");
    assert_eq!(vote_url(99), "/voters/99/vote");
}

#[test]
fn extreme_ids() {
    assert_eq!(room_page_url(-45), "/rooms/-45");
    assert_eq!(room_page_url(i64::MAX), "/rooms/9223372036854775807");
    assert_eq!(voter_page_url(i64::MIN), "/voters/-9223372036854775808");
}

#[test]
fn personal_event_names() {
    assert_eq!(voter_approved_event(17), "voter-approved:17");
    assert_eq!(vote_event(17), "vote:17");
}

#[test]
fn plural_labels() {
    assert_eq!(pluralize(1, "voter", "voters"), "voter");
    assert_eq!(pluralize(0, "voter", "voters"), "voters");
    assert_eq!(pluralize(2, "vote", "votes"), "votes");
    assert_eq!(pluralize(-1, "vote", "votes"), "votes");
}

#[test]
fn cookie_value() {
    assert_eq!(
        cookie("admin_code", "XYZ"),
        "admin_code=XYZ; HttpOnly; Max-Age=3600; Secure; Path=/; SameSite=Strict"
    );
}

#[test]
fn fresh_secrets() {
    let a = generate_ulid();
    let b = generate_ulid();
    assert_eq!(a.len(), 26);
    assert_eq!(b.len(), 26);
    assert_ne!(a, b);
    assert!(a.chars().all(|c| "0123456789ABCDEFGHJKMNPQRSTVWXYZ".contains(c)));
}
