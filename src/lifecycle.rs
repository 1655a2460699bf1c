//! The room life cycle (open, voting, ended) and the voter registry, as
//! decisions over what the store holds for one room.
//!
//! Each operation takes the room's slot in the store (`None` once the room
//! is gone), checks the capability secret it is given, updates the slot,
//! and returns the events to publish once the change is stored.

use vstd::prelude::*;
use crate::events::{Broadcasters, RoomEvents, Role};
use crate::pages::ResultPage;
use crate::model::{
    approved_count, clamp_i32, state_wf, submitted_ballots, voter_index, voter_views, RoomError,
    RoomRecord, RoomState, RoomStatus, RoomView, StateView, VoterRecord, VoterView,
};
use crate::options::{clone_texts, same_multiset, same_options, sort_texts, sorted_texts, texts};
use crate::tally::{ballot_texts, is_tally, score_views, tally};
use crate::text::{crockford_digit, generate_ulid};

verus! {

broadcast use vstd::seq_lib::group_seq_properties;

/// What the store holds for a room, as a view.
pub open spec fn slot_view(s: Option<RoomState>) -> Option<StateView> {
    match s {
        Some(st) => Some(st@),
        None => None,
    }
}

/// A room that is about to be stored: the store gives it its id.
#[derive(Debug)]
pub struct NewRoom {
    pub name: String,
    /// The options in canonical (sorted) order.
    pub options: Vec<String>,
    pub admin_code: String,
}

/// Why a room with this name and these options cannot be created, if it
/// cannot.
pub open spec fn creation_error(name: Seq<char>, options: Seq<Seq<char>>) -> Option<RoomError> {
    if name.len() == 0 {
        Some(RoomError::EmptyName)
    } else if options.len() == 0 {
        Some(RoomError::NoOptions)
    } else if exists|i: int| 0 <= i < options.len() && #[trigger] options[i].len() == 0 {
        Some(RoomError::EmptyOption)
    } else {
        None
    }
}

/// Checks a room's name and options and puts the options in canonical order.
pub fn validate_room(name: &str, options: &Vec<String>) -> (r: Result<Vec<String>, RoomError>)
    ensures
        match r {
            Ok(v) => {
                &&& creation_error(name@, texts(options@)) is None
                &&& same_multiset(texts(v@), texts(options@))
                &&& sorted_texts(texts(v@))
            },
            Err(e) => creation_error(name@, texts(options@)) == Some(e),
        },
{
    if name.is_empty() {
        return Err(RoomError::EmptyName);
    }
    if options.len() == 0 {
        return Err(RoomError::NoOptions);
    }
    let mut i: usize = 0;
    while i < options.len()
        invariant
            i <= options.len(),
            name@.len() > 0,
            options@.len() > 0,
            forall|j: int| 0 <= j < i ==> (#[trigger] texts(options@)[j]).len() > 0,
        decreases options.len() - i,
    {
        if options[i].as_str().is_empty() {
            assert(texts(options@)[i as int].len() == 0);
            return Err(RoomError::EmptyOption);
        }
        i += 1;
    }
    Ok(sort_texts(options))
}

/// Creates a room: checks the name and options, keeps every option (none
/// dropped, none merged) in canonical order, and draws a fresh admin secret.
pub fn create_room(name: String, options: Vec<String>) -> (r: Result<NewRoom, RoomError>)
    ensures
        match r {
            Ok(n) => {
                &&& creation_error(name@, texts(options@)) is None
                &&& n.name@ == name@
                &&& same_multiset(texts(n.options@), texts(options@))
                &&& sorted_texts(texts(n.options@))
                &&& n.admin_code@.len() == 26
                &&& forall|i: int|
                    0 <= i < n.admin_code@.len() ==> crockford_digit(#[trigger] n.admin_code@[i])
            },
            Err(e) => creation_error(name@, texts(options@)) == Some(e),
        },
{
    let sorted = validate_room(name.as_str(), &options)?;
    let admin_code = generate_ulid();
    Ok(NewRoom { name, options: sorted, admin_code })
}

proof fn lemma_multiset_nonempty(a: Seq<Seq<char>>, b: Seq<Seq<char>>)
    requires
        same_multiset(a, b),
    ensures
        a.len() == b.len(),
        forall|t: Seq<char>| a.contains(t) <==> b.contains(t),
{
    a.to_multiset_ensures();
    b.to_multiset_ensures();
    assert(a.to_multiset().len() == b.to_multiset().len());
    assert forall|t: Seq<char>| a.contains(t) <==> b.contains(t) by {
        assert(a.to_multiset().count(t) == b.to_multiset().count(t));
    }
}

impl NewRoom {
    /// The room as stored under `id`: open, without voters.
    pub fn into_state(self, id: i64) -> (s: RoomState)
        ensures
            s@ == (StateView {
                room: RoomView {
                    id,
                    name: self.name@,
                    options: texts(self.options@),
                    admin_code: self.admin_code@,
                    status: RoomStatus::Open,
                },
                voters: Seq::empty(),
            }),
    {
        let s = RoomState {
            room: RoomRecord {
                id,
                name: self.name,
                options: self.options,
                admin_code: self.admin_code,
                status: RoomStatus::Open,
            },
            voters: Vec::new(),
        };
        assert(voter_views(s.voters@) =~= Seq::empty());
        s
    }
}

/// A room that `create_room` accepts is valid once stored.
pub proof fn created_room_is_valid(name: Seq<char>, options: Seq<Seq<char>>, canonical: Seq<Seq<char>>, admin_code: Seq<char>, id: i64)
    requires
        creation_error(name, options) is None,
        same_multiset(canonical, options),
        sorted_texts(canonical),
    ensures
        state_wf(
            StateView {
                room: RoomView { id, name, options: canonical, admin_code, status: RoomStatus::Open },
                voters: Seq::empty(),
            },
        ),
{
    lemma_multiset_nonempty(canonical, options);
    assert forall|i: int| 0 <= i < canonical.len() implies #[trigger] canonical[i].len() > 0 by {
        assert(canonical.contains(canonical[i]));
        assert(options.contains(canonical[i]));
    }
}

pub(crate) proof fn lemma_voter_index_range(v: Seq<VoterView>, id: i64)
    ensures
        -1 <= voter_index(v, id) < v.len(),
        voter_index(v, id) >= 0 ==> v[voter_index(v, id)].id == id,
        voter_index(v, id) < 0 ==> forall|j: int| 0 <= j < v.len() ==> #[trigger] v[j].id != id,
    decreases v.len(),
{
    if v.len() > 0 {
        let d = v.drop_last();
        lemma_voter_index_range(d, id);
        assert forall|j: int| 0 <= j < d.len() implies #[trigger] d[j] == v[j] by {}
        if voter_index(v, id) < 0 {
            assert forall|j: int| 0 <= j < v.len() implies #[trigger] v[j].id != id by {
                if j < d.len() {
                    assert(d[j].id != id);
                }
            }
        }
    }
}

proof fn lemma_voter_index_prefix(v: Seq<VoterView>, n: int, id: i64)
    requires
        0 <= n <= v.len(),
        voter_index(v.subrange(0, n), id) >= 0,
    ensures
        voter_index(v, id) == voter_index(v.subrange(0, n), id),
    decreases v.len(),
{
    if n < v.len() {
        assert(v.drop_last().subrange(0, n) =~= v.subrange(0, n));
        lemma_voter_index_prefix(v.drop_last(), n, id);
    } else {
        assert(v.subrange(0, n) =~= v);
    }
}

/// Two voter lists with the same ids in the same places find the same voter.
proof fn lemma_voter_index_ids(a: Seq<VoterView>, b: Seq<VoterView>, id: i64)
    requires
        a.len() == b.len(),
        forall|j: int| 0 <= j < a.len() ==> #[trigger] a[j].id == b[j].id,
    ensures
        voter_index(a, id) == voter_index(b, id),
    decreases a.len(),
{
    if a.len() > 0 {
        lemma_voter_index_ids(a.drop_last(), b.drop_last(), id);
    }
}

proof fn lemma_views_subrange(v: Seq<VoterRecord>, i: int)
    requires
        0 <= i < v.len(),
    ensures
        voter_views(v.subrange(0, i + 1)) == voter_views(v.subrange(0, i)).push(v[i]@),
        voter_views(v.subrange(0, i + 1)).drop_last() == voter_views(v.subrange(0, i)),
{
    assert(voter_views(v.subrange(0, i + 1)) =~= voter_views(v.subrange(0, i)).push(v[i]@));
}

/// The place of the voter with id `id`, if any.
pub(crate) fn find_voter(voters: &Vec<VoterRecord>, id: i64) -> (r: Option<usize>)
    ensures
        match r {
            Some(j) => j as int == voter_index(voter_views(voters@), id) && j < voters.len(),
            None => voter_index(voter_views(voters@), id) == -1,
        },
{
    let ghost v = voter_views(voters@);
    let mut i: usize = 0;
    while i < voters.len()
        invariant
            i <= voters.len(),
            v == voter_views(voters@),
            voter_index(v.subrange(0, i as int), id) == -1,
        decreases voters.len() - i,
    {
        proof {
            lemma_views_subrange(voters@, i as int);
            assert(voter_views(voters@.subrange(0, i as int)) =~= v.subrange(0, i as int));
            assert(voter_views(voters@.subrange(0, i + 1)) =~= v.subrange(0, i + 1));
        }
        if voters[i].id == id {
            proof {
                lemma_voter_index_prefix(v, i + 1, id);
            }
            return Some(i);
        }
        i += 1;
    }
    assert(v.subrange(0, voters.len() as int) =~= v);
    None
}

/// How many voters are approved.
fn count_approved(voters: &Vec<VoterRecord>) -> (r: usize)
    ensures
        r == approved_count(voter_views(voters@)),
{
    let mut c: usize = 0;
    let mut i: usize = 0;
    while i < voters.len()
        invariant
            i <= voters.len(),
            c <= i,
            c == approved_count(voter_views(voters@.subrange(0, i as int))),
        decreases voters.len() - i,
    {
        proof {
            lemma_views_subrange(voters@, i as int);
        }
        if voters[i].approved {
            c += 1;
        }
        i += 1;
    }
    assert(voters@.subrange(0, voters.len() as int) =~= voters@);
    c
}

/// The ballots submitted so far, in the voters' order.
fn collect_ballots(voters: &Vec<VoterRecord>) -> (r: Vec<Vec<String>>)
    ensures
        ballot_texts(r@) == submitted_ballots(voter_views(voters@)),
{
    let mut r: Vec<Vec<String>> = Vec::new();
    let mut i: usize = 0;
    while i < voters.len()
        invariant
            i <= voters.len(),
            ballot_texts(r@) == submitted_ballots(voter_views(voters@.subrange(0, i as int))),
        decreases voters.len() - i,
    {
        proof {
            lemma_views_subrange(voters@, i as int);
        }
        match &voters[i].ballot {
            Some(b) => {
                let c = clone_texts(b);
                let ghost before = r@;
                r.push(c);
                assert(ballot_texts(r@) =~= ballot_texts(before).push(texts(b@)));
            },
            _ => {},
        }
        i += 1;
    }
    assert(voters@.subrange(0, voters.len() as int) =~= voters@);
    r
}

/// How many ballots were submitted.
pub(crate) fn count_ballots(voters: &Vec<VoterRecord>) -> (r: usize)
    ensures
        r == submitted_ballots(voter_views(voters@)).len(),
{
    let mut c: usize = 0;
    let mut i: usize = 0;
    while i < voters.len()
        invariant
            i <= voters.len(),
            c <= i,
            c == submitted_ballots(voter_views(voters@.subrange(0, i as int))).len(),
        decreases voters.len() - i,
    {
        proof {
            lemma_views_subrange(voters@, i as int);
            let next = voter_views(voters@.subrange(0, i + 1));
            assert(next.last() == voters@[i as int]@);
        }
        match &voters[i].ballot {
            Some(_) => {
                c += 1;
            },
            _ => {},
        }
        i += 1;
    }
    assert(voters@.subrange(0, voters.len() as int) =~= voters@);
    c
}

/// A count as an `i32`: the largest `i32` where the count is larger.
pub(crate) fn to_i32(n: usize) -> (r: i32)
    ensures
        r == clamp_i32(n as nat),
{
    if n > i32::MAX as usize {
        i32::MAX
    } else {
        n as i32
    }
}

/// Why a voter cannot join the room, if it cannot: only an open room takes
/// voters.
pub open spec fn join_error(s: Option<StateView>) -> Option<RoomError> {
    match s {
        Some(st) => if st.room.status == RoomStatus::Open {
            None
        } else {
            Some(RoomError::RoomNotFound)
        },
        None => Some(RoomError::RoomNotFound),
    }
}

/// Whether a voter may join the room now.
pub fn can_join(slot: &Option<RoomState>) -> (r: Result<(), RoomError>)
    ensures
        match r {
            Ok(_) => join_error(slot_view(*slot)) is None,
            Err(e) => join_error(slot_view(*slot)) == Some(e),
        },
{
    match slot {
        Some(st) => if st.room.status == RoomStatus::Open {
            Ok(())
        } else {
            Err(RoomError::RoomNotFound)
        },
        None => Err(RoomError::RoomNotFound),
    }
}

/// Lets a voter join the room: draws the voter's secret. The store then
/// stores the voter, and `admit_voter` records it.
pub fn join_room(slot: &Option<RoomState>) -> (r: Result<String, RoomError>)
    ensures
        match r {
            Ok(code) => {
                &&& join_error(slot_view(*slot)) is None
                &&& code@.len() == 26
                &&& forall|i: int| 0 <= i < code@.len() ==> crockford_digit(#[trigger] code@[i])
            },
            Err(e) => join_error(slot_view(*slot)) == Some(e),
        },
{
    match slot {
        Some(st) => if st.room.status == RoomStatus::Open {
            Ok(generate_ulid())
        } else {
            Err(RoomError::RoomNotFound)
        },
        None => Err(RoomError::RoomNotFound),
    }
}

/// A voter that just joined: not approved, no ballot.
pub open spec fn joined_voter(room_id: i64, voter_id: i64, voter_code: Seq<char>) -> VoterView {
    VoterView { id: voter_id, room_id, voter_code, approved: false, ballot: None }
}

/// Records the voter that the store stored under `voter_id`, and returns
/// the events to publish: the new voter count, then the new voter.
pub fn admit_voter(state: &mut RoomState, voter_id: i64, voter_code: String) -> (events: Vec<
    RoomEvents,
>)
    ensures
        final(state)@ == (StateView {
            room: old(state)@.room,
            voters: old(state)@.voters.push(joined_voter(old(state).room.id, voter_id, voter_code@)),
        }),
        events@ == seq![
            RoomEvents::NewVoterCount(clamp_i32(final(state)@.voters.len())),
            RoomEvents::NewVoter(voter_id),
        ],
        state_wf(old(state)@) && voter_index(old(state)@.voters, voter_id) < 0 ==> state_wf(
            final(state)@,
        ),
{
    let ghost before = state.voters@;
    let room_id = state.room.id;
    state.voters.push(
        VoterRecord { id: voter_id, room_id, voter_code, approved: false, ballot: None },
    );
    assert(voter_views(state.voters@) =~= voter_views(before).push(
        joined_voter(room_id, voter_id, voter_code@),
    ));
    proof {
        lemma_voter_index_range(voter_views(before), voter_id);
    }
    let count = to_i32(state.voters.len());
    vec![RoomEvents::NewVoterCount(count), RoomEvents::NewVoter(voter_id)]
}

/// Why the admin secret `code` does not allow an operation on a room that
/// needs status `status`, if it does not. A wrong secret and a wrong status
/// both read as an absent room.
pub open spec fn admin_error(s: Option<StateView>, code: Seq<char>, status: RoomStatus) -> Option<
    RoomError,
> {
    match s {
        Some(st) => if st.room.status == status && st.room.admin_code == code {
            None
        } else {
            Some(RoomError::RoomNotFound)
        },
        None => Some(RoomError::RoomNotFound),
    }
}

/// The room with another status.
pub open spec fn with_status(st: StateView, status: RoomStatus) -> StateView {
    StateView {
        room: RoomView {
            id: st.room.id,
            name: st.room.name,
            options: st.room.options,
            admin_code: st.room.admin_code,
            status,
        },
        voters: st.voters,
    }
}

/// Whether `a` and `b` are the same text.
pub(crate) fn same_text(a: &String, b: &str) -> (r: bool)
    ensures
        r == (a@ == b@),
{
    let b = b.to_owned();
    *a == b
}

/// Opens the vote of an open room: sets it voting and returns the event
/// that hands the voters their ballot form, with the options.
pub fn start_vote(slot: &mut Option<RoomState>, admin_code: &str) -> (r: Result<
    Vec<RoomEvents>,
    RoomError,
>)
    ensures
        match r {
            Ok(events) => {
                &&& admin_error(slot_view(*old(slot)), admin_code@, RoomStatus::Open) is None
                &&& slot_view(*final(slot)) == Some(
                    with_status(slot_view(*old(slot))->0, RoomStatus::Voting),
                )
                &&& events@.len() == 1
                &&& match events@[0] {
                    RoomEvents::VoteStarted(o) => texts(o@) == slot_view(*old(slot))->0.room.options,
                    _ => false,
                }
            },
            Err(e) => {
                &&& admin_error(slot_view(*old(slot)), admin_code@, RoomStatus::Open) == Some(e)
                &&& *final(slot) == *old(slot)
            },
        },
        slot_view(*old(slot)) is Some && state_wf(slot_view(*old(slot))->0) ==> slot_view(
            *final(slot),
        ) is Some && state_wf(slot_view(*final(slot))->0),
{
    match slot.take() {
        None => Err(RoomError::RoomNotFound),
        Some(mut st) => {
            if st.room.status != RoomStatus::Open || !same_text(&st.room.admin_code, admin_code) {
                *slot = Some(st);
                return Err(RoomError::RoomNotFound);
            }
            st.room.status = RoomStatus::Voting;
            let options = clone_texts(&st.room.options);
            *slot = Some(st);
            Ok(vec![RoomEvents::VoteStarted(options)])
        },
    }
}

/// The room with its vote ended.
pub open spec fn end_state(s: Option<StateView>, code: Seq<char>) -> Option<StateView> {
    if admin_error(s, code, RoomStatus::Voting) is None {
        Some(with_status(s->0, RoomStatus::Ended))
    } else {
        s
    }
}

/// Ends the vote of a voting room: sets it ended, counts every submitted
/// ballot, tells the room's subscribers that voting has ended (a
/// `VoteEnded` event on the room's channel) and then closes that channel, so
/// that their streams end. On a refusal nothing is published.
pub fn end_vote(slot: &mut Option<RoomState>, admin_code: &str, bus: &mut Broadcasters) -> (r:
    Result<ResultPage, RoomError>)
    ensures
        slot_view(*final(slot)) == end_state(slot_view(*old(slot)), admin_code@),
        match r {
            Ok(page) => {
                let st = slot_view(*old(slot))->0;
                &&& admin_error(slot_view(*old(slot)), admin_code@, RoomStatus::Voting) is None
                &&& page.room_name@ == st.room.name
                &&& is_tally(score_views(page.scores@), st.room.options, submitted_ballots(st.voters))
                &&& final(bus).rooms() == old(bus).rooms().remove(st.room.id)
                &&& !final(bus).rooms().contains(st.room.id)
                &&& forall|r: i64| #[trigger]
                    final(bus).rooms().contains(r) ==> final(bus).channel(r) == old(bus).channel(r)
            },
            Err(e) => {
                &&& admin_error(slot_view(*old(slot)), admin_code@, RoomStatus::Voting) == Some(e)
                &&& *final(slot) == *old(slot)
                &&& *final(bus) == *old(bus)
            },
        },
        slot_view(*old(slot)) is Some && state_wf(slot_view(*old(slot))->0) ==> slot_view(
            *final(slot),
        ) is Some && state_wf(slot_view(*final(slot))->0),
{
    match slot.take() {
        None => Err(RoomError::RoomNotFound),
        Some(mut st) => {
            if st.room.status != RoomStatus::Voting || !same_text(&st.room.admin_code, admin_code) {
                *slot = Some(st);
                return Err(RoomError::RoomNotFound);
            }
            st.room.status = RoomStatus::Ended;
            let ballots = collect_ballots(&st.voters);
            let scores = tally(&st.room.options, &ballots);
            let room_name = st.room.name.clone();
            let room_id = st.room.id;
            *slot = Some(st);
            let ghost before = *bus;
            bus.send_event(room_id, RoomEvents::VoteEnded);
            let ghost mid = *bus;
            bus.end_stream(room_id);
            assert(bus.rooms() =~= before.rooms().remove(room_id));
            assert forall|r: i64| #[trigger] bus.rooms().contains(r) implies bus.channel(r)
                == before.channel(r) by {
                assert(mid.rooms().contains(r));
                assert(before.rooms().contains(r));
            }
            Ok(ResultPage { room_name, scores })
        },
    }
}

/// The slot once the room expired: empty, whatever the room's status.
pub open spec fn expire_state(s: Option<StateView>) -> Option<StateView> {
    None
}

/// How long a room lives, in seconds, from its creation.
pub const ROOM_LIFETIME_SECS: u64 = 3600;

/// Deletes the room and all of its voters, whatever the room's status;
/// nothing happens to a room that is already gone.
pub fn expire_room(slot: &mut Option<RoomState>)
    ensures
        slot_view(*final(slot)) == expire_state(slot_view(*old(slot))),
{
    *slot = None;
}

/// Expiry and the end of a vote both converge on the room being absent from
/// the store: ending an expired room is refused as not found and leaves it
/// absent; expiring removes a room whether or not its vote was ended; and
/// expiring a second time changes nothing.
pub proof fn expiry_and_end_converge(s: Option<StateView>, code: Seq<char>)
    ensures
        admin_error(expire_state(s), code, RoomStatus::Voting) == Some(RoomError::RoomNotFound),
        end_state(expire_state(s), code) is None,
        expire_state(end_state(s, code)) is None,
        expire_state(expire_state(s)) == expire_state(s),
{
}

/// Why the admin secret `code` does not allow approving voter `voter_id`,
/// if it does not. An unknown voter and a wrong secret read alike, so the
/// error tells nothing to a caller without the secret.
pub open spec fn approve_error(s: Option<StateView>, voter_id: i64, code: Seq<char>) -> Option<
    RoomError,
> {
    match s {
        None => Some(RoomError::VoterNotFound),
        Some(st) => if voter_index(st.voters, voter_id) < 0 || st.room.admin_code != code {
            Some(RoomError::VoterNotFound)
        } else {
            None
        },
    }
}

/// The voter with another approval.
pub open spec fn set_approved(v: VoterView, approved: bool) -> VoterView {
    VoterView {
        id: v.id,
        room_id: v.room_id,
        voter_code: v.voter_code,
        approved,
        ballot: v.ballot,
    }
}

/// The room once voter `voter_id` is approved.
pub open spec fn approve_state(st: StateView, voter_id: i64) -> StateView {
    let j = voter_index(st.voters, voter_id);
    StateView { room: st.room, voters: st.voters.update(j, set_approved(st.voters[j], true)) }
}

/// What approving voter `voter_id` publishes: its approval; and that the
/// vote can start, only when it becomes the room's first approved voter.
pub open spec fn approve_events(st: StateView, voter_id: i64) -> Seq<RoomEvents> {
    let j = voter_index(st.voters, voter_id);
    if st.voters[j].approved {
        seq![RoomEvents::VoterApproved(voter_id)]
    } else if approved_count(st.voters) == 0 {
        seq![RoomEvents::VoterApproved(voter_id), RoomEvents::VoteStartable(st.room.id)]
    } else {
        seq![RoomEvents::VoterApproved(voter_id)]
    }
}

/// Approves a voter of the room.
pub fn approve_voter(slot: &mut Option<RoomState>, voter_id: i64, admin_code: &str) -> (r: Result<
    Vec<RoomEvents>,
    RoomError,
>)
    ensures
        match r {
            Ok(events) => {
                &&& approve_error(slot_view(*old(slot)), voter_id, admin_code@) is None
                &&& slot_view(*final(slot)) == Some(
                    approve_state(slot_view(*old(slot))->0, voter_id),
                )
                &&& events@ == approve_events(slot_view(*old(slot))->0, voter_id)
            },
            Err(e) => {
                &&& approve_error(slot_view(*old(slot)), voter_id, admin_code@) == Some(e)
                &&& *final(slot) == *old(slot)
            },
        },
        slot_view(*old(slot)) is Some && state_wf(slot_view(*old(slot))->0) ==> slot_view(
            *final(slot),
        ) is Some && state_wf(slot_view(*final(slot))->0),
{
    match slot.take() {
        None => Err(RoomError::VoterNotFound),
        Some(mut st) => {
            let ghost before = st@;
            proof {
                lemma_voter_index_range(before.voters, voter_id);
            }
            let j = match find_voter(&st.voters, voter_id) {
                None => {
                    *slot = Some(st);
                    return Err(RoomError::VoterNotFound);
                },
                Some(j) => j,
            };
            if !same_text(&st.room.admin_code, admin_code) {
                *slot = Some(st);
                return Err(RoomError::VoterNotFound);
            }
            if st.voters[j].approved {
                assert(before.voters.update(j as int, set_approved(before.voters[j as int], true))
                    =~= before.voters);
                *slot = Some(st);
                return Ok(vec![RoomEvents::VoterApproved(voter_id)]);
            }
            let first = count_approved(&st.voters) == 0;
            let room_id = st.room.id;
            let ghost old_voters = st.voters@;
            let mut v = st.voters.remove(j);
            v.approved = true;
            st.voters.insert(j, v);
            assert(voter_views(st.voters@) =~= before.voters.update(
                j as int,
                set_approved(before.voters[j as int], true),
            )) by {
                assert(st.voters@ =~= old_voters.update(j as int, v));
            }
            *slot = Some(st);
            if first {
                Ok(vec![RoomEvents::VoterApproved(voter_id), RoomEvents::VoteStartable(room_id)])
            } else {
                Ok(vec![RoomEvents::VoterApproved(voter_id)])
            }
        },
    }
}

/// Approving is idempotent: approving a voter a second time changes nothing,
/// and publishes the approval again but not that the vote can start.
pub proof fn approve_is_idempotent(s: Option<StateView>, voter_id: i64, code: Seq<char>)
    requires
        approve_error(s, voter_id, code) is None,
    ensures
        approve_error(Some(approve_state(s->0, voter_id)), voter_id, code) is None,
        approve_state(approve_state(s->0, voter_id), voter_id) == approve_state(s->0, voter_id),
        approve_events(approve_state(s->0, voter_id), voter_id) == seq![
            RoomEvents::VoterApproved(voter_id),
        ],
{
    let st = s->0;
    let once = approve_state(st, voter_id);
    let j = voter_index(st.voters, voter_id);
    lemma_voter_index_range(st.voters, voter_id);
    lemma_voter_index_ids(st.voters, once.voters, voter_id);
    assert(once.voters.update(j, set_approved(once.voters[j], true)) =~= once.voters);
}

/// Why voter `voter_id`, with secret `code`, cannot submit `ballot`, if it
/// cannot. Only approved voters ballot: a voter not (yet) approved reads as
/// absent, as does a wrong secret.
pub open spec fn ballot_error(
    s: Option<StateView>,
    voter_id: i64,
    code: Seq<char>,
    ballot: Seq<Seq<char>>,
) -> Option<RoomError> {
    match s {
        None => Some(RoomError::VoterNotFound),
        Some(st) => {
            let j = voter_index(st.voters, voter_id);
            if j < 0 || st.voters[j].voter_code != code || !st.voters[j].approved {
                Some(RoomError::VoterNotFound)
            } else if st.room.status != RoomStatus::Voting {
                Some(RoomError::RoomNotFound)
            } else if !same_multiset(ballot, st.room.options) {
                Some(RoomError::UnknownOptions)
            } else {
                None
            }
        },
    }
}

/// The voter with another ballot.
pub open spec fn set_ballot(v: VoterView, ballot: Seq<Seq<char>>) -> VoterView {
    VoterView {
        id: v.id,
        room_id: v.room_id,
        voter_code: v.voter_code,
        approved: v.approved,
        ballot: Some(ballot),
    }
}

/// The room once voter `voter_id` submitted `ballot`; a later ballot
/// replaces an earlier one.
pub open spec fn ballot_state(st: StateView, voter_id: i64, ballot: Seq<Seq<char>>) -> StateView {
    let j = voter_index(st.voters, voter_id);
    StateView { room: st.room, voters: st.voters.update(j, set_ballot(st.voters[j], ballot)) }
}

/// What a ballot publishes: that the voter voted, the number of submitted
/// ballots, and that the vote can end when that number goes from zero to one.
pub open spec fn ballot_events(st: StateView, voter_id: i64, ballot: Seq<Seq<char>>) -> Seq<
    RoomEvents,
> {
    let after = ballot_state(st, voter_id, ballot);
    let counted = seq![
        RoomEvents::NewVote(voter_id),
        RoomEvents::NewVoteCount(clamp_i32(submitted_ballots(after.voters).len())),
    ];
    if submitted_ballots(st.voters).len() == 0 {
        counted.push(RoomEvents::VoteEndable(st.room.id))
    } else {
        counted
    }
}

/// Stores a voter's ballot: a ranking of all of the room's options, best
/// first.
pub fn vote(slot: &mut Option<RoomState>, voter_id: i64, voter_code: &str, ballot: Vec<String>) -> (r:
    Result<Vec<RoomEvents>, RoomError>)
    ensures
        match r {
            Ok(events) => {
                &&& ballot_error(slot_view(*old(slot)), voter_id, voter_code@, texts(ballot@)) is None
                &&& slot_view(*final(slot)) == Some(
                    ballot_state(slot_view(*old(slot))->0, voter_id, texts(ballot@)),
                )
                &&& events@ == ballot_events(slot_view(*old(slot))->0, voter_id, texts(ballot@))
            },
            Err(e) => {
                &&& ballot_error(slot_view(*old(slot)), voter_id, voter_code@, texts(ballot@))
                    == Some(e)
                &&& *final(slot) == *old(slot)
            },
        },
        slot_view(*old(slot)) is Some && state_wf(slot_view(*old(slot))->0) ==> slot_view(
            *final(slot),
        ) is Some && state_wf(slot_view(*final(slot))->0),
{
    match slot.take() {
        None => Err(RoomError::VoterNotFound),
        Some(mut st) => {
            let ghost before = st@;
            proof {
                lemma_voter_index_range(before.voters, voter_id);
            }
            let j = match find_voter(&st.voters, voter_id) {
                None => {
                    *slot = Some(st);
                    return Err(RoomError::VoterNotFound);
                },
                Some(j) => j,
            };
            if !same_text(&st.voters[j].voter_code, voter_code) || !st.voters[j].approved {
                *slot = Some(st);
                return Err(RoomError::VoterNotFound);
            }
            if st.room.status != RoomStatus::Voting {
                *slot = Some(st);
                return Err(RoomError::RoomNotFound);
            }
            if !same_options(&ballot, &st.room.options) {
                *slot = Some(st);
                return Err(RoomError::UnknownOptions);
            }
            let first = count_ballots(&st.voters) == 0;
            let ghost old_voters = st.voters@;
            let ghost texts_in = texts(ballot@);
            let mut v = st.voters.remove(j);
            v.ballot = Some(ballot);
            st.voters.insert(j, v);
            assert(voter_views(st.voters@) =~= before.voters.update(
                j as int,
                set_ballot(before.voters[j as int], texts_in),
            )) by {
                assert(st.voters@ =~= old_voters.update(j as int, v));
            }
            let counted = count_ballots(&st.voters);
            let count = to_i32(counted);
            let room_id = st.room.id;
            *slot = Some(st);
            let mut events = vec![RoomEvents::NewVote(voter_id), RoomEvents::NewVoteCount(count)];
            if first {
                events.push(RoomEvents::VoteEndable(room_id));
            }
            Ok(events)
        },
    }
}

/// Index of the first voter with secret `code`, or -1.
pub open spec fn code_index(v: Seq<VoterView>, code: Seq<char>) -> int
    decreases v.len(),
{
    if v.len() == 0 {
        -1
    } else {
        let k = code_index(v.drop_last(), code);
        if k >= 0 {
            k
        } else if v.last().voter_code == code {
            v.len() - 1
        } else {
            -1
        }
    }
}

/// The text of an optional secret.
pub open spec fn secret_view(c: Option<&str>) -> Option<Seq<char>> {
    match c {
        Some(s) => Some(s@),
        None => None,
    }
}

/// The role of a subscriber to the room's stream, from the secrets it
/// presents: the admin when the admin secret matches; else a voter of the
/// room when a voter secret matches; else anonymous.
pub open spec fn role_of(s: Option<StateView>, admin: Option<Seq<char>>, voter: Option<Seq<char>>) -> Role {
    match s {
        None => Role::Anonymous,
        Some(st) => if admin is Some && admin->0 == st.room.admin_code {
            Role::Admin(st.room.id)
        } else if voter is Some && code_index(st.voters, voter->0) >= 0 {
            Role::Voter(st.voters[code_index(st.voters, voter->0)].id)
        } else {
            Role::Anonymous
        },
    }
}

proof fn lemma_code_index_prefix(v: Seq<VoterView>, n: int, code: Seq<char>)
    requires
        0 <= n <= v.len(),
        code_index(v.subrange(0, n), code) >= 0,
    ensures
        code_index(v, code) == code_index(v.subrange(0, n), code),
    decreases v.len(),
{
    if n < v.len() {
        assert(v.drop_last().subrange(0, n) =~= v.subrange(0, n));
        lemma_code_index_prefix(v.drop_last(), n, code);
    } else {
        assert(v.subrange(0, n) =~= v);
    }
}

/// The role of a subscriber to the room's stream, from the secrets it
/// presents. A secret that matches nothing is no error: it gives the
/// anonymous role.
pub fn classify(slot: &Option<RoomState>, admin_code: Option<&str>, voter_code: Option<&str>) -> (r:
    Role)
    ensures
        r == role_of(slot_view(*slot), secret_view(admin_code), secret_view(voter_code)),
{
    let st = match slot {
        None => {
            return Role::Anonymous;
        },
        Some(st) => st,
    };
    if let Some(c) = admin_code {
        if same_text(&st.room.admin_code, c) {
            return Role::Admin(st.room.id);
        }
    }
    let c = match voter_code {
        None => {
            return Role::Anonymous;
        },
        Some(c) => c,
    };
    let ghost v = voter_views(st.voters@);
    let mut i: usize = 0;
    while i < st.voters.len()
        invariant
            i <= st.voters.len(),
            v == voter_views(st.voters@),
            slot_view(*slot) == Some(st@),
            secret_view(voter_code) == Some(c@),
            !(secret_view(admin_code) is Some && secret_view(admin_code)->0 == st.room.admin_code@),
            code_index(v.subrange(0, i as int), c@) == -1,
        decreases st.voters.len() - i,
    {
        proof {
            lemma_views_subrange(st.voters@, i as int);
            assert(voter_views(st.voters@.subrange(0, i as int)) =~= v.subrange(0, i as int));
            assert(voter_views(st.voters@.subrange(0, i + 1)) =~= v.subrange(0, i + 1));
        }
        if same_text(&st.voters[i].voter_code, c) {
            proof {
                assert(v.subrange(0, i + 1).drop_last() =~= v.subrange(0, i as int));
                assert(v.subrange(0, i + 1).last() == v[i as int]);
                assert(code_index(v.subrange(0, i + 1), c@) == i);
                lemma_code_index_prefix(v, i + 1, c@);
            }
            return Role::Voter(st.voters[i].id);
        }
        i += 1;
    }
    assert(v.subrange(0, st.voters.len() as int) =~= v);
    Role::Anonymous
}

/// Whether a ballot is accepted depends on its options as a multiset only:
/// reordering a ballot never changes the outcome of submitting it.
pub proof fn ballot_check_ignores_order(
    s: Option<StateView>,
    voter_id: i64,
    code: Seq<char>,
    a: Seq<Seq<char>>,
    b: Seq<Seq<char>>,
)
    requires
        a.to_multiset() == b.to_multiset(),
    ensures
        ballot_error(s, voter_id, code, a) == ballot_error(s, voter_id, code, b),
{
}

} // verus!
