//! What the pages of a room show, computed from the store's records.

use vstd::prelude::*;
use crate::lifecycle::{
    admin_error, count_ballots, find_voter, lemma_voter_index_range, same_text, slot_view, to_i32,
};
use crate::model::{
    clamp_i32, submitted_ballots, voter_index, voter_views, RoomError, RoomState, RoomStatus,
    StateView, VoterView,
};
use crate::options::{clone_texts, texts};
use crate::tally::Score;

verus! {

/// A voter's page.
#[derive(Debug)]
pub struct VoterPage {
    pub id: i64,
    pub room_id: i64,
    pub room_name: String,
    pub voter_count: i32,
    pub approved: bool,
}

/// A row of the admin's page while voting: an approved voter and whether
/// its ballot is in.
#[derive(Debug, Clone, Copy, PartialEq, Eq, Structural)]
pub struct Voter {
    pub id: i64,
    pub voted: bool,
}

/// The admin's page while voting.
#[derive(Debug)]
pub struct VoteAdminPage {
    pub room_id: i64,
    pub room_name: String,
    pub recorded_votes: i32,
    pub approved_voters: Vec<Voter>,
}

/// The page of a vote's result.
#[derive(Debug)]
pub struct ResultPage {
    pub room_name: String,
    pub scores: Vec<Score>,
}

/// A row of the admin's page while the room is open.
#[derive(Debug, Clone, Copy, PartialEq, Eq, Structural)]
pub struct RoomVoter {
    pub id: i64,
    pub approved: bool,
}

/// The admin's page while the room is open.
#[derive(Debug)]
pub struct RoomPage {
    pub id: i64,
    pub name: String,
    pub options: Vec<String>,
    pub voters: Vec<RoomVoter>,
}

/// The rows of the admin's page of an open room: every voter, in order.
pub open spec fn room_rows(v: Seq<VoterView>) -> Seq<RoomVoter> {
    v.map_values(|x: VoterView| RoomVoter { id: x.id, approved: x.approved })
}

/// The admin's page of an open room.
pub fn room_page(slot: &Option<RoomState>, admin_code: &str) -> (r: Result<RoomPage, RoomError>)
    ensures
        match r {
            Ok(p) => {
                let st = slot_view(*slot)->0;
                &&& admin_error(slot_view(*slot), admin_code@, RoomStatus::Open) is None
                &&& p.id == st.room.id
                &&& p.name@ == st.room.name
                &&& texts(p.options@) == st.room.options
                &&& p.voters@ == room_rows(st.voters)
            },
            Err(e) => admin_error(slot_view(*slot), admin_code@, RoomStatus::Open) == Some(e),
        },
{
    let st = match slot {
        None => {
            return Err(RoomError::RoomNotFound);
        },
        Some(st) => st,
    };
    if st.room.status != RoomStatus::Open || !same_text(&st.room.admin_code, admin_code) {
        return Err(RoomError::RoomNotFound);
    }
    let ghost v = voter_views(st.voters@);
    let mut rows: Vec<RoomVoter> = Vec::new();
    let mut i: usize = 0;
    while i < st.voters.len()
        invariant
            i <= st.voters.len(),
            v == voter_views(st.voters@),
            rows@ == room_rows(v.subrange(0, i as int)),
        decreases st.voters.len() - i,
    {
        rows.push(RoomVoter { id: st.voters[i].id, approved: st.voters[i].approved });
        assert(room_rows(v.subrange(0, i + 1)) =~= room_rows(v.subrange(0, i as int)).push(
            RoomVoter { id: v[i as int].id, approved: v[i as int].approved },
        ));
        i += 1;
    }
    assert(v.subrange(0, st.voters.len() as int) =~= v);
    Ok(RoomPage { id: st.room.id, name: st.room.name.clone(), options: clone_texts(&st.room.options), voters: rows })
}

/// Why voter `voter_id`, with secret `code`, cannot see its page, if it
/// cannot: the page is shown while the room is open.
pub open spec fn voter_page_error(s: Option<StateView>, voter_id: i64, code: Seq<char>) -> Option<
    RoomError,
> {
    match s {
        None => Some(RoomError::VoterNotFound),
        Some(st) => {
            let j = voter_index(st.voters, voter_id);
            if j < 0 || st.voters[j].voter_code != code {
                Some(RoomError::VoterNotFound)
            } else if st.room.status != RoomStatus::Open {
                Some(RoomError::RoomNotFound)
            } else {
                None
            }
        },
    }
}

/// A voter's page.
pub fn voter_page(slot: &Option<RoomState>, voter_id: i64, voter_code: &str) -> (r: Result<
    VoterPage,
    RoomError,
>)
    ensures
        match r {
            Ok(p) => {
                let st = slot_view(*slot)->0;
                &&& voter_page_error(slot_view(*slot), voter_id, voter_code@) is None
                &&& p.id == voter_id
                &&& p.room_id == st.room.id
                &&& p.room_name@ == st.room.name
                &&& p.voter_count == clamp_i32(st.voters.len())
                &&& p.approved == st.voters[voter_index(st.voters, voter_id)].approved
            },
            Err(e) => voter_page_error(slot_view(*slot), voter_id, voter_code@) == Some(e),
        },
{
    let st = match slot {
        None => {
            return Err(RoomError::VoterNotFound);
        },
        Some(st) => st,
    };
    proof {
        lemma_voter_index_range(st@.voters, voter_id);
    }
    let j = match find_voter(&st.voters, voter_id) {
        None => {
            return Err(RoomError::VoterNotFound);
        },
        Some(j) => j,
    };
    if !same_text(&st.voters[j].voter_code, voter_code) {
        return Err(RoomError::VoterNotFound);
    }
    if st.room.status != RoomStatus::Open {
        return Err(RoomError::RoomNotFound);
    }
    Ok(
        VoterPage {
            id: voter_id,
            room_id: st.room.id,
            room_name: st.room.name.clone(),
            voter_count: to_i32(st.voters.len()),
            approved: st.voters[j].approved,
        },
    )
}

/// The rows of the admin's page while voting: the approved voters, in
/// order, each with whether its ballot is in.
pub open spec fn approved_rows(v: Seq<VoterView>) -> Seq<Voter>
    decreases v.len(),
{
    if v.len() == 0 {
        Seq::empty()
    } else {
        let r = approved_rows(v.drop_last());
        if v.last().approved {
            r.push(Voter { id: v.last().id, voted: v.last().ballot is Some })
        } else {
            r
        }
    }
}

/// The admin's page while voting.
pub fn vote_admin_page(state: &RoomState) -> (p: VoteAdminPage)
    ensures
        p.room_id == state.room.id,
        p.room_name@ == state.room.name@,
        p.recorded_votes == clamp_i32(submitted_ballots(state@.voters).len()),
        p.approved_voters@ == approved_rows(state@.voters),
{
    let ghost v = voter_views(state.voters@);
    let mut rows: Vec<Voter> = Vec::new();
    let mut i: usize = 0;
    while i < state.voters.len()
        invariant
            i <= state.voters.len(),
            v == voter_views(state.voters@),
            rows@ == approved_rows(v.subrange(0, i as int)),
        decreases state.voters.len() - i,
    {
        let ghost pre = v.subrange(0, i as int);
        assert(v.subrange(0, i + 1).drop_last() =~= pre);
        assert(v.subrange(0, i + 1).last() == v[i as int]);
        if state.voters[i].approved {
            let voted = state.voters[i].ballot.is_some();
            rows.push(Voter { id: state.voters[i].id, voted });
        }
        i += 1;
    }
    assert(v.subrange(0, state.voters.len() as int) =~= v);
    VoteAdminPage {
        room_id: state.room.id,
        room_name: state.room.name.clone(),
        recorded_votes: to_i32(count_ballots(&state.voters)),
        approved_voters: rows,
    }
}

} // verus!
