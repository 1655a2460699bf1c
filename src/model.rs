//! Rooms and voters as the store holds them, and the errors of the engine.

use vstd::prelude::*;
use crate::options::{same_multiset, sorted_texts, texts};

verus! {

/// Where a room is in its life: open to voters, voting, or ended.
#[derive(Clone, Copy, Debug, PartialEq, Eq, Structural)]
pub enum RoomStatus {
    Open,
    Voting,
    Ended,
}

/// Why an operation was refused.
///
/// A secret that does not match is reported as the absence of what it
/// guards, as is a room in another status than the operation needs.
#[derive(Clone, Copy, Debug, PartialEq, Eq, Structural)]
pub enum RoomError {
    EmptyName,
    NoOptions,
    EmptyOption,
    RoomNotFound,
    VoterNotFound,
    UnknownOptions,
}

/// A room as stored.
#[derive(Debug)]
pub struct RoomRecord {
    pub id: i64,
    pub name: String,
    /// The options in canonical (sorted) order.
    pub options: Vec<String>,
    pub admin_code: String,
    pub status: RoomStatus,
}

/// A voter as stored.
#[derive(Debug)]
pub struct VoterRecord {
    pub id: i64,
    pub room_id: i64,
    pub voter_code: String,
    pub approved: bool,
    /// The ranking the voter submitted, best first.
    pub ballot: Option<Vec<String>>,
}

/// A room and all of its voters: what the store holds for one room.
#[derive(Debug)]
pub struct RoomState {
    pub room: RoomRecord,
    pub voters: Vec<VoterRecord>,
}

pub struct RoomView {
    pub id: i64,
    pub name: Seq<char>,
    pub options: Seq<Seq<char>>,
    pub admin_code: Seq<char>,
    pub status: RoomStatus,
}

pub struct VoterView {
    pub id: i64,
    pub room_id: i64,
    pub voter_code: Seq<char>,
    pub approved: bool,
    pub ballot: Option<Seq<Seq<char>>>,
}

pub struct StateView {
    pub room: RoomView,
    pub voters: Seq<VoterView>,
}

impl View for RoomRecord {
    type V = RoomView;

    open spec fn view(&self) -> RoomView {
        RoomView {
            id: self.id,
            name: self.name@,
            options: texts(self.options@),
            admin_code: self.admin_code@,
            status: self.status,
        }
    }
}

/// The texts of an optional ballot.
pub open spec fn ballot_view(b: Option<Vec<String>>) -> Option<Seq<Seq<char>>> {
    match b {
        Some(v) => Some(texts(v@)),
        None => None,
    }
}

impl View for VoterRecord {
    type V = VoterView;

    open spec fn view(&self) -> VoterView {
        VoterView {
            id: self.id,
            room_id: self.room_id,
            voter_code: self.voter_code@,
            approved: self.approved,
            ballot: ballot_view(self.ballot),
        }
    }
}

/// The views of a list of voters.
pub open spec fn voter_views(v: Seq<VoterRecord>) -> Seq<VoterView> {
    v.map_values(|x: VoterRecord| x@)
}

impl View for RoomState {
    type V = StateView;

    open spec fn view(&self) -> StateView {
        StateView { room: self.room@, voters: voter_views(self.voters@) }
    }
}

/// A valid room: a non-empty name; at least one option, none empty, in
/// canonical order; voters of this room only, each id once; every ballot a
/// reordering of the options.
pub open spec fn state_wf(s: StateView) -> bool {
    &&& s.room.name.len() > 0
    &&& s.room.options.len() > 0
    &&& forall|i: int| 0 <= i < s.room.options.len() ==> #[trigger] s.room.options[i].len() > 0
    &&& sorted_texts(s.room.options)
    &&& forall|j: int| 0 <= j < s.voters.len() ==> #[trigger] s.voters[j].room_id == s.room.id
    &&& forall|j: int, k: int|
        0 <= j < k < s.voters.len() ==> #[trigger] s.voters[j].id != #[trigger] s.voters[k].id
    &&& forall|j: int|
        0 <= j < s.voters.len() && #[trigger] s.voters[j].ballot is Some ==> same_multiset(
            s.voters[j].ballot->0,
            s.room.options,
        )
}

/// Index of the first voter with id `id`, or -1.
pub open spec fn voter_index(v: Seq<VoterView>, id: i64) -> int
    decreases v.len(),
{
    if v.len() == 0 {
        -1
    } else {
        let k = voter_index(v.drop_last(), id);
        if k >= 0 {
            k
        } else if v.last().id == id {
            v.len() - 1
        } else {
            -1
        }
    }
}

/// How many voters are approved.
pub open spec fn approved_count(v: Seq<VoterView>) -> nat
    decreases v.len(),
{
    if v.len() == 0 {
        0
    } else {
        approved_count(v.drop_last()) + if v.last().approved {
            1nat
        } else {
            0nat
        }
    }
}

/// The ballots submitted so far, in the voters' order.
pub open spec fn submitted_ballots(v: Seq<VoterView>) -> Seq<Seq<Seq<char>>>
    decreases v.len(),
{
    if v.len() == 0 {
        Seq::empty()
    } else {
        let b = submitted_ballots(v.drop_last());
        match v.last().ballot {
            Some(x) => b.push(x),
            None => b,
        }
    }
}

/// A count as an `i32`: the largest `i32` where the count is larger.
pub open spec fn clamp_i32(n: nat) -> i32 {
    if n > i32::MAX {
        i32::MAX
    } else {
        n as i32
    }
}

} // verus!
