//! Coordination engine for ephemeral ranked-choice voting rooms: the room
//! life cycle and voter registry, the per-room event bus with its role
//! projection, the rank-aggregation tally, and room expiry.

use vstd::prelude::*;

pub mod events;
pub mod lifecycle;
pub mod model;
pub mod options;
pub mod pages;
pub mod tally;
pub mod text;

pub use events::{project, Broadcasters, Projection, Role, RoomEvents};
pub use lifecycle::{
    admit_voter, approve_voter, can_join, classify, create_room, end_vote, expire_room, join_room,
    start_vote, validate_room, vote, NewRoom, ROOM_LIFETIME_SECS,
};
pub use model::{RoomError, RoomRecord, RoomState, RoomStatus, VoterRecord};
pub use pages::{
    room_page, vote_admin_page, voter_page, ResultPage, RoomPage, RoomVoter, VoteAdminPage,
    VoterPage, Voter,
};
pub use tally::{tally, Score};
pub use text::{
    approve_voter_url, cookie, end_vote_url, generate_ulid, join_room_url, pluralize,
    room_listen_url, room_page_url, rooms_url, start_vote_url, vote_event, vote_url,
    voter_approved_event, voter_page_url,
};

verus! {

} // verus!
