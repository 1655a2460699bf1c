//! Live room events: what is published, how each subscriber role sees it,
//! and the per-room broadcast channels.

use std::collections::HashMap;
use tokio::sync::broadcast::{Receiver, Sender};
use vstd::prelude::*;
use crate::text::{vote_event, voter_approved_event};

verus! {

broadcast use vstd::std_specs::hash::group_hash_axioms;

/// Something that happened in a room. Events are never stored.
#[derive(Clone, Debug, PartialEq, Eq)]
pub enum RoomEvents {
    NewVoter(i64),
    NewVoterCount(i32),
    VoterApproved(i64),
    VoteStartable(i64),
    VoteEndable(i64),
    VoteStarted(Vec<String>),
    VoteEnded,
    NewVote(i64),
    NewVoteCount(i32),
}

/// Who listens on a room's stream, fixed when the stream is opened.
#[derive(Clone, Copy, Debug, PartialEq, Eq, Structural)]
pub enum Role {
    /// The admin of the room with this id.
    Admin(i64),
    /// The voter with this id.
    Voter(i64),
    /// Anyone else: receives heartbeats only.
    Anonymous,
}

/// What one subscriber is sent for one event.
#[derive(Debug)]
pub enum Projection {
    /// The number of voters in the room.
    VoterCount(i32),
    /// A new row in the admin's list of voters.
    NewVoterRow(i64),
    /// The admin's row of a voter, now approved.
    VoterApprovedRow(i64),
    /// The voter's own notice that it was approved.
    VoterApprovedNotice(i64),
    /// The ballot form of a voter, with the options to rank.
    BallotForm(i64, Vec<String>),
    /// The admin's mark that a voter's ballot was recorded.
    VoteRecorded(i64),
    /// The number of recorded ballots.
    VoteCount(i32),
    /// The voters' notice that voting has ended.
    VoteEndedNotice,
    /// The admin's button that starts the vote of a room.
    StartButton(i64),
    /// The admin's button that ends the vote of a room.
    EndButton(i64),
    /// Nothing to show: keeps the connection alive.
    Heartbeat,
}

pub const VOTER_COUNT_EVENT: &'static str = "voter-count";
pub const NEW_VOTER_EVENT: &'static str = "voter";
pub const VOTE_STARTED_EVENT: &'static str = "vote-started";
pub const VOTE_ENDED_EVENT: &'static str = "vote-ended";
pub const VOTE_COUNT_EVENT: &'static str = "vote-count";
pub const VOTE_STARTABLE_EVENT: &'static str = "vote-startable";
pub const VOTE_ENDABLE_EVENT: &'static str = "vote-endable";
pub const PING_EVENT: &'static str = "ping";

/// The projection table: for every event and every role, what is sent.
pub open spec fn projection_of(e: RoomEvents, role: Role) -> Projection {
    match (e, role) {
        (RoomEvents::NewVoterCount(c), Role::Admin(_)) => Projection::VoterCount(c),
        (RoomEvents::NewVoterCount(c), Role::Voter(_)) => Projection::VoterCount(c),
        (RoomEvents::NewVoter(v), Role::Admin(_)) => Projection::NewVoterRow(v),
        (RoomEvents::VoterApproved(v), Role::Admin(_)) => Projection::VoterApprovedRow(v),
        (RoomEvents::VoterApproved(v), Role::Voter(me)) => if v == me {
            Projection::VoterApprovedNotice(v)
        } else {
            Projection::Heartbeat
        },
        (RoomEvents::VoteStarted(o), Role::Voter(me)) => Projection::BallotForm(me, o),
        (RoomEvents::NewVote(v), Role::Admin(_)) => Projection::VoteRecorded(v),
        (RoomEvents::NewVoteCount(c), Role::Admin(_)) => Projection::VoteCount(c),
        (RoomEvents::VoteEnded, Role::Voter(_)) => Projection::VoteEndedNotice,
        (RoomEvents::VoteStartable(r), Role::Admin(_)) => Projection::StartButton(r),
        (RoomEvents::VoteEndable(r), Role::Admin(_)) => Projection::EndButton(r),
        _ => Projection::Heartbeat,
    }
}

/// What a subscriber of the given role is sent for `e`.
pub fn project(e: RoomEvents, role: Role) -> (r: Projection)
    ensures
        r == projection_of(e, role),
{
    match (e, role) {
        (RoomEvents::NewVoterCount(c), Role::Admin(_)) => Projection::VoterCount(c),
        (RoomEvents::NewVoterCount(c), Role::Voter(_)) => Projection::VoterCount(c),
        (RoomEvents::NewVoter(v), Role::Admin(_)) => Projection::NewVoterRow(v),
        (RoomEvents::VoterApproved(v), Role::Admin(_)) => Projection::VoterApprovedRow(v),
        (RoomEvents::VoterApproved(v), Role::Voter(me)) => if v == me {
            Projection::VoterApprovedNotice(v)
        } else {
            Projection::Heartbeat
        },
        (RoomEvents::VoteStarted(o), Role::Voter(me)) => Projection::BallotForm(me, o),
        (RoomEvents::NewVote(v), Role::Admin(_)) => Projection::VoteRecorded(v),
        (RoomEvents::NewVoteCount(c), Role::Admin(_)) => Projection::VoteCount(c),
        (RoomEvents::VoteEnded, Role::Voter(_)) => Projection::VoteEndedNotice,
        (RoomEvents::VoteStartable(r), Role::Admin(_)) => Projection::StartButton(r),
        (RoomEvents::VoteEndable(r), Role::Admin(_)) => Projection::EndButton(r),
        _ => Projection::Heartbeat,
    }
}

/// The name under which a projection is sent on the stream.
pub open spec fn event_name_of(p: Projection) -> Seq<char> {
    match p {
        Projection::VoterCount(_) => "voter-count"@,
        Projection::NewVoterRow(_) => "voter"@,
        Projection::VoterApprovedRow(v) => "voter-approved:"@ + crate::text::int_decimal(v as int),
        Projection::VoterApprovedNotice(v) => "voter-approved:"@ + crate::text::int_decimal(
            v as int,
        ),
        Projection::BallotForm(_, _) => "vote-started"@,
        Projection::VoteRecorded(v) => "vote:"@ + crate::text::int_decimal(v as int),
        Projection::VoteCount(_) => "vote-count"@,
        Projection::VoteEndedNotice => "vote-ended"@,
        Projection::StartButton(_) => "vote-startable"@,
        Projection::EndButton(_) => "vote-endable"@,
        Projection::Heartbeat => "ping"@,
    }
}

impl Projection {
    /// The name under which this projection is sent on the stream.
    pub fn event_name(&self) -> (r: String)
        ensures
            r@ == event_name_of(*self),
    {
        match self {
            Projection::VoterCount(_) => VOTER_COUNT_EVENT.to_owned(),
            Projection::NewVoterRow(_) => NEW_VOTER_EVENT.to_owned(),
            Projection::VoterApprovedRow(v) => voter_approved_event(*v),
            Projection::VoterApprovedNotice(v) => voter_approved_event(*v),
            Projection::BallotForm(_, _) => VOTE_STARTED_EVENT.to_owned(),
            Projection::VoteRecorded(v) => vote_event(*v),
            Projection::VoteCount(_) => VOTE_COUNT_EVENT.to_owned(),
            Projection::VoteEndedNotice => VOTE_ENDED_EVENT.to_owned(),
            Projection::StartButton(_) => VOTE_STARTABLE_EVENT.to_owned(),
            Projection::EndButton(_) => VOTE_ENDABLE_EVENT.to_owned(),
            Projection::Heartbeat => PING_EVENT.to_owned(),
        }
    }
}

#[verifier::external_type_specification]
#[verifier::external_body]
#[verifier::reject_recursive_types(T)]
pub struct ExSender<T>(Sender<T>);

#[verifier::external_type_specification]
#[verifier::external_body]
#[verifier::reject_recursive_types(T)]
pub struct ExReceiver<T>(Receiver<T>);

/// The events handed to a channel's sender so far, oldest first, whether or
/// not a receiver was there to take them.
pub uninterp spec fn sent_on(tx: Sender<RoomEvents>) -> Seq<RoomEvents>;

/// Which channel a sender belongs to.
pub uninterp spec fn channel_key(tx: Sender<RoomEvents>) -> int;

/// Which channel a receiver listens to.
pub uninterp spec fn listens_to(rx: Receiver<RoomEvents>) -> int;

/// The first event a receiver hears, as a position in what its channel's
/// sender has carried: it hears that event and every later one, none before.
pub uninterp spec fn first_heard(rx: Receiver<RoomEvents>) -> nat;

/// Relies on `tokio::sync::broadcast::channel`: a new channel, which has
/// carried nothing yet, that buffers `capacity` events, rounded up to a power
/// of two, for its receivers. It panics on a capacity of zero or above
/// `usize::MAX / 2`. Its first receiver is dropped at once.
#[verifier::external_body]
fn open_channel(capacity: usize) -> (tx: Sender<RoomEvents>)
    requires
        0 < capacity <= usize::MAX / 2,
    ensures
        sent_on(tx) == Seq::<RoomEvents>::empty(),
{
    tokio::sync::broadcast::channel(capacity).0
}

/// Relies on `Sender::send`: `event` is written at the tail of the channel,
/// after every earlier one, for every receiver alive now; with no receiver
/// it is dropped. The sender stays on its channel.
#[verifier::external_body]
fn deliver(tx: &mut Sender<RoomEvents>, event: RoomEvents)
    ensures
        sent_on(*final(tx)) == sent_on(*old(tx)).push(event),
        channel_key(*final(tx)) == channel_key(*old(tx)),
{
    let _ = tx.send(event);
}

/// Relies on `Sender::subscribe`: a receiver on the sender's channel of the
/// events sent after this call, and of no earlier one. (It panics only when
/// `usize::MAX >> 2` receivers of one channel are alive at once.)
#[verifier::external_body]
fn subscribe(tx: &Sender<RoomEvents>) -> (rx: Receiver<RoomEvents>)
    ensures
        listens_to(rx) == channel_key(*tx),
        first_heard(rx) == sent_on(*tx).len(),
{
    tx.subscribe()
}

/// How many undelivered events each room channel buffers per receiver; a
/// receiver further behind skips the oldest.
pub const CHANNEL_CAPACITY: usize = 16;

/// The live channels, one per room, created on first use.
pub struct Broadcasters {
    channels: HashMap<i64, Sender<RoomEvents>>,
}

impl Broadcasters {
    /// The rooms that have a channel.
    pub closed spec fn rooms(&self) -> Set<i64> {
        self.channels@.dom()
    }

    /// The channel of a room.
    pub closed spec fn channel(&self, room_id: i64) -> Sender<RoomEvents> {
        self.channels@[room_id]
    }

    /// What the room's channel has carried; nothing for a room without one.
    pub open spec fn carried(&self, room_id: i64) -> Seq<RoomEvents> {
        if self.rooms().contains(room_id) {
            sent_on(self.channel(room_id))
        } else {
            Seq::empty()
        }
    }

    /// No channel yet.
    pub fn new() -> (r: Self)
        ensures
            r.rooms() == Set::<i64>::empty(),
    {
        Broadcasters { channels: HashMap::new() }
    }

    /// The room's channel, opened now if it has none, taken out of the map.
    fn take_channel(&mut self, room_id: i64) -> (tx: Sender<RoomEvents>)
        ensures
            final(self).rooms() == old(self).rooms().remove(room_id),
            forall|r: i64| #[trigger]
                final(self).rooms().contains(r) ==> final(self).channel(r) == old(self).channel(r),
            sent_on(tx) == old(self).carried(room_id),
            old(self).rooms().contains(room_id) ==> tx == old(self).channel(room_id),
    {
        let tx = match self.channels.remove(&room_id) {
            Some(tx) => tx,
            None => open_channel(CHANNEL_CAPACITY),
        };
        assert(self.channels@.dom() =~= old(self).channels@.dom().remove(room_id));
        tx
    }

    /// Puts the room's channel back.
    fn put_channel(&mut self, room_id: i64, tx: Sender<RoomEvents>)
        ensures
            final(self).rooms() == old(self).rooms().insert(room_id),
            final(self).channel(room_id) == tx,
            forall|r: i64| #[trigger]
                old(self).rooms().contains(r) && r != room_id ==> final(self).channel(r)
                    == old(self).channel(r),
    {
        self.channels.insert(room_id, tx);
        assert(self.channels@.dom() =~= old(self).channels@.dom().insert(room_id));
    }

    /// Sends `event` on the room's channel, opened now if it has none, after
    /// every event sent there before; it reaches the room's current
    /// subscribers only. With none, the event is lost: events are a live
    /// notification, not a log.
    pub fn send_event(&mut self, room_id: i64, event: RoomEvents)
        ensures
            final(self).rooms() == old(self).rooms().insert(room_id),
            final(self).carried(room_id) == old(self).carried(room_id).push(event),
            old(self).rooms().contains(room_id) ==> channel_key(final(self).channel(room_id))
                == channel_key(old(self).channel(room_id)),
            forall|r: i64| #[trigger]
                old(self).rooms().contains(r) && r != room_id ==> final(self).channel(r)
                    == old(self).channel(r),
    {
        let mut tx = self.take_channel(room_id);
        let ghost mid = *self;
        deliver(&mut tx, event);
        self.put_channel(room_id, tx);
        assert(self.rooms() =~= old(self).rooms().insert(room_id));
        assert forall|r: i64| #[trigger]
            old(self).rooms().contains(r) && r != room_id implies self.channel(r) == old(
                self,
            ).channel(r) by {
            assert(mid.rooms().contains(r));
        }
    }

    /// A subscription to the room's channel, opened now if it has none: it
    /// hears the events sent there from now on, and none sent before.
    pub fn get_stream(&mut self, room_id: i64) -> (rx: Receiver<RoomEvents>)
        ensures
            final(self).rooms() == old(self).rooms().insert(room_id),
            final(self).carried(room_id) == old(self).carried(room_id),
            old(self).rooms().contains(room_id) ==> final(self).channel(room_id) == old(
                self,
            ).channel(room_id),
            listens_to(rx) == channel_key(final(self).channel(room_id)),
            first_heard(rx) == final(self).carried(room_id).len(),
            forall|r: i64| #[trigger]
                old(self).rooms().contains(r) ==> final(self).channel(r) == old(self).channel(r),
    {
        let tx = self.take_channel(room_id);
        let ghost mid = *self;
        let rx = subscribe(&tx);
        self.put_channel(room_id, tx);
        assert(self.rooms() =~= old(self).rooms().insert(room_id));
        assert forall|r: i64| #[trigger]
            old(self).rooms().contains(r) implies self.channel(r) == old(self).channel(r) by {
            if r != room_id {
                assert(mid.rooms().contains(r));
            }
        }
        rx
    }

    /// Closes the room's channel: once the last sender is gone its
    /// subscriptions end, and a later event for the room opens a new channel,
    /// which has carried nothing before it. Nothing happens to a room
    /// without a channel.
    pub fn end_stream(&mut self, room_id: i64)
        ensures
            final(self).rooms() == old(self).rooms().remove(room_id),
            final(self).carried(room_id) == Seq::<RoomEvents>::empty(),
            forall|r: i64| #[trigger]
                final(self).rooms().contains(r) ==> final(self).channel(r) == old(self).channel(r),
    {
        self.channels.remove(&room_id);
        assert(self.channels@.dom() =~= old(self).channels@.dom().remove(room_id));
    }

    /// Publishes the events of one operation on the room's channel, in order.
    pub fn publish_all(&mut self, room_id: i64, events: Vec<RoomEvents>)
        ensures
            events@.len() > 0 ==> final(self).rooms() == old(self).rooms().insert(room_id),
            events@.len() == 0 ==> final(self).rooms() == old(self).rooms(),
            final(self).carried(room_id) == old(self).carried(room_id) + events@,
            old(self).rooms().contains(room_id) ==> channel_key(final(self).channel(room_id))
                == channel_key(old(self).channel(room_id)),
            forall|r: i64| #[trigger]
                old(self).rooms().contains(r) && r != room_id ==> final(self).channel(r)
                    == old(self).channel(r),
    {
        let ghost all = events@;
        let mut events = events;
        let n = events.len();
        let mut sent: usize = 0;
        while events.len() > 0
            invariant
                sent + events.len() == n,
                n == all.len(),
                events@ == all.subrange(sent as int, n as int),
                sent > 0 ==> self.rooms() == old(self).rooms().insert(room_id),
                sent == 0 ==> self.rooms() == old(self).rooms(),
                self.carried(room_id) == old(self).carried(room_id) + all.subrange(0, sent as int),
                old(self).rooms().contains(room_id) ==> self.rooms().contains(room_id) && channel_key(
                    self.channel(room_id),
                ) == channel_key(old(self).channel(room_id)),
                forall|r: i64| #[trigger]
                    old(self).rooms().contains(r) && r != room_id ==> self.channel(r) == old(
                        self,
                    ).channel(r),
            decreases events.len(),
        {
            let e = events.remove(0);
            let ghost prev = *self;
            self.send_event(room_id, e);
            assert(self.rooms() =~= old(self).rooms().insert(room_id));
            assert(all.subrange(0, sent + 1) =~= all.subrange(0, sent as int).push(e));
            assert(events@ =~= all.subrange(sent + 1, n as int));
            assert forall|r: i64| #[trigger]
                old(self).rooms().contains(r) && r != room_id implies self.channel(r) == old(
                    self,
                ).channel(r) by {
                assert(prev.rooms().contains(r));
            }
            sent += 1;
        }
        assert(all.subrange(0, n as int) =~= all);
    }
}

} // verus!
