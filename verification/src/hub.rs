use vstd::prelude::*;

use crate::chat::{enriched, valid_message, Chat, MAX_MESSAGE_LEN};
use crate::codec::{decode_inbound, decode_inbound_spec};
use crate::counter::{bumped, DeliveryCounter};
use crate::registry::{after_get_or_create, has_room, rooms_wf, Registry};
use crate::room::{room_publish, RoomView};
use vstd::string::StrSliceExecFns;

verus! {

/// The ghost state of the whole hub: every room, and the process-wide
/// count of successful deliveries.
#[verifier::ext_equal]
pub struct HubView {
    pub rooms: Seq<RoomView>,
    pub delivered: u64,
}

/// The hub's state after the reader half accepts or rejects one decoded
/// message body: a valid body is enriched with the sender's name and
/// broadcast in the sender's room; an oversized body changes nothing.
/// Accepting never touches the delivery counter.
pub open spec fn hub_accept(h: HubView, i: int, name: Seq<char>, m: Seq<char>) -> HubView {
    if valid_message(m) {
        HubView {
            rooms: h.rooms.update(i, room_publish(h.rooms[i], enriched(name, m))),
            delivered: h.delivered,
        }
    } else {
        h
    }
}

/// The hub's state after the reader half handles one raw inbound text
/// frame: a frame of the wire shape is decoded and its body accepted or
/// rejected; any other frame is silently discarded.
pub open spec fn hub_frame_step(h: HubView, i: int, name: Seq<char>, frame: Seq<char>) -> HubView {
    match decode_inbound_spec(frame) {
        Some(m) => hub_accept(h, i, name, m),
        None => h,
    }
}

/// The hub's state after a new subscription is attached to the room at
/// one index: the subscription starts with an empty buffer.
pub open spec fn hub_subscribe(h: HubView, i: int) -> HubView {
    if 0 <= i < h.rooms.len() {
        HubView {
            rooms: h.rooms.update(
                i,
                RoomView { id: h.rooms[i].id, subs: h.rooms[i].subs.push(Seq::empty()) },
            ),
            delivered: h.delivered,
        }
    } else {
        h
    }
}

/// The hub's state after one subscriber consumes its oldest buffered
/// message.  Consuming counts no delivery.
pub open spec fn hub_consume(h: HubView, i: int, k: int) -> HubView {
    if 0 <= i < h.rooms.len() && 0 <= k < h.rooms[i].subs.len() && h.rooms[i].subs[k].len() > 0 {
        HubView {
            rooms: h.rooms.update(
                i,
                (RoomView {
                    id: h.rooms[i].id,
                    subs: h.rooms[i].subs.update(k, h.rooms[i].subs[k].skip(1)),
                }),
            ),
            delivered: h.delivered,
        }
    } else {
        h
    }
}

/// The hub's state after the registry resolves a create-or-fetch.
pub open spec fn hub_create_room(h: HubView, id: u64) -> HubView {
    HubView { rooms: after_get_or_create(h.rooms, id), delivered: h.delivered }
}

/// The hub's state after one transport-confirmed delivery is recorded:
/// the rooms are untouched and the counter moves up.
pub open spec fn hub_record(h: HubView) -> HubView {
    HubView { rooms: h.rooms, delivered: bumped(h.delivered) }
}

/// The hub's state after the operator's reset: the rooms are untouched
/// and the counter is zero, whatever it was before.
pub open spec fn hub_reset(h: HubView) -> HubView {
    HubView { rooms: h.rooms, delivered: 0 }
}

/// The root of the broadcast subsystem: owns the room registry and the
/// delivery counter, and exposes join, publish, delivery accounting,
/// reset and query to the connection layer.
pub struct Hub {
    registry: Registry,
    counter: DeliveryCounter,
}

impl View for Hub {
    type V = HubView;

    closed spec fn view(&self) -> HubView {
        HubView { rooms: self.registry@, delivered: self.counter@ }
    }
}

impl Hub {
    /// Room identifiers are distinct and every buffer is bounded.
    pub open spec fn wf(&self) -> bool {
        rooms_wf(self@.rooms)
    }

    /// A fresh hub: no rooms, no deliveries counted.
    pub fn new() -> (h: Hub)
        ensures
            h@.rooms == Seq::<RoomView>::empty(),
            h@.delivered == 0,
            h.wf(),
    {
        Hub { registry: Registry::new(), counter: DeliveryCounter::new() }
    }

    /// Create-or-fetch the room with this identifier and return its index.
    /// Exactly one room exists per identifier; a second call with the same
    /// identifier returns the same room and changes nothing.
    pub fn get_or_create_room(&mut self, id: u64) -> (idx: usize)
        requires
            old(self).wf(),
        ensures
            final(self).wf(),
            final(self)@ == hub_create_room(old(self)@, id),
            final(self)@.rooms == after_get_or_create(old(self)@.rooms, id),
            final(self)@.delivered == old(self)@.delivered,
            idx < final(self)@.rooms.len(),
            final(self)@.rooms[idx as int].id == id,
            has_room(old(self)@.rooms, id) ==> final(self)@.rooms == old(self)@.rooms,
            !has_room(old(self)@.rooms, id) ==> idx == old(self)@.rooms.len(),
    {
        let idx = self.registry.get_or_create(id);
        proof {
            assert(self@ =~= hub_create_room(old(self)@, id));
        }
        idx
    }

    /// Subscribe a new connection's writer half to the room at this index.
    /// The new subscription starts empty: it observes only messages
    /// published after this call.
    pub fn subscribe(&mut self, room_idx: usize) -> (sub: usize)
        requires
            old(self).wf(),
            room_idx < old(self)@.rooms.len(),
        ensures
            final(self).wf(),
            final(self)@ == hub_subscribe(old(self)@, room_idx as int),
            final(self)@.delivered == old(self)@.delivered,
            final(self)@.rooms == old(self)@.rooms.update(
                room_idx as int,
                (RoomView {
                    id: old(self)@.rooms[room_idx as int].id,
                    subs: old(self)@.rooms[room_idx as int].subs.push(Seq::empty()),
                }),
            ),
            sub == old(self)@.rooms[room_idx as int].subs.len(),
    {
        let sub = self.registry.subscribe(room_idx);
        proof {
            assert(self@ =~= hub_subscribe(old(self)@, room_idx as int));
        }
        sub
    }

    /// The reader half's handling of one decoded message body: validate,
    /// enrich with the sender's display name, and broadcast.  Returns
    /// whether the message was accepted; a rejected message is silently
    /// dropped and nothing changes.
    pub fn handle_inbound(&mut self, room_idx: usize, name: &str, message: String) -> (accepted:
        bool)
        requires
            old(self).wf(),
            room_idx < old(self)@.rooms.len(),
        ensures
            final(self).wf(),
            accepted == valid_message(message@),
            final(self)@ == hub_accept(old(self)@, room_idx as int, name@, message@),
            final(self)@.delivered == old(self)@.delivered,
    {
        let ghost m = message@;
        if message.as_str().unicode_len() <= MAX_MESSAGE_LEN {
            let chat = Chat::enrich(name, message);
            self.registry.publish(room_idx, &chat);
            proof {
                assert(chat@ == enriched(name@, m));
                assert(self@ =~= hub_accept(old(self)@, room_idx as int, name@, m));
            }
            true
        } else {
            false
        }
    }

    /// The reader half's handling of one raw inbound text frame: decode
    /// it, and accept or silently discard the decoded body.  A frame that
    /// is not a chat message of the wire shape changes nothing.
    pub fn handle_frame(&mut self, room_idx: usize, name: &str, frame: &str) -> (published: bool)
        requires
            old(self).wf(),
            room_idx < old(self)@.rooms.len(),
        ensures
            final(self).wf(),
            final(self)@ == hub_frame_step(old(self)@, room_idx as int, name@, frame@),
            final(self)@.delivered == old(self)@.delivered,
            published == (match decode_inbound_spec(frame@) {
                Some(m) => valid_message(m),
                None => false,
            }),
    {
        match decode_inbound(frame) {
            Some(m) => self.handle_inbound(room_idx, name, m),
            None => false,
        }
    }

    /// Take the oldest message buffered for one subscriber of one room.
    /// Consuming a message does not count as a delivery: the counter moves
    /// only when the transport confirms a send.
    pub fn next_message(&mut self, room_idx: usize, sub: usize) -> (r: Option<Chat>)
        requires
            old(self).wf(),
            room_idx < old(self)@.rooms.len(),
            sub < old(self)@.rooms[room_idx as int].subs.len(),
        ensures
            final(self).wf(),
            final(self)@ == hub_consume(old(self)@, room_idx as int, sub as int),
            final(self)@.delivered == old(self)@.delivered,
            final(self)@.rooms.len() == old(self)@.rooms.len(),
            final(self)@.rooms[room_idx as int].id == old(self)@.rooms[room_idx as int].id,
            final(self)@.rooms[room_idx as int].subs.len() == old(self)@.rooms[room_idx as int].subs.len(),
            forall|j: int|
                0 <= j < old(self)@.rooms.len() && j != room_idx ==> final(self)@.rooms[j] == old(self)@.rooms[j],
            forall|k: int|
                0 <= k < old(self)@.rooms[room_idx as int].subs.len() && k != sub ==> final(self)@.rooms[room_idx as int].subs[k] == old(self)@.rooms[room_idx as int].subs[k],
            match r {
                Some(c) => old(self)@.rooms[room_idx as int].subs[sub as int].len() > 0 && c@ == old(self)@.rooms[room_idx as int].subs[sub as int][0] && final(self)@.rooms[room_idx as int].subs[sub as int] == old(self)@.rooms[room_idx as int].subs[sub as int].skip(1),
                None => old(self)@.rooms[room_idx as int].subs[sub as int].len() == 0 && final(self)@.rooms[room_idx as int].subs[sub as int] == old(self)@.rooms[room_idx as int].subs[sub as int],
            },
    {
        let r = self.registry.next_message(room_idx, sub);
        proof {
            let h0 = old(self)@;
            let i = room_idx as int;
            let k = sub as int;
            if h0.rooms[i].subs[k].len() > 0 {
                assert(self@.rooms[i].subs =~= h0.rooms[i].subs.update(
                    k,
                    h0.rooms[i].subs[k].skip(1),
                ));
                assert(self@.rooms[i] =~= hub_consume(h0, i, k).rooms[i]);
                assert(self@.rooms =~= hub_consume(h0, i, k).rooms);
                assert(self@ =~= hub_consume(h0, i, k));
            } else {
                assert(self@.rooms[i].subs =~= h0.rooms[i].subs);
                assert(self@.rooms[i] =~= h0.rooms[i]);
                assert(self@.rooms =~= h0.rooms);
                assert(self@ =~= h0);
            }
        }
        r
    }

    /// Record one transport-confirmed delivery.
    pub fn record_delivery(&mut self)
        ensures
            final(self)@ == hub_record(old(self)@),
            final(self)@.rooms == old(self)@.rooms,
            final(self)@.delivered == bumped(old(self)@.delivered),
            final(self)@.delivered >= old(self)@.delivered,
            old(self).wf() ==> final(self).wf(),
    {
        self.counter.increment();
        proof {
            assert(self@ =~= hub_record(old(self)@));
        }
    }

    /// The operator's reset: zero the delivery counter.  The result does
    /// not depend on the old count, so resetting twice in a row leaves it
    /// at zero both times.
    pub fn reset(&mut self)
        ensures
            final(self)@ == hub_reset(old(self)@),
            final(self)@.rooms == old(self)@.rooms,
            final(self)@.delivered == 0,
            old(self).wf() ==> final(self).wf(),
    {
        self.counter.reset();
        proof {
            assert(self@ =~= hub_reset(old(self)@));
        }
    }

    /// The query surface: the current delivery count.
    pub fn query(&self) -> (n: u64)
        ensures
            n == self@.delivered,
    {
        self.counter.read()
    }

    /// How many rooms exist.
    pub fn room_count(&self) -> (n: usize)
        ensures
            n == self@.rooms.len(),
    {
        self.registry.len()
    }
}

/// One hub operation, named by the spec-level transition it causes.  Each
/// variant is the transition the hub method of the same meaning ensures:
/// create-or-fetch, subscribe, one raw inbound frame, one consumed
/// message, one recorded delivery, and the operator's reset.
pub enum HubOp {
    CreateRoom { id: u64 },
    Subscribe { room: int },
    Frame { room: int, name: Seq<char>, frame: Seq<char> },
    Consume { room: int, sub: int },
    Record,
    Reset,
}

/// The transition one operation causes.
pub open spec fn hub_op_step(h: HubView, op: HubOp) -> HubView {
    match op {
        HubOp::CreateRoom { id } => hub_create_room(h, id),
        HubOp::Subscribe { room } => hub_subscribe(h, room),
        HubOp::Frame { room, name, frame } => hub_frame_step(h, room, name, frame),
        HubOp::Consume { room, sub } => hub_consume(h, room, sub),
        HubOp::Record => hub_record(h),
        HubOp::Reset => hub_reset(h),
    }
}

/// The hub's state after a whole history of operations, applied in order.
pub open spec fn hub_run(h: HubView, ops: Seq<HubOp>) -> HubView
    decreases ops.len(),
{
    if ops.len() == 0 {
        h
    } else {
        hub_op_step(hub_run(h, ops.drop_last()), ops.last())
    }
}

/// The delivery counter never decreases except through an explicit reset:
/// across any history of hub operations that holds no reset, the counter
/// ends at least where it started.
pub proof fn lemma_counter_never_decreases_without_reset(h: HubView, ops: Seq<HubOp>)
    requires
        forall|i: int| 0 <= i < ops.len() ==> !((#[trigger] ops[i]) is Reset),
    ensures
        hub_run(h, ops).delivered >= h.delivered,
    decreases ops.len(),
{
    if ops.len() > 0 {
        assert(!(ops.last() is Reset)) by {
            assert(!((ops[ops.len() - 1]) is Reset));
        }
        assert forall|i: int| 0 <= i < ops.drop_last().len() implies !((#[trigger] ops.drop_last(
        )[i]) is Reset) by {
            assert(ops.drop_last()[i] == ops[i]);
        }
        lemma_counter_never_decreases_without_reset(h, ops.drop_last());
    }
}

/// Room isolation: a message accepted in one room is never observed by a
/// subscriber of any other room, whose buffers stay exactly as they were.
pub proof fn lemma_room_isolation(h: HubView, i: int, name: Seq<char>, m: Seq<char>, j: int)
    requires
        0 <= i < h.rooms.len(),
        0 <= j < h.rooms.len(),
        j != i,
    ensures
        hub_accept(h, i, name, m).rooms[j] == h.rooms[j],
{
}

/// Fan-out: a valid message accepted in a room reaches the buffer of every
/// subscriber of that room, enriched with the sender's display name, as
/// the newest buffered entry.
pub proof fn lemma_accept_reaches_every_subscriber(
    h: HubView,
    i: int,
    name: Seq<char>,
    m: Seq<char>,
    k: int,
)
    requires
        valid_message(m),
        0 <= i < h.rooms.len(),
        0 <= k < h.rooms[i].subs.len(),
    ensures
        hub_accept(h, i, name, m).rooms[i].subs[k].len() > 0,
        hub_accept(h, i, name, m).rooms[i].subs[k].last() == enriched(name, m),
{
    let q = h.rooms[i].subs[k];
    assert(hub_accept(h, i, name, m).rooms[i].subs[k] == crate::room::push_bounded(
        q,
        enriched(name, m),
    ));
}

/// Silent discard of oversized messages: a body longer than the bound is
/// delivered to no subscriber in any room and the delivery counter does
/// not move -- the hub's state is exactly what it was.
pub proof fn lemma_oversize_changes_nothing(h: HubView, i: int, name: Seq<char>, m: Seq<char>)
    requires
        !valid_message(m),
    ensures
        hub_accept(h, i, name, m) == h,
        hub_accept(h, i, name, m).delivered == h.delivered,
{
}

/// Monotonicity outside reset: accepting a message never changes the
/// delivery count, and recording a delivery never lowers it.  Only the
/// explicit reset can make the counter smaller.
pub proof fn lemma_counter_monotonic(h: HubView, i: int, name: Seq<char>, m: Seq<char>)
    ensures
        hub_accept(h, i, name, m).delivered == h.delivered,
        hub_record(h).delivered >= h.delivered,
{
}

/// Idempotence of reset: resetting twice in a row leaves the counter at
/// zero both times, and a query right after a reset reads zero.
pub proof fn lemma_reset_idempotent(h: HubView)
    ensures
        hub_reset(hub_reset(h)) == hub_reset(h),
        hub_reset(h).delivered == 0,
{
    assert(hub_reset(hub_reset(h)) =~= hub_reset(h));
}

} // verus!
