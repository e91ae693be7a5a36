use vstd::prelude::*;

use crate::chat::{Chat, MsgView};

verus! {

/// How many broadcast messages one subscriber may have buffered.  When the
/// buffer is full, the oldest buffered message is dropped in favour of the
/// new one, so a slow reader never stalls the whole room.
pub const BROADCAST_CAPACITY: usize = 1024;

/// A subscriber's buffer after one more message has been broadcast: the
/// message is appended, and if the buffer was full the oldest entry is
/// dropped to make room.
pub open spec fn push_bounded(q: Seq<MsgView>, m: MsgView) -> Seq<MsgView> {
    if q.len() < BROADCAST_CAPACITY {
        q.push(m)
    } else {
        q.skip(1).push(m)
    }
}

/// One subscriber's receive handle: the messages broadcast since it
/// subscribed that it has not consumed yet, oldest first.
pub struct Subscription {
    queue: Vec<Chat>,
}

impl View for Subscription {
    type V = Seq<MsgView>;

    closed spec fn view(&self) -> Seq<MsgView> {
        self.queue@.map_values(|c: Chat| c@)
    }
}

impl Subscription {
    /// The buffer never holds more than the broadcast capacity.
    pub open spec fn wf(&self) -> bool {
        self@.len() <= BROADCAST_CAPACITY
    }

    /// A fresh subscription sees none of the messages broadcast before it
    /// was created.
    pub fn new() -> (s: Subscription)
        ensures
            s@ == Seq::<MsgView>::empty(),
            s.wf(),
    {
        let s = Subscription { queue: Vec::new() };
        proof {
            assert(s@ =~= Seq::<MsgView>::empty());
        }
        s
    }

    /// Buffer one broadcast message, dropping the oldest entry if the
    /// buffer is full.
    pub fn offer(&mut self, msg: &Chat)
        requires
            old(self).wf(),
        ensures
            final(self)@ == push_bounded(old(self)@, msg@),
            final(self).wf(),
    {
        if self.queue.len() >= BROADCAST_CAPACITY {
            self.queue.remove(0);
            proof {
                assert(self@ =~= old(self)@.skip(1)) by {
                    assert(self.queue@ == old(self).queue@.remove(0));
                    assert(old(self).queue@.remove(0) =~= old(self).queue@.skip(1));
                }
            }
        }
        self.queue.push(msg.clone());
        proof {
            assert(self@ =~= push_bounded(old(self)@, msg@));
        }
    }

    /// Take the oldest buffered message, if any.
    pub fn next_message(&mut self) -> (r: Option<Chat>)
        ensures
            old(self).wf() ==> final(self).wf(),
            match r {
                Some(c) => old(self)@.len() > 0 && c@ == old(self)@[0] && final(self)@ == old(self)@.skip(1),
                None => old(self)@.len() == 0 && final(self)@ == old(self)@,
            },
    {
        if self.queue.len() == 0 {
            None
        } else {
            let c = self.queue.remove(0);
            proof {
                assert(self@ =~= old(self)@.skip(1)) by {
                    assert(old(self).queue@.remove(0) =~= old(self).queue@.skip(1));
                }
            }
            Some(c)
        }
    }

}

/// The ghost state of a room: its identifier and the buffer of every
/// current subscriber.
#[verifier::ext_equal]
pub struct RoomView {
    pub id: u64,
    pub subs: Seq<Seq<MsgView>>,
}

/// The room's state after a broadcast: every subscriber's buffer takes the
/// message, each independently bounded by the capacity.
pub open spec fn room_publish(r: RoomView, m: MsgView) -> RoomView {
    RoomView { id: r.id, subs: r.subs.map_values(|q: Seq<MsgView>| push_bounded(q, m)) }
}

/// Backpressure never reorders: after a broadcast, a subscriber's buffer
/// ends with the new message, and what stands before it is exactly the
/// old buffer, less its oldest entry when the buffer was full.  Dropping
/// breaks contiguity of what a slow reader sees, never the order.
pub proof fn lemma_push_bounded_keeps_order(q: Seq<MsgView>, m: MsgView)
    ensures
        push_bounded(q, m).last() == m,
        push_bounded(q, m).drop_last() == (if q.len() < BROADCAST_CAPACITY {
            q
        } else {
            q.skip(1)
        }),
{
    if q.len() < BROADCAST_CAPACITY {
        assert(q.push(m).drop_last() =~= q);
    } else {
        assert(q.skip(1).push(m).drop_last() =~= q.skip(1));
    }
}

/// Every subscriber buffer of the room respects the capacity bound.
pub open spec fn room_wf(r: RoomView) -> bool {
    forall|i: int| 0 <= i < r.subs.len() ==> (#[trigger] r.subs[i]).len() <= BROADCAST_CAPACITY
}

/// An addressable broadcast scope: all participants who subscribe to the
/// same room exchange messages with each other.
pub struct Room {
    room_id: u64,
    subs: Vec<Subscription>,
}

impl View for Room {
    type V = RoomView;

    closed spec fn view(&self) -> RoomView {
        RoomView { id: self.room_id, subs: self.subs@.map_values(|s: Subscription| s@) }
    }
}

impl Room {
    /// Every subscriber's buffer respects the capacity bound.
    pub open spec fn wf(&self) -> bool {
        room_wf(self@)
    }

    /// A new room has no subscribers yet.
    pub fn new(id: u64) -> (r: Room)
        ensures
            r@.id == id,
            r@.subs == Seq::<Seq<MsgView>>::empty(),
            r.wf(),
    {
        let r = Room { room_id: id, subs: Vec::new() };
        proof {
            assert(r@.subs =~= Seq::<Seq<MsgView>>::empty());
        }
        r
    }

    /// Attach a new subscriber.  It observes only messages published after
    /// this call: its buffer starts empty.  Returns the subscriber's index.
    pub fn subscribe(&mut self) -> (idx: usize)
        requires
            old(self).wf(),
        ensures
            final(self).wf(),
            final(self)@.id == old(self)@.id,
            final(self)@.subs == old(self)@.subs.push(Seq::<MsgView>::empty()),
            idx == old(self)@.subs.len(),
            final(self)@.subs[idx as int] == Seq::<MsgView>::empty(),
    {
        let idx = self.subs.len();
        self.subs.push(Subscription::new());
        proof {
            assert(self@.subs =~= old(self)@.subs.push(Seq::<MsgView>::empty()));
        }
        idx
    }

    /// Broadcast one enriched message to every current subscriber,
    /// including the sender's own subscription.
    pub fn publish(&mut self, msg: &Chat)
        requires
            old(self).wf(),
        ensures
            final(self).wf(),
            final(self)@ == room_publish(old(self)@, msg@),
    {
        let ghost room0 = self@;
        let n = self.subs.len();
        let mut i: usize = 0;
        while i < n
            invariant
                n == self.subs.len(),
                i <= n,
                self@.id == room0.id,
                self@.subs.len() == room0.subs.len(),
                n == room0.subs.len(),
                forall|j: int| 0 <= j < i ==> self@.subs[j] == push_bounded(room0.subs[j], msg@),
                forall|j: int| i <= j < n ==> self@.subs[j] == room0.subs[j],
                forall|j: int| 0 <= j < n ==> (#[trigger] self@.subs[j]).len()
                    <= BROADCAST_CAPACITY,
            decreases n - i,
        {
            let ghost prev = self@;
            let ghost prev_vec = self.subs@;
            proof {
                assert(self@.subs[i as int].len() <= BROADCAST_CAPACITY);
                assert(self@.subs[i as int] == self.subs@[i as int]@);
                assert(self.subs@[i as int].wf());
            }
            self.subs[i].offer(msg);
            proof {
                assert(self@.subs[i as int] == push_bounded(prev.subs[i as int], msg@));
                assert forall|j: int| 0 <= j < n && j != i implies self@.subs[j] == prev.subs[j] by {
                    assert(self.subs@[j] == prev_vec[j]);
                    assert(prev.subs[j] == prev_vec[j]@);
                }
                assert forall|j: int| 0 <= j < i + 1 implies self@.subs[j] == push_bounded(
                    room0.subs[j],
                    msg@,
                ) by {
                    if j < i {
                        assert(self@.subs[j] == prev.subs[j]);
                        assert(prev.subs[j] == push_bounded(room0.subs[j], msg@));
                    }
                }
                assert forall|j: int| 0 <= j < n implies (#[trigger] self@.subs[j]).len()
                    <= BROADCAST_CAPACITY by {
                    if j == i {
                        assert(prev.subs[j].len() <= BROADCAST_CAPACITY);
                    } else {
                        assert(self@.subs[j] == prev.subs[j]);
                    }
                }
            }
            i = i + 1;
        }
        proof {
            assert(self@ =~= room_publish(room0, msg@));
        }
    }

    /// Take the oldest message buffered for one subscriber.
    pub fn next_message(&mut self, idx: usize) -> (r: Option<Chat>)
        requires
            old(self).wf(),
            idx < old(self)@.subs.len(),
        ensures
            final(self).wf(),
            final(self)@.id == old(self)@.id,
            final(self)@.subs.len() == old(self)@.subs.len(),
            forall|j: int|
                0 <= j < old(self)@.subs.len() && j != idx ==> final(self)@.subs[j] == old(self)@.subs[j],
            match r {
                Some(c) => old(self)@.subs[idx as int].len() > 0 && c@ == old(self)@.subs[idx as int][0] && final(self)@.subs[idx as int] == old(self)@.subs[idx as int].skip(1),
                None => old(self)@.subs[idx as int].len() == 0 && final(self)@.subs[idx as int]
                    == old(self)@.subs[idx as int],
            },
    {
        let ghost prev = self@;
        let ghost prev_vec = self.subs@;
        proof {
            assert(prev.subs[idx as int].len() <= BROADCAST_CAPACITY);
            assert(prev.subs[idx as int] == prev_vec[idx as int]@);
        }
        let r = self.subs[idx].next_message();
        proof {
            assert(prev_vec[idx as int].wf());
            assert forall|j: int| 0 <= j < prev.subs.len() && j != idx implies self@.subs[j]
                == prev.subs[j] by {
                assert(self.subs@[j] == prev_vec[j]);
                assert(prev.subs[j] == prev_vec[j]@);
            }
            assert forall|j: int| 0 <= j < self@.subs.len() implies (#[trigger] self@.subs[j]).len()
                <= BROADCAST_CAPACITY by {
                if j != idx {
                    assert(self@.subs[j] == prev.subs[j]);
                }
            }
        }
        r
    }

    /// The room's identifier.
    pub fn id(&self) -> (id: u64)
        ensures
            id == self@.id,
    {
        self.room_id
    }

    /// How many subscribers the room currently has.
    pub fn subscriber_count(&self) -> (n: usize)
        ensures
            n == self@.subs.len(),
    {
        self.subs.len()
    }
}

} // verus!
