use vstd::prelude::*;

use crate::chat::Chat;
use crate::room::{room_publish, room_wf, Room, RoomView};

verus! {

/// No two rooms share an identifier: the registry installs exactly one room
/// per distinct id.
pub open spec fn distinct_ids(rooms: Seq<RoomView>) -> bool {
    forall|i: int, j: int|
        0 <= i < rooms.len() && 0 <= j < rooms.len() && i != j ==> rooms[i].id != rooms[j].id
}

/// Whether some room with this identifier already exists.
pub open spec fn has_room(rooms: Seq<RoomView>, id: u64) -> bool {
    exists|i: int| 0 <= i < rooms.len() && rooms[i].id == id
}

/// The registry's state after a create-or-fetch of this identifier: the
/// registry is unchanged when the room exists, and gains exactly one empty
/// room otherwise.
pub open spec fn after_get_or_create(rooms: Seq<RoomView>, id: u64) -> Seq<RoomView> {
    if has_room(rooms, id) {
        rooms
    } else {
        rooms.push(RoomView { id, subs: Seq::empty() })
    }
}

/// Well-formedness of a whole room list: distinct identifiers, and every
/// room within its buffer bounds.
pub open spec fn rooms_wf(rooms: Seq<RoomView>) -> bool {
    &&& distinct_ids(rooms)
    &&& forall|i: int| 0 <= i < rooms.len() ==> room_wf(#[trigger] rooms[i])
}

/// Replacing one room with a well-formed room of the same identifier keeps
/// the whole list well formed.
proof fn lemma_wf_after_update(prev: Seq<RoomView>, cur: Seq<RoomView>, idx: int)
    requires
        rooms_wf(prev),
        0 <= idx < prev.len(),
        cur == prev.update(idx, cur[idx]),
        cur[idx].id == prev[idx].id,
        room_wf(cur[idx]),
    ensures
        rooms_wf(cur),
{
    assert forall|i: int| 0 <= i < cur.len() implies room_wf(#[trigger] cur[i]) by {
        if i != idx {
            assert(cur[i] == prev[i]);
        }
    }
    assert forall|i: int, j: int|
        0 <= i < cur.len() && 0 <= j < cur.len() && i != j implies cur[i].id != cur[j].id by {
        assert(cur[i].id == prev[i].id);
        assert(cur[j].id == prev[j].id);
    }
}

/// The mapping from room identifier to room.  Rooms are created lazily on
/// first reference and are never removed.
pub struct Registry {
    rooms: Vec<Room>,
}

impl View for Registry {
    type V = Seq<RoomView>;

    closed spec fn view(&self) -> Seq<RoomView> {
        self.rooms@.map_values(|r: Room| r@)
    }
}

impl Registry {
    /// Identifiers are pairwise distinct and every room is well formed.
    pub open spec fn wf(&self) -> bool {
        rooms_wf(self@)
    }

    /// A fresh registry holds no rooms.
    pub fn new() -> (r: Registry)
        ensures
            r@ == Seq::<RoomView>::empty(),
            r.wf(),
    {
        let r = Registry { rooms: Vec::new() };
        proof {
            assert(r@ =~= Seq::<RoomView>::empty());
        }
        r
    }

    /// The index of the room with this identifier, if it exists.
    pub fn find(&self, id: u64) -> (r: Option<usize>)
        ensures
            match r {
                Some(i) => i < self@.len() && self@[i as int].id == id,
                None => !has_room(self@, id),
            },
    {
        let n = self.rooms.len();
        let mut i: usize = 0;
        while i < n
            invariant
                n == self.rooms.len(),
                i <= n,
                forall|j: int| 0 <= j < i ==> (#[trigger] self@[j]).id != id,
            decreases n - i,
        {
            if self.rooms[i].id() == id {
                proof {
                    assert(self@[i as int] == self.rooms@[i as int]@);
                }
                return Some(i);
            }
            proof {
                assert(self@[i as int] == self.rooms@[i as int]@);
            }
            i = i + 1;
        }
        None
    }

    /// Create-or-fetch: return the index of the room with this identifier,
    /// creating it if no such room exists yet.  Exactly one room per id: a
    /// second call with the same id finds the registry unchanged and
    /// returns the same room.
    pub fn get_or_create(&mut self, id: u64) -> (idx: usize)
        requires
            old(self).wf(),
        ensures
            final(self).wf(),
            final(self)@ == after_get_or_create(old(self)@, id),
            idx < final(self)@.len(),
            final(self)@[idx as int].id == id,
            has_room(old(self)@, id) ==> final(self)@ == old(self)@,
            !has_room(old(self)@, id) ==> idx == old(self)@.len(),
    {
        match self.find(id) {
            Some(i) => i,
            None => {
                let idx = self.rooms.len();
                let room = Room::new(id);
                let ghost rv = room@;
                self.rooms.push(room);
                proof {
                    assert(rv =~= (RoomView { id, subs: Seq::empty() }));
                    assert(self@ =~= old(self)@.push(rv));
                    assert forall|i: int, j: int|
                        0 <= i < self@.len() && 0 <= j < self@.len() && i != j implies self@[i].id
                        != self@[j].id by {
                        if i < idx && j < idx {
                            assert(old(self)@[i].id != old(self)@[j].id);
                        }
                    }
                    assert forall|i: int| 0 <= i < self@.len() implies room_wf(
                        #[trigger] self@[i],
                    ) by {
                        if i < idx {
                            assert(self@[i] == old(self)@[i]);
                        }
                    }
                }
                idx
            },
        }
    }

    /// Attach a new subscriber to the room at this index; see
    /// `Room::subscribe`.
    pub fn subscribe(&mut self, idx: usize) -> (sub: usize)
        requires
            old(self).wf(),
            idx < old(self)@.len(),
        ensures
            final(self).wf(),
            final(self)@ == old(self)@.update(
                idx as int,
                (RoomView {
                    id: old(self)@[idx as int].id,
                    subs: old(self)@[idx as int].subs.push(Seq::empty()),
                }),
            ),
            sub == old(self)@[idx as int].subs.len(),
    {
        let ghost prev = self@;
        let ghost prev_vec = self.rooms@;
        proof {
            assert(prev[idx as int] == prev_vec[idx as int]@);
        }
        let sub = self.rooms[idx].subscribe();
        proof {
            self.lemma_one_update(prev, prev_vec, idx as int);
            assert(self@[idx as int] =~= (RoomView {
                id: prev[idx as int].id,
                subs: prev[idx as int].subs.push(Seq::empty()),
            }));
            lemma_wf_after_update(prev, self@, idx as int);
        }
        sub
    }

    /// Broadcast a message in the room at this index; see `Room::publish`.
    pub fn publish(&mut self, idx: usize, msg: &Chat)
        requires
            old(self).wf(),
            idx < old(self)@.len(),
        ensures
            final(self).wf(),
            final(self)@ == old(self)@.update(
                idx as int,
                room_publish(old(self)@[idx as int], msg@),
            ),
    {
        let ghost prev = self@;
        let ghost prev_vec = self.rooms@;
        proof {
            assert(prev[idx as int] == prev_vec[idx as int]@);
        }
        self.rooms[idx].publish(msg);
        proof {
            self.lemma_one_update(prev, prev_vec, idx as int);
            lemma_wf_after_update(prev, self@, idx as int);
        }
    }

    /// Take the oldest message buffered for one subscriber of one room; see
    /// `Room::next_message`.
    pub fn next_message(&mut self, idx: usize, sub: usize) -> (r: Option<Chat>)
        requires
            old(self).wf(),
            idx < old(self)@.len(),
            sub < old(self)@[idx as int].subs.len(),
        ensures
            final(self).wf(),
            final(self)@.len() == old(self)@.len(),
            final(self)@[idx as int].id == old(self)@[idx as int].id,
            final(self)@[idx as int].subs.len() == old(self)@[idx as int].subs.len(),
            forall|j: int|
                0 <= j < old(self)@.len() && j != idx ==> final(self)@[j] == old(self)@[j],
            forall|k: int|
                0 <= k < old(self)@[idx as int].subs.len() && k != sub ==> final(self)@[idx as int].subs[k] == old(self)@[idx as int].subs[k],
            match r {
                Some(c) => old(self)@[idx as int].subs[sub as int].len() > 0 && c@ == old(self)@[idx as int].subs[sub as int][0] && final(self)@[idx as int].subs[sub as int]
                    == old(self)@[idx as int].subs[sub as int].skip(1),
                None => old(self)@[idx as int].subs[sub as int].len() == 0 && final(self)@[idx as int].subs[sub as int] == old(self)@[idx as int].subs[sub as int],
            },
    {
        let ghost prev = self@;
        let ghost prev_vec = self.rooms@;
        proof {
            assert(prev[idx as int] == prev_vec[idx as int]@);
        }
        let r = self.rooms[idx].next_message(sub);
        proof {
            self.lemma_one_update(prev, prev_vec, idx as int);
            lemma_wf_after_update(prev, self@, idx as int);
        }
        r
    }

    /// How many rooms exist.
    pub fn len(&self) -> (n: usize)
        ensures
            n == self@.len(),
    {
        self.rooms.len()
    }

    /// After mutating the room at one index through the vector, the
    /// registry's view is the old view with only that entry replaced.
    proof fn lemma_one_update(&self, prev: Seq<RoomView>, prev_vec: Seq<Room>, idx: int)
        requires
            prev == prev_vec.map_values(|r: Room| r@),
            0 <= idx < prev_vec.len(),
            self.rooms_seq() == prev_vec.update(idx, self.rooms_seq()[idx]),
        ensures
            self@ == prev.update(idx, self@[idx]),
    {
        assert(self@ =~= prev.update(idx, self@[idx]));
    }

    /// The underlying room vector, for internal proofs.
    closed spec fn rooms_seq(&self) -> Seq<Room> {
        self.rooms@
    }
}

/// Exactly one room instance exists per identifier: in a well-formed
/// registry, two rooms that both carry the identifier are the same room.
pub proof fn lemma_one_room_per_id(rooms: Seq<RoomView>, id: u64, i: int, j: int)
    requires
        distinct_ids(rooms),
        0 <= i < rooms.len(),
        0 <= j < rooms.len(),
        rooms[i].id == id,
        rooms[j].id == id,
    ensures
        i == j,
{
}

} // verus!
