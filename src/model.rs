use vstd::prelude::*;

verus! {

/// Process-unique handle of one live connection.
pub type ConnId = usize;

/// The router's shared state as mathematics: who is connected (and through
/// which outbound channel), and which connections each room holds.
pub struct RouterModel<Tx> {
    pub users: Map<ConnId, Seq<char>>,
    pub outbound: Map<ConnId, Tx>,
    pub rooms: Map<Seq<char>, Set<ConnId>>,
}

/// The ids of a list of room names.
pub open spec fn room_ids(v: Seq<String>) -> Seq<Seq<char>> {
    v.map_values(|s: String| s@)
}

/// `targets` with the skipped connection, if any, taken out.
pub open spec fn without(targets: Set<ConnId>, skip: Option<ConnId>) -> Set<ConnId> {
    match skip {
        Some(c) => targets.remove(c),
        None => targets,
    }
}

/// Text of the notice sent to a room when a connection joins it.
pub open spec fn join_notice() -> Seq<char> {
    "Someone connected"@
}

/// Text of the notice sent to a room when one of its connections goes away.
pub open spec fn leave_notice() -> Seq<char> {
    "Someone disconnected"@
}

impl<Tx> RouterModel<Tx> {
    /// The model of a router with no connection and no room.
    pub open spec fn empty() -> Self {
        RouterModel { users: Map::empty(), outbound: Map::empty(), rooms: Map::empty() }
    }

    /// Every member of a room is a registered connection, and each registered
    /// connection has exactly one outbound channel.
    pub open spec fn wf(self) -> bool {
        &&& self.outbound.dom() == self.users.dom()
        &&& forall|r: Seq<char>, c: ConnId|
            #![trigger self.rooms[r].contains(c)]
            self.rooms.contains_key(r) && self.rooms[r].contains(c) ==> self.users.contains_key(c)
    }

    /// Members of `room`; a room that does not exist has none.
    pub open spec fn members(self, room: Seq<char>) -> Set<ConnId> {
        if self.rooms.contains_key(room) {
            self.rooms[room]
        } else {
            Set::empty()
        }
    }

    /// The rooms that hold connection `c`.
    pub open spec fn rooms_of(self, c: ConnId) -> Set<Seq<char>> {
        self.rooms.dom().filter(|r: Seq<char>| self.rooms[r].contains(c))
    }

    /// Startup: each persisted room id that is not yet known becomes an empty
    /// room; known rooms keep their members.
    pub open spec fn seeded(self, ids: Seq<Seq<char>>) -> Self {
        RouterModel {
            rooms: Map::new(
                |r: Seq<char>| self.rooms.contains_key(r) || ids.contains(r),
                |r: Seq<char>| self.members(r),
            ),
            ..self
        }
    }

    /// `Connect`: `id` is registered for `user` with channel `tx`, and enters
    /// every room in `joined` (rooms that do not exist yet are created).
    pub open spec fn connected(self, id: ConnId, tx: Tx, user: Seq<char>, joined: Seq<Seq<char>>) -> Self {
        RouterModel {
            users: self.users.insert(id, user),
            outbound: self.outbound.insert(id, tx),
            rooms: Map::new(
                |r: Seq<char>| self.rooms.contains_key(r) || joined.contains(r),
                |r: Seq<char>|
                    if joined.contains(r) {
                        self.members(r).insert(id)
                    } else {
                        self.rooms[r]
                    },
            ),
        }
    }

    /// `Join`: a registered connection enters `room`, which is created if
    /// absent; other rooms are untouched. Unknown connections change nothing.
    pub open spec fn joined(self, c: ConnId, room: Seq<char>) -> Self {
        if self.users.contains_key(c) {
            RouterModel { rooms: self.rooms.insert(room, self.members(room).insert(c)), ..self }
        } else {
            self
        }
    }

    /// `Exit`: `c` leaves `room` only; an unknown room changes nothing.
    pub open spec fn exited(self, c: ConnId, room: Seq<char>) -> Self {
        if self.rooms.contains_key(room) {
            RouterModel { rooms: self.rooms.insert(room, self.rooms[room].remove(c)), ..self }
        } else {
            self
        }
    }

    /// `Disconnect`: the session record goes, and `c` leaves every room.
    /// Unknown connections change nothing.
    pub open spec fn disconnected(self, c: ConnId) -> Self {
        if self.users.contains_key(c) {
            RouterModel {
                users: self.users.remove(c),
                outbound: self.outbound.remove(c),
                rooms: self.rooms.map_values(|s: Set<ConnId>| s.remove(c)),
            }
        } else {
            self
        }
    }
}

/// Entering the rooms of `joined` one at a time, after registering `id`,
/// is `Connect` on the list read so far.
pub proof fn lemma_connected_step<Tx>(
    m: RouterModel<Tx>,
    id: ConnId,
    tx: Tx,
    user: Seq<char>,
    joined: Seq<Seq<char>>,
    r: Seq<char>,
)
    ensures
        m.connected(id, tx, user, joined).joined(id, r) == m.connected(id, tx, user, joined.push(r)),
        m.connected(id, tx, user, Seq::empty()) == (RouterModel {
            users: m.users.insert(id, user),
            outbound: m.outbound.insert(id, tx),
            ..m
        }),
{
    let a = m.connected(id, tx, user, joined);
    let b = m.connected(id, tx, user, joined.push(r));
    assert forall|x: Seq<char>| #[trigger] joined.push(r).contains(x) <==> joined.contains(x) || x == r by {
        if joined.push(r).contains(x) && x != r {
            let k = choose|k: int| 0 <= k < joined.push(r).len() && joined.push(r)[k] == x;
            assert(joined[k] == x);
        }
        if joined.contains(x) {
            let k = choose|k: int| 0 <= k < joined.len() && joined[k] == x;
            assert(joined.push(r)[k] == x);
        }
        if x == r {
            assert(joined.push(r)[joined.len() as int] == x);
        }
    }
    assert(a.users.contains_key(id));
    assert forall|x: Seq<char>| #[trigger] a.joined(id, r).rooms.contains_key(x) implies a.joined(id, r).rooms[x] =~= b.rooms[x] by {}
    assert(a.joined(id, r).rooms =~= b.rooms);
    assert(m.connected(id, tx, user, Seq::empty()).rooms =~= m.rooms);
}

/// Seeding room ids one at a time is seeding the list read so far.
pub proof fn lemma_seeded_step<Tx>(m: RouterModel<Tx>, ids: Seq<Seq<char>>, r: Seq<char>)
    ensures
        m.seeded(ids).seeded(seq![r]) == m.seeded(ids.push(r)),
        m.seeded(Seq::empty()) == m,
{
    assert forall|x: Seq<char>| #[trigger] ids.push(r).contains(x) <==> ids.contains(x) || x == r by {
        if ids.push(r).contains(x) && x != r {
            let k = choose|k: int| 0 <= k < ids.push(r).len() && ids.push(r)[k] == x;
            assert(ids[k] == x);
        }
        if ids.contains(x) {
            let k = choose|k: int| 0 <= k < ids.len() && ids[k] == x;
            assert(ids.push(r)[k] == x);
        }
        if x == r {
            assert(ids.push(r)[ids.len() as int] == x);
        }
    }
    assert forall|x: Seq<char>| #[trigger] seq![r].contains(x) <==> x == r by {
        if x == r {
            assert(seq![r][0] == x);
        }
    }
    assert(m.seeded(ids).seeded(seq![r]).rooms =~= m.seeded(ids.push(r)).rooms);
    assert(m.seeded(Seq::empty()).rooms =~= m.rooms);
}

/// A fresh id, once connected, is in exactly the rooms it was connected
/// with, and the model stays well formed.
pub proof fn lemma_connected_rooms<Tx>(
    m: RouterModel<Tx>,
    id: ConnId,
    tx: Tx,
    user: Seq<char>,
    joined: Seq<Seq<char>>,
)
    requires
        m.wf(),
        !m.users.contains_key(id),
    ensures
        m.connected(id, tx, user, joined).wf(),
        m.connected(id, tx, user, joined).rooms_of(id) == joined.to_set(),
{
    let a = m.connected(id, tx, user, joined);
    assert forall|r: Seq<char>| a.rooms_of(id).contains(r) <==> joined.to_set().contains(r) by {
        if a.rooms.contains_key(r) && !joined.contains(r) && a.rooms[r].contains(id) {
            assert(m.rooms[r].contains(id));
        }
    }
    assert(a.rooms_of(id) =~= joined.to_set());
    assert forall|r: Seq<char>, c: ConnId|
        a.rooms.contains_key(r) && #[trigger] a.rooms[r].contains(c) implies a.users.contains_key(c) by {
        if c != id && m.rooms.contains_key(r) {
            assert(m.rooms[r].contains(c));
        }
    }
}

} // verus!
