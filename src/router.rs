use rand::Rng;
use vstd::prelude::*;

use crate::model::{
    ConnId, RouterModel, join_notice, leave_notice, lemma_connected_rooms, lemma_connected_step,
    lemma_seeded_step, room_ids, without,
};

verus! {

/// One message to be pushed onto one connection's outbound queue.
#[derive(Clone, PartialEq, Eq, Debug)]
pub struct Delivery {
    pub conn_id: ConnId,
    pub msg: String,
}

/// The id tried after `k` collisions when looking for a free id from
/// `candidate` (for `0 <= k <= usize::MAX`).
pub open spec fn probe(candidate: ConnId, k: int) -> int {
    if candidate + k <= usize::MAX {
        candidate + k
    } else {
        candidate + k - (usize::MAX + 1)
    }
}

/// `id` is the first id, trying from `candidate` on, that `m` does not hold.
pub open spec fn probes_to<Tx>(m: RouterModel<Tx>, candidate: ConnId, id: ConnId) -> bool {
    exists|k: int|
        #![trigger probe(candidate, k)]
        0 <= k <= usize::MAX && id as int == probe(candidate, k) && forall|j: int|
            0 <= j < k ==> m.users.contains_key(#[trigger] probe(candidate, j) as ConnId)
}

/// `ds` hands `m` to each connection of `targets` exactly once, and to no
/// other connection.
pub open spec fn fans_out(ds: Seq<Delivery>, targets: Set<ConnId>, m: Seq<char>) -> bool {
    &&& forall|i: int| 0 <= i < ds.len() ==> (#[trigger] ds[i]).msg@ == m
    &&& forall|i: int| 0 <= i < ds.len() ==> targets.contains((#[trigger] ds[i]).conn_id)
    &&& forall|i: int, j: int|
        0 <= i < j < ds.len() ==> (#[trigger] ds[i]).conn_id != (#[trigger] ds[j]).conn_id
    &&& forall|t: ConnId|
        #[trigger] targets.contains(t) ==> exists|i: int| 0 <= i < ds.len() && (#[trigger] ds[i]).conn_id == t
}

/// `ds` is one departure notice for each room in `departed`, in the room
/// order `order`: the part for a room reaches each connection that `after`
/// keeps in it, once.
pub open spec fn announces_departure<Tx>(
    ds: Seq<Delivery>,
    order: Seq<Seq<char>>,
    parts: Seq<Seq<Delivery>>,
    departed: Set<Seq<char>>,
    after: RouterModel<Tx>,
) -> bool {
    &&& order.no_duplicates()
    &&& order.to_set() == departed
    &&& parts.len() == order.len()
    &&& forall|k: int|
        0 <= k < parts.len() ==> fans_out(#[trigger] parts[k], after.members(order[k]), leave_notice())
    &&& ds == parts.flatten()
}

/// A registered connection: its outbound channel and the user behind it.
struct SessionRecord<Tx> {
    conn_id: ConnId,
    outbound: Tx,
    user_id: String,
}

/// A room and the connections currently in it.
struct RoomEntry {
    room_id: String,
    members: Vec<ConnId>,
}

/// Snapshot of one room: its id and the (connection, user) pairs in it.
#[derive(Clone, PartialEq, Eq, Debug)]
pub struct WsRoom {
    pub room_id: String,
    pub users: Vec<(ConnId, String)>,
}

/// `us` pairs each connection of `members` with the user behind it in `m`,
/// once each, and lists nothing else.
pub open spec fn lists_members<Tx>(
    us: Seq<(ConnId, String)>,
    members: Set<ConnId>,
    m: RouterModel<Tx>,
) -> bool {
    &&& forall|i: int|
        #![trigger us[i]]
        0 <= i < us.len() ==> members.contains(us[i].0) && us[i].1@ == m.users[us[i].0]
    &&& forall|i: int, j: int| 0 <= i < j < us.len() ==> (#[trigger] us[i]).0 != (#[trigger] us[j]).0
    &&& forall|c: ConnId|
        #[trigger] members.contains(c) ==> exists|i: int| 0 <= i < us.len() && (#[trigger] us[i]).0 == c
}

/// `rs` lists every room of `m` once, each with its members and their users.
pub open spec fn snapshot_of<Tx>(rs: Seq<WsRoom>, m: RouterModel<Tx>) -> bool {
    &&& forall|i: int|
        #![trigger rs[i]]
        0 <= i < rs.len() ==> m.rooms.contains_key(rs[i].room_id@) && lists_members(
            rs[i].users@,
            m.rooms[rs[i].room_id@],
            m,
        )
    &&& forall|i: int, j: int|
        0 <= i < j < rs.len() ==> (#[trigger] rs[i]).room_id@ != (#[trigger] rs[j]).room_id@
    &&& forall|r: Seq<char>|
        #[trigger] m.rooms.contains_key(r) ==> exists|i: int| 0 <= i < rs.len() && (#[trigger] rs[i]).room_id@ == r
}

/// A request to the router. The reply channel that travels with it is the
/// business of whoever runs the command loop.
pub enum Command<Tx> {
    Connect { outbound: Tx, user_id: String, joined_rooms: Vec<String> },
    Disconnect { conn: ConnId },
    List,
    Join { conn: ConnId, room: String },
    Exit { conn: ConnId, room: String },
    Message { msg: String, conn: ConnId, room_id: String },
    Broadcast { msg: String, conn: ConnId },
}

/// The router's answer to one command.
#[derive(Clone, PartialEq, Eq, Debug)]
pub enum Reply {
    Connected(ConnId),
    Rooms(Vec<WsRoom>),
    Done,
}

/// What handling `cmd` in state `before` leads to: the state `after`, the
/// reply, and the messages `ds` to push onto outbound queues.
pub open spec fn handled<Tx>(
    before: RouterModel<Tx>,
    after: RouterModel<Tx>,
    cmd: Command<Tx>,
    reply: Reply,
    ds: Seq<Delivery>,
) -> bool {
    match cmd {
        Command::Connect { outbound, user_id, joined_rooms } => match reply {
            Reply::Connected(id) => {
                &&& !before.users.contains_key(id)
                &&& after == before.connected(id, outbound, user_id@, room_ids(joined_rooms@))
                &&& ds.len() == 0
            },
            _ => false,
        },
        Command::Disconnect { conn } => {
            &&& reply is Done
            &&& after == before.disconnected(conn)
            &&& exists|order: Seq<Seq<char>>, parts: Seq<Seq<Delivery>>|
                announces_departure(ds, order, parts, before.rooms_of(conn), after)
        },
        Command::List => match reply {
            Reply::Rooms(rs) => after == before && ds.len() == 0 && snapshot_of(rs@, before),
            _ => false,
        },
        Command::Join { conn, room } => {
            &&& reply is Done
            &&& after == before.joined(conn, room@)
            &&& if before.users.contains_key(conn) {
                fans_out(ds, after.members(room@).remove(conn), join_notice())
            } else {
                ds.len() == 0
            }
        },
        Command::Exit { conn, room } => {
            &&& reply is Done
            &&& after == before.exited(conn, room@)
            &&& ds.len() == 0
        },
        Command::Message { msg, conn, room_id } => {
            &&& reply is Done
            &&& after == before
            &&& fans_out(ds, before.members(room_id@).remove(conn), msg@)
        },
        Command::Broadcast { msg, conn } => {
            &&& reply is Done
            &&& after == before
            &&& fans_out(ds, before.users.dom().remove(conn), msg@)
        },
    }
}

/// The single owner of the session registry and of room membership.
pub struct ChatServer<Tx> {
    sessions: Vec<SessionRecord<Tx>>,
    rooms: Vec<RoomEntry>,
    model: Ghost<RouterModel<Tx>>,
}

impl<Tx> View for ChatServer<Tx> {
    type V = RouterModel<Tx>;

    closed spec fn view(&self) -> RouterModel<Tx> {
        self.model@
    }
}

impl<Tx> ChatServer<Tx> {
    /// The vectors hold exactly what the model says, without repeated keys.
    pub closed spec fn wf(&self) -> bool {
        &&& self.model@.wf()
        &&& self.sessions_wf()
        &&& self.rooms_wf()
    }

    /// The session registry lists each registered connection once.
    closed spec fn sessions_wf(&self) -> bool {
        let m = self.model@;
        let s = self.sessions@;
        &&& forall|i: int, j: int|
            0 <= i < j < s.len() ==> (#[trigger] s[i]).conn_id != (#[trigger] s[j]).conn_id
        &&& forall|i: int|
            #![trigger s[i]]
            0 <= i < s.len() ==> {
                &&& m.users.contains_key(s[i].conn_id)
                &&& m.users[s[i].conn_id] == s[i].user_id@
                &&& m.outbound[s[i].conn_id] == s[i].outbound
            }
        &&& forall|c: ConnId|
            #[trigger] m.users.contains_key(c) ==> exists|i: int|
                0 <= i < s.len() && (#[trigger] s[i]).conn_id == c
    }

    /// The room list holds each room once, with its members without repetition.
    closed spec fn rooms_wf(&self) -> bool {
        let m = self.model@;
        let r = self.rooms@;
        &&& forall|i: int, j: int|
            0 <= i < j < r.len() ==> (#[trigger] r[i]).room_id@ != (#[trigger] r[j]).room_id@
        &&& forall|i: int|
            #![trigger r[i]]
            0 <= i < r.len() ==> {
                &&& m.rooms.contains_key(r[i].room_id@)
                &&& m.rooms[r[i].room_id@] == r[i].members@.to_set()
                &&& r[i].members@.no_duplicates()
            }
        &&& forall|k: Seq<char>|
            #[trigger] m.rooms.contains_key(k) ==> exists|i: int|
                0 <= i < r.len() && (#[trigger] r[i]).room_id@ == k
    }

    /// A router with no connection and no room.
    pub fn new() -> (r: Self)
        ensures
            r.wf(),
            r@ == RouterModel::<Tx>::empty(),
    {
        ChatServer {
            sessions: Vec::new(),
            rooms: Vec::new(),
            model: Ghost(RouterModel::<Tx>::empty()),
        }
    }

    /// `Join`: a registered `conn` enters `room` (created if absent) and keeps
    /// its other rooms; the room's other members are told someone joined.
    /// An unknown `conn` changes nothing and is told nothing.
    pub fn join_room(&mut self, conn: ConnId, room: String) -> (ds: Vec<Delivery>)
        requires
            old(self).wf(),
        ensures
            final(self).wf(),
            final(self)@ == old(self)@.joined(conn, room@),
            old(self)@.users.contains_key(conn) ==> fans_out(
                ds@,
                final(self)@.members(room@).remove(conn),
                join_notice(),
            ),
            !old(self)@.users.contains_key(conn) ==> ds@.len() == 0,
    {
        match self.find_session(conn) {
            None => {
                return Vec::new();
            },
            Some(si) => {
                assert(self.sessions@[si as int].conn_id == conn);
            },
        }
        let idx = self.enter_room(conn, room);
        let notice = String::from_str("Someone connected");
        proof {
            reveal_strlit("Someone connected");
        }
        fan_out(&self.rooms[idx].members, Some(conn), &notice)
    }

    /// Puts the registered `conn` into `room`, creating the room if absent;
    /// returns the room's position.
    fn enter_room(&mut self, conn: ConnId, room: String) -> (idx: usize)
        requires
            old(self).wf(),
            old(self)@.users.contains_key(conn),
        ensures
            final(self).wf(),
            final(self)@ == old(self)@.joined(conn, room@),
            idx < final(self).rooms@.len(),
            final(self).rooms@[idx as int].room_id@ == room@,
    {
        let ghost rv = room@;
        let ghost m0 = self.model@;
        assert(m0.users.contains_key(conn));
        let idx: usize = match self.find_room(&room) {
            Some(i) => {
                let ghost before = self.rooms@[i as int].members@;
                assert(m0.rooms[rv] == before.to_set());
                if !contains_conn(&self.rooms[i].members, conn) {
                    self.rooms[i].members.push(conn);
                    assert(self.rooms@[i as int].members@ == before.push(conn));
                    proof {
                        before.lemma_push_to_set_commute(conn);
                    }
                    assert(self.rooms@[i as int].members@.no_duplicates()) by {
                        let now = self.rooms@[i as int].members@;
                        assert forall|k: int, l: int| 0 <= k < l < now.len() implies now[k] != now[l] by {
                            if l == before.len() {
                                assert(now[k] == before[k]);
                            } else {
                                assert(before[k] != before[l]);
                            }
                        }
                    }
                    assert(self.rooms@[i as int].members@.to_set() =~= m0.rooms[rv].insert(conn));
                } else {
                    assert(m0.rooms[rv].insert(conn) =~= m0.rooms[rv]);
                }
                i
            },
            None => {
                let members = vec![conn];
                assert(members@.to_set() =~= Set::<ConnId>::empty().insert(conn));
                self.rooms.push(RoomEntry { room_id: room, members });
                self.rooms.len() - 1
            },
        };
        self.model = Ghost(m0.joined(conn, rv));
        assert(self.sessions@ == old(self).sessions@);
        assert(self.model@.users == m0.users);
        assert(self.model@.outbound == m0.outbound);
        assert(self.sessions_wf());
        assert(self.model@.wf()) by {
            let m = self.model@;
            assert forall|r: Seq<char>, c: ConnId|
                m.rooms.contains_key(r) && #[trigger] m.rooms[r].contains(c) implies m.users.contains_key(c) by {
                if r != rv {
                    assert(m0.rooms[r].contains(c));
                }
            }
        }
        assert(self.rooms_wf()) by {
            let m = self.model@;
            let r = self.rooms@;
            let r0 = old(self).rooms@;
            assert(r[idx as int].room_id@ == rv);
            assert forall|j: int| 0 <= j < r.len() && j != idx implies #[trigger] r[j] == r0[j] by {}
            assert forall|i: int, j: int| 0 <= i < j < r.len() implies (#[trigger] r[i]).room_id@ != (#[trigger] r[j]).room_id@ by {
                if i != idx && j != idx {
                    assert(r0[i].room_id@ != r0[j].room_id@);
                } else if i == idx {
                    assert(r[j] == r0[j]);
                    if i < r0.len() {
                        assert(r0[i].room_id@ != r0[j].room_id@);
                    } else {
                        assert(m0.rooms.contains_key(r0[j].room_id@));
                    }
                } else {
                    assert(r[i] == r0[i]);
                    if j < r0.len() {
                        assert(r0[i].room_id@ != r0[j].room_id@);
                    } else {
                        assert(m0.rooms.contains_key(r0[i].room_id@));
                    }
                }
            }
            assert forall|i: int| #![trigger r[i]] 0 <= i < r.len() implies {
                &&& m.rooms.contains_key(r[i].room_id@)
                &&& m.rooms[r[i].room_id@] == r[i].members@.to_set()
                &&& r[i].members@.no_duplicates()
            } by {
                if i != idx {
                    assert(r[i] == r0[i]);
                    assert(m0.rooms.contains_key(r0[i].room_id@));
                }
            }
            assert forall|k: Seq<char>| #[trigger] m.rooms.contains_key(k) implies exists|i: int|
                0 <= i < r.len() && (#[trigger] r[i]).room_id@ == k by {
                if k == rv {
                    assert(r[idx as int].room_id@ == k);
                } else {
                    let i = choose|i: int| 0 <= i < r0.len() && (#[trigger] r0[i]).room_id@ == k;
                    assert(r[i] == r0[i]);
                }
            }
        }
        idx
    }

    /// `Exit`: `conn` leaves `room` only, if it is there; silently.
    pub fn exit_room(&mut self, conn: ConnId, room: String)
        requires
            old(self).wf(),
        ensures
            final(self).wf(),
            final(self)@ == old(self)@.exited(conn, room@),
    {
        match self.find_room(&room) {
            Some(i) => {
                let ghost m0 = self.model@;
                remove_conn(&mut self.rooms[i].members, conn);
                self.model = Ghost(m0.exited(conn, room@));
                assert(self.sessions@ == old(self).sessions@);
                assert(self.model@.users == m0.users);
                assert(self.model@.outbound == m0.outbound);
                assert(self.sessions_wf());
                assert(self.model@.wf()) by {
                    let m = self.model@;
                    assert forall|r: Seq<char>, c: ConnId|
                        m.rooms.contains_key(r) && #[trigger] m.rooms[r].contains(c) implies m.users.contains_key(c) by {
                        assert(m0.rooms[r].contains(c));
                    }
                }
                assert(self.rooms_wf()) by {
                    let m = self.model@;
                    let r = self.rooms@;
                    let r0 = old(self).rooms@;
                    assert forall|j: int| 0 <= j < r.len() && j != i implies #[trigger] r[j] == r0[j] by {}
                    assert(r[i as int].room_id@ == r0[i as int].room_id@);
                    assert forall|a: int, b: int| 0 <= a < b < r.len() implies (#[trigger] r[a]).room_id@ != (#[trigger] r[b]).room_id@ by {
                        assert(r0[a].room_id@ != r0[b].room_id@);
                    }
                    assert forall|j: int| #![trigger r[j]] 0 <= j < r.len() implies {
                        &&& m.rooms.contains_key(r[j].room_id@)
                        &&& m.rooms[r[j].room_id@] == r[j].members@.to_set()
                        &&& r[j].members@.no_duplicates()
                    } by {
                        if j != i {
                            assert(r0[j].room_id@ != r0[i as int].room_id@);
                            assert(m0.rooms.contains_key(r0[j].room_id@));
                        }
                    }
                    assert forall|k: Seq<char>| #[trigger] m.rooms.contains_key(k) implies exists|j: int|
                        0 <= j < r.len() && (#[trigger] r[j]).room_id@ == k by {
                        let j = choose|j: int| 0 <= j < r0.len() && (#[trigger] r0[j]).room_id@ == k;
                        assert(r[j].room_id@ == k);
                    }
                }
            },
            None => {},
        }
    }

    /// The first id that no connection holds, trying `candidate`, then the
    /// ids after it, wrapping around after `usize::MAX`.
    fn fresh_id(&self, candidate: ConnId) -> (id: ConnId)
        requires
            self.wf(),
        ensures
            !self@.users.contains_key(id),
            probes_to(self@, candidate, id),
    {
        let n = self.sessions.len();
        let ghost ids = self.sessions@.map_values(|r: SessionRecord<Tx>| r.conn_id);
        let ghost dom = self@.users.dom();
        proof {
            assert forall|c: ConnId| dom.contains(c) implies ids.to_set().contains(c) by {
                let i = choose|i: int| 0 <= i < self.sessions@.len() && (#[trigger] self.sessions@[i]).conn_id == c;
                assert(ids[i] == c);
            }
            ids.lemma_cardinality_of_set();
            vstd::set_lib::lemma_len_subset(dom, ids.to_set());
        }
        let mut id = candidate;
        let ghost mut tried: Set<ConnId> = Set::empty();
        let ghost mut k: int = 0;
        while self.find_session(id).is_some()
            invariant
                self.wf(),
                dom == self@.users.dom(),
                dom.finite(),
                dom.len() <= n,
                tried.finite(),
                tried.len() == k,
                0 <= k <= n,
                tried.subset_of(dom),
                id as int == probe(candidate, k),
                forall|x: ConnId| #[trigger] tried.contains(x) ==> exists|j: int|
                    0 <= j < k && x as int == #[trigger] probe(candidate, j),
                k == 0 ==> id == candidate,
                k > 0 ==> dom.contains(candidate),
                forall|j: int| 0 <= j < k ==> dom.contains(#[trigger] probe(candidate, j) as ConnId),
            decreases dom.len() - tried.len(),
        {
            proof {
                assert(dom.contains(id));
                if tried.contains(id) {
                    let j = choose|j: int| 0 <= j < k && id as int == #[trigger] probe(candidate, j);
                    assert(false);
                }
                tried = tried.insert(id);
                k = k + 1;
                vstd::set_lib::lemma_len_subset(tried, dom);
            }
            id = id.wrapping_add(1);
        }
        assert(0 <= k <= usize::MAX && id as int == probe(candidate, k));
        id
    }

    /// Registers `outbound` for `user_id` under a fresh id and puts it into
    /// every room of `joined_rooms` (rooms not known yet are created). The id
    /// is the first free one of `candidate` and the ids after it.
    pub fn connect_with_id(
        &mut self,
        candidate: ConnId,
        outbound: Tx,
        user_id: String,
        joined_rooms: Vec<String>,
    ) -> (id: ConnId)
        requires
            old(self).wf(),
        ensures
            final(self).wf(),
            !old(self)@.users.contains_key(id),
            probes_to(old(self)@, candidate, id),
            final(self)@ == old(self)@.connected(id, outbound, user_id@, room_ids(joined_rooms@)),
            final(self)@.rooms_of(id) == room_ids(joined_rooms@).to_set(),
    {
        let id = self.fresh_id(candidate);
        let ghost m0 = self.model@;
        let ghost user = user_id@;
        let ghost tx = outbound;
        let ghost jv = room_ids(joined_rooms@);
        self.sessions.push(SessionRecord { conn_id: id, outbound, user_id });
        proof {
            lemma_connected_step(m0, id, tx, user, Seq::empty(), Seq::empty());
            lemma_connected_rooms(m0, id, tx, user, Seq::empty());
        }
        self.model = Ghost(m0.connected(id, tx, user, Seq::empty()));
        assert(self.sessions_wf()) by {
            let s = self.sessions@;
            let s0 = old(self).sessions@;
            let m = self.model@;
            assert forall|i: int| 0 <= i < s0.len() implies #[trigger] s[i] == s0[i] by {}
            assert forall|i: int, j: int| 0 <= i < j < s.len() implies (#[trigger] s[i]).conn_id != (#[trigger] s[j]).conn_id by {
                if j == s0.len() {
                    assert(m0.users.contains_key(s0[i].conn_id));
                } else {
                    assert(s0[i].conn_id != s0[j].conn_id);
                }
            }
            assert forall|i: int| #![trigger s[i]] 0 <= i < s.len() implies {
                &&& m.users.contains_key(s[i].conn_id)
                &&& m.users[s[i].conn_id] == s[i].user_id@
                &&& m.outbound[s[i].conn_id] == s[i].outbound
            } by {
                if i < s0.len() {
                    assert(m0.users.contains_key(s0[i].conn_id));
                }
            }
            assert forall|c: ConnId| #[trigger] m.users.contains_key(c) implies exists|i: int|
                0 <= i < s.len() && (#[trigger] s[i]).conn_id == c by {
                if c == id {
                    assert(s[s0.len() as int].conn_id == c);
                } else {
                    let i = choose|i: int| 0 <= i < s0.len() && (#[trigger] s0[i]).conn_id == c;
                    assert(s[i].conn_id == c);
                }
            }
        }
        assert(self.rooms_wf());
        assert(jv.take(0) =~= Seq::<Seq<char>>::empty());
        let mut i: usize = 0;
        while i < joined_rooms.len()
            invariant
                self.wf(),
                i <= joined_rooms@.len(),
                jv == room_ids(joined_rooms@),
                self@ == m0.connected(id, tx, user, jv.take(i as int)),
            decreases joined_rooms@.len() - i,
        {
            let room = joined_rooms[i].clone();
            proof {
                lemma_connected_step(m0, id, tx, user, jv.take(i as int), room@);
                assert(jv.take(i as int).push(room@) =~= jv.take(i + 1));
            }
            self.enter_room(id, room);
            i = i + 1;
        }
        proof {
            assert(jv.take(i as int) =~= jv);
            lemma_connected_rooms(m0, id, tx, user, jv);
        }
        id
    }

    /// `Connect`: registers `outbound` for `user_id` under a random id that no
    /// live connection holds, and puts it into each room of `joined_rooms`,
    /// the rooms the user has joined before.
    pub fn connect(&mut self, outbound: Tx, user_id: String, joined_rooms: Vec<String>) -> (id: ConnId)
        requires
            old(self).wf(),
        ensures
            final(self).wf(),
            !old(self)@.users.contains_key(id),
            final(self)@ == old(self)@.connected(id, outbound, user_id@, room_ids(joined_rooms@)),
            final(self)@.rooms_of(id) == room_ids(joined_rooms@).to_set(),
    {
        let candidate = random_conn_id();
        self.connect_with_id(candidate, outbound, user_id, joined_rooms)
    }

    /// `Disconnect`: the session record of `conn` goes and `conn` leaves every
    /// room; each room it left has its remaining members told that someone
    /// disconnected. An unknown `conn` changes nothing and is told nothing.
    pub fn disconnect(&mut self, conn: ConnId) -> (ds: Vec<Delivery>)
        requires
            old(self).wf(),
        ensures
            final(self).wf(),
            final(self)@ == old(self)@.disconnected(conn),
            exists|order: Seq<Seq<char>>, parts: Seq<Seq<Delivery>>|
                announces_departure(ds@, order, parts, old(self)@.rooms_of(conn), final(self)@),
    {
        let ghost m0 = self.model@;
        let ghost r0 = self.rooms@;
        let si = match self.find_session(conn) {
            None => {
                proof {
                    assert(m0.rooms_of(conn) =~= Set::empty()) by {
                        assert forall|r: Seq<char>| !m0.rooms_of(conn).contains(r) by {
                            if m0.rooms.contains_key(r) && m0.rooms[r].contains(conn) {
                                assert(m0.users.contains_key(conn));
                            }
                        }
                    }
                }
                let ds: Vec<Delivery> = Vec::new();
                let ghost order = Seq::<Seq<char>>::empty();
                let ghost parts = Seq::<Seq<Delivery>>::empty();
                proof {
                    assert(order.to_set() =~= Set::empty());
                    assert(ds@ =~= parts.flatten());
                    assert(announces_departure(ds@, order, parts, old(self)@.rooms_of(conn), self@));
                }
                return ds;
            },
            Some(si) => si,
        };
        let ghost s0 = self.sessions@;
        self.sessions.remove(si);
        let notice = String::from_str("Someone disconnected");
        proof {
            reveal_strlit("Someone disconnected");
        }
        let mut ds: Vec<Delivery> = Vec::new();
        let ghost mut idxs: Seq<int> = Seq::empty();
        let ghost mut parts: Seq<Seq<Delivery>> = Seq::empty();
        let mut i: usize = 0;
        while i < self.rooms.len()
            invariant
                self.model@ == m0,
                m0.wf(),
                old(self).rooms_wf(),
                r0 == old(self).rooms@,
                self.sessions@ == s0.remove(si as int),
                self.rooms@.len() == r0.len(),
                i <= r0.len(),
                notice@ == leave_notice(),
                forall|j: int| #![trigger self.rooms@[j]] 0 <= j < r0.len() ==> self.rooms@[j].room_id@ == r0[j].room_id@,
                forall|j: int| #![trigger self.rooms@[j]] 0 <= j < i ==> {
                    &&& self.rooms@[j].members@.to_set() == r0[j].members@.to_set().remove(conn)
                    &&& self.rooms@[j].members@.no_duplicates()
                },
                forall|j: int| i <= j < r0.len() ==> #[trigger] self.rooms@[j] == r0[j],
                idxs.len() == parts.len(),
                forall|k: int| #![trigger idxs[k]] 0 <= k < idxs.len() ==> {
                    &&& 0 <= idxs[k] < i
                    &&& r0[idxs[k]].members@.contains(conn)
                    &&& fans_out(parts[k], r0[idxs[k]].members@.to_set().remove(conn), leave_notice())
                },
                forall|k: int, l: int| 0 <= k < l < idxs.len() ==> idxs[k] < idxs[l],
                forall|j: int| 0 <= j < i && (#[trigger] r0[j]).members@.contains(conn) ==> exists|k: int|
                    0 <= k < idxs.len() && idxs[k] == j,
                ds@ == parts.flatten(),
            decreases r0.len() - i,
        {
            let ghost before_idxs = idxs;
            assert(r0[i as int].members@.no_duplicates());
            if remove_conn(&mut self.rooms[i].members, conn) {
                let part = fan_out(&self.rooms[i].members, None, &notice);
                let ghost pv = part@;
                let mut part = part;
                ds.append(&mut part);
                proof {
                    parts.lemma_flatten_push(pv);
                    idxs = idxs.push(i as int);
                    parts = parts.push(pv);
                }
            }
            proof {
                assert forall|j: int| 0 <= j < i + 1 && (#[trigger] r0[j]).members@.contains(conn) implies exists|k: int|
                    0 <= k < idxs.len() && idxs[k] == j by {
                    if j == i {
                        assert(idxs[idxs.len() - 1] == j);
                    } else {
                        let k = choose|k: int| 0 <= k < before_idxs.len() && before_idxs[k] == j;
                        assert(idxs[k] == j);
                    }
                }
            }
            i = i + 1;
        }
        let ghost m1 = m0.disconnected(conn);
        self.model = Ghost(m1);
        let ghost order = Seq::new(idxs.len(), |k: int| r0[idxs[k]].room_id@);
        proof {
            assert(m0.users.contains_key(conn));
            assert forall|j: int| #![trigger r0[j]] 0 <= j < r0.len() implies m0.rooms.contains_key(r0[j].room_id@)
                && m0.rooms[r0[j].room_id@] == r0[j].members@.to_set() by {}
            // the ids of the rooms that held `conn`
            assert forall|k: int, l: int| 0 <= k < l < order.len() implies order[k] != order[l] by {
                assert(idxs[k] < idxs[l]);
                assert(r0[idxs[k]].room_id@ != r0[idxs[l]].room_id@);
            }
            assert forall|r: Seq<char>| order.to_set().contains(r) <==> m0.rooms_of(conn).contains(r) by {
                if order.to_set().contains(r) {
                    let k = choose|k: int| 0 <= k < order.len() && order[k] == r;
                    let j = idxs[k];
                    assert(r0[j].members@.to_set().contains(conn));
                }
                if m0.rooms_of(conn).contains(r) {
                    let j = choose|j: int| 0 <= j < r0.len() && (#[trigger] r0[j]).room_id@ == r;
                    assert(r0[j].members@.to_set().contains(conn));
                    assert(r0[j].members@.contains(conn));
                    let k = choose|k: int| 0 <= k < idxs.len() && idxs[k] == j;
                    assert(order[k] == r);
                }
            }
            assert(order.to_set() =~= m0.rooms_of(conn));
            assert forall|k: int| 0 <= k < parts.len() implies fans_out(#[trigger] parts[k], m1.members(order[k]), leave_notice()) by {
                let j = idxs[k];
                assert(m1.rooms.contains_key(order[k]));
                assert(m1.rooms[order[k]] == m0.rooms[order[k]].remove(conn));
            }
            assert(announces_departure(ds@, order, parts, m0.rooms_of(conn), m1));
        }
        assert(self.sessions_wf()) by {
            let s = self.sessions@;
            assert forall|j: int| 0 <= j < s.len() implies #[trigger] s[j] == s0[if j < si { j } else { j + 1 }] by {}
            assert forall|a: int, b: int| 0 <= a < b < s.len() implies (#[trigger] s[a]).conn_id != (#[trigger] s[b]).conn_id by {
                let a2 = if a < si { a } else { a + 1 };
                let b2 = if b < si { b } else { b + 1 };
                assert(s[a] == s0[a2]);
                assert(s[b] == s0[b2]);
                assert(s0[a2].conn_id != s0[b2].conn_id);
            }
            assert forall|j: int| #![trigger s[j]] 0 <= j < s.len() implies {
                &&& m1.users.contains_key(s[j].conn_id)
                &&& m1.users[s[j].conn_id] == s[j].user_id@
                &&& m1.outbound[s[j].conn_id] == s[j].outbound
            } by {
                let j2 = if j < si { j } else { j + 1 };
                assert(s[j] == s0[j2]);
                assert(s0[j2].conn_id != s0[si as int].conn_id);
            }
            assert forall|c: ConnId| #[trigger] m1.users.contains_key(c) implies exists|j: int|
                0 <= j < s.len() && (#[trigger] s[j]).conn_id == c by {
                let j = choose|j: int| 0 <= j < s0.len() && (#[trigger] s0[j]).conn_id == c;
                assert(j != si);
                if j < si {
                    assert(s[j].conn_id == c);
                } else {
                    assert(s[j - 1].conn_id == c);
                }
            }
        }
        assert(m1.wf()) by {
            assert forall|r: Seq<char>, c: ConnId|
                m1.rooms.contains_key(r) && #[trigger] m1.rooms[r].contains(c) implies m1.users.contains_key(c) by {
                assert(m0.rooms[r].contains(c));
            }
        }
        assert(self.rooms_wf()) by {
            let r = self.rooms@;
            assert forall|a: int, b: int| 0 <= a < b < r.len() implies (#[trigger] r[a]).room_id@ != (#[trigger] r[b]).room_id@ by {
                assert(r0[a].room_id@ != r0[b].room_id@);
            }
            assert forall|j: int| #![trigger r[j]] 0 <= j < r.len() implies {
                &&& m1.rooms.contains_key(r[j].room_id@)
                &&& m1.rooms[r[j].room_id@] == r[j].members@.to_set()
                &&& r[j].members@.no_duplicates()
            } by {
                assert(m0.rooms.contains_key(r0[j].room_id@));
            }
            assert forall|k: Seq<char>| #[trigger] m1.rooms.contains_key(k) implies exists|j: int|
                0 <= j < r.len() && (#[trigger] r[j]).room_id@ == k by {
                let j = choose|j: int| 0 <= j < r0.len() && (#[trigger] r0[j]).room_id@ == k;
                assert(r[j].room_id@ == k);
            }
        }
        assert(self@ == m1);
        assert(old(self)@ == m0);
        assert(announces_departure(ds@, order, parts, old(self)@.rooms_of(conn), self@));
        ds
    }

    /// Startup: every persisted room in `persisted` that is not known yet is
    /// added with no members, so that it is listed and joinable at once.
    pub fn init(&mut self, persisted: Vec<String>)
        requires
            old(self).wf(),
        ensures
            final(self).wf(),
            final(self)@ == old(self)@.seeded(room_ids(persisted@)),
    {
        let ghost m0 = self.model@;
        let ghost ids = room_ids(persisted@);
        proof {
            lemma_seeded_step(m0, ids, Seq::empty());
            assert(ids.take(0) =~= Seq::<Seq<char>>::empty());
        }
        let mut i: usize = 0;
        while i < persisted.len()
            invariant
                self.wf(),
                i <= persisted@.len(),
                ids == room_ids(persisted@),
                self@ == m0.seeded(ids.take(i as int)),
            decreases persisted@.len() - i,
        {
            let room = persisted[i].clone();
            proof {
                lemma_seeded_step(m0, ids.take(i as int), room@);
                assert(ids.take(i as int).push(room@) =~= ids.take(i + 1));
            }
            self.add_room(room);
            i = i + 1;
        }
        assert(ids.take(i as int) =~= ids);
    }

    /// Adds `room` with no members unless it is already known.
    fn add_room(&mut self, room: String)
        requires
            old(self).wf(),
        ensures
            final(self).wf(),
            final(self)@ == old(self)@.seeded(seq![room@]),
    {
        let ghost m0 = self.model@;
        let ghost rv = room@;
        let ghost m1 = m0.seeded(seq![rv]);
        assert forall|x: Seq<char>| #[trigger] seq![rv].contains(x) <==> x == rv by {
            if x == rv {
                assert(seq![rv][0] == x);
            }
        }
        match self.find_room(&room) {
            Some(_) => {
                assert(m1.rooms =~= m0.rooms);
                assert(m1 == m0);
            },
            None => {
                let members: Vec<ConnId> = Vec::new();
                assert(members@.to_set() =~= Set::<ConnId>::empty());
                self.rooms.push(RoomEntry { room_id: room, members });
                self.model = Ghost(m1);
                assert(m1.rooms =~= m0.rooms.insert(rv, Set::empty()));
                assert(self.sessions@ == old(self).sessions@);
                assert(self.sessions_wf());
                assert(m1.wf()) by {
                    assert forall|r: Seq<char>, c: ConnId|
                        m1.rooms.contains_key(r) && #[trigger] m1.rooms[r].contains(c) implies m1.users.contains_key(c) by {
                        assert(m0.rooms[r].contains(c));
                    }
                }
                assert(self.rooms_wf()) by {
                    let r = self.rooms@;
                    let r0 = old(self).rooms@;
                    let n = r0.len() as int;
                    assert forall|j: int| 0 <= j < n implies #[trigger] r[j] == r0[j] by {}
                    assert forall|a: int, b: int| 0 <= a < b < r.len() implies (#[trigger] r[a]).room_id@ != (#[trigger] r[b]).room_id@ by {
                        if b == n {
                            assert(m0.rooms.contains_key(r0[a].room_id@));
                        } else {
                            assert(r0[a].room_id@ != r0[b].room_id@);
                        }
                    }
                    assert forall|j: int| #![trigger r[j]] 0 <= j < r.len() implies {
                        &&& m1.rooms.contains_key(r[j].room_id@)
                        &&& m1.rooms[r[j].room_id@] == r[j].members@.to_set()
                        &&& r[j].members@.no_duplicates()
                    } by {
                        if j < n {
                            assert(m0.rooms.contains_key(r0[j].room_id@));
                        }
                    }
                    assert forall|k: Seq<char>| #[trigger] m1.rooms.contains_key(k) implies exists|j: int|
                        0 <= j < r.len() && (#[trigger] r[j]).room_id@ == k by {
                        if k == rv {
                            assert(r[n].room_id@ == k);
                        } else {
                            let j = choose|j: int| 0 <= j < r0.len() && (#[trigger] r0[j]).room_id@ == k;
                            assert(r[j].room_id@ == k);
                        }
                    }
                }
            },
        }
    }

    /// `ListRooms`: a snapshot of every room with the (connection, user) pairs
    /// in it.
    pub fn list_rooms(&self) -> (rs: Vec<WsRoom>)
        requires
            self.wf(),
        ensures
            snapshot_of(rs@, self@),
    {
        let mut rs: Vec<WsRoom> = Vec::new();
        let mut i: usize = 0;
        while i < self.rooms.len()
            invariant
                self.wf(),
                i <= self.rooms@.len(),
                rs@.len() == i,
                forall|k: int| #![trigger rs@[k]] 0 <= k < i ==> {
                    &&& rs@[k].room_id@ == self.rooms@[k].room_id@
                    &&& lists_members(rs@[k].users@, self@.rooms[self.rooms@[k].room_id@], self@)
                },
            decreases self.rooms@.len() - i,
        {
            let users = self.member_list(i);
            rs.push(WsRoom { room_id: self.rooms[i].room_id.clone(), users });
            i = i + 1;
        }
        assert forall|k: int, l: int| 0 <= k < l < rs@.len() implies (#[trigger] rs@[k]).room_id@ != (#[trigger] rs@[l]).room_id@ by {
            assert(self.rooms@[k].room_id@ != self.rooms@[l].room_id@);
        }
        assert forall|r: Seq<char>| #[trigger] self@.rooms.contains_key(r) implies exists|k: int|
            0 <= k < rs@.len() && (#[trigger] rs@[k]).room_id@ == r by {
            let k = choose|k: int| 0 <= k < self.rooms@.len() && (#[trigger] self.rooms@[k]).room_id@ == r;
            assert(rs@[k].room_id@ == r);
        }
        assert forall|k: int| 0 <= k < rs@.len() implies self@.rooms.contains_key((#[trigger] rs@[k]).room_id@) by {
            assert(self@.rooms.contains_key(self.rooms@[k].room_id@));
        }
        rs
    }

    /// The members of a room paired with the user behind each.
    fn member_list(&self, idx: usize) -> (us: Vec<(ConnId, String)>)
        requires
            self.wf(),
            idx < self.rooms@.len(),
        ensures
            lists_members(us@, self@.rooms[self.rooms@[idx as int].room_id@], self@),
    {
        let members = &self.rooms[idx].members;
        let ghost room = self.rooms@[idx as int].room_id@;
        assert(members@.no_duplicates());
        let mut us: Vec<(ConnId, String)> = Vec::new();
        let mut i: usize = 0;
        while i < members.len()
            invariant
                self.wf(),
                self@.rooms.contains_key(room),
                self@.rooms[room] == members@.to_set(),
                i <= members@.len(),
                us@.len() == i,
                forall|k: int| #![trigger us@[k]] 0 <= k < i ==> {
                    &&& us@[k].0 == members@[k]
                    &&& us@[k].1@ == self@.users[members@[k]]
                },
            decreases members@.len() - i,
        {
            let c = members[i];
            assert(members@.to_set().contains(c));
            assert(self@.rooms[room].contains(c));
            let user = match self.find_session(c) {
                Some(si) => self.sessions[si].user_id.clone(),
                None => String::new(),
            };
            us.push((c, user));
            i = i + 1;
        }
        assert forall|k: int, l: int| 0 <= k < l < us@.len() implies (#[trigger] us@[k]).0 != (#[trigger] us@[l]).0 by {
            assert(members@[k] != members@[l]);
        }
        assert forall|c: ConnId| #[trigger] members@.to_set().contains(c) implies exists|k: int|
            0 <= k < us@.len() && (#[trigger] us@[k]).0 == c by {
            let k = choose|k: int| 0 <= k < members@.len() && members@[k] == c;
            assert(us@[k].0 == c);
        }
        assert forall|k: int| 0 <= k < us@.len() implies members@.to_set().contains((#[trigger] us@[k]).0) by {
            assert(members@.contains(members@[k]));
        }
        assert(self@.rooms[room] == members@.to_set());
        us
    }

    /// The outbound channel of `conn`, if it is registered.
    pub fn outbound(&self, conn: ConnId) -> (r: Option<&Tx>)
        requires
            self.wf(),
        ensures
            match r {
                Some(tx) => self@.users.contains_key(conn) && *tx == self@.outbound[conn],
                None => !self@.users.contains_key(conn),
            },
    {
        match self.find_session(conn) {
            Some(si) => Some(&self.sessions[si].outbound),
            None => None,
        }
    }

    /// Carries out one command: the step of the router's command loop.
    pub fn handle(&mut self, cmd: Command<Tx>) -> (r: (Reply, Vec<Delivery>))
        requires
            old(self).wf(),
        ensures
            final(self).wf(),
            handled(old(self)@, final(self)@, cmd, r.0, r.1@),
    {
        match cmd {
            Command::Connect { outbound, user_id, joined_rooms } => {
                let id = self.connect(outbound, user_id, joined_rooms);
                (Reply::Connected(id), Vec::new())
            },
            Command::Disconnect { conn } => {
                let ds = self.disconnect(conn);
                (Reply::Done, ds)
            },
            Command::List => {
                let rs = self.list_rooms();
                (Reply::Rooms(rs), Vec::new())
            },
            Command::Join { conn, room } => {
                let ds = self.join_room(conn, room);
                (Reply::Done, ds)
            },
            Command::Exit { conn, room } => {
                self.exit_room(conn, room);
                (Reply::Done, Vec::new())
            },
            Command::Message { msg, conn, room_id } => {
                let ds = self.send_message(conn, room_id, msg);
                (Reply::Done, ds)
            },
            Command::Broadcast { msg, conn } => {
                let ds = self.broadcast(conn, msg);
                (Reply::Done, ds)
            },
        }
    }

    /// Ids of all registered connections.
    fn session_ids(&self) -> (r: Vec<ConnId>)
        requires
            self.wf(),
        ensures
            r@.no_duplicates(),
            r@.to_set() == self@.users.dom(),
    {
        let mut r: Vec<ConnId> = Vec::new();
        let mut i: usize = 0;
        while i < self.sessions.len()
            invariant
                self.wf(),
                i <= self.sessions@.len(),
                r@.len() == i,
                forall|k: int| 0 <= k < i ==> r@[k] == (#[trigger] self.sessions@[k]).conn_id,
            decreases self.sessions@.len() - i,
        {
            r.push(self.sessions[i].conn_id);
            i = i + 1;
        }
        assert forall|k: int, l: int| 0 <= k < l < r@.len() implies r@[k] != r@[l] by {
            assert(self.sessions@[k].conn_id != self.sessions@[l].conn_id);
        }
        assert forall|c: ConnId| r@.to_set().contains(c) <==> self@.users.dom().contains(c) by {
            if self@.users.contains_key(c) {
                let i = choose|i: int| 0 <= i < self.sessions@.len() && (#[trigger] self.sessions@[i]).conn_id == c;
                assert(r@[i] == c);
            }
            if r@.to_set().contains(c) {
                let k = choose|k: int| 0 <= k < r@.len() && r@[k] == c;
                assert(self.sessions@[k].conn_id == c);
            }
        }
        assert(r@.to_set() =~= self@.users.dom());
        r
    }

    /// `SendToRoom`: `msg` goes to every member of `room_id` but `conn`; a
    /// room that does not exist gets nothing. The state is not changed.
    pub fn send_message(&self, conn: ConnId, room_id: String, msg: String) -> (ds: Vec<Delivery>)
        requires
            self.wf(),
        ensures
            fans_out(ds@, self@.members(room_id@).remove(conn), msg@),
    {
        match self.find_room(&room_id) {
            Some(i) => fan_out(&self.rooms[i].members, Some(conn), &msg),
            None => {
                assert(self@.members(room_id@).remove(conn) =~= Set::empty());
                Vec::new()
            },
        }
    }

    /// `Broadcast`: `msg` goes to every registered connection but `skip`,
    /// whatever rooms they are in. The state is not changed.
    pub fn broadcast(&self, skip: ConnId, msg: String) -> (ds: Vec<Delivery>)
        requires
            self.wf(),
        ensures
            fans_out(ds@, self@.users.dom().remove(skip), msg@),
    {
        let ids = self.session_ids();
        fan_out(&ids, Some(skip), &msg)
    }

    /// Position of `conn` in the session registry.
    fn find_session(&self, conn: ConnId) -> (r: Option<usize>)
        requires
            self.wf(),
        ensures
            match r {
                Some(i) => i < self.sessions@.len() && self.sessions@[i as int].conn_id == conn,
                None => !self@.users.contains_key(conn),
            },
    {
        let mut i: usize = 0;
        while i < self.sessions.len()
            invariant
                self.wf(),
                i <= self.sessions@.len(),
                forall|j: int| 0 <= j < i ==> (#[trigger] self.sessions@[j]).conn_id != conn,
            decreases self.sessions@.len() - i,
        {
            if self.sessions[i].conn_id == conn {
                return Some(i);
            }
            i = i + 1;
        }
        None
    }

    /// Position of `room` in the room list.
    fn find_room(&self, room: &String) -> (r: Option<usize>)
        requires
            self.wf(),
        ensures
            match r {
                Some(i) => i < self.rooms@.len() && self.rooms@[i as int].room_id@ == room@,
                None => !self@.rooms.contains_key(room@),
            },
    {
        let mut i: usize = 0;
        while i < self.rooms.len()
            invariant
                self.wf(),
                i <= self.rooms@.len(),
                forall|j: int| 0 <= j < i ==> (#[trigger] self.rooms@[j]).room_id@ != room@,
            decreases self.rooms@.len() - i,
        {
            if self.rooms[i].room_id == *room {
                return Some(i);
            }
            i = i + 1;
        }
        None
    }
}

/// Relies on rand's `thread_rng().gen::<usize>()`: a random `usize`; nothing
/// is known of its value.
#[verifier::external_body]
fn random_conn_id() -> (r: ConnId) {
    rand::thread_rng().gen::<usize>()
}

/// Whether `c` is among `v`.
fn contains_conn(v: &Vec<ConnId>, c: ConnId) -> (r: bool)
    ensures
        r == v@.contains(c),
{
    let mut i: usize = 0;
    while i < v.len()
        invariant
            i <= v@.len(),
            forall|j: int| 0 <= j < i ==> v@[j] != c,
        decreases v@.len() - i,
    {
        if v[i] == c {
            return true;
        }
        i = i + 1;
    }
    false
}

/// Takes `c` out of a list without repetitions.
fn remove_conn(v: &mut Vec<ConnId>, c: ConnId) -> (r: bool)
    requires
        old(v)@.no_duplicates(),
    ensures
        r == old(v)@.contains(c),
        final(v)@.no_duplicates(),
        final(v)@.to_set() == old(v)@.to_set().remove(c),
{
    let mut i: usize = 0;
    while i < v.len()
        invariant
            i <= v@.len(),
            v@ == old(v)@,
            old(v)@.no_duplicates(),
            forall|j: int| 0 <= j < i ==> v@[j] != c,
        decreases v@.len() - i,
    {
        if v[i] == c {
            let ghost before = v@;
            v.remove(i);
            assert(before[i as int] == c);
            assert(v@ == before.remove(i as int));
            assert forall|x: ConnId| v@.to_set().contains(x) <==> before.to_set().remove(c).contains(x) by {
                if v@.to_set().contains(x) {
                    let k = choose|k: int| 0 <= k < v@.len() && v@[k] == x;
                    let k2 = if k < i { k } else { k + 1 };
                    assert(before[k2] == x);
                    assert(before[k2] != before[i as int]);
                    assert(before.to_set().contains(x));
                }
                if before.to_set().remove(c).contains(x) {
                    let k = choose|k: int| 0 <= k < before.len() && before[k] == x;
                    assert(k != i);
                    if k < i {
                        assert(v@[k] == x);
                    } else {
                        assert(v@[k - 1] == x);
                    }
                    assert(v@.to_set().contains(x));
                }
            }
            assert(v@.to_set() =~= before.to_set().remove(c));
            assert forall|k: int, l: int| 0 <= k < l < v@.len() implies v@[k] != v@[l] by {
                let k2 = if k < i { k } else { k + 1 };
                let l2 = if l < i { l } else { l + 1 };
                assert(v@[k] == before[k2]);
                assert(v@[l] == before[l2]);
                assert(before[k2] != before[l2]);
            }
            return true;
        }
        i = i + 1;
    }
    assert(v@.to_set().remove(c) =~= v@.to_set());
    false
}

/// One copy of `msg` for each of `members` except `skip`.
fn fan_out(members: &Vec<ConnId>, skip: Option<ConnId>, msg: &String) -> (ds: Vec<Delivery>)
    requires
        members@.no_duplicates(),
    ensures
        fans_out(ds@, without(members@.to_set(), skip), msg@),
{
    let mut ds: Vec<Delivery> = Vec::new();
    let ghost mut picked: Seq<int> = Seq::empty();
    let mut i: usize = 0;
    while i < members.len()
        invariant
            i <= members@.len(),
            members@.no_duplicates(),
            picked.len() == ds@.len(),
            forall|k: int| 0 <= k < ds@.len() ==> (#[trigger] ds@[k]).msg@ == msg@,
            forall|k: int|
                #![trigger picked[k]]
                0 <= k < picked.len() ==> {
                    &&& 0 <= picked[k] < i
                    &&& members@[picked[k]] == ds@[k].conn_id
                    &&& skip != Some(members@[picked[k]])
                },
            forall|k: int, l: int| 0 <= k < l < picked.len() ==> picked[k] < picked[l],
            forall|j: int|
                0 <= j < i && skip != Some(#[trigger] members@[j]) ==> exists|k: int|
                    0 <= k < picked.len() && picked[k] == j,
        decreases members@.len() - i,
    {
        let c = members[i];
        let is_skipped = match skip {
            Some(s) => s == c,
            None => false,
        };
        let ghost before = picked;
        if !is_skipped {
            ds.push(Delivery { conn_id: c, msg: msg.clone() });
            proof {
                picked = picked.push(i as int);
            }
        }
        proof {
            assert forall|j: int| 0 <= j < i + 1 && skip != Some(#[trigger] members@[j]) implies exists|k: int|
                0 <= k < picked.len() && picked[k] == j by {
                if j == i {
                    assert(picked[picked.len() - 1] == j);
                } else {
                    let k = choose|k: int| 0 <= k < before.len() && before[k] == j;
                    assert(picked[k] == j);
                }
            }
        }
        i = i + 1;
    }
    let ghost targets = without(members@.to_set(), skip);
    assert forall|t: ConnId| #[trigger] targets.contains(t) implies exists|k: int|
        0 <= k < ds@.len() && (#[trigger] ds@[k]).conn_id == t by {
        let j = choose|j: int| 0 <= j < members@.len() && members@[j] == t;
        assert(skip != Some(members@[j]));
        let k = choose|k: int| 0 <= k < picked.len() && picked[k] == j;
        assert(ds@[k].conn_id == t);
    }
    assert forall|k: int| 0 <= k < ds@.len() implies targets.contains((#[trigger] ds@[k]).conn_id) by {
        assert(members@.to_set().contains(members@[picked[k]]));
    }
    assert forall|k: int, l: int|
        0 <= k < l < ds@.len() implies (#[trigger] ds@[k]).conn_id != (#[trigger] ds@[l]).conn_id by {
        assert(picked[k] < picked[l]);
        assert(members@[picked[k]] != members@[picked[l]]);
    }
    ds
}

} // verus!
