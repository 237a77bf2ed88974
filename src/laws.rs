use vstd::prelude::*;

use crate::model::{ConnId, RouterModel};
use crate::router::{Delivery, announces_departure};
use crate::session::{Action, ConnectionSession, Event, Phase, stepped};

verus! {

/// A membership change issued by one connection.
pub enum MembershipOp {
    Join(Seq<char>),
    Exit(Seq<char>),
}

/// The router state after connection `c` issues `ops` in order.
pub open spec fn replay<Tx>(m: RouterModel<Tx>, c: ConnId, ops: Seq<MembershipOp>) -> RouterModel<Tx>
    decreases ops.len(),
{
    if ops.len() == 0 {
        m
    } else {
        let prev = replay(m, c, ops.drop_last());
        match ops.last() {
            MembershipOp::Join(r) => prev.joined(c, r),
            MembershipOp::Exit(r) => prev.exited(c, r),
        }
    }
}

/// The set of rooms that `ops` leads to from `start`, joins adding and exits
/// taking away, in the order issued.
pub open spec fn apply_ops(start: Set<Seq<char>>, ops: Seq<MembershipOp>) -> Set<Seq<char>>
    decreases ops.len(),
{
    if ops.len() == 0 {
        start
    } else {
        let prev = apply_ops(start, ops.drop_last());
        match ops.last() {
            MembershipOp::Join(r) => prev.insert(r),
            MembershipOp::Exit(r) => prev.remove(r),
        }
    }
}

/// For a registered connection, `Join` adds the room to the rooms holding it.
pub proof fn lemma_join_adds_room<Tx>(m: RouterModel<Tx>, c: ConnId, r: Seq<char>)
    requires
        m.wf(),
        m.users.contains_key(c),
    ensures
        m.joined(c, r).wf(),
        m.joined(c, r).users == m.users,
        m.joined(c, r).rooms_of(c) == m.rooms_of(c).insert(r),
{
    let a = m.joined(c, r);
    assert(a.rooms_of(c) =~= m.rooms_of(c).insert(r));
    assert forall|x: Seq<char>, d: ConnId|
        a.rooms.contains_key(x) && #[trigger] a.rooms[x].contains(d) implies a.users.contains_key(d) by {
        if x != r || (m.rooms.contains_key(r) && d != c) {
            assert(m.rooms[x].contains(d));
        }
    }
}

/// `Exit` takes the room away from the rooms holding the connection.
pub proof fn lemma_exit_removes_room<Tx>(m: RouterModel<Tx>, c: ConnId, r: Seq<char>)
    requires
        m.wf(),
    ensures
        m.exited(c, r).wf(),
        m.exited(c, r).users == m.users,
        m.exited(c, r).rooms_of(c) == m.rooms_of(c).remove(r),
{
    let a = m.exited(c, r);
    assert(a.rooms_of(c) =~= m.rooms_of(c).remove(r));
    assert forall|x: Seq<char>, d: ConnId|
        a.rooms.contains_key(x) && #[trigger] a.rooms[x].contains(d) implies a.users.contains_key(d) by {
        assert(m.rooms[x].contains(d));
    }
}

/// `Exit` from a room that does not hold the connection changes nothing.
pub proof fn lemma_exit_non_member_is_noop<Tx>(m: RouterModel<Tx>, c: ConnId, r: Seq<char>)
    requires
        !m.members(r).contains(c),
    ensures
        m.exited(c, r) == m,
{
    if m.rooms.contains_key(r) {
        assert(m.rooms[r].remove(c) =~= m.rooms[r]);
        assert(m.rooms.insert(r, m.rooms[r].remove(c)) =~= m.rooms);
    }
}

/// Whatever sequence of joins and exits a registered connection issues, at
/// every point the rooms holding it are those that the joins and exits so
/// far, applied in order to the rooms it started in, give.
pub proof fn lemma_membership_follows_ops<Tx>(m: RouterModel<Tx>, c: ConnId, ops: Seq<MembershipOp>)
    requires
        m.wf(),
        m.users.contains_key(c),
    ensures
        replay(m, c, ops).wf(),
        replay(m, c, ops).users == m.users,
        replay(m, c, ops).rooms_of(c) == apply_ops(m.rooms_of(c), ops),
    decreases ops.len(),
{
    if ops.len() > 0 {
        lemma_membership_follows_ops(m, c, ops.drop_last());
        let prev = replay(m, c, ops.drop_last());
        match ops.last() {
            MembershipOp::Join(r) => lemma_join_adds_room(prev, c, r),
            MembershipOp::Exit(r) => lemma_exit_removes_room(prev, c, r),
        }
    }
}

/// `Disconnect` is idempotent: a second call on the same id leaves the state
/// as the first left it, and notifies nobody.
pub proof fn lemma_disconnect_idempotent<Tx>(m: RouterModel<Tx>, c: ConnId, ds: Seq<Delivery>)
    requires
        m.wf(),
        exists|order: Seq<Seq<char>>, parts: Seq<Seq<Delivery>>|
            announces_departure(
                ds,
                order,
                parts,
                m.disconnected(c).rooms_of(c),
                m.disconnected(c).disconnected(c),
            ),
    ensures
        m.disconnected(c).disconnected(c) == m.disconnected(c),
        ds.len() == 0,
{
    let once = m.disconnected(c);
    assert(!once.users.contains_key(c));
    assert(once.disconnected(c) == once);
    assert(once.rooms_of(c) =~= Set::empty()) by {
        assert forall|r: Seq<char>| !once.rooms_of(c).contains(r) by {
            if m.users.contains_key(c) && once.rooms.contains_key(r) {
                assert(!once.rooms[r].contains(c));
            } else if once.rooms.contains_key(r) && once.rooms[r].contains(c) {
                assert(m.rooms[r].contains(c));
            }
        }
    }
    let (order, parts) = choose|order: Seq<Seq<char>>, parts: Seq<Seq<Delivery>>|
        announces_departure(ds, order, parts, once.rooms_of(c), once.disconnected(c));
    if order.len() > 0 {
        assert(order.to_set().contains(order[0]));
    }
    assert(parts.len() == 0);
    assert(parts.flatten() =~= Seq::<Delivery>::empty());
}

/// A step that starts from a session that is not active leaves it inactive,
/// and only a step from an active session into `Closing` tells the router.
proof fn lemma_step_disconnects(
    before: ConnectionSession,
    now: u64,
    ev: Event,
    after: ConnectionSession,
    acts: Seq<Action>,
)
    requires
        stepped(before, now, ev, after, acts),
    ensures
        before.phase != Phase::Active ==> after.phase == before.phase,
        forall|j: int|
            0 <= j < acts.len() && (#[trigger] acts[j]) is Disconnect ==> j == 0 && before.phase
                == Phase::Active && after.phase == Phase::Closing,
{
}

/// Along a run whose steps keep inactive phases, an inactive phase stays.
proof fn lemma_phase_kept(states: Seq<ConnectionSession>, a: int, b: int)
    requires
        0 <= a <= b < states.len(),
        states[a].phase != Phase::Active,
        forall|i: int|
            #![trigger states[i + 1]]
            0 <= i < states.len() - 1 && states[i].phase != Phase::Active ==> states[i + 1].phase
                == states[i].phase,
    ensures
        states[b].phase == states[a].phase,
    decreases b - a,
{
    if a < b {
        lemma_phase_kept(states, a + 1, b);
    }
}

/// The facts about each step of a run that the count of disconnects needs.
proof fn lemma_run_steps(
    states: Seq<ConnectionSession>,
    times: Seq<u64>,
    events: Seq<Event>,
    acts: Seq<Seq<Action>>,
)
    requires
        states.len() == events.len() + 1,
        times.len() == events.len(),
        acts.len() == events.len(),
        forall|i: int|
            0 <= i < events.len() ==> #[trigger] stepped(
                states[i],
                times[i],
                events[i],
                states[i + 1],
                acts[i],
            ),
    ensures
        forall|i: int|
            #![trigger states[i + 1]]
            0 <= i < states.len() - 1 && states[i].phase != Phase::Active ==> states[i + 1].phase
                == states[i].phase,
        forall|i: int, j: int|
            0 <= i < acts.len() && 0 <= j < acts[i].len() && (#[trigger] acts[i][j]) is Disconnect
                ==> j == 0 && states[i].phase == Phase::Active && states[i + 1].phase == Phase::Closing,
{
    assert forall|i: int| #![trigger states[i]] 0 <= i < events.len() implies {
        &&& (states[i].phase != Phase::Active ==> states[i + 1].phase == states[i].phase)
        &&& forall|j: int|
            0 <= j < acts[i].len() && (#[trigger] acts[i][j]) is Disconnect ==> j == 0
                && states[i].phase == Phase::Active && states[i + 1].phase == Phase::Closing
    } by {
        lemma_step_disconnects(states[i], times[i], events[i], states[i + 1], acts[i]);
    }
}

/// Over any run of a connection's protocol, at most one action tells the
/// router that the connection is gone.
pub proof fn lemma_at_most_one_disconnect(
    states: Seq<ConnectionSession>,
    times: Seq<u64>,
    events: Seq<Event>,
    acts: Seq<Seq<Action>>,
)
    requires
        states.len() == events.len() + 1,
        times.len() == events.len(),
        acts.len() == events.len(),
        forall|i: int|
            0 <= i < events.len() ==> #[trigger] stepped(
                states[i],
                times[i],
                events[i],
                states[i + 1],
                acts[i],
            ),
    ensures
        forall|i1: int, j1: int, i2: int, j2: int|
            0 <= i1 < acts.len() && 0 <= i2 < acts.len() && 0 <= j1 < acts[i1].len() && 0 <= j2
                < acts[i2].len() && (#[trigger] acts[i1][j1]) is Disconnect && (#[trigger] acts[i2][j2]) is Disconnect
                ==> i1 == i2 && j1 == j2,
{
    lemma_run_steps(states, times, events, acts);
    assert forall|i1: int, j1: int, i2: int, j2: int|
        0 <= i1 < acts.len() && 0 <= i2 < acts.len() && 0 <= j1 < acts[i1].len() && 0 <= j2
            < acts[i2].len() && (#[trigger] acts[i1][j1]) is Disconnect && (#[trigger] acts[i2][j2]) is Disconnect
        implies i1 == i2 && j1 == j2 by {
        if i1 < i2 {
            assert(states[i1 + 1].phase == Phase::Closing);
            if i1 + 1 < i2 {
                lemma_phase_kept(states, i1 + 1, i2);
            }
        } else if i2 < i1 {
            assert(states[i2 + 1].phase == Phase::Closing);
            if i2 + 1 < i1 {
                lemma_phase_kept(states, i2 + 1, i1);
            }
        }
    }
}

} // verus!
