use vstd::prelude::*;

use crate::model::ConnId;
use crate::text::{
    TextCommand, command_arg, command_word, has_prefix, parse_command, parses_as, trim, trimmed,
};

verus! {

/// Time between two heartbeat pings, in milliseconds.
pub const HEARTBEAT_INTERVAL_MS: u64 = 5000;

/// Silence after which a client counts as gone, in milliseconds; longer
/// than the ping interval.
pub const CLIENT_TIMEOUT_MS: u64 = 10000;

/// Where a connection is in its life.
#[derive(Clone, Copy, PartialEq, Eq, Debug, Structural)]
pub enum Phase {
    /// Waiting for the router to hand out an id.
    Connecting,
    /// Serving the client.
    Active,
    /// Shutting down: the router has been told, the connection is closing.
    Closing,
    /// Done.
    Closed,
}

/// What the connection's loop has just seen.
#[derive(Clone, PartialEq, Eq, Debug)]
pub enum Event {
    /// A ping from the client, with its payload.
    Ping(Vec<u8>),
    /// A pong from the client.
    Pong,
    /// A text frame from the client.
    Text(String),
    /// A binary frame from the client, which this protocol does not use.
    Binary,
    /// The client closed the connection.
    Close,
    /// The client stream failed.
    StreamError,
    /// The client stream ended.
    StreamEnd,
    /// A message the router pushed onto this connection's outbound queue.
    Outbound(String),
    /// The heartbeat timer fired.
    Tick,
    /// The router did not answer: the connection cannot go on.
    RouterUnavailable,
}

/// What the connection's loop is to do, in order.
#[derive(Clone, PartialEq, Eq, Debug)]
pub enum Action {
    /// Answer a ping with this payload.
    SendPong(Vec<u8>),
    /// Send a heartbeat ping.
    SendPing,
    /// Send this text to the client.
    SendText(String),
    /// Ask the router for the room list and send it to the client.
    ListRooms,
    /// Ask the router to put this connection into the room, then confirm.
    JoinRoom(String),
    /// Tell the router that this connection is gone.
    Disconnect(ConnId),
    /// Close the connection to the client.
    Close,
}

/// The reply to a `/join` without a room name.
pub open spec fn missing_room_text() -> Seq<char> {
    "!!! room name is required"@
}

/// The reply to an unknown command line `msg`.
pub open spec fn unknown_command_text(msg: Seq<char>) -> Seq<char> {
    "!!! unknown command: "@ + msg
}

/// `acts` carries out the command `c`.
pub open spec fn command_actions(c: TextCommand, acts: Seq<Action>) -> bool {
    match c {
        TextCommand::List => acts.len() == 1 && acts[0] is ListRooms,
        TextCommand::Join(room) => acts.len() == 1 && acts[0] is JoinRoom && acts[0]->JoinRoom_0@
            == room@,
        TextCommand::MissingRoom => acts.len() == 1 && acts[0] is SendText && acts[0]->SendText_0@
            == missing_room_text(),
        TextCommand::Unknown(msg) => acts.len() == 1 && acts[0] is SendText && acts[0]->SendText_0@
            == unknown_command_text(msg@),
        TextCommand::Chat => acts.len() == 0,
    }
}

/// `acts` answers the trimmed line `msg`: `/list` and `/join <room>` go to
/// the router, a `/join` without room and unknown commands get a notice,
/// and chat text gets nothing here.
pub open spec fn text_actions(msg: Seq<char>, acts: Seq<Action>) -> bool {
    if !has_prefix(msg, "/"@) {
        acts.len() == 0
    } else if command_word(msg) == "/list"@ {
        acts.len() == 1 && acts[0] is ListRooms
    } else if command_word(msg) == "/join"@ {
        match command_arg(msg) {
            Some(room) => acts.len() == 1 && acts[0] is JoinRoom && acts[0]->JoinRoom_0@ == room,
            None => acts.len() == 1 && acts[0] is SendText && acts[0]->SendText_0@
                == missing_room_text(),
        }
    } else {
        acts.len() == 1 && acts[0] is SendText && acts[0]->SendText_0@ == unknown_command_text(msg)
    }
}

/// The actions that carry out a command read from a client.
pub fn actions_for(c: TextCommand) -> (acts: Vec<Action>)
    ensures
        command_actions(c, acts@),
{
    match c {
        TextCommand::List => vec![Action::ListRooms],
        TextCommand::Join(room) => vec![Action::JoinRoom(room)],
        TextCommand::MissingRoom => {
            let t = String::from_str("!!! room name is required");
            proof {
                reveal_strlit("!!! room name is required");
            }
            vec![Action::SendText(t)]
        },
        TextCommand::Unknown(msg) => {
            let mut t = String::from_str("!!! unknown command: ");
            t.append(msg.as_str());
            vec![Action::SendText(t)]
        },
        TextCommand::Chat => Vec::new(),
    }
}

/// Reads a text frame and says what to do about it; surrounding whitespace
/// is ignored.
pub fn process_text_msg(text: &str) -> (acts: Vec<Action>)
    ensures
        text_actions(trimmed(text@), acts@),
{
    let msg = trim(text);
    let c = parse_command(msg);
    let ghost gc = c;
    let acts = actions_for(c);
    proof {
        assert(parses_as(msg@, gc));
    }
    acts
}

/// The confirmation sent to a client that joined `room`.
pub fn joined_text(room: &str) -> (t: String)
    ensures
        t@ == "joined "@ + room@,
{
    let mut t = String::from_str("joined ");
    t.append(room);
    t
}

/// More than the timeout has passed since the last heartbeat at `last`.
pub open spec fn expired(last: u64, now: u64) -> bool {
    now > last && now - last > CLIENT_TIMEOUT_MS
}

/// Per-connection protocol state. Only the connection's own loop touches it.
#[derive(Clone, Copy, PartialEq, Eq, Debug)]
pub struct ConnectionSession {
    pub conn_id: ConnId,
    pub phase: Phase,
    /// When the client last sent a ping or pong, in milliseconds.
    pub last_heartbeat: u64,
}

/// `after` and `acts` are the shutdown of `before`: the router is told once,
/// then the connection closes.
pub open spec fn shuts_down(before: ConnectionSession, after: ConnectionSession, acts: Seq<Action>) -> bool {
    &&& after == (ConnectionSession { phase: Phase::Closing, ..before })
    &&& acts.len() == 2
    &&& acts[0] == Action::Disconnect(before.conn_id)
    &&& acts[1] is Close
}

/// One step of the protocol: what `ev`, seen at time `now`, does to an
/// active session `before`, and the actions it calls for. A session that is
/// not active ignores everything.
pub open spec fn stepped(
    before: ConnectionSession,
    now: u64,
    ev: Event,
    after: ConnectionSession,
    acts: Seq<Action>,
) -> bool {
    if before.phase != Phase::Active {
        after == before && acts.len() == 0
    } else {
        match ev {
            Event::Ping(b) => {
                &&& after == (ConnectionSession { last_heartbeat: now, ..before })
                &&& acts.len() == 1
                &&& acts[0] is SendPong
                &&& acts[0]->SendPong_0@ == b@
            },
            Event::Pong => after == (ConnectionSession { last_heartbeat: now, ..before }) && acts.len()
                == 0,
            Event::Text(t) => after == before && text_actions(trimmed(t@), acts),
            Event::Binary => after == before && acts.len() == 0,
            Event::Close => shuts_down(before, after, acts),
            Event::StreamError => shuts_down(before, after, acts),
            Event::StreamEnd => shuts_down(before, after, acts),
            Event::RouterUnavailable => shuts_down(before, after, acts),
            Event::Outbound(m) => {
                &&& after == before
                &&& acts.len() == 1
                &&& acts[0] is SendText
                &&& acts[0]->SendText_0@ == m@
            },
            Event::Tick => if expired(before.last_heartbeat, now) {
                shuts_down(before, after, acts)
            } else {
                after == before && acts.len() == 1 && acts[0] is SendPing
            },
        }
    }
}

impl ConnectionSession {
    /// A session that waits for its id; the heartbeat clock starts at `now`.
    pub fn new(now: u64) -> (s: Self)
        ensures
            s.phase == Phase::Connecting,
            s.last_heartbeat == now,
    {
        ConnectionSession { conn_id: 0, phase: Phase::Connecting, last_heartbeat: now }
    }

    /// The router has handed out `conn_id`: the session becomes active.
    pub fn activate(&mut self, conn_id: ConnId)
        requires
            old(self).phase == Phase::Connecting,
        ensures
            *final(self) == (ConnectionSession {
                conn_id,
                phase: Phase::Active,
                last_heartbeat: old(self).last_heartbeat,
            }),
    {
        self.conn_id = conn_id;
        self.phase = Phase::Active;
    }

    /// Whether the client has been silent for longer than the timeout at
    /// time `now`.
    pub fn heartbeat_expired(&self, now: u64) -> (r: bool)
        ensures
            r == expired(self.last_heartbeat, now),
    {
        now > self.last_heartbeat && now - self.last_heartbeat > CLIENT_TIMEOUT_MS
    }

    /// Moves to `Closing` and asks for the router to be told and the
    /// connection closed.
    fn shut_down(&mut self) -> (acts: Vec<Action>)
        ensures
            shuts_down(*old(self), *final(self), acts@),
    {
        self.phase = Phase::Closing;
        vec![Action::Disconnect(self.conn_id), Action::Close]
    }

    /// Handles one event seen at time `now`.
    pub fn step(&mut self, now: u64, ev: Event) -> (acts: Vec<Action>)
        ensures
            stepped(*old(self), now, ev, *final(self), acts@),
    {
        if self.phase != Phase::Active {
            return Vec::new();
        }
        match ev {
            Event::Ping(b) => {
                self.last_heartbeat = now;
                vec![Action::SendPong(b)]
            },
            Event::Pong => {
                self.last_heartbeat = now;
                Vec::new()
            },
            Event::Text(t) => process_text_msg(t.as_str()),
            Event::Binary => Vec::new(),
            Event::Close => self.shut_down(),
            Event::StreamError => self.shut_down(),
            Event::StreamEnd => self.shut_down(),
            Event::RouterUnavailable => self.shut_down(),
            Event::Outbound(m) => vec![Action::SendText(m)],
            Event::Tick => {
                if self.heartbeat_expired(now) {
                    self.shut_down()
                } else {
                    vec![Action::SendPing]
                }
            },
        }
    }

    /// The connection to the client is closed: the session is over.
    pub fn finish(&mut self)
        requires
            old(self).phase == Phase::Closing,
        ensures
            *final(self) == (ConnectionSession { phase: Phase::Closed, ..*old(self) }),
    {
        self.phase = Phase::Closed;
    }
}

} // verus!
