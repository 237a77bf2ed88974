use chat_server::router::{ChatServer, Command, Delivery, Reply, WsRoom};

fn names(v: &[&str]) -> Vec<String> {
    v.iter().map(|s| s.to_string()).collect()
}

fn room<'a>(rooms: &'a [WsRoom], id: &str) -> &'a WsRoom {
    rooms.iter().find(|r| r.room_id == id).expect("room is listed")
}

fn sorted_users(r: &WsRoom) -> Vec<(usize, String)> {
    let mut us = r.users.clone();
    us.sort();
    us
}

fn recipients(ds: &[Delivery]) -> Vec<usize> {
    let mut ids: Vec<usize> = ds.iter().map(|d| d.conn_id).collect();
    ids.sort();
    ids
}

#[test]
fn new_router_lists_no_rooms() {
    let server: ChatServer<()> = ChatServer::new();
    assert!(server.list_rooms().is_empty());
}

#[test]
fn init_seeds_empty_rooms_once() {
    let mut server: ChatServer<()> = ChatServer::new();
    server.init(names(&["a", "b", "a"]));
    let rooms = server.list_rooms();
    assert_eq!(rooms.len(), 2);
    assert!(room(&rooms, "a").users.is_empty());
    assert!(room(&rooms, "b").users.is_empty());
}

#[test]
fn connect_enters_previously_joined_rooms() {
    let mut server: ChatServer<()> = ChatServer::new();
    server.init(names(&["a", "c"]));
    let id = server.connect_with_id(7, (), "u".to_string(), names(&["a", "b"]));
    assert_eq!(id, 7);
    let rooms = server.list_rooms();
    assert_eq!(rooms.len(), 3);
    assert_eq!(sorted_users(room(&rooms, "a")), vec![(7, "u".to_string())]);
    assert_eq!(sorted_users(room(&rooms, "b")), vec![(7, "u".to_string())]);
    assert!(room(&rooms, "c").users.is_empty());
}

#[test]
fn connect_skips_an_id_in_use() {
    let mut server: ChatServer<()> = ChatServer::new();
    assert_eq!(server.connect_with_id(5, (), "a".to_string(), vec![]), 5);
    assert_eq!(server.connect_with_id(5, (), "b".to_string(), vec![]), 6);
    assert_eq!(server.connect_with_id(5, (), "c".to_string(), vec![]), 7);
}

#[test]
fn connect_wraps_around_at_the_largest_id() {
    let mut server: ChatServer<()> = ChatServer::new();
    assert_eq!(server.connect_with_id(usize::MAX, (), "a".to_string(), vec![]), usize::MAX);
    assert_eq!(server.connect_with_id(usize::MAX, (), "b".to_string(), vec![]), 0);
}

#[test]
fn random_ids_are_distinct() {
    let mut server: ChatServer<()> = ChatServer::new();
    let a = server.connect((), "u".to_string(), vec![]);
    let b = server.connect((), "u".to_string(), vec![]);
    assert_ne!(a, b);
    assert!(server.outbound(a).is_some());
    assert!(server.outbound(b).is_some());
}

#[test]
fn outbound_returns_the_channel_given_at_connect() {
    let mut server: ChatServer<u32> = ChatServer::new();
    let id = server.connect_with_id(3, 99, "u".to_string(), vec![]);
    assert_eq!(server.outbound(id), Some(&99));
    assert_eq!(server.outbound(4), None);
}

#[test]
fn list_rooms_after_connect_and_join() {
    let mut server: ChatServer<()> = ChatServer::new();
    let id = server.connect_with_id(1, (), "u1".to_string(), vec![]);
    assert_eq!(id, 1);
    server.join_room(1, "lobby".to_string());
    let rooms = server.list_rooms();
    assert_eq!(sorted_users(room(&rooms, "lobby")), vec![(1, "u1".to_string())]);
}

#[test]
fn send_to_room_reaches_other_members_only() {
    let mut server: ChatServer<()> = ChatServer::new();
    assert_eq!(server.connect_with_id(1, (), "a".to_string(), vec![]), 1);
    assert_eq!(server.connect_with_id(2, (), "b".to_string(), vec![]), 2);
    server.join_room(1, "r".to_string());
    server.join_room(2, "r".to_string());
    let ds = server.send_message(1, "r".to_string(), "hi".to_string());
    assert_eq!(ds, vec![Delivery { conn_id: 2, msg: "hi".to_string() }]);
}

#[test]
fn send_to_missing_room_delivers_nothing() {
    let mut server: ChatServer<()> = ChatServer::new();
    server.connect_with_id(1, (), "a".to_string(), vec![]);
    assert!(server.send_message(1, "nowhere".to_string(), "hi".to_string()).is_empty());
}

#[test]
fn send_to_room_skips_non_members() {
    let mut server: ChatServer<()> = ChatServer::new();
    for id in 1..=4 {
        server.connect_with_id(id, (), format!("u{id}"), vec![]);
    }
    server.join_room(1, "r".to_string());
    server.join_room(2, "r".to_string());
    server.join_room(3, "r".to_string());
    server.join_room(4, "s".to_string());
    let ds = server.send_message(2, "r".to_string(), "m".to_string());
    assert_eq!(recipients(&ds), vec![1, 3]);
    assert!(ds.iter().all(|d| d.msg == "m"));
}

#[test]
fn join_notifies_the_other_members() {
    let mut server: ChatServer<()> = ChatServer::new();
    server.connect_with_id(1, (), "a".to_string(), vec![]);
    server.connect_with_id(2, (), "b".to_string(), vec![]);
    assert!(server.join_room(1, "r".to_string()).is_empty());
    let ds = server.join_room(2, "r".to_string());
    assert_eq!(ds, vec![Delivery { conn_id: 1, msg: "Someone connected".to_string() }]);
}

#[test]
fn join_by_unknown_connection_changes_nothing() {
    let mut server: ChatServer<()> = ChatServer::new();
    assert!(server.join_room(9, "r".to_string()).is_empty());
    assert!(server.list_rooms().is_empty());
}

#[test]
fn rooms_are_additive() {
    let mut server: ChatServer<()> = ChatServer::new();
    server.connect_with_id(1, (), "a".to_string(), vec![]);
    server.join_room(1, "x".to_string());
    server.join_room(1, "y".to_string());
    server.join_room(1, "x".to_string());
    let rooms = server.list_rooms();
    assert_eq!(sorted_users(room(&rooms, "x")), vec![(1, "a".to_string())]);
    assert_eq!(sorted_users(room(&rooms, "y")), vec![(1, "a".to_string())]);
}

#[test]
fn exit_leaves_only_the_named_room() {
    let mut server: ChatServer<()> = ChatServer::new();
    server.connect_with_id(1, (), "a".to_string(), vec![]);
    server.join_room(1, "x".to_string());
    server.join_room(1, "y".to_string());
    server.exit_room(1, "x".to_string());
    let rooms = server.list_rooms();
    assert!(room(&rooms, "x").users.is_empty());
    assert_eq!(sorted_users(room(&rooms, "y")), vec![(1, "a".to_string())]);
    // leaving again, or leaving an unknown room, is a no-op
    server.exit_room(1, "x".to_string());
    server.exit_room(1, "nowhere".to_string());
    let again = server.list_rooms();
    assert_eq!(again.len(), 2);
    assert_eq!(sorted_users(room(&again, "y")), vec![(1, "a".to_string())]);
}

#[test]
fn joins_and_exits_apply_in_order() {
    let mut server: ChatServer<()> = ChatServer::new();
    server.connect_with_id(1, (), "a".to_string(), vec![]);
    server.join_room(1, "x".to_string());
    server.exit_room(1, "x".to_string());
    server.join_room(1, "y".to_string());
    server.join_room(1, "x".to_string());
    server.exit_room(1, "y".to_string());
    let rooms = server.list_rooms();
    assert_eq!(sorted_users(room(&rooms, "x")), vec![(1, "a".to_string())]);
    assert!(room(&rooms, "y").users.is_empty());
}

#[test]
fn disconnect_notifies_each_room_left() {
    let mut server: ChatServer<()> = ChatServer::new();
    for id in 1..=3 {
        server.connect_with_id(id, (), format!("u{id}"), vec![]);
    }
    server.join_room(1, "x".to_string());
    server.join_room(1, "y".to_string());
    server.join_room(2, "x".to_string());
    server.join_room(2, "y".to_string());
    server.join_room(3, "y".to_string());
    let ds = server.disconnect(1);
    assert_eq!(recipients(&ds), vec![2, 2, 3]);
    assert!(ds.iter().all(|d| d.msg == "Someone disconnected"));
    assert!(server.outbound(1).is_none());
    let rooms = server.list_rooms();
    assert_eq!(sorted_users(room(&rooms, "x")), vec![(2, "u2".to_string())]);
}

#[test]
fn disconnect_twice_is_like_once() {
    let mut server: ChatServer<()> = ChatServer::new();
    server.connect_with_id(1, (), "a".to_string(), vec![]);
    server.connect_with_id(2, (), "b".to_string(), vec![]);
    server.join_room(1, "r".to_string());
    server.join_room(2, "r".to_string());
    assert_eq!(server.disconnect(1).len(), 1);
    let after_once = server.list_rooms();
    assert!(server.disconnect(1).is_empty());
    assert_eq!(server.list_rooms(), after_once);
    assert!(server.disconnect(42).is_empty());
}

#[test]
fn broadcast_reaches_everyone_but_the_skipped() {
    let mut server: ChatServer<()> = ChatServer::new();
    for id in 1..=3 {
        server.connect_with_id(id, (), format!("u{id}"), vec![]);
    }
    server.join_room(1, "x".to_string());
    let ds = server.broadcast(2, "news".to_string());
    assert_eq!(recipients(&ds), vec![1, 3]);
    assert_eq!(recipients(&server.broadcast(0, "all".to_string())), vec![1, 2, 3]);
}

#[test]
fn handle_dispatches_commands() {
    let mut server: ChatServer<()> = ChatServer::new();
    let (reply, ds) = server.handle(Command::Connect {
        outbound: (),
        user_id: "u".to_string(),
        joined_rooms: names(&["home"]),
    });
    let id = match reply {
        Reply::Connected(id) => id,
        other => panic!("unexpected reply {other:?}"),
    };
    assert!(ds.is_empty());
    let (reply, _) = server.handle(Command::Join { conn: id, room: "r".to_string() });
    assert_eq!(reply, Reply::Done);
    let (reply, ds) = server.handle(Command::List);
    assert!(ds.is_empty());
    match reply {
        Reply::Rooms(rooms) => {
            assert_eq!(rooms.len(), 2);
            assert_eq!(sorted_users(room(&rooms, "r")), vec![(id, "u".to_string())]);
        }
        other => panic!("unexpected reply {other:?}"),
    }
    let (_, ds) = server.handle(Command::Broadcast { msg: "m".to_string(), conn: id });
    assert!(ds.is_empty());
    let (_, ds) = server.handle(Command::Message {
        msg: "m".to_string(),
        conn: id,
        room_id: "r".to_string(),
    });
    assert!(ds.is_empty());
    let (reply, _) = server.handle(Command::Exit { conn: id, room: "r".to_string() });
    assert_eq!(reply, Reply::Done);
    let (reply, ds) = server.handle(Command::Disconnect { conn: id });
    assert_eq!(reply, Reply::Done);
    assert!(ds.is_empty());
    assert!(server.outbound(id).is_none());
}
