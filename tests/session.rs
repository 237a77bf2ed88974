use chat_server::session::{
    joined_text, process_text_msg, Action, ConnectionSession, Event, Phase, CLIENT_TIMEOUT_MS,
    HEARTBEAT_INTERVAL_MS,
};

fn active(conn_id: usize, now: u64) -> ConnectionSession {
    let mut s = ConnectionSession::new(now);
    assert_eq!(s.phase, Phase::Connecting);
    s.activate(conn_id);
    assert_eq!(s.phase, Phase::Active);
    s
}

#[test]
fn timeout_is_longer_than_the_ping_interval() {
    assert_eq!(HEARTBEAT_INTERVAL_MS, 5000);
    assert_eq!(CLIENT_TIMEOUT_MS, 10000);
}

#[test]
fn heartbeat_timeout_disconnects_exactly_once() {
    let mut s = active(1, 0);
    assert_eq!(s.step(5_000, Event::Tick), vec![Action::SendPing]);
    let acts = s.step(10_001, Event::Tick);
    assert_eq!(acts, vec![Action::Disconnect(1), Action::Close]);
    assert_eq!(s.phase, Phase::Closing);
    assert!(s.step(15_000, Event::Tick).is_empty());
    assert!(s.step(15_001, Event::StreamEnd).is_empty());
    assert!(s.step(15_002, Event::Text("/list".to_string())).is_empty());
    s.finish();
    assert_eq!(s.phase, Phase::Closed);
}

#[test]
fn silence_of_exactly_the_timeout_is_tolerated() {
    let mut s = active(1, 100);
    assert_eq!(s.step(10_100, Event::Tick), vec![Action::SendPing]);
    assert_eq!(s.phase, Phase::Active);
    assert!(!s.heartbeat_expired(10_100));
    assert!(s.heartbeat_expired(10_101));
}

#[test]
fn ping_and_pong_keep_the_session_alive() {
    let mut s = active(4, 0);
    assert_eq!(s.step(8_000, Event::Ping(vec![1, 2])), vec![Action::SendPong(vec![1, 2])]);
    assert_eq!(s.last_heartbeat, 8_000);
    assert_eq!(s.step(15_000, Event::Tick), vec![Action::SendPing]);
    assert!(s.step(17_000, Event::Pong).is_empty());
    assert_eq!(s.last_heartbeat, 17_000);
    assert_eq!(s.step(27_000, Event::Tick), vec![Action::SendPing]);
    assert_eq!(s.step(27_001, Event::Tick), vec![Action::Disconnect(4), Action::Close]);
}

#[test]
fn close_and_stream_failures_disconnect() {
    for ev in [Event::Close, Event::StreamError, Event::StreamEnd, Event::RouterUnavailable] {
        let mut s = active(9, 0);
        assert_eq!(s.step(1, ev), vec![Action::Disconnect(9), Action::Close]);
        assert_eq!(s.phase, Phase::Closing);
    }
}

#[test]
fn outbound_messages_are_forwarded() {
    let mut s = active(2, 0);
    assert_eq!(s.step(1, Event::Outbound("hi".to_string())), vec![Action::SendText("hi".to_string())]);
    assert!(s.step(2, Event::Binary).is_empty());
}

#[test]
fn session_that_is_not_active_ignores_events() {
    let mut s = ConnectionSession::new(0);
    assert!(s.step(1, Event::Close).is_empty());
    assert_eq!(s.phase, Phase::Connecting);
}

#[test]
fn text_commands() {
    assert_eq!(process_text_msg("/list"), vec![Action::ListRooms]);
    assert_eq!(process_text_msg("/join lobby"), vec![Action::JoinRoom("lobby".to_string())]);
    assert_eq!(
        process_text_msg("/join"),
        vec![Action::SendText("!!! room name is required".to_string())]
    );
    assert_eq!(
        process_text_msg("/leave now"),
        vec![Action::SendText("!!! unknown command: /leave now".to_string())]
    );
    assert!(process_text_msg("hello there").is_empty());
    assert!(process_text_msg("").is_empty());
}

#[test]
fn text_is_trimmed_before_reading() {
    assert_eq!(process_text_msg("  /list \n"), vec![Action::ListRooms]);
    assert_eq!(process_text_msg("\t/join  r "), vec![Action::JoinRoom(" r".to_string())]);
    assert_eq!(
        process_text_msg(" /join "),
        vec![Action::SendText("!!! room name is required".to_string())]
    );
    assert!(process_text_msg("  hi  ").is_empty());
}

#[test]
fn text_event_goes_through_the_parser() {
    let mut s = active(3, 0);
    assert_eq!(
        s.step(1, Event::Text(" /join r2".to_string())),
        vec![Action::JoinRoom("r2".to_string())]
    );
    assert_eq!(s.phase, Phase::Active);
}

#[test]
fn join_confirmation_text() {
    assert_eq!(joined_text("lobby"), "joined lobby");
    assert_eq!(joined_text(""), "joined ");
}
