use chat_server::message::{ClientToServerMsg, ServerToClientMsg};
use chat_server::server::{Action, Config, Server};

fn join(name: &str) -> ClientToServerMsg {
    ClientToServerMsg::Join { name: name.to_string() }
}

fn error(to: u64, text: &str) -> Action {
    Action::Close { token: to, farewell: Some(ServerToClientMsg::Error(text.to_string())) }
}

fn send(to: u64, msg: ServerToClientMsg) -> Action {
    Action::Send { to, msg }
}

fn message(from: &str, text: &str) -> ServerToClientMsg {
    ServerToClientMsg::Message { from: from.to_string(), message: text.to_string() }
}

/// A server with the named clients joined, their tokens 1, 2, ... in order.
fn server_with(names: &[&str]) -> Server {
    let mut s = Server::new(Config::new(10));
    for (i, name) in names.iter().enumerate() {
        let t = i as u64 + 1;
        assert!(s.accept(t, 0).is_empty());
        assert_eq!(s.on_message(t, join(name), 10), vec![send(t, ServerToClientMsg::Welcome)]);
    }
    s
}

fn users(s: &mut Server, t: u64, now: u64) -> Vec<String> {
    match s.on_message(t, ClientToServerMsg::ListUsers, now).as_slice() {
        [Action::Send { to, msg: ServerToClientMsg::UserList { users } }] if *to == t => users.clone(),
        other => panic!("unexpected reply {other:?}"),
    }
}

#[test]
fn join_then_ping() {
    let mut s = server_with(&["alice"]);
    assert_eq!(s.on_message(1, ClientToServerMsg::Ping, 20), vec![send(1, ServerToClientMsg::Pong)]);
    assert_eq!(s.registry().get_usernames_list(), vec!["alice".to_string()]);
}

#[test]
fn concurrent_join_same_name() {
    let mut s = Server::new(Config::new(10));
    s.accept(1, 0);
    s.accept(2, 0);
    assert_eq!(s.on_message(1, join("u"), 5), vec![send(1, ServerToClientMsg::Welcome)]);
    assert_eq!(s.on_message(2, join("u"), 6), vec![error(2, "Username already taken")]);
    assert!(!s.is_live(2));
    assert_eq!(s.registry().get("u"), Some(1));
    assert_eq!(s.registry().len(), 1);
}

#[test]
fn join_timeout_disconnects() {
    let mut s = Server::new(Config::new(10));
    s.accept(1, 1000);
    assert!(s.on_tick(3000).is_empty());
    assert_eq!(s.expired_tokens(3001), vec![1]);
    assert_eq!(s.on_tick(3001), vec![error(1, "Timed out waiting for Join")]);
    assert!(!s.is_live(1));
    assert_eq!(s.registry().len(), 0);
}

#[test]
fn late_join_is_refused() {
    let mut s = Server::new(Config::new(10));
    s.accept(1, 0);
    assert_eq!(s.on_message(1, join("alice"), 2001), vec![error(1, "Timed out waiting for Join")]);
    assert!(!s.is_live(1));
    assert!(!s.registry().is_taken("alice"));
}

#[test]
fn join_on_the_deadline_is_accepted() {
    let mut s = Server::new(Config::new(10));
    s.accept(1, 0);
    assert_eq!(s.on_message(1, join("alice"), 2000), vec![send(1, ServerToClientMsg::Welcome)]);
}

#[test]
fn dm_routing() {
    let mut s = server_with(&["alice", "bob"]);
    assert_eq!(
        s.on_message(1, ClientToServerMsg::SendDM { to: "bob".to_string(), message: "hi".to_string() }, 20),
        vec![send(2, message("alice", "hi"))]
    );
    assert_eq!(
        s.on_message(1, ClientToServerMsg::SendDM { to: "alice".to_string(), message: "x".to_string() }, 21),
        vec![send(1, ServerToClientMsg::Error("Cannot send a DM to yourself".to_string()))]
    );
}

#[test]
fn dm_to_unknown_user() {
    let mut s = server_with(&["alice"]);
    assert_eq!(
        s.on_message(1, ClientToServerMsg::SendDM { to: "zed".to_string(), message: "x".to_string() }, 20),
        vec![send(1, ServerToClientMsg::Error("User does not exist".to_string()))]
    );
}

#[test]
fn broadcast_exclusion() {
    let mut s = server_with(&["a", "b", "c"]);
    assert_eq!(
        s.on_message(2, ClientToServerMsg::Broadcast { message: "m".to_string() }, 20),
        vec![send(1, message("b", "m")), send(3, message("b", "m"))]
    );
}

#[test]
fn broadcast_alone_sends_nothing() {
    let mut s = server_with(&["a"]);
    assert!(s.on_message(1, ClientToServerMsg::Broadcast { message: "m".to_string() }, 20).is_empty());
}

#[test]
fn cleanup_on_disconnect() {
    let mut s = server_with(&["alice", "bob"]);
    assert_eq!(users(&mut s, 2, 20), vec!["alice".to_string(), "bob".to_string()]);
    assert_eq!(s.on_closed(1), vec![Action::Close { token: 1, farewell: None }]);
    assert_eq!(users(&mut s, 2, 21), vec!["bob".to_string()]);
    s.accept(3, 30);
    assert_eq!(s.on_message(3, join("alice"), 40), vec![send(3, ServerToClientMsg::Welcome)]);
    assert_eq!(users(&mut s, 3, 41), vec!["bob".to_string(), "alice".to_string()]);
}

#[test]
fn name_length_limit() {
    let mut s = Server::new(Config::new(10));
    s.accept(1, 0);
    let name = "abcdefghijklmnop";
    assert_eq!(name.len(), 16);
    assert_eq!(s.on_message(1, join(name), 5), vec![error(1, "Username too long")]);
    assert!(!s.is_live(1));
    assert_eq!(s.registry().len(), 0);
    s.accept(2, 0);
    assert_eq!(s.on_message(2, join("abcdefghijklmno"), 5), vec![send(2, ServerToClientMsg::Welcome)]);
}

#[test]
fn name_limit_counts_bytes() {
    let mut s = Server::new(Config::new(10));
    s.accept(1, 0);
    assert_eq!(s.on_message(1, join("ééééééééé"), 5), vec![error(1, "Username too long")]);
}

#[test]
fn first_message_must_be_join() {
    let mut s = Server::new(Config::new(10));
    s.accept(1, 0);
    assert_eq!(s.on_message(1, ClientToServerMsg::Ping, 5), vec![error(1, "Unexpected message received")]);
    assert!(!s.is_live(1));
}

#[test]
fn second_join_disconnects() {
    let mut s = server_with(&["alice"]);
    assert_eq!(s.on_message(1, join("other"), 20), vec![error(1, "Unexpected message received")]);
    assert!(!s.is_live(1));
    assert!(!s.registry().is_taken("alice"));
    assert!(!s.registry().is_taken("other"));
}

#[test]
fn server_full() {
    let mut s = Server::new(Config::new(1));
    assert!(s.accept(1, 0).is_empty());
    assert_eq!(s.accept(2, 0), vec![error(2, "Server is full")]);
    assert!(!s.is_live(2));
    assert_eq!(s.len(), 1);
}

#[test]
fn idle_timeout() {
    let mut s = server_with(&["alice", "bob"]);
    s.on_message(2, ClientToServerMsg::Ping, 3000);
    assert_eq!(s.on_tick(3011), vec![error(1, "Timed out due to inactivity")]);
    assert!(!s.registry().is_taken("alice"));
    assert!(s.registry().is_taken("bob"));
}

#[test]
fn messages_from_unknown_tokens_are_ignored() {
    let mut s = server_with(&["alice"]);
    assert!(s.on_message(42, ClientToServerMsg::Ping, 20).is_empty());
    assert!(s.on_closed(42).is_empty());
    assert!(s.time_out(42, 1_000_000).is_empty());
}

#[test]
fn shutdown_closes_everyone() {
    let mut s = server_with(&["alice", "bob"]);
    s.accept(3, 0);
    assert_eq!(
        s.shutdown(),
        vec![
            error(1, "Server is shutting down"),
            error(2, "Server is shutting down"),
            error(3, "Server is shutting down"),
        ]
    );
    assert_eq!(s.len(), 0);
    assert_eq!(s.registry().len(), 0);
}

#[test]
fn next_deadline() {
    let mut s = Server::new(Config::new(10));
    assert_eq!(s.next_deadline(), None);
    s.accept(1, 100);
    s.accept(2, 50);
    assert_eq!(s.next_deadline(), Some(2051));
    s.on_message(2, join("bob"), 60);
    assert_eq!(s.next_deadline(), Some(2101));
}

#[test]
fn custom_idle_timeout() {
    let mut config = Config::new(10);
    config.idle_timeout_ms = 5000;
    let mut s = Server::new(config);
    s.accept(1, 0);
    s.on_message(1, join("alice"), 10);
    assert!(s.on_tick(5010).is_empty());
    assert_eq!(s.on_tick(5011), vec![error(1, "Timed out due to inactivity")]);
}

#[test]
fn session_tracks_its_name() {
    let mut s = Server::new(Config::new(10));
    s.accept(5, 0);
    assert_eq!(s.session(5).unwrap().username(), None);
    assert_eq!(s.session(5).unwrap().token(), 5);
    s.on_message(5, join("zoe"), 1);
    assert_eq!(s.session(5).unwrap().username(), Some("zoe"));
    assert!(s.session(6).is_none());
}

fn frames(msgs: &[ClientToServerMsg]) -> Vec<u8> {
    let mut bytes = Vec::new();
    for m in msgs {
        bytes.extend(chat_server::codec::encode_client_msg(m).unwrap());
    }
    bytes
}

#[test]
fn input_applies_every_whole_message() {
    let mut s = Server::new(Config::new(10));
    s.accept(1, 0);
    let mut d = chat_server::codec::FrameDecoder::new();
    let bytes = frames(&[join("alice"), ClientToServerMsg::Ping, ClientToServerMsg::Ping]);
    d.push_bytes(&bytes[..bytes.len() - 2]);
    assert_eq!(
        s.on_input(1, &mut d, 5),
        vec![send(1, ServerToClientMsg::Welcome), send(1, ServerToClientMsg::Pong)]
    );
    d.push_bytes(&bytes[bytes.len() - 2..]);
    assert_eq!(s.on_input(1, &mut d, 6), vec![send(1, ServerToClientMsg::Pong)]);
}

#[test]
fn input_stops_after_close() {
    let mut s = Server::new(Config::new(10));
    s.accept(1, 0);
    let mut d = chat_server::codec::FrameDecoder::new();
    d.push_bytes(&frames(&[ClientToServerMsg::Ping, join("alice")]));
    assert_eq!(s.on_input(1, &mut d, 5), vec![error(1, "Unexpected message received")]);
    assert!(!s.registry().is_taken("alice"));
}

#[test]
fn malformed_input_closes_silently() {
    let mut s = server_with(&["alice"]);
    let mut d = chat_server::codec::FrameDecoder::new();
    d.push_bytes(&[0, 0, 0, 1, 77]);
    assert_eq!(s.on_input(1, &mut d, 20), vec![Action::Close { token: 1, farewell: None }]);
    assert!(!s.registry().is_taken("alice"));
}
