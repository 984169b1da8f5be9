use fakecord::model::{Channel, Connection, Message, User, CHAT_MAX_SIZE};
use fakecord::watch::{can_watch, watch_step, WatchAction, WatchState};

fn user(name: &str, host: &str) -> User {
    User::new(
        name.to_string(),
        format!("id-{}", name),
        format!("{}:1000", host),
        format!("{}:1001", host),
        format!("{}:1002", host),
    )
}

fn conn(id: &str, host: &str) -> Connection {
    Connection::new(
        id.to_string(),
        Some(format!("{}:1000", host)),
        Some(format!("{}:1001", host)),
        Some(format!("{}:1002", host)),
        Some(format!("{}:1003", host)),
    )
}

fn message(id: &str) -> Message {
    Message {
        id: id.to_string(),
        sender_id: "u1".to_string(),
        sender: "Ann".to_string(),
        date: "d".to_string(),
        content: "hi".to_string(),
    }
}

fn channel(id: &str, users: Vec<User>, chat: Option<Vec<Message>>) -> Channel {
    let mut c = Channel::new(id.to_string(), "S".to_string(), None, None);
    c.users = Some(users);
    c.chat_msgs = chat;
    c
}

#[test]
fn new_state_is_zero() {
    let s = WatchState::new();
    assert_eq!((s.users_len, s.chat_len), (0, 0));
}

#[test]
fn member_change_names_linked_connections() {
    let mut channels = vec![channel("c1", vec![user("Ann", "h1"), user("Bo", "h2")], Some(vec![]))];
    let conns = vec![conn("x", "h2"), conn("y", "h3"), conn("z", "h1")];
    let mut st = WatchState::new();
    match watch_step(&mut st, "c1", &mut channels, &conns) {
        WatchAction::MembersChanged(v) => assert_eq!(v, vec![2, 0]),
        _ => panic!("expected a member change"),
    }
    assert_eq!(st.users_len, 2);
    assert_eq!(st.chat_len, 0);
    assert!(matches!(watch_step(&mut st, "c1", &mut channels, &conns), WatchAction::Idle));
}

#[test]
fn chat_change_notifies_and_records_length() {
    let mut channels = vec![channel("c1", vec![user("Ann", "h1")], Some(vec![message("m1"), message("m2")]))];
    let conns = vec![conn("x", "h1")];
    let mut st = WatchState { users_len: 1, chat_len: 0 };
    match watch_step(&mut st, "c1", &mut channels, &conns) {
        WatchAction::ChatChanged(v) => assert_eq!(v, vec![0]),
        _ => panic!("expected a chat change"),
    }
    assert_eq!(st.chat_len, 2);
    assert_eq!(channels[0].chat_msgs.as_ref().unwrap().len(), 2);
}

#[test]
fn full_chat_drops_oldest() {
    let msgs: Vec<Message> = (0..11).map(|i| message(&format!("m{}", i))).collect();
    let mut channels = vec![channel("c1", vec![user("Ann", "h1")], Some(msgs))];
    let conns = vec![conn("x", "h1")];
    let mut st = WatchState { users_len: 1, chat_len: CHAT_MAX_SIZE };
    assert!(matches!(watch_step(&mut st, "c1", &mut channels, &conns), WatchAction::ChatChanged(_)));
    let chat = channels[0].chat_msgs.as_ref().unwrap();
    assert_eq!(chat.len(), 10);
    assert_eq!(chat[0].id, "m1");
    assert_eq!(st.chat_len, 10);
}

#[test]
fn watched_channel_by_containment() {
    let mut channels = vec![
        channel("zz", vec![user("Ann", "h1")], Some(vec![])),
        channel("c1", vec![user("Ann", "h1")], Some(vec![])),
    ];
    let conns = vec![conn("x", "h1")];
    let mut st = WatchState::new();
    assert!(matches!(watch_step(&mut st, "abc1", &mut channels, &conns), WatchAction::MembersChanged(_)));
    assert_eq!(st.users_len, 1);
}

#[test]
fn unwatched_pool_is_idle() {
    let mut channels = vec![channel("c1", vec![user("Ann", "h1")], None)];
    let conns = vec![conn("x", "h1")];
    let mut st = WatchState::new();
    assert!(matches!(watch_step(&mut st, "q", &mut channels, &conns), WatchAction::Idle));
}

#[test]
fn missing_lists_are_errors() {
    let mut ch = channel("c1", vec![], None);
    ch.users = None;
    let mut channels = vec![ch];
    let mut st = WatchState::new();
    assert!(!can_watch(&st, "c1", &channels, &vec![]));

    let channels = vec![channel("c1", vec![], None)];
    assert!(!can_watch(&st, "c1", &channels, &vec![]));
    assert!(can_watch(&st, "zz", &channels, &vec![]));
}

#[test]
fn missing_updater_stream_is_error() {
    let mut channels = vec![channel("c1", vec![user("Ann", "h1")], Some(vec![]))];
    let mut c = conn("x", "h1");
    c.updater_stream = None;
    let mut st = WatchState::new();
    assert!(!can_watch(&st, "c1", &channels, &vec![c]));
    assert_eq!(st.users_len, 0);
}

#[test]
fn full_chat_emptied_is_error() {
    let mut channels = vec![channel("c1", vec![user("Ann", "h1")], Some(vec![]))];
    let mut st = WatchState { users_len: 1, chat_len: CHAT_MAX_SIZE };
    assert!(!can_watch(&st, "c1", &channels, &vec![conn("x", "h1")]));
}

#[test]
fn watcher_settles_after_two_looks() {
    let mut channels = vec![channel("c1", vec![user("Ann", "h1")], Some(vec![message("m1"), message("m2")]))];
    let conns = vec![conn("x", "h1")];
    let mut st = WatchState::new();
    assert!(matches!(watch_step(&mut st, "c1", &mut channels, &conns), WatchAction::MembersChanged(_)));
    assert!(matches!(watch_step(&mut st, "c1", &mut channels, &conns), WatchAction::ChatChanged(_)));
    assert!(matches!(watch_step(&mut st, "c1", &mut channels, &conns), WatchAction::Idle));
    assert_eq!((st.users_len, st.chat_len), (1, 2));
}

#[test]
fn two_watched_channels_keep_flapping() {
    let mut channels = vec![
        channel("c", vec![user("Ann", "h1")], Some(vec![])),
        channel("c1", vec![user("Ann", "h1"), user("Bo", "h2")], Some(vec![])),
    ];
    let conns = vec![conn("x", "h1")];
    let mut st = WatchState::new();
    for _ in 0..4 {
        assert!(matches!(watch_step(&mut st, "c1", &mut channels, &conns), WatchAction::MembersChanged(_)));
    }
}
