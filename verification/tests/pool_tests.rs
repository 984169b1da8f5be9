use fakecord::model::{Channel, Connection, Message, User};
use fakecord::pool::{
    can_answer_member_list, can_disconnect, channel_info_reply, connect_client, disconnect, find_channel, find_connection,
    find_info_target, history_frame, initial_channels, install_chat, join_channel,
    member_list_reply, register_connection, server_name_text, Registration,
};
use fakecord::wire::{encode_channel_header, encode_messages, encode_user_list};

fn user(name: &str, id: &str, host: &str) -> User {
    User::new(
        name.to_string(),
        id.to_string(),
        format!("{}:1000", host),
        format!("{}:1001", host),
        format!("{}:1002", host),
    )
}

fn conn(id: &str, host: &str) -> Connection {
    Connection::new(
        id.to_string(),
        Some(format!("{}:1000", host)),
        Some(format!("{}:1001", host)),
        Some(format!("{}:1002", host)),
        Some(format!("{}:1003", host)),
    )
}

fn channel(id: &str, name: &str) -> Channel {
    Channel::new(id.to_string(), name.to_string(), None, None)
}

fn message(id: &str) -> Message {
    Message {
        id: id.to_string(),
        sender_id: "u1".to_string(),
        sender: "Ann".to_string(),
        date: "2024-01-02 03:04:05".to_string(),
        content: "hi".to_string(),
    }
}

fn names(ch: &Channel) -> Vec<String> {
    ch.users.as_ref().unwrap().iter().map(|u| u.name.clone()).collect()
}

#[test]
fn channel_new_ignores_lists() {
    let c = Channel::new("a".to_string(), "b".to_string(), Some(vec![user("x", "1", "h")]), Some(vec![message("m")]));
    assert_eq!(c.id, "a");
    assert_eq!(c.channel_name, "b");
    assert!(c.users.is_none());
    assert!(c.chat_msgs.is_none());
}

#[test]
fn server_names() {
    assert_eq!(server_name_text(1), "Server 1");
    assert_eq!(server_name_text(12), "Server 12");
}

#[test]
fn initial_channels_are_numbered() {
    let pool = initial_channels(&vec!["a1".to_string(), "b2".to_string(), "c3".to_string()]);
    assert_eq!(pool.len(), 3);
    assert_eq!(pool[0].id, "a1");
    assert_eq!(pool[0].channel_name, "Server 1");
    assert_eq!(pool[2].id, "c3");
    assert_eq!(pool[2].channel_name, "Server 3");
    assert!(pool.iter().all(|c| c.users.is_none() && c.chat_msgs.is_none()));
}

#[test]
fn initial_channel_names_distinct() {
    let ids: Vec<String> = (0..25).map(|i| format!("id{}", i)).collect();
    let pool = initial_channels(&ids);
    for i in 0..pool.len() {
        for j in 0..pool.len() {
            if i != j {
                assert_ne!(pool[i].channel_name, pool[j].channel_name);
            }
        }
    }
}

#[test]
fn find_channel_first_containing() {
    let pool = vec![channel("abc", "A"), channel("xbc", "B")];
    assert_eq!(find_channel(&pool, "bc"), Some(0));
    assert_eq!(find_channel(&pool, "xb"), Some(1));
    assert_eq!(find_channel(&pool, "q"), None);
}

#[test]
fn join_adds_member_at_end() {
    let mut pool = vec![channel("abc", "A"), channel("xyz", "B")];
    let cur = join_channel(&mut pool, "bc", user("Ann", "u1", "h1"));
    assert_eq!(cur.id, "abc");
    assert_eq!(names(&cur), vec!["Ann"]);
    let cur = join_channel(&mut pool, "abc", user("Bo", "u2", "h2"));
    assert_eq!(names(&cur), vec!["Ann", "Bo"]);
    assert_eq!(names(&pool[0]), vec!["Ann", "Bo"]);
    assert!(pool[1].users.is_none());
}

#[test]
fn join_unknown_channel_gives_blank() {
    let mut pool = vec![channel("abc", "A")];
    let cur = join_channel(&mut pool, "zz", user("Ann", "u1", "h1"));
    assert_eq!(cur.id, "");
    assert_eq!(cur.channel_name, "");
    assert!(cur.users.is_none());
    assert!(pool[0].users.is_none());
}

#[test]
fn register_adds_new_id() {
    let mut pool = Vec::new();
    assert_eq!(register_connection(&mut pool, conn("u1", "h1")), Registration::Added(0));
    assert_eq!(register_connection(&mut pool, conn("u2", "h2")), Registration::Added(1));
    assert_eq!(pool.len(), 2);
}

#[test]
fn register_refreshes_known_id() {
    let mut pool = vec![conn("u1", "h1"), conn("u2", "h2")];
    let r = register_connection(&mut pool, conn("u2", "h9"));
    assert_eq!(r, Registration::Refreshed(1));
    assert_eq!(pool.len(), 2);
    assert_eq!(pool[1].chat_stream.as_deref(), Some("h9:1001"));
    assert_eq!(pool[1].audio_tx_stream.as_deref(), Some("h9:1001"));
    assert_eq!(pool[1].main_stream.as_deref(), Some("h2:1000"));
    assert_eq!(pool[1].updater_stream.as_deref(), Some("h2:1002"));
}

#[test]
fn register_matches_by_containment() {
    let mut pool = vec![conn("u12", "h1")];
    assert_eq!(register_connection(&mut pool, conn("u1", "h3")), Registration::Refreshed(0));
    assert_eq!(find_connection(&pool, "2"), Some(0));
    assert_eq!(find_connection(&pool, "u3"), None);
}

#[test]
fn register_same_id_twice_does_not_grow() {
    let mut pool = vec![conn("a", "h1")];
    register_connection(&mut pool, conn("zz", "h2"));
    let n = pool.len();
    register_connection(&mut pool, conn("zz", "h3"));
    assert_eq!(pool.len(), n);
}

#[test]
fn channel_info_last_match() {
    let pool = vec![channel("ab", "Server 1"), channel("cd", "Server 2"), channel("b", "Server 3")];
    assert_eq!(find_info_target(&pool, "xxabxx"), Some(2));
    assert_eq!(channel_info_reply(&pool, "xxabxx"), encode_channel_header("b", "Server 3"));
    assert_eq!(channel_info_reply(&pool, "cd"), encode_channel_header("cd", "Server 2"));
}

#[test]
fn channel_info_no_match() {
    let pool = vec![channel("ab", "Server 1")];
    assert_eq!(find_info_target(&pool, "zz"), None);
    assert_eq!(channel_info_reply(&pool, "zz"), vec![0u8; 255]);
    assert_eq!(channel_info_reply(&Vec::new(), "ab"), vec![0u8; 255]);
}

#[test]
fn install_chat_first_match() {
    let mut pool = vec![channel("abc", "A"), channel("abcd", "B")];
    install_chat(&mut pool, "abc", vec![message("m1"), message("m2")]);
    assert_eq!(pool[0].chat_msgs.as_ref().unwrap().len(), 2);
    assert!(pool[1].chat_msgs.is_none());
    install_chat(&mut pool, "zz", vec![message("m3")]);
    assert_eq!(pool[0].chat_msgs.as_ref().unwrap().len(), 2);
}

#[test]
fn history_frame_when_chat_present() {
    let mut c = channel("a", "A");
    assert!(history_frame(&c).is_none());
    c.chat_msgs = Some(vec![message("m1")]);
    assert_eq!(history_frame(&c), Some(encode_messages(&vec![message("m1")])));
}

#[test]
fn member_list_to_matching_connections() {
    let mut ch = channel("c1", "A");
    ch.users = Some(vec![user("Ann", "u1", "h1"), user("Bo", "u2", "h2")]);
    let channels = vec![ch];
    let mut c2 = conn("u2", "h1");
    c2.chat_stream = None;
    let conns = vec![conn("u1", "h1"), conn("u3", "h3"), c2];
    assert!(can_answer_member_list(&channels, &conns, "c1", "h1:1000"));
    let reply = member_list_reply(&channels, &conns, "c1", "h1:1000");
    assert_eq!(reply.recipients, vec![0]);
    assert_eq!(reply.frame, encode_user_list(channels[0].users.as_ref().unwrap()));
}

#[test]
fn member_list_no_recipient() {
    let mut ch = channel("c1", "A");
    ch.users = Some(vec![user("Ann", "u1", "h1")]);
    let channels = vec![ch];
    let conns = vec![conn("u1", "h1")];
    let reply = member_list_reply(&channels, &conns, "c1", "h9");
    assert!(reply.recipients.is_empty());
    assert!(reply.frame.is_empty());
    let reply = member_list_reply(&channels, &conns, "zz", "h1");
    assert!(reply.recipients.is_empty());
}

#[test]
fn member_list_errors() {
    let channels = vec![channel("c1", "A")];
    let conns = vec![conn("u1", "h1")];
    assert!(!can_answer_member_list(&channels, &conns, "c1", "h1"));
    assert!(can_answer_member_list(&channels, &conns, "zz", "h1"));
    let mut c = conn("u1", "h1");
    c.main_stream = None;
    let mut ch = channel("c1", "A");
    ch.users = Some(vec![]);
    assert!(!can_answer_member_list(&vec![ch], &vec![c], "c1", "h1"));
}

#[test]
fn disconnect_removes_member_and_closes_streams() {
    let mut ch = channel("c1", "A");
    ch.users = Some(vec![user("Ann", "u1", "h1"), user("Bo", "u2", "h2")]);
    ch.chat_msgs = Some(vec![message("m1")]);
    let mut channels = vec![ch, channel("c2", "B")];
    let mut conns = vec![conn("u1", "h1"), conn("u2", "h2")];
    assert!(can_disconnect(&channels, &conns, "h1:1000", "c1"));
    let shut = disconnect(&mut channels, &mut conns, "h1:1000", "c1");
    assert_eq!(shut, vec![0]);
    assert_eq!(names(&channels[0]), vec!["Bo"]);
    assert!(channels[0].chat_msgs.is_some());
    assert!(conns[0].chat_stream.is_none());
    assert!(conns[0].audio_tx_stream.is_none());
    assert!(conns[0].main_stream.is_some());
    assert!(conns[1].chat_stream.is_some());
}

#[test]
fn disconnect_last_member_clears_chat() {
    let mut ch = channel("c1", "A");
    ch.users = Some(vec![user("Ann", "u1", "h1")]);
    ch.chat_msgs = Some(vec![message("m1")]);
    let mut channels = vec![ch];
    let mut conns = vec![conn("u1", "h1")];
    assert!(can_disconnect(&channels, &conns, "h1:1000", "c1"));
    let shut = disconnect(&mut channels, &mut conns, "h1:1000", "c1");
    assert_eq!(shut, vec![0]);
    assert!(channels[0].users.as_ref().unwrap().is_empty());
    assert!(channels[0].chat_msgs.is_none());
}

#[test]
fn disconnect_without_member_changes_nothing() {
    let mut ch = channel("c1", "A");
    ch.users = Some(vec![user("Bo", "u2", "h2")]);
    let mut channels = vec![ch];
    let mut conns = vec![conn("u1", "h1")];
    assert!(can_disconnect(&channels, &conns, "h1:1000", "c1"));
    let shut = disconnect(&mut channels, &mut conns, "h1:1000", "c1");
    assert!(shut.is_empty());
    assert_eq!(names(&channels[0]), vec!["Bo"]);
    assert!(conns[0].chat_stream.is_some());
}

#[test]
fn disconnect_errors_on_missing_stream() {
    let mut ch = channel("c1", "A");
    ch.users = Some(vec![user("Ann", "u1", "h1")]);
    let mut channels = vec![ch];
    let mut c = conn("u1", "h1");
    c.chat_stream = None;
    let mut conns = vec![c];
    assert!(!can_disconnect(&channels, &conns, "h1:1000", "c1"));
    assert_eq!(conns.len(), 1);
}

#[test]
fn disconnect_errors_on_missing_main() {
    let mut channels = vec![channel("c1", "A")];
    let mut c = conn("u1", "h1");
    c.main_stream = None;
    let mut conns = vec![c];
    assert!(!can_disconnect(&channels, &conns, "h1:1000", "c1"));
    assert_eq!(conns.len(), 1);
}

#[test]
fn disconnect_errors_when_member_of_two_channels() {
    let mut a = channel("c1", "A");
    a.users = Some(vec![user("Ann", "u1", "h1")]);
    let mut b = channel("c1x", "B");
    b.users = Some(vec![user("Ann", "u1", "h1")]);
    let mut channels = vec![a, b];
    let mut conns = vec![conn("u1", "h1")];
    assert!(!can_disconnect(&channels, &conns, "h1:1000", "c1"));
    assert_eq!(conns.len(), 1);
}

#[test]
fn connect_client_registers_and_joins() {
    let mut channels = vec![channel("abc", "Server 1")];
    channels[0].chat_msgs = Some(vec![message("m1")]);
    let mut conns = Vec::new();
    let j = connect_client(&mut channels, &mut conns, "abc Ann u1", "h1:1", "h1:2", "h1:3", "h1:4");
    assert_eq!(j.registration, Registration::Added(0));
    assert_eq!(j.channel.id, "abc");
    assert_eq!(names(&j.channel), vec!["Ann"]);
    assert_eq!(j.history, Some(encode_messages(&vec![message("m1")])));
    assert_eq!(conns.len(), 1);
    assert_eq!(conns[0].id, "u1");
    assert_eq!(conns[0].audio_tx_stream.as_deref(), Some("h1:4"));
    let u = &channels[0].users.as_ref().unwrap()[0];
    assert_eq!(u.id, "u1");
    assert_eq!(u.main_stream, "h1:1");
    assert_eq!(u.chat_stream, "h1:2");
    assert_eq!(u.updater_stream, "h1:3");
}

#[test]
fn connect_client_without_chat_sends_no_history() {
    let mut channels = vec![channel("abc", "Server 1")];
    let mut conns = vec![conn("u1", "h0")];
    let j = connect_client(&mut channels, &mut conns, "abc Bo u1", "h1:1", "h1:2", "h1:3", "h1:4");
    assert_eq!(j.registration, Registration::Refreshed(0));
    assert!(j.history.is_none());
    assert_eq!(conns[0].chat_stream.as_deref(), Some("h1:2"));
    assert_eq!(conns[0].audio_tx_stream.as_deref(), Some("h1:2"));
}

#[test]
fn connect_client_unknown_channel() {
    let mut channels = vec![channel("abc", "Server 1")];
    let mut conns = Vec::new();
    let j = connect_client(&mut channels, &mut conns, "zz Ann u1 extra", "a", "b", "c", "d");
    assert_eq!(j.channel.id, "");
    assert!(j.history.is_none());
    assert_eq!(j.registration, Registration::Added(0));
    assert!(channels[0].users.is_none());
}

#[test]
fn member_list_hides_addresses() {
    let mut a = channel("c1", "A");
    a.users = Some(vec![user("Ann", "u1", "h1"), user("Bo", "u2", "h2")]);
    let mut b = channel("c1", "A");
    b.users = Some(vec![user("Ann", "u1", "h7"), user("Bo", "u2", "h8")]);
    let conns = vec![conn("u1", "h1"), conn("u3", "h3")];
    let ra = member_list_reply(&vec![a], &conns, "c1", "h1:1000");
    let rb = member_list_reply(&vec![b], &conns, "c1", "h1:1000");
    assert_eq!(ra.recipients, rb.recipients);
    assert_eq!(ra.frame, rb.frame);
}
