use fakecord::model::{Channel, Message};
use fakecord::protocol::parse_chat_line;
use fakecord::wire::encode_messages;
use fakecord::worker::{
    chat_timestamp, compose_message, fresh_messages, history_exceeds_limit, new_chat_message,
    update_chat_frame,
};

fn message(id: &str) -> Message {
    Message {
        id: id.to_string(),
        sender_id: "u1".to_string(),
        sender: "Ann".to_string(),
        date: "d".to_string(),
        content: "hi".to_string(),
    }
}

fn ids(v: &[Message]) -> Vec<String> {
    v.iter().map(|m| m.id.clone()).collect()
}

fn db(n: usize) -> Vec<Message> {
    (0..n).map(|i| message(&format!("m{}", i))).collect()
}

#[test]
fn fresh_sends_missing_tail() {
    assert_eq!(ids(&fresh_messages(2, &db(5))), vec!["m2", "m3", "m4"]);
    assert_eq!(ids(&fresh_messages(5, &db(5))), Vec::<String>::new());
    assert_eq!(ids(&fresh_messages(0, &db(0))), Vec::<String>::new());
}

#[test]
fn fresh_full_copy_gets_last_only() {
    assert_eq!(ids(&fresh_messages(10, &db(11))), vec!["m10"]);
    assert_eq!(ids(&fresh_messages(12, &db(20))), vec!["m19"]);
}

#[test]
fn fresh_catches_up() {
    let stored = db(7);
    let mut copy: Vec<Message> = stored[..4].iter().map(|m| message(&m.id)).collect();
    copy.extend(fresh_messages(4, &stored));
    assert_eq!(ids(&copy), ids(&stored));
}

#[test]
fn update_chat_frame_encodes_fresh() {
    let mut c = Channel::new("c".to_string(), "S".to_string(), None, None);
    c.chat_msgs = Some(db(1));
    let want: Vec<Message> = db(3)[1..].iter().map(|m| message(&m.id)).collect();
    assert_eq!(update_chat_frame(&c, &db(3)), encode_messages(&want));
    c.chat_msgs = Some(db(10));
    assert_eq!(update_chat_frame(&c, &db(11)), encode_messages(&vec![message("m10")]));
}

#[test]
fn limit_is_ten() {
    assert!(!history_exceeds_limit(10));
    assert!(history_exceeds_limit(11));
    assert!(!history_exceeds_limit(0));
}

#[test]
fn timestamp_cuts_fraction() {
    assert_eq!(chat_timestamp("2024-05-06 07:08:09.123456789 +03:00"), "2024-05-06 07:08:09");
    assert_eq!(chat_timestamp("2024-05-06 07:08:09 +03:00"), "2024-05-06 07:08:09 +03:00");
    assert_eq!(chat_timestamp(""), "");
}

#[test]
fn compose_message_fields() {
    let line = parse_chat_line("c1 u7 Ann hello world").unwrap();
    let m = compose_message(&line, "id-1".to_string(), "2024-01-01 10:00:00.5 +00:00");
    assert_eq!(m.id, "id-1");
    assert_eq!(m.sender_id, "u7");
    assert_eq!(m.sender, "Ann");
    assert_eq!(m.date, "2024-01-01 10:00:00");
    assert_eq!(m.content, "hello world");
}

#[test]
fn new_chat_message_shape() {
    let line = parse_chat_line("c1 u7 Ann hello").unwrap();
    let m = new_chat_message(&line);
    assert_eq!(m.id.len(), 36);
    let c: Vec<char> = m.id.chars().collect();
    assert_eq!((c[8], c[13], c[18], c[23]), ('-', '-', '-', '-'));
    assert_eq!(c[14], '4');
    assert!(['8', '9', 'a', 'b'].contains(&c[19]));
    assert!(m.id.chars().all(|ch| ch == '-' || ch.is_ascii_digit() || ('a'..='f').contains(&ch)));
    assert_eq!(m.sender_id, "u7");
    assert_eq!(m.sender, "Ann");
    assert_eq!(m.content, "hello");
    assert!(!m.date.contains('.'));
    let d: Vec<char> = m.date.chars().collect();
    let n = d.iter().position(|&ch| ch == '-').unwrap();
    let n = if n == 0 { 1 + d[1..].iter().position(|&ch| ch == '-').unwrap() } else { n };
    assert!(d.len() == n + 15 || d[n + 15] == ' ');
    assert_eq!((d[n], d[n + 3], d[n + 6], d[n + 9], d[n + 12]), ('-', '-', ' ', ':', ':'));
    for k in [1, 2, 4, 5, 7, 8, 10, 11, 13, 14] {
        assert!(d[n + k].is_ascii_digit());
    }
    let other = new_chat_message(&line);
    assert_ne!(other.id, m.id);
}
