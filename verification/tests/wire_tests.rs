use fakecord::model::{Message, User};
use fakecord::wire::{encode_channel_header, encode_messages, encode_user_list, message_records, user_pairs};

fn text(s: &str) -> Vec<u8> {
    let mut v = (s.len() as u64).to_le_bytes().to_vec();
    v.extend_from_slice(s.as_bytes());
    v
}

fn user(name: &str, id: &str) -> User {
    User::new(
        name.to_string(),
        id.to_string(),
        "10.0.0.1:5000".to_string(),
        "10.0.0.1:5001".to_string(),
        "10.0.0.1:5002".to_string(),
    )
}

fn message(id: &str, text_: &str) -> Message {
    Message {
        id: id.to_string(),
        sender_id: "u1".to_string(),
        sender: "Ann".to_string(),
        date: "2024-01-02 03:04:05".to_string(),
        content: text_.to_string(),
    }
}

#[test]
fn channel_header_layout() {
    let got = encode_channel_header("ab", "Server 1");
    let mut want = text("ab");
    want.extend(text("Server 1"));
    want.extend([0u8, 0u8]);
    assert_eq!(got, want);
    assert_eq!(got.len(), 8 + 2 + 8 + 8 + 2);
}

#[test]
fn channel_header_utf8_length() {
    let got = encode_channel_header("ä", "");
    assert_eq!(got, vec![2, 0, 0, 0, 0, 0, 0, 0, 0xc3, 0xa4, 0, 0, 0, 0, 0, 0, 0, 0, 0, 0]);
}

#[test]
fn user_list_layout() {
    let users = vec![user("Ann", "u1"), user("Bo", "u2")];
    let got = encode_user_list(&users);
    let mut want = 2u64.to_le_bytes().to_vec();
    want.extend(text("Ann"));
    want.extend(text("u1"));
    want.extend(text("Bo"));
    want.extend(text("u2"));
    assert_eq!(got, want);
}

#[test]
fn user_list_empty() {
    assert_eq!(encode_user_list(&Vec::new()), vec![0u8; 8]);
}

#[test]
fn user_pairs_names_and_ids() {
    let users = vec![user("Ann", "u1"), user("Bo", "u2")];
    assert_eq!(
        user_pairs(&users),
        vec![("Ann".to_string(), "u1".to_string()), ("Bo".to_string(), "u2".to_string())]
    );
}

#[test]
fn messages_layout() {
    let msgs = vec![message("m1", "hi")];
    let got = encode_messages(&msgs);
    let mut want = 1u64.to_le_bytes().to_vec();
    for f in ["m1", "u1", "Ann", "2024-01-02 03:04:05", "hi"] {
        want.extend(text(f));
    }
    assert_eq!(got, want);
}

#[test]
fn message_records_field_order() {
    let r = message_records(&vec![message("m9", "yo")]);
    assert_eq!(r.len(), 1);
    assert_eq!(r[0].0, "m9");
    assert_eq!(r[0].1, "u1");
    assert_eq!(r[0].2, "Ann");
    assert_eq!(r[0].3, "2024-01-02 03:04:05");
    assert_eq!(r[0].4, "yo");
}
