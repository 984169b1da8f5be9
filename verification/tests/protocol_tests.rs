use fakecord::protocol::{
    classify_command, classify_signal, parse_chat_line, parse_join_request, ClientSignal,
    WorkerCommand,
};

#[test]
fn classify_known_signals() {
    assert_eq!(classify_signal("CONNECT"), ClientSignal::Connect);
    assert_eq!(classify_signal("ADDCHANNEL"), ClientSignal::AddChannel);
    assert_eq!(classify_signal("UPDATEUSERS"), ClientSignal::UpdateUsers);
    assert_eq!(classify_signal("DISCONNECT"), ClientSignal::Disconnect);
    assert_eq!(classify_signal("CHATMSG"), ClientSignal::ChatMsg);
    assert_eq!(classify_signal("INTCHAT"), ClientSignal::IntChat);
    assert_eq!(classify_signal("UPDATECHAT"), ClientSignal::UpdateChat);
}

#[test]
fn classify_other_signals_are_ignored() {
    assert_eq!(classify_signal(""), ClientSignal::Ignored);
    assert_eq!(classify_signal("connect"), ClientSignal::Ignored);
    assert_eq!(classify_signal("CONNECT "), ClientSignal::Ignored);
}

#[test]
fn classify_worker_commands() {
    assert_eq!(classify_command("UPDATECHAT"), WorkerCommand::UpdateChat);
    assert_eq!(classify_command("INTCHAT"), WorkerCommand::InitChat);
    assert_eq!(classify_command("abc u1 Ann hello"), WorkerCommand::NewMessage);
    assert_eq!(classify_command(""), WorkerCommand::NewMessage);
}

#[test]
fn join_request_three_fields() {
    let j = parse_join_request("63a1 Ann u7").unwrap();
    assert_eq!(j.channel_id, "63a1");
    assert_eq!(j.name, "Ann");
    assert_eq!(j.user_id, "u7");
}

#[test]
fn join_request_extra_fields_ignored() {
    let j = parse_join_request("c n u extra more").unwrap();
    assert_eq!(j.channel_id, "c");
    assert_eq!(j.name, "n");
    assert_eq!(j.user_id, "u");
}

#[test]
fn join_request_empty_fields() {
    let j = parse_join_request("c  ").unwrap();
    assert_eq!(j.channel_id, "c");
    assert_eq!(j.name, "");
    assert_eq!(j.user_id, "");
}

#[test]
fn join_request_too_short() {
    assert!(parse_join_request("c n").is_none());
    assert!(parse_join_request("").is_none());
}

#[test]
fn join_request_agrees_with_split() {
    for line in ["a b c", "a b c d", "a  c", " b c", "x y z w v"] {
        let v: Vec<&str> = line.split(' ').collect();
        let j = parse_join_request(line).unwrap();
        assert_eq!((j.channel_id.as_str(), j.name.as_str(), j.user_id.as_str()), (v[0], v[1], v[2]));
    }
}

#[test]
fn chat_line_four_fields() {
    let m = parse_chat_line("63a1 u7 Ann hello there friend").unwrap();
    assert_eq!(m.channel_id, "63a1");
    assert_eq!(m.user_id, "u7");
    assert_eq!(m.name, "Ann");
    assert_eq!(m.content, "hello there friend");
}

#[test]
fn chat_line_empty_text() {
    let m = parse_chat_line("c u n ").unwrap();
    assert_eq!(m.content, "");
}

#[test]
fn chat_line_too_short() {
    assert!(parse_chat_line("c u n").is_none());
    assert!(parse_chat_line("c u").is_none());
}

#[test]
fn chat_line_agrees_with_splitn() {
    for line in ["a b c d", "a b c d e f", "a  c d", "a b c  "] {
        let mut it = line.splitn(4, ' ');
        let expect = (
            it.next().unwrap(),
            it.next().unwrap(),
            it.next().unwrap(),
            it.next().unwrap(),
        );
        let m = parse_chat_line(line).unwrap();
        assert_eq!(
            (m.channel_id.as_str(), m.user_id.as_str(), m.name.as_str(), m.content.as_str()),
            expect
        );
    }
}

#[test]
fn chat_line_round_trip() {
    let line = format!("{} {} {} {}", "ch1", "u2", "Bo", "hi there");
    let m = parse_chat_line(&line).unwrap();
    assert_eq!(m.channel_id, "ch1");
    assert_eq!(m.user_id, "u2");
    assert_eq!(m.name, "Bo");
    assert_eq!(m.content, "hi there");
}
