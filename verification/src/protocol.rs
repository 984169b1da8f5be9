use vstd::prelude::*;

use crate::text::{
    before_first, lemma_first_index_is, lemma_first_index_of, split_once, split_once_at, text_equals,
    without_last_char,
};

verus! {

/// What a client asks for on its main connection, one line at a time.
#[derive(PartialEq, Eq, Structural, Debug, Clone, Copy)]
pub enum ClientSignal {
    Connect,
    AddChannel,
    UpdateUsers,
    Disconnect,
    ChatMsg,
    IntChat,
    UpdateChat,
    /// An empty line, or one that names no request: nothing is done.
    Ignored,
}

pub open spec fn signal_kind(s: Seq<char>) -> ClientSignal {
    if s == "CONNECT"@ {
        ClientSignal::Connect
    } else if s == "ADDCHANNEL"@ {
        ClientSignal::AddChannel
    } else if s == "UPDATEUSERS"@ {
        ClientSignal::UpdateUsers
    } else if s == "DISCONNECT"@ {
        ClientSignal::Disconnect
    } else if s == "CHATMSG"@ {
        ClientSignal::ChatMsg
    } else if s == "INTCHAT"@ {
        ClientSignal::IntChat
    } else if s == "UPDATECHAT"@ {
        ClientSignal::UpdateChat
    } else {
        ClientSignal::Ignored
    }
}

/// Which request a signal line (its line end already dropped) names.
pub fn classify_signal(s: &str) -> (r: ClientSignal)
    ensures
        r == signal_kind(s@),
{
    if text_equals(s, "CONNECT") {
        ClientSignal::Connect
    } else if text_equals(s, "ADDCHANNEL") {
        ClientSignal::AddChannel
    } else if text_equals(s, "UPDATEUSERS") {
        ClientSignal::UpdateUsers
    } else if text_equals(s, "DISCONNECT") {
        ClientSignal::Disconnect
    } else if text_equals(s, "CHATMSG") {
        ClientSignal::ChatMsg
    } else if text_equals(s, "INTCHAT") {
        ClientSignal::IntChat
    } else if text_equals(s, "UPDATECHAT") {
        ClientSignal::UpdateChat
    } else {
        ClientSignal::Ignored
    }
}

/// What the chat-history worker is asked to do.
#[derive(PartialEq, Eq, Structural, Debug, Clone, Copy)]
pub enum WorkerCommand {
    /// Send a client the messages its copy of a channel lacks.
    UpdateChat,
    /// Load a channel's chat from the database into the pool.
    InitChat,
    /// Any other line is a new chat message.
    NewMessage,
}

pub open spec fn command_kind(s: Seq<char>) -> WorkerCommand {
    if s == "UPDATECHAT"@ {
        WorkerCommand::UpdateChat
    } else if s == "INTCHAT"@ {
        WorkerCommand::InitChat
    } else {
        WorkerCommand::NewMessage
    }
}

/// Which task a line received by the chat-history worker names.
pub fn classify_command(s: &str) -> (r: WorkerCommand)
    ensures
        r == command_kind(s@),
{
    if text_equals(s, "UPDATECHAT") {
        WorkerCommand::UpdateChat
    } else if text_equals(s, "INTCHAT") {
        WorkerCommand::InitChat
    } else {
        WorkerCommand::NewMessage
    }
}

/// A request to join a channel: `"<channel id> <user name> <user id>"`.
pub struct JoinRequest {
    pub channel_id: String,
    pub name: String,
    pub user_id: String,
}

/// The first three space-separated fields of a line, as `split(' ')` yields them;
/// `None` when the line has fewer than three.
pub open spec fn join_fields(s: Seq<char>) -> Option<(Seq<char>, Seq<char>, Seq<char>)> {
    match split_once(s, ' ') {
        None => None,
        Some((a, r1)) => match split_once(r1, ' ') {
            None => None,
            Some((b, r2)) => Some((a, b, before_first(r2, ' '))),
        },
    }
}

/// Reads a join request; `None` when the line has fewer than three fields.
pub fn parse_join_request(line: &str) -> (r: Option<JoinRequest>)
    ensures
        match join_fields(line@) {
            Some((c, n, u)) => r matches Some(j) && j.channel_id@ == c && j.name@ == n
                && j.user_id@ == u,
            None => r is None,
        },
{
    let (a, r1) = match split_once_at(line, ' ') {
        Some(p) => p,
        None => return None,
    };
    let (b, r2) = match split_once_at(r1.as_str(), ' ') {
        Some(p) => p,
        None => return None,
    };
    let c = match split_once_at(r2.as_str(), ' ') {
        Some((c, _)) => c,
        None => r2,
    };
    Some(JoinRequest { channel_id: a, name: b, user_id: c })
}

/// A new chat message as a client sends it: `"<channel id> <user id> <name> <text>"`.
pub struct ChatLine {
    pub channel_id: String,
    pub user_id: String,
    pub name: String,
    pub content: String,
}

/// The fields of `splitn(4, ' ')`: three space-free fields and the rest of the line;
/// `None` when the line has fewer than three spaces.
pub open spec fn chat_fields(s: Seq<char>) -> Option<(Seq<char>, Seq<char>, Seq<char>, Seq<char>)> {
    match split_once(s, ' ') {
        None => None,
        Some((a, r1)) => match split_once(r1, ' ') {
            None => None,
            Some((b, r2)) => match split_once(r2, ' ') {
                None => None,
                Some((c, d)) => Some((a, b, c, d)),
            },
        },
    }
}

/// Reads a chat line; `None` when it has fewer than four fields.
pub fn parse_chat_line(line: &str) -> (r: Option<ChatLine>)
    ensures
        match chat_fields(line@) {
            Some((c, u, n, t)) => r matches Some(m) && m.channel_id@ == c && m.user_id@ == u
                && m.name@ == n && m.content@ == t,
            None => r is None,
        },
{
    let (a, r1) = match split_once_at(line, ' ') {
        Some(p) => p,
        None => return None,
    };
    let (b, r2) = match split_once_at(r1.as_str(), ' ') {
        Some(p) => p,
        None => return None,
    };
    let (c, d) = match split_once_at(r2.as_str(), ' ') {
        Some(p) => p,
        None => return None,
    };
    Some(ChatLine { channel_id: a, user_id: b, name: c, content: d })
}

/// A field that holds no space comes back whole from the split at the space written after it.
pub proof fn lemma_split_once_after_field(field: Seq<char>, rest: Seq<char>)
    requires
        !field.contains(' '),
    ensures
        split_once(field + seq![' '] + rest, ' ') == Some((field, rest)),
{
    let s = field + seq![' '] + rest;
    assert(s[field.len() as int] == ' ');
    assert forall|j: int| 0 <= j < s.len() && j < field.len() implies s[j] != ' ' by {
        assert(s[j] == field[j]);
    }
    lemma_first_index_is(s, ' ', field.len() as int);
    assert(s.take(field.len() as int) =~= field);
    assert(s.skip(field.len() as int + 1) =~= rest);
}

pub proof fn lemma_no_split(field: Seq<char>)
    requires
        !field.contains(' '),
    ensures
        split_once(field, ' ') is None,
        before_first(field, ' ') == field,
{
    lemma_first_index_of(field, ' ');
}

/// A chat line written from its four parts reads back as those parts, when the first
/// three hold no space.
pub proof fn lemma_chat_line_round_trip(
    channel_id: Seq<char>,
    user_id: Seq<char>,
    name: Seq<char>,
    content: Seq<char>,
)
    requires
        !channel_id.contains(' '),
        !user_id.contains(' '),
        !name.contains(' '),
    ensures
        chat_fields(channel_id + seq![' '] + user_id + seq![' '] + name + seq![' '] + content)
            == Some((channel_id, user_id, name, content)),
{
    let r2 = name + seq![' '] + content;
    let r1 = user_id + seq![' '] + r2;
    let s = channel_id + seq![' '] + r1;
    assert(channel_id + seq![' '] + user_id + seq![' '] + name + seq![' '] + content =~= s);
    lemma_split_once_after_field(channel_id, r1);
    lemma_split_once_after_field(user_id, r2);
    lemma_split_once_after_field(name, content);
}

/// A join request written from its three parts reads back as those parts, when none
/// holds a space.
pub proof fn lemma_join_request_round_trip(channel_id: Seq<char>, name: Seq<char>, user_id: Seq<char>)
    requires
        !channel_id.contains(' '),
        !name.contains(' '),
        !user_id.contains(' '),
    ensures
        join_fields(channel_id + seq![' '] + name + seq![' '] + user_id) == Some(
            (channel_id, name, user_id),
        ),
{
    let r1 = name + seq![' '] + user_id;
    let s = channel_id + seq![' '] + r1;
    assert(channel_id + seq![' '] + name + seq![' '] + user_id =~= s);
    lemma_split_once_after_field(channel_id, r1);
    lemma_split_once_after_field(name, user_id);
    lemma_no_split(user_id);
}

/// A signal written to a client and read back, line end dropped, is the signal itself.
pub proof fn lemma_signal_round_trip(signal: Seq<char>)
    ensures
        without_last_char(signal.push('\n')) == signal,
{
    assert(signal.push('\n').drop_last() =~= signal);
}

} // verus!
