use vstd::prelude::*;

verus! {

/// Most chat messages a channel keeps.
pub const CHAT_MAX_SIZE: usize = 10;

/// A member of a channel. The three stream fields are the peer addresses of the
/// member's main, chat and updater connections, in the text form that a socket
/// address is written in.
pub struct User {
    pub name: String,
    pub id: String,
    pub main_stream: String,
    pub chat_stream: String,
    pub updater_stream: String,
}

pub struct UserView {
    pub name: Seq<char>,
    pub id: Seq<char>,
    pub main_stream: Seq<char>,
    pub chat_stream: Seq<char>,
    pub updater_stream: Seq<char>,
}

impl View for User {
    type V = UserView;

    open spec fn view(&self) -> UserView {
        UserView {
            name: self.name@,
            id: self.id@,
            main_stream: self.main_stream@,
            chat_stream: self.chat_stream@,
            updater_stream: self.updater_stream@,
        }
    }
}

impl DeepView for User {
    type V = UserView;

    open spec fn deep_view(&self) -> UserView {
        self@
    }
}

impl User {
    pub fn new(
        name: String,
        id: String,
        main_stream: String,
        chat_stream: String,
        updater_stream: String,
    ) -> (r: User)
        ensures
            r@ == (UserView {
                name: name@,
                id: id@,
                main_stream: main_stream@,
                chat_stream: chat_stream@,
                updater_stream: updater_stream@,
            }),
    {
        User { name, id, main_stream, chat_stream, updater_stream }
    }

    /// A copy of this user.
    pub fn duplicate(&self) -> (r: User)
        ensures
            r@ == self@,
    {
        User {
            name: self.name.clone(),
            id: self.id.clone(),
            main_stream: self.main_stream.clone(),
            chat_stream: self.chat_stream.clone(),
            updater_stream: self.updater_stream.clone(),
        }
    }
}

/// One chat message of a channel.
pub struct Message {
    pub id: String,
    pub sender_id: String,
    pub sender: String,
    pub date: String,
    pub content: String,
}

pub struct MessageView {
    pub id: Seq<char>,
    pub sender_id: Seq<char>,
    pub sender: Seq<char>,
    pub date: Seq<char>,
    pub content: Seq<char>,
}

impl View for Message {
    type V = MessageView;

    open spec fn view(&self) -> MessageView {
        MessageView {
            id: self.id@,
            sender_id: self.sender_id@,
            sender: self.sender@,
            date: self.date@,
            content: self.content@,
        }
    }
}

impl DeepView for Message {
    type V = MessageView;

    open spec fn deep_view(&self) -> MessageView {
        self@
    }
}

impl Message {
    /// A copy of this message.
    pub fn duplicate(&self) -> (r: Message)
        ensures
            r@ == self@,
    {
        Message {
            id: self.id.clone(),
            sender_id: self.sender_id.clone(),
            sender: self.sender.clone(),
            date: self.date.clone(),
            content: self.content.clone(),
        }
    }
}

/// A channel: its database id, its display name, its members and its recent chat.
pub struct Channel {
    pub id: String,
    pub channel_name: String,
    pub users: Option<Vec<User>>,
    pub chat_msgs: Option<Vec<Message>>,
}

pub struct ChannelView {
    pub id: Seq<char>,
    pub channel_name: Seq<char>,
    pub users: Option<Seq<UserView>>,
    pub chat_msgs: Option<Seq<MessageView>>,
}

impl View for Channel {
    type V = ChannelView;

    open spec fn view(&self) -> ChannelView {
        ChannelView {
            id: self.id@,
            channel_name: self.channel_name@,
            users: match &self.users {
                Some(v) => Some(v.deep_view()),
                None => None,
            },
            chat_msgs: match &self.chat_msgs {
                Some(v) => Some(v.deep_view()),
                None => None,
            },
        }
    }
}

impl DeepView for Channel {
    type V = ChannelView;

    open spec fn deep_view(&self) -> ChannelView {
        self@
    }
}

/// A copy of a list of users.
pub fn duplicate_users(v: &Vec<User>) -> (r: Vec<User>)
    ensures
        r.deep_view() == v.deep_view(),
{
    let mut r: Vec<User> = Vec::new();
    let mut i: usize = 0;
    while i < v.len()
        invariant
            i <= v.len(),
            r@.len() == i,
            forall|j: int| 0 <= j < i ==> #[trigger] r@[j]@ == v@[j]@,
        decreases v.len() - i,
    {
        r.push(v[i].duplicate());
        i = i + 1;
    }
    assert(r.deep_view() =~= v.deep_view());
    r
}

/// A copy of a list of messages.
pub fn duplicate_messages(v: &Vec<Message>) -> (r: Vec<Message>)
    ensures
        r.deep_view() == v.deep_view(),
{
    let mut r: Vec<Message> = Vec::new();
    let mut i: usize = 0;
    while i < v.len()
        invariant
            i <= v.len(),
            r@.len() == i,
            forall|j: int| 0 <= j < i ==> #[trigger] r@[j]@ == v@[j]@,
        decreases v.len() - i,
    {
        r.push(v[i].duplicate());
        i = i + 1;
    }
    assert(r.deep_view() =~= v.deep_view());
    r
}

impl Channel {
    /// A channel with the given id and name and, whatever the last two arguments hold,
    /// no members and no chat yet.
    pub fn new(
        id: String,
        channel_name: String,
        _users: Option<Vec<User>>,
        _chat_msgs: Option<Vec<Message>>,
    ) -> (r: Channel)
        ensures
            r@ == (ChannelView { id: id@, channel_name: channel_name@, users: None, chat_msgs: None }),
    {
        Channel { id, channel_name, users: None, chat_msgs: None }
    }

    /// A copy of this channel.
    pub fn duplicate(&self) -> (r: Channel)
        ensures
            r@ == self@,
    {
        let users = match &self.users {
            Some(v) => Some(duplicate_users(v)),
            None => None,
        };
        let chat_msgs = match &self.chat_msgs {
            Some(v) => Some(duplicate_messages(v)),
            None => None,
        };
        Channel { id: self.id.clone(), channel_name: self.channel_name.clone(), users, chat_msgs }
    }
}

/// A client's set of connections. Each stream field holds the peer address of that
/// stream, in text form, or nothing where the stream is not held (or was shut down).
pub struct Connection {
    pub id: String,
    pub main_stream: Option<String>,
    pub chat_stream: Option<String>,
    pub updater_stream: Option<String>,
    pub audio_tx_stream: Option<String>,
}

pub struct ConnectionView {
    pub id: Seq<char>,
    pub main_stream: Option<Seq<char>>,
    pub chat_stream: Option<Seq<char>>,
    pub updater_stream: Option<Seq<char>>,
    pub audio_tx_stream: Option<Seq<char>>,
}

pub open spec fn opt_text(o: Option<String>) -> Option<Seq<char>> {
    match o {
        Some(s) => Some(s@),
        None => None,
    }
}

impl View for Connection {
    type V = ConnectionView;

    open spec fn view(&self) -> ConnectionView {
        ConnectionView {
            id: self.id@,
            main_stream: opt_text(self.main_stream),
            chat_stream: opt_text(self.chat_stream),
            updater_stream: opt_text(self.updater_stream),
            audio_tx_stream: opt_text(self.audio_tx_stream),
        }
    }
}

impl DeepView for Connection {
    type V = ConnectionView;

    open spec fn deep_view(&self) -> ConnectionView {
        self@
    }
}

pub fn clone_opt_text(o: &Option<String>) -> (r: Option<String>)
    ensures
        opt_text(r) == opt_text(*o),
{
    match o {
        Some(s) => Some(s.clone()),
        None => None,
    }
}

impl Connection {
    pub fn new(
        id: String,
        main_stream: Option<String>,
        chat_stream: Option<String>,
        updater_stream: Option<String>,
        audio_tx_stream: Option<String>,
    ) -> (r: Connection)
        ensures
            r@ == (ConnectionView {
                id: id@,
                main_stream: opt_text(main_stream),
                chat_stream: opt_text(chat_stream),
                updater_stream: opt_text(updater_stream),
                audio_tx_stream: opt_text(audio_tx_stream),
            }),
    {
        Connection { id, main_stream, chat_stream, updater_stream, audio_tx_stream }
    }
}

impl Connection {
    /// A copy of this entry.
    pub fn duplicate(&self) -> (r: Connection)
        ensures
            r@ == self@,
    {
        Connection {
            id: self.id.clone(),
            main_stream: clone_opt_text(&self.main_stream),
            chat_stream: clone_opt_text(&self.chat_stream),
            updater_stream: clone_opt_text(&self.updater_stream),
            audio_tx_stream: clone_opt_text(&self.audio_tx_stream),
        }
    }
}

/// A copy of a channel pool.
pub fn duplicate_channels(v: &Vec<Channel>) -> (r: Vec<Channel>)
    ensures
        r.deep_view() == v.deep_view(),
{
    let mut r: Vec<Channel> = Vec::new();
    let mut i: usize = 0;
    while i < v.len()
        invariant
            i <= v.len(),
            r@.len() == i,
            forall|j: int| 0 <= j < i ==> #[trigger] r@[j]@ == v@[j]@,
        decreases v.len() - i,
    {
        r.push(v[i].duplicate());
        i = i + 1;
    }
    assert(r.deep_view() =~= v.deep_view());
    r
}

/// A copy of a connection pool.
pub fn duplicate_connections(v: &Vec<Connection>) -> (r: Vec<Connection>)
    ensures
        r.deep_view() == v.deep_view(),
{
    let mut r: Vec<Connection> = Vec::new();
    let mut i: usize = 0;
    while i < v.len()
        invariant
            i <= v.len(),
            r@.len() == i,
            forall|j: int| 0 <= j < i ==> #[trigger] r@[j]@ == v@[j]@,
        decreases v.len() - i,
    {
        r.push(v[i].duplicate());
        i = i + 1;
    }
    assert(r.deep_view() =~= v.deep_view());
    r
}

} // verus!
