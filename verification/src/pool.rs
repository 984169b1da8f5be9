//! The shared pools: the channels with their members and chat, and the clients'
//! connections.
use vstd::prelude::*;

use crate::model::{
    clone_opt_text, Channel, ChannelView, Connection, ConnectionView, Message, MessageView, User,
    UserView,
};
use crate::protocol::{join_fields, parse_join_request, JoinRequest};
use crate::text::{decimal, decimal_text, has_substring, text_contains};
use crate::wire::{bin_channel_header, bin_messages, encode_channel_header, encode_messages};

verus! {

/// The first index below `n` where `p` holds, or -1.
pub open spec fn first_where(n: nat, p: spec_fn(int) -> bool) -> int
    decreases n,
{
    if n == 0 {
        -1
    } else {
        let f = first_where((n - 1) as nat, p);
        if f >= 0 {
            f
        } else if p(n - 1) {
            n - 1
        } else {
            -1
        }
    }
}

/// The last index below `n` where `p` holds, or -1.
pub open spec fn last_where(n: nat, p: spec_fn(int) -> bool) -> int
    decreases n,
{
    if n == 0 {
        -1
    } else if p(n - 1) {
        n - 1
    } else {
        last_where((n - 1) as nat, p)
    }
}

pub proof fn lemma_first_where(n: nat, p: spec_fn(int) -> bool)
    ensures
        -1 <= first_where(n, p) < n,
        first_where(n, p) >= 0 ==> p(first_where(n, p)),
        forall|j: int|
            0 <= j < n && (first_where(n, p) < 0 || j < first_where(n, p)) ==> !#[trigger] p(j),
    decreases n,
{
    if n > 0 {
        lemma_first_where((n - 1) as nat, p);
    }
}

/// Once found, the first index stays the first however far the search goes.
pub proof fn lemma_first_where_stable(m: nat, n: nat, p: spec_fn(int) -> bool)
    requires
        m <= n,
        first_where(m, p) >= 0,
    ensures
        first_where(n, p) == first_where(m, p),
    decreases n,
{
    if n > m {
        lemma_first_where_stable(m, (n - 1) as nat, p);
    }
}

pub proof fn lemma_last_where(n: nat, p: spec_fn(int) -> bool)
    ensures
        -1 <= last_where(n, p) < n,
        last_where(n, p) >= 0 ==> p(last_where(n, p)),
        forall|j: int| 0 <= j < n && last_where(n, p) < j ==> !#[trigger] p(j),
    decreases n,
{
    if n > 0 {
        lemma_last_where((n - 1) as nat, p);
    }
}

/// Every text contains itself.
pub proof fn lemma_contains_itself(s: Seq<char>)
    ensures
        has_substring(s, s),
{
    assert(s.subrange(0, 0int + s.len()) =~= s);
}

/// The channel that a join names: the first whose id contains the requested id.
pub open spec fn channel_matching(chs: Seq<ChannelView>, needle: Seq<char>) -> int {
    first_where(chs.len(), |i: int| has_substring(chs[i].id, needle))
}

/// A channel with one more member, at the end of its member list.
pub open spec fn with_member(ch: ChannelView, u: UserView) -> ChannelView {
    ChannelView {
        users: Some(
            match ch.users {
                Some(us) => us.push(u),
                None => seq![u],
            },
        ),
        ..ch
    }
}

/// A channel with no id, no name, no members and no chat.
pub open spec fn blank_channel() -> ChannelView {
    ChannelView { id: Seq::empty(), channel_name: Seq::empty(), users: None, chat_msgs: None }
}

/// Finds the channel that a join names.
pub fn find_channel(pool: &Vec<Channel>, channel_id: &str) -> (r: Option<usize>)
    ensures
        match r {
            Some(k) => k == channel_matching(pool.deep_view(), channel_id@),
            None => channel_matching(pool.deep_view(), channel_id@) < 0,
        },
{
    let mut i: usize = 0;
    while i < pool.len()
        invariant
            i <= pool.len(),
            first_where(i as nat, |k: int| has_substring(pool.deep_view()[k].id, channel_id@)) == -1,
        decreases pool.len() - i,
    {
        if text_contains(pool[i].id.as_str(), channel_id) {
            assert(first_where((i + 1) as nat, |k: int| has_substring(pool.deep_view()[k].id, channel_id@)) == i);
            proof {
                lemma_first_where_stable((i + 1) as nat, pool.deep_view().len(), |k: int| has_substring(pool.deep_view()[k].id, channel_id@));
            }
            return Some(i);
        }
        i = i + 1;
    }
    None
}

/// Adds `user` to the first channel whose id contains `channel_id` and returns a copy of
/// that channel as it now is; without such a channel the pool is unchanged and a blank
/// channel comes back.
pub fn join_channel(pool: &mut Vec<Channel>, channel_id: &str, user: User) -> (current: Channel)
    ensures
        ({
            let k = channel_matching(old(pool).deep_view(), channel_id@);
            if k >= 0 {
                &&& final(pool).deep_view() == old(pool).deep_view().update(
                    k,
                    with_member(old(pool).deep_view()[k], user@),
                )
                &&& current@ == with_member(old(pool).deep_view()[k], user@)
            } else {
                &&& final(pool).deep_view() == old(pool).deep_view()
                &&& current@ == blank_channel()
            }
        }),
{
    proof {
        lemma_first_where(old(pool).deep_view().len(), |i: int| has_substring(old(pool).deep_view()[i].id, channel_id@));
    }
    match find_channel(pool, channel_id) {
        None => {
            Channel::new(String::new(), String::new(), None, None)
        },
        Some(k) => {
            let ghost before = pool.deep_view();
            let mut ch = pool.remove(k);
            let users = match ch.users {
                Some(mut us) => {
                    us.push(user);
                    us
                },
                None => {
                    let mut us: Vec<User> = Vec::new();
                    us.push(user);
                    us
                },
            };
            ch.users = Some(users);
            assert(ch.users->0.deep_view() =~= with_member(before[k as int], user@).users->0);
            let current = ch.duplicate();
            pool.insert(k, ch);
            assert(pool.deep_view() =~= before.update(k as int, with_member(before[k as int], user@)));
            current
        },
    }
}

/// The display name of the `n`-th channel loaded at start-up: `"Server <n>"`.
pub open spec fn server_name(n: nat) -> Seq<char> {
    "Server "@ + decimal(n)
}

/// The channel pool built from the channels stored in the database: channel `i` keeps
/// its stored id, is named `"Server <i + 1>"`, and has no members and no chat yet.
pub open spec fn initial_pool(ids: Seq<Seq<char>>) -> Seq<ChannelView> {
    Seq::new(
        ids.len(),
        |i: int|
            ChannelView {
                id: ids[i],
                channel_name: server_name((i + 1) as nat),
                users: None,
                chat_msgs: None,
            },
    )
}

/// The name `"Server <n>"`.
pub fn server_name_text(n: u64) -> (r: String)
    ensures
        r@ == server_name(n as nat),
{
    "Server ".to_owned().concat(decimal_text(n).as_str())
}

/// Builds the channel pool from the ids of the stored channels, in the order they were read.
/// The channels are numbered with a 32-bit signed counter, which would overflow past
/// `i32::MAX` channels.
pub fn initial_channels(ids: &Vec<String>) -> (r: Vec<Channel>)
    requires
        ids.len() < 0x7fff_ffff,
    ensures
        r.deep_view() == initial_pool(ids.deep_view()),
{
    let mut r: Vec<Channel> = Vec::new();
    let mut i: usize = 0;
    while i < ids.len()
        invariant
            i <= ids.len(),
            ids.len() < 0x7fff_ffff,
            r@.len() == i,
            forall|j: int| 0 <= j < i ==> #[trigger] r@[j]@ == initial_pool(ids.deep_view())[j],
        decreases ids.len() - i,
    {
        let number: u64 = (i as u64) + 1;
        let name = server_name_text(number);
        r.push(Channel::new(ids[i].clone(), name, None, None));
        i = i + 1;
    }
    assert(r.deep_view() =~= initial_pool(ids.deep_view()));
    r
}

/// The channels loaded at start-up have pairwise distinct names.
pub proof fn lemma_initial_names_distinct(ids: Seq<Seq<char>>, i: int, j: int)
    requires
        0 <= i < ids.len(),
        0 <= j < ids.len(),
        i != j,
    ensures
        initial_pool(ids)[i].channel_name != initial_pool(ids)[j].channel_name,
{
    let a = decimal((i + 1) as nat);
    let b = decimal((j + 1) as nat);
    if "Server "@ + a == "Server "@ + b {
        assert(a =~= ("Server "@ + a).skip("Server "@.len() as int));
        assert(b =~= ("Server "@ + b).skip("Server "@.len() as int));
        crate::text::lemma_decimal_injective((i + 1) as nat, (j + 1) as nat);
    }
}

/// How a connection entered the connection pool.
#[derive(PartialEq, Eq, Structural, Debug, Clone, Copy)]
pub enum Registration {
    /// An entry whose id contains the new id already stood at this index; its chat and
    /// audio streams now both point at the new chat stream.
    Refreshed(usize),
    /// The connection was appended at this index.
    Added(usize),
}

/// The first connection whose id contains `id`, or -1.
pub open spec fn connection_matching(cs: Seq<ConnectionView>, id: Seq<char>) -> int {
    first_where(cs.len(), |j: int| has_substring(cs[j].id, id))
}

/// A pool entry whose chat and audio streams are both replaced by `chat`.
pub open spec fn refreshed(c: ConnectionView, chat: Option<Seq<char>>) -> ConnectionView {
    ConnectionView { chat_stream: chat, audio_tx_stream: chat, ..c }
}

/// The pool after a client with connection `c` connects: an entry whose id contains
/// `c`'s id takes `c`'s chat stream for its chat and audio streams; otherwise `c` is added.
pub open spec fn registered(cs: Seq<ConnectionView>, c: ConnectionView) -> Seq<ConnectionView> {
    let k = connection_matching(cs, c.id);
    if k >= 0 {
        cs.update(k, refreshed(cs[k], c.chat_stream))
    } else {
        cs.push(c)
    }
}

/// Finds the first connection whose id contains `id`.
pub fn find_connection(pool: &Vec<Connection>, id: &str) -> (r: Option<usize>)
    ensures
        match r {
            Some(k) => k == connection_matching(pool.deep_view(), id@),
            None => connection_matching(pool.deep_view(), id@) < 0,
        },
{
    let mut i: usize = 0;
    while i < pool.len()
        invariant
            i <= pool.len(),
            first_where(i as nat, |k: int| has_substring(pool.deep_view()[k].id, id@)) == -1,
        decreases pool.len() - i,
    {
        if text_contains(pool[i].id.as_str(), id) {
            assert(first_where((i + 1) as nat, |k: int| has_substring(pool.deep_view()[k].id, id@)) == i);
            proof {
                lemma_first_where_stable((i + 1) as nat, pool.deep_view().len(), |k: int| has_substring(pool.deep_view()[k].id, id@));
            }
            return Some(i);
        }
        i = i + 1;
    }
    None
}

/// Enters a newly connected client's connection into the pool, without duplicating an id
/// that the pool already holds.
pub fn register_connection(pool: &mut Vec<Connection>, conn: Connection) -> (r: Registration)
    ensures
        final(pool).deep_view() == registered(old(pool).deep_view(), conn@),
        ({
            let k = connection_matching(old(pool).deep_view(), conn@.id);
            if k >= 0 {
                r == Registration::Refreshed(k as usize)
            } else {
                r == Registration::Added(old(pool).len())
            }
        }),
{
    proof {
        lemma_first_where(old(pool).deep_view().len(), |j: int| has_substring(old(pool).deep_view()[j].id, conn@.id));
    }
    match find_connection(pool, conn.id.as_str()) {
        Some(k) => {
            let ghost before = pool.deep_view();
            let mut c = pool.remove(k);
            c.chat_stream = clone_opt_text(&conn.chat_stream);
            c.audio_tx_stream = clone_opt_text(&conn.chat_stream);
            pool.insert(k, c);
            assert(pool.deep_view() =~= registered(before, conn@));
            Registration::Refreshed(k)
        },
        None => {
            let ghost before = pool.deep_view();
            let n = pool.len();
            pool.push(conn);
            assert(pool.deep_view() =~= registered(before, conn@));
            Registration::Added(n)
        },
    }
}

pub proof fn lemma_first_where_found(n: nat, p: spec_fn(int) -> bool, j: int)
    requires
        0 <= j < n,
        p(j),
    ensures
        first_where(n, p) >= 0,
{
    lemma_first_where(n, p);
}

/// A connecting client's id is held by the pool afterwards; the pool grows by at most one
/// entry; and a second connection with the same id does not make it grow again.
pub proof fn lemma_registration_keeps_ids_unique(
    cs: Seq<ConnectionView>,
    c1: ConnectionView,
    c2: ConnectionView,
)
    requires
        c1.id == c2.id,
    ensures
        connection_matching(registered(cs, c1), c1.id) >= 0,
        registered(cs, c1).len() <= cs.len() + 1,
        registered(registered(cs, c1), c2).len() == registered(cs, c1).len(),
{
    let k = connection_matching(cs, c1.id);
    let once = registered(cs, c1);
    lemma_first_where(cs.len(), |j: int| has_substring(cs[j].id, c1.id));
    if k >= 0 {
        assert(once[k].id == cs[k].id);
        lemma_first_where_found(once.len(), |j: int| has_substring(once[j].id, c1.id), k);
    } else {
        lemma_contains_itself(c1.id);
        assert(once[cs.len() as int] == c1);
        lemma_first_where_found(once.len(), |j: int| has_substring(once[j].id, c1.id), cs.len() as int);
    }
    assert(connection_matching(once, c2.id) == connection_matching(once, c1.id));
    lemma_first_where(once.len(), |j: int| has_substring(once[j].id, c1.id));
}

/// The channel that a client's channel-info request names: the last whose id occurs in
/// the request text, or -1.
pub open spec fn info_target(chs: Seq<ChannelView>, request: Seq<char>) -> int {
    last_where(chs.len(), |i: int| has_substring(request, chs[i].id))
}

/// The reply to a channel-info request when no channel matches: 255 zero bytes.
pub open spec fn no_channel_reply() -> Seq<u8> {
    Seq::new(255, |i: int| 0u8)
}

/// Finds the channel that a channel-info request names.
pub fn find_info_target(pool: &Vec<Channel>, request: &str) -> (r: Option<usize>)
    ensures
        match r {
            Some(k) => k == info_target(pool.deep_view(), request@),
            None => info_target(pool.deep_view(), request@) < 0,
        },
{
    let n = pool.len();
    let mut i: usize = n;
    while i > 0
        invariant
            i <= n,
            n == pool.len(),
            last_where(n as nat, |k: int| has_substring(request@, pool.deep_view()[k].id))
                == last_where(i as nat, |k: int| has_substring(request@, pool.deep_view()[k].id)),
        decreases i,
    {
        if text_contains(request, pool[i - 1].id.as_str()) {
            return Some(i - 1);
        }
        i = i - 1;
    }
    None
}

/// The reply to a channel-info request: the named channel described by its id and name
/// alone, or 255 zero bytes when the request names none.
pub fn channel_info_reply(pool: &Vec<Channel>, request: &str) -> (r: Vec<u8>)
    ensures
        ({
            let k = info_target(pool.deep_view(), request@);
            if k >= 0 {
                r@ == bin_channel_header(pool.deep_view()[k].id, pool.deep_view()[k].channel_name)
            } else {
                r@ == no_channel_reply()
            }
        }),
{
    proof {
        lemma_last_where(pool.deep_view().len(), |k: int| has_substring(request@, pool.deep_view()[k].id));
    }
    match find_info_target(pool, request) {
        Some(k) => encode_channel_header(pool[k].id.as_str(), pool[k].channel_name.as_str()),
        None => {
            let mut r: Vec<u8> = Vec::new();
            let mut i: usize = 0;
            while i < 255
                invariant
                    i <= 255,
                    r@ == Seq::new(i as nat, |j: int| 0u8),
                decreases 255 - i,
            {
                r.push(0u8);
                i = i + 1;
                assert(r@ =~= Seq::new(i as nat, |j: int| 0u8));
            }
            r
        },
    }
}

/// A channel whose chat is replaced by `msgs`.
pub open spec fn with_chat(ch: ChannelView, msgs: Seq<MessageView>) -> ChannelView {
    ChannelView { chat_msgs: Some(msgs), ..ch }
}

/// Gives the first channel whose id contains `channel_id` the chat `msgs`, read from the
/// database; without such a channel the pool is unchanged.
pub fn install_chat(pool: &mut Vec<Channel>, channel_id: &str, msgs: Vec<Message>)
    ensures
        ({
            let k = channel_matching(old(pool).deep_view(), channel_id@);
            if k >= 0 {
                final(pool).deep_view() == old(pool).deep_view().update(
                    k,
                    with_chat(old(pool).deep_view()[k], msgs.deep_view()),
                )
            } else {
                final(pool).deep_view() == old(pool).deep_view()
            }
        }),
        final(pool).deep_view().len() == old(pool).deep_view().len(),
        ({
            let k = channel_matching(old(pool).deep_view(), channel_id@);
            k >= 0 ==> {
                &&& final(pool).deep_view()[k].chat_msgs == Some(msgs.deep_view())
                &&& final(pool).deep_view()[k].id == old(pool).deep_view()[k].id
                &&& final(pool).deep_view()[k].channel_name == old(pool).deep_view()[k].channel_name
                &&& final(pool).deep_view()[k].users == old(pool).deep_view()[k].users
            }
        }),
        forall|i: int|
            0 <= i < old(pool).deep_view().len() && i != channel_matching(
                old(pool).deep_view(),
                channel_id@,
            ) ==> #[trigger] final(pool).deep_view()[i] == old(pool).deep_view()[i],
{
    proof {
        lemma_first_where(old(pool).deep_view().len(), |i: int| has_substring(old(pool).deep_view()[i].id, channel_id@));
    }
    match find_channel(pool, channel_id) {
        None => {},
        Some(k) => {
            let ghost before = pool.deep_view();
            let ghost m = msgs.deep_view();
            let mut ch = pool.remove(k);
            ch.chat_msgs = Some(msgs);
            pool.insert(k, ch);
            assert(pool.deep_view() =~= before.update(k as int, with_chat(before[k as int], m)));
        },
    }
}

/// The chat history sent to a client that has just joined: the channel's messages, if it
/// holds any chat.
pub fn history_frame(channel: &Channel) -> (r: Option<Vec<u8>>)
    ensures
        match channel@.chat_msgs {
            Some(ms) => r matches Some(b) && b@ == bin_messages(ms),
            None => r is None,
        },
{
    match &channel.chat_msgs {
        Some(ms) => Some(encode_messages(ms)),
        None => None,
    }
}

/// The indices below `n` where `p` holds, in increasing order.
pub open spec fn indices_where(n: nat, p: spec_fn(int) -> bool) -> Seq<int>
    decreases n,
{
    if n == 0 {
        Seq::empty()
    } else if p(n - 1) {
        indices_where((n - 1) as nat, p).push(n - 1)
    } else {
        indices_where((n - 1) as nat, p)
    }
}

/// Positions held in a `Vec<usize>`, as integers.
pub open spec fn as_indices(v: Seq<usize>) -> Seq<int> {
    v.map_values(|x: usize| x as int)
}

pub proof fn lemma_as_indices_push(v: Seq<usize>, x: usize)
    ensures
        as_indices(v.push(x)) == as_indices(v).push(x as int),
{
    assert(as_indices(v.push(x)) =~= as_indices(v).push(x as int));
}

/// The text of a stream address known to be held.
pub open spec fn held(o: Option<Seq<char>>) -> Seq<char> {
    match o {
        Some(s) => s,
        None => Seq::empty(),
    }
}

/// Whether every connection holds its main stream.
pub open spec fn all_main_held(cs: Seq<ConnectionView>) -> bool {
    forall|j: int| 0 <= j < cs.len() ==> (#[trigger] cs[j]).main_stream is Some
}

/// The connections whose main stream's peer address contains `addr`.
pub open spec fn main_matches(cs: Seq<ConnectionView>, addr: Seq<char>) -> Seq<int> {
    indices_where(cs.len(), |j: int| has_substring(held(cs[j].main_stream), addr))
}

/// The connections whose main stream's peer address contains `addr` and that still hold
/// a chat stream.
pub open spec fn member_list_recipients(cs: Seq<ConnectionView>, addr: Seq<char>) -> Seq<int> {
    indices_where(
        cs.len(),
        |j: int| has_substring(held(cs[j].main_stream), addr) && cs[j].chat_stream is Some,
    )
}

/// What answers a client's request for a channel's member list.
pub struct MemberListReply {
    /// The connections whose main stream gets the frame, in pool order.
    pub recipients: Vec<usize>,
    /// The (name, id) list of the channel's members; empty when there is no recipient.
    pub frame: Vec<u8>,
}

/// Whether the member-list request can be answered: the server unwraps every connection's
/// main stream, and the named channel's member list once some connection matches.
pub open spec fn member_list_defined(
    chs: Seq<ChannelView>,
    cs: Seq<ConnectionView>,
    channel: Seq<char>,
    addr: Seq<char>,
) -> bool {
    let k = channel_matching(chs, channel);
    k >= 0 ==> {
        &&& all_main_held(cs)
        &&& main_matches(cs, addr).len() > 0 ==> chs[k].users is Some
    }
}

/// Finds the connections whose main stream's peer address contains `addr`: the ones that
/// also hold a chat stream, and whether there is any. `Err` when some connection holds no
/// main stream.
fn scan_main_matches(conns: &Vec<Connection>, addr: &str) -> (r: Result<(Vec<usize>, bool), ()>)
    ensures
        r is Ok <==> all_main_held(conns.deep_view()),
        r matches Ok((rs, any)) ==> {
            &&& as_indices(rs@) == member_list_recipients(conns.deep_view(), addr@)
            &&& any == (main_matches(conns.deep_view(), addr@).len() > 0)
        },
{
    let ghost cs = conns.deep_view();
    let ghost pm = |j: int| has_substring(held(cs[j].main_stream), addr@);
    let ghost pr = |j: int| has_substring(held(cs[j].main_stream), addr@) && cs[j].chat_stream is Some;
    let mut recipients: Vec<usize> = Vec::new();
    let mut any_match = false;
    let mut j: usize = 0;
    while j < conns.len()
        invariant
            j <= conns.len(),
            cs == conns.deep_view(),
            pm == (|j: int| has_substring(held(cs[j].main_stream), addr@)),
            pr == (|j: int| has_substring(held(cs[j].main_stream), addr@) && cs[j].chat_stream is Some),
            forall|i: int| 0 <= i < j ==> (#[trigger] cs[i]).main_stream is Some,
            any_match == (indices_where(j as nat, pm).len() > 0),
            as_indices(recipients@) == indices_where(j as nat, pr),
        decreases conns.len() - j,
    {
        let main = match &conns[j].main_stream {
            Some(m) => m,
            None => {
                assert(cs[j as int].main_stream is None);
                return Err(());
            },
        };
        assert(held(cs[j as int].main_stream) == main@);
        if text_contains(main.as_str(), addr) {
            any_match = true;
            if conns[j].chat_stream.is_some() {
                proof {
                    lemma_as_indices_push(recipients@, j);
                }
                recipients.push(j);
            }
        }
        j = j + 1;
    }
    assert(all_main_held(cs));
    Ok((recipients, any_match))
}

/// The member-list answer, or `Err` on the inputs on which it cannot be given.
fn member_list_attempt(
    channels: &Vec<Channel>,
    conns: &Vec<Connection>,
    channel: &str,
    addr: &str,
) -> (r: Result<MemberListReply, ()>)
    ensures
        r is Ok <==> member_list_defined(channels.deep_view(), conns.deep_view(), channel@, addr@),
        r matches Ok(reply) ==> {
            let k = channel_matching(channels.deep_view(), channel@);
            if k < 0 {
                reply.recipients@.len() == 0 && reply.frame@.len() == 0
            } else {
                let rs = member_list_recipients(conns.deep_view(), addr@);
                &&& as_indices(reply.recipients@) == rs
                &&& reply.frame@ == if rs.len() > 0 {
                    crate::wire::bin_user_list(channels.deep_view()[k].users->0)
                } else {
                    Seq::empty()
                }
            }
        },
{
    proof {
        lemma_first_where(channels.deep_view().len(), |i: int| has_substring(channels.deep_view()[i].id, channel@));
    }
    let k = match find_channel(channels, channel) {
        None => {
            return Ok(MemberListReply { recipients: Vec::new(), frame: Vec::new() });
        },
        Some(k) => k,
    };
    let (recipients, any_match) = match scan_main_matches(conns, addr) {
        Err(()) => {
            return Err(());
        },
        Ok(p) => p,
    };
    if any_match {
        match &channels[k].users {
            None => Err(()),
            Some(us) => {
                if recipients.len() > 0 {
                    let frame = crate::wire::encode_user_list(us);
                    Ok(MemberListReply { recipients, frame })
                } else {
                    Ok(MemberListReply { recipients, frame: Vec::new() })
                }
            },
        }
    } else {
        proof {
            let cs = conns.deep_view();
            lemma_indices_where_sub(
                cs.len(),
                |j: int| has_substring(held(cs[j].main_stream), addr@) && cs[j].chat_stream is Some,
                |j: int| has_substring(held(cs[j].main_stream), addr@),
            );
        }
        Ok(MemberListReply { recipients, frame: Vec::new() })
    }
}

/// Whether a member-list request can be answered: every connection holds its main stream
/// and, when some connection matches the requester, the named channel has a member list.
/// Where this is false the server stops on a missing stream or list.
pub fn can_answer_member_list(
    channels: &Vec<Channel>,
    conns: &Vec<Connection>,
    channel: &str,
    addr: &str,
) -> (r: bool)
    ensures
        r == member_list_defined(channels.deep_view(), conns.deep_view(), channel@, addr@),
{
    member_list_attempt(channels, conns, channel, addr).is_ok()
}

/// Answers a client's request for the member list of the first channel whose id contains
/// `channel`: the frame goes to each connection whose main stream's peer address contains
/// the requester's address `addr` and that still holds a chat stream.
pub fn member_list_reply(
    channels: &Vec<Channel>,
    conns: &Vec<Connection>,
    channel: &str,
    addr: &str,
) -> (reply: MemberListReply)
    requires
        member_list_defined(channels.deep_view(), conns.deep_view(), channel@, addr@),
    ensures
        ({
            let k = channel_matching(channels.deep_view(), channel@);
            if k < 0 {
                reply.recipients@.len() == 0 && reply.frame@.len() == 0
            } else {
                let rs = member_list_recipients(conns.deep_view(), addr@);
                &&& as_indices(reply.recipients@) == rs
                &&& reply.frame@ == if rs.len() > 0 {
                    crate::wire::bin_user_list(channels.deep_view()[k].users->0)
                } else {
                    Seq::empty()
                }
            }
        }),
{
    match member_list_attempt(channels, conns, channel, addr) {
        Ok(reply) => reply,
        Err(()) => {
            proof {
                assert(false);
            }
            MemberListReply { recipients: Vec::new(), frame: Vec::new() }
        },
    }
}

/// Two members that agree on name and id, whatever their stream addresses.
pub open spec fn same_name_and_id(a: UserView, b: UserView) -> bool {
    a.name == b.name && a.id == b.id
}

/// Two channel pools that differ at most in their members' stream addresses.
pub open spec fn differ_in_addresses_only(a: Seq<ChannelView>, b: Seq<ChannelView>) -> bool {
    &&& a.len() == b.len()
    &&& forall|k: int|
        0 <= k < a.len() ==> {
            &&& (#[trigger] a[k]).id == b[k].id
            &&& a[k].channel_name == b[k].channel_name
            &&& a[k].chat_msgs == b[k].chat_msgs
            &&& (a[k].users is Some <==> b[k].users is Some)
            &&& a[k].users is Some ==> {
                &&& a[k].users->0.len() == b[k].users->0.len()
                &&& forall|i: int|
                    0 <= i < a[k].users->0.len() ==> same_name_and_id(
                        #[trigger] a[k].users->0[i],
                        b[k].users->0[i],
                    )
            }
        }
}

/// Searches with predicates that agree below `n` find the same first index.
pub proof fn lemma_first_where_agree(n: nat, p: spec_fn(int) -> bool, q: spec_fn(int) -> bool)
    requires
        forall|j: int| 0 <= j < n ==> #[trigger] p(j) == q(j),
    ensures
        first_where(n, p) == first_where(n, q),
    decreases n,
{
    if n > 0 {
        lemma_first_where_agree((n - 1) as nat, p, q);
    }
}

/// A member list reveals only names and ids: the same request against two channel pools
/// that differ only in members' stream addresses can be answered in both or in neither,
/// names the same channel, and sends the same frame to the same connections.
pub proof fn lemma_member_list_hides_addresses(
    a: Seq<ChannelView>,
    b: Seq<ChannelView>,
    cs: Seq<ConnectionView>,
    channel: Seq<char>,
    addr: Seq<char>,
)
    requires
        differ_in_addresses_only(a, b),
    ensures
        member_list_defined(a, cs, channel, addr) == member_list_defined(b, cs, channel, addr),
        channel_matching(a, channel) == channel_matching(b, channel),
        channel_matching(a, channel) >= 0 && a[channel_matching(a, channel)].users is Some ==>
            crate::wire::bin_user_list(a[channel_matching(a, channel)].users->0)
                == crate::wire::bin_user_list(b[channel_matching(b, channel)].users->0),
{
    let pa = |i: int| has_substring(a[i].id, channel);
    let pb = |i: int| has_substring(b[i].id, channel);
    assert forall|j: int| 0 <= j < a.len() implies #[trigger] pa(j) == pb(j) by {
        assert(a[j].id == b[j].id);
    }
    lemma_first_where_agree(a.len(), pa, pb);
    lemma_first_where(a.len(), pa);
    let k = channel_matching(a, channel);
    if k >= 0 && a[k].users is Some {
        let ua = a[k].users->0;
        let ub = b[k].users->0;
        assert(crate::wire::name_id_pairs(ua) =~= crate::wire::name_id_pairs(ub)) by {
            assert forall|i: int| 0 <= i < ua.len() implies crate::wire::name_id_pairs(ua)[i]
                == crate::wire::name_id_pairs(ub)[i] by {
                assert(same_name_and_id(ua[i], ub[i]));
            }
        }
    }
}

/// Fewer matches where the predicate is stronger.
pub proof fn lemma_indices_where_sub(n: nat, p: spec_fn(int) -> bool, q: spec_fn(int) -> bool)
    requires
        forall|j: int| 0 <= j < n && #[trigger] p(j) ==> q(j),
    ensures
        indices_where(n, p).len() <= indices_where(n, q).len(),
    decreases n,
{
    if n > 0 {
        lemma_indices_where_sub((n - 1) as nat, p, q);
    }
}

/// The first member whose main stream's peer address contains `addr`, or -1.
pub open spec fn leaver(us: Seq<UserView>, addr: Seq<char>) -> int {
    first_where(us.len(), |i: int| has_substring(us[i].main_stream, addr))
}

/// The channel after its first member whose main stream's peer address contains `addr`
/// leaves it; a channel left without members also loses its chat. `None` when no member
/// matches.
pub open spec fn departed(ch: ChannelView, addr: Seq<char>) -> Option<ChannelView> {
    match ch.users {
        Some(us) => {
            let u = leaver(us, addr);
            if u >= 0 {
                let rest = us.remove(u);
                Some(
                    ChannelView {
                        users: Some(rest),
                        chat_msgs: if rest.len() == 0 {
                            None
                        } else {
                            ch.chat_msgs
                        },
                        ..ch
                    },
                )
            } else {
                None
            }
        },
        None => None,
    }
}

/// The channels below `n` after one disconnecting client leaves each channel whose id
/// contains `channel_id`, and how many channels it left.
pub open spec fn swept(chs: Seq<ChannelView>, n: nat, channel_id: Seq<char>, addr: Seq<char>) -> (
    Seq<ChannelView>,
    nat,
)
    decreases n,
{
    if n == 0 {
        (chs, 0)
    } else {
        let (c, cnt) = swept(chs, (n - 1) as nat, channel_id, addr);
        let k = n - 1;
        if has_substring(chs[k].id, channel_id) && departed(chs[k], addr) is Some {
            (c.update(k, departed(chs[k], addr)->0), cnt + 1)
        } else {
            (c, cnt)
        }
    }
}

pub proof fn lemma_swept_frame(chs: Seq<ChannelView>, n: nat, channel_id: Seq<char>, addr: Seq<char>)
    requires
        n <= chs.len(),
    ensures
        swept(chs, n, channel_id, addr).0.len() == chs.len(),
        swept(chs, n, channel_id, addr).1 <= n,
        forall|i: int| n <= i < chs.len() ==> #[trigger] swept(chs, n, channel_id, addr).0[i] == chs[i],
    decreases n,
{
    if n > 0 {
        lemma_swept_frame(chs, (n - 1) as nat, channel_id, addr);
    }
}

/// A channel's member count, or -1 when it has no member list.
pub open spec fn member_count(ch: ChannelView) -> int {
    match ch.users {
        Some(us) => us.len() as int,
        None => -1,
    }
}

/// Channel `b` is channel `a` with at most members gone: same id and name, no more members.
pub open spec fn no_more_members(a: ChannelView, b: ChannelView) -> bool {
    &&& b.id == a.id
    &&& b.channel_name == a.channel_name
    &&& member_count(b) <= member_count(a)
}

/// A departure removes exactly one member, keeps the id and name, and clears the chat of
/// a channel left empty.
pub proof fn lemma_departed(ch: ChannelView, addr: Seq<char>)
    requires
        departed(ch, addr) is Some,
    ensures
        no_more_members(ch, departed(ch, addr)->0),
        member_count(departed(ch, addr)->0) == member_count(ch) - 1,
        member_count(departed(ch, addr)->0) == 0 ==> departed(ch, addr)->0.chat_msgs is None,
{
    let us = ch.users->0;
    lemma_first_where(us.len(), |i: int| has_substring(us[i].main_stream, addr));
}

pub proof fn lemma_swept_no_more_members(
    chs: Seq<ChannelView>,
    n: nat,
    channel_id: Seq<char>,
    addr: Seq<char>,
)
    requires
        n <= chs.len(),
    ensures
        swept(chs, n, channel_id, addr).0.len() == chs.len(),
        forall|k: int|
            0 <= k < chs.len() ==> no_more_members(
                chs[k],
                #[trigger] swept(chs, n, channel_id, addr).0[k],
            ),
    decreases n,
{
    if n > 0 {
        lemma_swept_no_more_members(chs, (n - 1) as nat, channel_id, addr);
        let k = n - 1;
        if has_substring(chs[k].id, channel_id) && departed(chs[k], addr) is Some {
            lemma_departed(chs[k], addr);
        }
    }
}

/// A disconnect never adds a member to a channel, nor renames one.
pub proof fn lemma_disconnect_no_more_members(
    chs: Seq<ChannelView>,
    cs: Seq<ConnectionView>,
    n: nat,
    channel_id: Seq<char>,
    addr: Seq<char>,
)
    requires
        n <= cs.len(),
    ensures
        disconnected(chs, cs, n, channel_id, addr).0.len() == chs.len(),
        forall|k: int|
            0 <= k < chs.len() ==> no_more_members(
                chs[k],
                #[trigger] disconnected(chs, cs, n, channel_id, addr).0[k],
            ),
    decreases n,
{
    if n > 0 {
        lemma_disconnect_no_more_members(chs, cs, (n - 1) as nat, channel_id, addr);
        let c1 = disconnected(chs, cs, (n - 1) as nat, channel_id, addr).0;
        lemma_swept_no_more_members(c1, c1.len(), channel_id, addr);
        assert forall|k: int| 0 <= k < chs.len() implies no_more_members(
            chs[k],
            #[trigger] disconnected(chs, cs, n, channel_id, addr).0[k],
        ) by {
            assert(no_more_members(chs[k], c1[k]));
        }
    }
}

/// A connection whose chat and audio streams are shut down.
pub open spec fn closed_streams(c: ConnectionView) -> ConnectionView {
    ConnectionView { chat_stream: None, audio_tx_stream: None, ..c }
}

/// A disconnect request handled for the connections below `n`: the channels, the
/// connections, the connections whose chat and audio streams get shut down (in order), and
/// whether the server gets through without unwrapping a missing stream.
pub open spec fn disconnected(
    chs: Seq<ChannelView>,
    cs: Seq<ConnectionView>,
    n: nat,
    channel_id: Seq<char>,
    addr: Seq<char>,
) -> (Seq<ChannelView>, Seq<ConnectionView>, Seq<int>, bool)
    decreases n,
{
    if n == 0 {
        (chs, cs, Seq::empty(), true)
    } else {
        let (c1, s1, shut, ok) = disconnected(chs, cs, (n - 1) as nat, channel_id, addr);
        let j = n - 1;
        match cs[j].main_stream {
            None => (c1, s1, shut, false),
            Some(m) => if has_substring(m, addr) {
                let (c2, cnt) = swept(c1, c1.len(), channel_id, addr);
                if cnt == 0 {
                    (c2, s1, shut, ok)
                } else {
                    (
                        c2,
                        s1.update(j, closed_streams(cs[j])),
                        shut.push(j),
                        ok && cnt == 1 && cs[j].chat_stream is Some && cs[j].audio_tx_stream
                            is Some,
                    )
                }
            } else {
                (c1, s1, shut, ok)
            },
        }
    }
}

pub proof fn lemma_disconnected_frame(
    chs: Seq<ChannelView>,
    cs: Seq<ConnectionView>,
    n: nat,
    channel_id: Seq<char>,
    addr: Seq<char>,
)
    requires
        n <= cs.len(),
    ensures
        disconnected(chs, cs, n, channel_id, addr).0.len() == chs.len(),
        disconnected(chs, cs, n, channel_id, addr).1.len() == cs.len(),
        forall|i: int|
            n <= i < cs.len() ==> #[trigger] disconnected(chs, cs, n, channel_id, addr).1[i]
                == cs[i],
    decreases n,
{
    if n > 0 {
        lemma_disconnected_frame(chs, cs, (n - 1) as nat, channel_id, addr);
        let c1 = disconnected(chs, cs, (n - 1) as nat, channel_id, addr).0;
        lemma_swept_frame(c1, c1.len(), channel_id, addr);
    }
}

/// Once the server would stop, it stops whatever connections follow.
pub proof fn lemma_disconnected_stays_failed(
    chs: Seq<ChannelView>,
    cs: Seq<ConnectionView>,
    m: nat,
    n: nat,
    channel_id: Seq<char>,
    addr: Seq<char>,
)
    requires
        m <= n,
        !disconnected(chs, cs, m, channel_id, addr).3,
    ensures
        !disconnected(chs, cs, n, channel_id, addr).3,
    decreases n,
{
    if n > m {
        lemma_disconnected_stays_failed(chs, cs, m, (n - 1) as nat, channel_id, addr);
    }
}

/// The index of the first member whose main stream's peer address contains `addr`.
fn find_leaver(us: &Vec<User>, addr: &str) -> (r: Option<usize>)
    ensures
        match r {
            Some(u) => u == leaver(us.deep_view(), addr@),
            None => leaver(us.deep_view(), addr@) < 0,
        },
{
    let mut i: usize = 0;
    while i < us.len()
        invariant
            i <= us.len(),
            first_where(i as nat, |k: int| has_substring(us.deep_view()[k].main_stream, addr@))
                == -1,
        decreases us.len() - i,
    {
        if text_contains(us[i].main_stream.as_str(), addr) {
            assert(first_where((i + 1) as nat, |k: int| has_substring(us.deep_view()[k].main_stream, addr@)) == i);
            proof {
                lemma_first_where_stable((i + 1) as nat, us.deep_view().len(), |k: int| has_substring(us.deep_view()[k].main_stream, addr@));
            }
            return Some(i);
        }
        i = i + 1;
    }
    None
}

/// Removes the first member whose main stream's peer address contains `addr`; clears the
/// chat of a channel left empty. Whether a member left.
fn depart(ch: &mut Channel, addr: &str) -> (r: bool)
    ensures
        match departed(old(ch)@, addr@) {
            Some(c) => r && final(ch)@ == c,
            None => !r && final(ch)@ == old(ch)@,
        },
{
    let ghost before = ch@;
    let mut us = match ch.users.take() {
        None => {
            return false;
        },
        Some(us) => us,
    };
    match find_leaver(&us, addr) {
        None => {
            ch.users = Some(us);
            assert(ch@ == before);
            false
        },
        Some(u) => {
            proof {
                lemma_first_where(us.deep_view().len(), |i: int| has_substring(us.deep_view()[i].main_stream, addr@));
            }
            let ghost all = us.deep_view();
            us.remove(u);
            assert(us.deep_view() =~= all.remove(u as int));
            if us.len() == 0 {
                ch.chat_msgs = None;
            }
            ch.users = Some(us);
            true
        },
    }
}

/// One disconnecting client leaves each channel whose id contains `channel_id`; how many
/// channels it left.
fn sweep_channels(channels: &mut Vec<Channel>, channel_id: &str, addr: &str) -> (count: usize)
    ensures
        (final(channels).deep_view(), count as nat) == swept(
            old(channels).deep_view(),
            old(channels).deep_view().len(),
            channel_id@,
            addr@,
        ),
{
    let ghost orig = channels.deep_view();
    let mut count: usize = 0;
    let mut k: usize = 0;
    proof {
        lemma_swept_frame(orig, 0, channel_id@, addr@);
    }
    while k < channels.len()
        invariant
            k <= channels.len(),
            channels.len() == orig.len(),
            (channels.deep_view(), count as nat) == swept(orig, k as nat, channel_id@, addr@),
            forall|i: int| k <= i < orig.len() ==> #[trigger] channels.deep_view()[i] == orig[i],
            count <= k,
        decreases channels.len() - k,
    {
        proof {
            lemma_swept_frame(orig, (k + 1) as nat, channel_id@, addr@);
        }
        assert(channels.deep_view()[k as int] == orig[k as int]);
        if text_contains(channels[k].id.as_str(), channel_id) {
            let ghost before = channels.deep_view();
            let mut ch = channels.remove(k);
            let left = depart(&mut ch, addr);
            channels.insert(k, ch);
            if left {
                count = count + 1;
                assert(channels.deep_view() =~= before.update(k as int, departed(orig[k as int], addr@)->0));
            } else {
                assert(channels.deep_view() =~= before);
            }
        }
        k = k + 1;
    }
    count
}

/// The disconnect, or `Err` where it cannot be carried out (the pools are then left in an
/// unspecified state).
fn disconnect_attempt(
    channels: &mut Vec<Channel>,
    conns: &mut Vec<Connection>,
    addr: &str,
    channel_id: &str,
) -> (r: Result<Vec<usize>, ()>)
    ensures
        ({
            let (c, s, shut, ok) = disconnected(
                old(channels).deep_view(),
                old(conns).deep_view(),
                old(conns).deep_view().len(),
                channel_id@,
                addr@,
            );
            &&& r is Ok <==> ok
            &&& r matches Ok(v) ==> {
                &&& final(channels).deep_view() == c
                &&& final(conns).deep_view() == s
                &&& as_indices(v@) == shut
            }
        }),
{
    let ghost chs0 = channels.deep_view();
    let ghost cs0 = conns.deep_view();
    let mut shut: Vec<usize> = Vec::new();
    let mut j: usize = 0;
    while j < conns.len()
        invariant
            j <= conns.len(),
            conns.len() == cs0.len(),
            chs0 == old(channels).deep_view(),
            cs0 == old(conns).deep_view(),
            ({
                let (c, s, sh, ok) = disconnected(chs0, cs0, j as nat, channel_id@, addr@);
                &&& ok
                &&& channels.deep_view() == c
                &&& conns.deep_view() == s
                &&& as_indices(shut@) == sh
            }),
            forall|i: int| j <= i < cs0.len() ==> #[trigger] conns.deep_view()[i] == cs0[i],
        decreases conns.len() - j,
    {
        proof {
            lemma_disconnected_frame(chs0, cs0, (j + 1) as nat, channel_id@, addr@);
        }
        assert(conns.deep_view()[j as int] == cs0[j as int]);
        let main_matches = match &conns[j].main_stream {
            None => {
                assert(cs0[j as int].main_stream is None);
                assert(!disconnected(chs0, cs0, (j + 1) as nat, channel_id@, addr@).3);
                proof {
                    lemma_disconnected_stays_failed(chs0, cs0, (j + 1) as nat, cs0.len(), channel_id@, addr@);
                }
                return Err(());
            },
            Some(m) => text_contains(m.as_str(), addr),
        };
        assert(cs0[j as int].main_stream is Some);
        assert(main_matches == has_substring(cs0[j as int].main_stream->0, addr@));
        if main_matches {
            let ghost c1 = channels.deep_view();
            let count = sweep_channels(channels, channel_id, addr);
            if count > 0 {
                let held_streams = count == 1 && conns[j].chat_stream.is_some()
                    && conns[j].audio_tx_stream.is_some();
                if !held_streams {
                    assert(!disconnected(chs0, cs0, (j + 1) as nat, channel_id@, addr@).3);
                    proof {
                        lemma_disconnected_stays_failed(chs0, cs0, (j + 1) as nat, cs0.len(), channel_id@, addr@);
                    }
                    return Err(());
                }
                let ghost before = conns.deep_view();
                let mut c = conns.remove(j);
                c.chat_stream = None;
                c.audio_tx_stream = None;
                conns.insert(j, c);
                assert(conns.deep_view() =~= before.update(j as int, closed_streams(cs0[j as int])));
                proof {
                    lemma_as_indices_push(shut@, j);
                }
                shut.push(j);
            }
        }
        j = j + 1;
    }
    Ok(shut)
}

/// Whether a disconnect request can be carried out: every connection holds its main stream,
/// and each connection matching the requester leaves at most one channel and, where it
/// leaves one, holds its chat and audio streams. Where this is false the server stops on a
/// missing stream. The pools are not changed.
pub fn can_disconnect(channels: &Vec<Channel>, conns: &Vec<Connection>, addr: &str, channel_id: &str) -> (r: bool)
    ensures
        r == disconnected(
            channels.deep_view(),
            conns.deep_view(),
            conns.deep_view().len(),
            channel_id@,
            addr@,
        ).3,
{
    let mut chs = crate::model::duplicate_channels(channels);
    let mut cs = crate::model::duplicate_connections(conns);
    disconnect_attempt(&mut chs, &mut cs, addr, channel_id).is_ok()
}

/// Handles a client's disconnect request: for each connection whose main stream's peer
/// address contains the requester's address `addr`, the client leaves every channel whose
/// id contains `channel_id`, and where it left one, that connection's chat and audio streams
/// are shut down. The result lists the connections to shut down, in order.
pub fn disconnect(
    channels: &mut Vec<Channel>,
    conns: &mut Vec<Connection>,
    addr: &str,
    channel_id: &str,
) -> (shut: Vec<usize>)
    requires
        disconnected(
            old(channels).deep_view(),
            old(conns).deep_view(),
            old(conns).deep_view().len(),
            channel_id@,
            addr@,
        ).3,
    ensures
        ({
            let (c, s, sh, ok) = disconnected(
                old(channels).deep_view(),
                old(conns).deep_view(),
                old(conns).deep_view().len(),
                channel_id@,
                addr@,
            );
            &&& final(channels).deep_view() == c
            &&& final(conns).deep_view() == s
            &&& as_indices(shut@) == sh
        }),
{
    match disconnect_attempt(channels, conns, addr, channel_id) {
        Ok(v) => v,
        Err(()) => {
            proof {
                assert(false);
            }
            Vec::new()
        },
    }
}

/// What a client's join brings about.
pub struct Joined {
    /// How the client's connection entered the connection pool.
    pub registration: Registration,
    /// The client's channel as it is after the join (blank when no channel matched).
    pub channel: Channel,
    /// The channel's chat history to send the client, if the channel holds any chat.
    pub history: Option<Vec<u8>>,
}

/// The member that a join adds.
pub open spec fn joining_user(
    name: Seq<char>,
    user_id: Seq<char>,
    main_addr: Seq<char>,
    chat_addr: Seq<char>,
    updater_addr: Seq<char>,
) -> UserView {
    UserView {
        name: name,
        id: user_id,
        main_stream: main_addr,
        chat_stream: chat_addr,
        updater_stream: updater_addr,
    }
}

/// The connection entry that a join registers.
pub open spec fn joining_connection(
    user_id: Seq<char>,
    main_addr: Seq<char>,
    chat_addr: Seq<char>,
    updater_addr: Seq<char>,
    audio_addr: Seq<char>,
) -> ConnectionView {
    ConnectionView {
        id: user_id,
        main_stream: Some(main_addr),
        chat_stream: Some(chat_addr),
        updater_stream: Some(updater_addr),
        audio_tx_stream: Some(audio_addr),
    }
}

/// Handles a client's join request `"<channel id> <name> <user id>"`, given the peer
/// addresses of its four streams: the connection is registered, the client joins the
/// first channel whose id contains the requested id, and the channel's chat history, if
/// any, is to be sent to it. The request must have three fields
/// (`parse_join_request` tells); the server stops on one that has fewer.
pub fn connect_client(
    channels: &mut Vec<Channel>,
    conns: &mut Vec<Connection>,
    request: &str,
    main_addr: &str,
    chat_addr: &str,
    updater_addr: &str,
    audio_addr: &str,
) -> (j: Joined)
    requires
        join_fields(request@) is Some,
    ensures
        ({
            let (cid, name, uid) = join_fields(request@)->0;
            let conn = joining_connection(uid, main_addr@, chat_addr@, updater_addr@, audio_addr@);
            let user = joining_user(name, uid, main_addr@, chat_addr@, updater_addr@);
            let chs = old(channels).deep_view();
            let k = channel_matching(chs, cid);
            let k2 = connection_matching(old(conns).deep_view(), uid);
            &&& j.registration == if k2 >= 0 {
                Registration::Refreshed(k2 as usize)
            } else {
                Registration::Added(old(conns).len())
            }
            &&& j.channel@ == if k >= 0 {
                with_member(chs[k], user)
            } else {
                blank_channel()
            }
            &&& match j.channel@.chat_msgs {
                Some(ms) => j.history matches Some(b) && b@ == bin_messages(ms),
                None => j.history is None,
            }
            &&& final(conns).deep_view() == registered(old(conns).deep_view(), conn)
            &&& final(channels).deep_view() == if k >= 0 {
                chs.update(k, with_member(chs[k], user))
            } else {
                chs
            }
        }),
        ({
            let (_cid, _name, uid) = join_fields(request@)->0;
            let before = old(conns).deep_view();
            let after = final(conns).deep_view();
            &&& j.registration matches Registration::Added(i) ==> {
                &&& i == before.len()
                &&& after.len() == before.len() + 1
                &&& after[i as int] == (ConnectionView {
                    id: uid,
                    main_stream: Some(main_addr@),
                    chat_stream: Some(chat_addr@),
                    updater_stream: Some(updater_addr@),
                    audio_tx_stream: Some(audio_addr@),
                })
            }
            &&& j.registration matches Registration::Refreshed(i) ==> {
                &&& i < before.len()
                &&& after.len() == before.len()
                &&& has_substring(before[i as int].id, uid)
                &&& after[i as int] == (ConnectionView {
                    chat_stream: Some(chat_addr@),
                    audio_tx_stream: Some(chat_addr@),
                    ..before[i as int]
                })
            }
            &&& forall|x: int|
                0 <= x < before.len() && !(j.registration matches Registration::Refreshed(i) && i
                    == x) ==> #[trigger] after[x] == before[x]
        }),
{
    let req = match parse_join_request(request) {
        None => {
            proof {
                assert(false);
            }
            JoinRequest { channel_id: String::new(), name: String::new(), user_id: String::new() }
        },
        Some(req) => req,
    };
    proof {
        lemma_first_where(
            old(conns).deep_view().len(),
            |j: int| has_substring(old(conns).deep_view()[j].id, req.user_id@),
        );
    }
    let conn = Connection::new(
        req.user_id.clone(),
        Some(main_addr.to_owned()),
        Some(chat_addr.to_owned()),
        Some(updater_addr.to_owned()),
        Some(audio_addr.to_owned()),
    );
    let ghost conn_view = conn@;
    let registration = register_connection(conns, conn);
    let user = User::new(
        req.name,
        req.user_id,
        main_addr.to_owned(),
        chat_addr.to_owned(),
        updater_addr.to_owned(),
    );
    let channel = join_channel(channels, req.channel_id.as_str(), user);
    let history = history_frame(&channel);
    proof {
        let before = old(conns).deep_view();
        let after = conns.deep_view();
        let uid = req.user_id@;
        let (_c, _n, u2) = join_fields(request@)->0;
        assert(u2 == uid);
        assert(conn_view.id == uid);
        let k2 = connection_matching(before, uid);
        lemma_first_where(before.len(), |j: int| has_substring(before[j].id, uid));
        assert(k2 >= 0 ==> has_substring(before[k2].id, uid));
        match registration {
            Registration::Added(i) => {
                assert(after[i as int] == conn_view);
            },
            Registration::Refreshed(i) => {
                assert(k2 >= 0);
                assert(k2 < before.len());
                assert(before.len() == old(conns)@.len());
                assert(old(conns)@.len() == old(conns).len());
                assert(i == k2 as usize);
                assert(i as int == k2);
                assert(i < before.len());
                assert(has_substring(before[i as int].id, uid));
            },
        }
    }
    Joined { registration, channel, history }
}

/// Whether every connection holds its updater stream.
pub open spec fn all_updater_held(cs: Seq<ConnectionView>) -> bool {
    forall|j: int| 0 <= j < cs.len() ==> (#[trigger] cs[j]).updater_stream is Some
}

/// Registering a connection that holds its main and updater streams keeps every entry of
/// the pool holding them.
pub proof fn lemma_registered_keeps_streams(cs: Seq<ConnectionView>, c: ConnectionView)
    requires
        all_main_held(cs),
        all_updater_held(cs),
        c.main_stream is Some,
        c.updater_stream is Some,
    ensures
        all_main_held(registered(cs, c)),
        all_updater_held(registered(cs, c)),
{
    let r = registered(cs, c);
    lemma_first_where(cs.len(), |j: int| has_substring(cs[j].id, c.id));
    assert forall|j: int| 0 <= j < r.len() implies (#[trigger] r[j]).main_stream is Some
        && r[j].updater_stream is Some by {
        if j < cs.len() {
            assert(r[j].main_stream == cs[j].main_stream);
            assert(r[j].updater_stream == cs[j].updater_stream);
        }
    }
}

/// A disconnect keeps the main and updater streams of every connection.
pub proof fn lemma_disconnect_keeps_streams(
    chs: Seq<ChannelView>,
    cs: Seq<ConnectionView>,
    n: nat,
    channel_id: Seq<char>,
    addr: Seq<char>,
)
    requires
        n <= cs.len(),
    ensures
        disconnected(chs, cs, n, channel_id, addr).1.len() == cs.len(),
        forall|j: int|
            0 <= j < cs.len() ==> {
                &&& (#[trigger] disconnected(chs, cs, n, channel_id, addr).1[j]).main_stream
                    == cs[j].main_stream
                &&& disconnected(chs, cs, n, channel_id, addr).1[j].updater_stream
                    == cs[j].updater_stream
                &&& disconnected(chs, cs, n, channel_id, addr).1[j].id == cs[j].id
            },
    decreases n,
{
    if n > 0 {
        lemma_disconnect_keeps_streams(chs, cs, (n - 1) as nat, channel_id, addr);
    }
}

/// A departure takes out exactly the first member whose main-stream address contains the
/// leaving client's address, keeps every other member in order, keeps the channel's id and
/// name, and clears the chat only of a channel left without members. There is a departure
/// exactly when the channel has a member list with such a member.
pub proof fn lemma_departure_removes_the_leaver(ch: ChannelView, addr: Seq<char>)
    ensures
        departed(ch, addr) is Some <==> (ch.users is Some && exists|i: int|
            0 <= i < ch.users->0.len() && has_substring(
                #[trigger] ch.users->0[i].main_stream,
                addr,
            )),
        departed(ch, addr) is Some ==> {
            let us = ch.users->0;
            let c = departed(ch, addr)->0;
            exists|u: int|
                {
                    &&& 0 <= u < us.len()
                    &&& has_substring(us[u].main_stream, addr)
                    &&& forall|j: int|
                        0 <= j < u ==> !has_substring(#[trigger] us[j].main_stream, addr)
                    &&& c.users == Some(us.take(u) + us.skip(u + 1))
                    &&& c.id == ch.id
                    &&& c.channel_name == ch.channel_name
                    &&& c.chat_msgs == if us.len() == 1 {
                        None
                    } else {
                        ch.chat_msgs
                    }
                }
        },
{
    if ch.users is Some {
        let us = ch.users->0;
        let p = |i: int| has_substring(us[i].main_stream, addr);
        lemma_first_where(us.len(), p);
        let u = first_where(us.len(), p);
        if u >= 0 {
            assert(us.remove(u) =~= us.take(u) + us.skip(u + 1));
            assert(p(u));
            let c = departed(ch, addr)->0;
            assert(c.users == Some(us.take(u) + us.skip(u + 1)));
            assert(us.remove(u).len() == us.len() - 1);
            assert forall|j: int| 0 <= j < u implies !has_substring(#[trigger] us[j].main_stream, addr) by {
                assert(!p(j));
            }
            assert(c.chat_msgs == if us.len() == 1 {
                None
            } else {
                ch.chat_msgs
            });
            assert({
                &&& 0 <= u < us.len()
                &&& has_substring(us[u].main_stream, addr)
                &&& forall|j: int|
                    0 <= j < u ==> !has_substring(#[trigger] us[j].main_stream, addr)
                &&& c.users == Some(us.take(u) + us.skip(u + 1))
                &&& c.id == ch.id
                &&& c.channel_name == ch.channel_name
                &&& c.chat_msgs == if us.len() == 1 {
                    None
                } else {
                    ch.chat_msgs
                }
            });
        } else {
            assert forall|i: int| 0 <= i < us.len() implies !has_substring(
                #[trigger] us[i].main_stream,
                addr,
            ) by {
                assert(!p(i));
            }
        }
    }
}

/// Whether connection `c`'s main stream's peer address contains `addr`.
pub open spec fn main_contains(c: ConnectionView, addr: Seq<char>) -> bool {
    c.main_stream is Some && has_substring(c.main_stream->0, addr)
}

/// A disconnect shuts down only connections whose main stream's address contains the
/// requester's address, each at most once and in pool order: a shut-down connection loses
/// its chat and audio streams and keeps its id, main and updater streams; every other
/// connection is left as it was. Channels whose id does not contain the requested channel
/// id are left as they were.
pub proof fn lemma_disconnect_shuts_only_matching(
    chs: Seq<ChannelView>,
    cs: Seq<ConnectionView>,
    n: nat,
    channel_id: Seq<char>,
    addr: Seq<char>,
)
    requires
        n <= cs.len(),
    ensures
        ({
            let (c, s, shut, ok) = disconnected(chs, cs, n, channel_id, addr);
            &&& s.len() == cs.len()
            &&& c.len() == chs.len()
            &&& forall|i: int|
                0 <= i < shut.len() ==> 0 <= #[trigger] shut[i] < n && main_contains(
                    cs[shut[i]],
                    addr,
                )
            &&& forall|i: int, i2: int| 0 <= i < i2 < shut.len() ==> #[trigger] shut[i] < #[trigger] shut[i2]
            &&& forall|i: int|
                0 <= i < shut.len() ==> {
                    let j = #[trigger] shut[i];
                    &&& s[j].chat_stream is None
                    &&& s[j].audio_tx_stream is None
                    &&& s[j].id == cs[j].id
                    &&& s[j].main_stream == cs[j].main_stream
                    &&& s[j].updater_stream == cs[j].updater_stream
                }
            &&& forall|j: int| 0 <= j < cs.len() && !shut.contains(j) ==> #[trigger] s[j] == cs[j]
            &&& forall|k: int|
                0 <= k < chs.len() && !has_substring(chs[k].id, channel_id) ==> #[trigger] c[k]
                    == chs[k]
        }),
    decreases n,
{
    if n > 0 {
        lemma_disconnect_shuts_only_matching(chs, cs, (n - 1) as nat, channel_id, addr);
        let (c1, s1, shut1, ok1) = disconnected(chs, cs, (n - 1) as nat, channel_id, addr);
        let j = n - 1;
        lemma_swept_frame(c1, c1.len(), channel_id, addr);
        lemma_swept_keeps_unnamed(c1, c1.len(), channel_id, addr);
        let (c, s, shut, ok) = disconnected(chs, cs, n, channel_id, addr);
        assert forall|k: int|
            0 <= k < chs.len() && !has_substring(chs[k].id, channel_id) implies #[trigger] c[k]
            == chs[k] by {
            assert(c1[k] == chs[k]);
        }
        if shut.len() > shut1.len() {
            assert(shut == shut1.push(j));
            assert(!shut1.contains(j)) by {
                if shut1.contains(j) {
                    let i = choose|i: int| 0 <= i < shut1.len() && shut1[i] == j;
                    assert(shut1[i] < n - 1);
                }
            }
            assert(s1[j] == cs[j]);
            assert forall|x: int| 0 <= x < cs.len() && !shut.contains(x) implies #[trigger] s[x]
                == cs[x] by {
                assert(x != j) by {
                    assert(shut[shut.len() - 1] == j);
                }
                assert(!shut1.contains(x)) by {
                    if shut1.contains(x) {
                        let i = choose|i: int| 0 <= i < shut1.len() && shut1[i] == x;
                        assert(shut[i] == x);
                    }
                }
            }
            assert forall|i: int| 0 <= i < shut.len() implies {
                let y = #[trigger] shut[i];
                &&& s[y].chat_stream is None
                &&& s[y].audio_tx_stream is None
                &&& s[y].id == cs[y].id
                &&& s[y].main_stream == cs[y].main_stream
                &&& s[y].updater_stream == cs[y].updater_stream
            } by {
                if i < shut1.len() {
                    assert(shut[i] == shut1[i]);
                    assert(shut1[i] < n - 1);
                }
            }
        } else {
            assert(shut == shut1);
            assert(s == s1);
        }
    }
}

/// Channels whose id does not contain the requested channel id are not swept.
pub proof fn lemma_swept_keeps_unnamed(chs: Seq<ChannelView>, n: nat, channel_id: Seq<char>, addr: Seq<char>)
    requires
        n <= chs.len(),
    ensures
        forall|k: int|
            0 <= k < chs.len() && !has_substring(chs[k].id, channel_id) ==> #[trigger] swept(
                chs,
                n,
                channel_id,
                addr,
            ).0[k] == chs[k],
    decreases n,
{
    if n > 0 {
        lemma_swept_keeps_unnamed(chs, (n - 1) as nat, channel_id, addr);
        lemma_swept_frame(chs, (n - 1) as nat, channel_id, addr);
    }
}

/// A join adds, for a client whose id no entry holds, an entry with exactly the client's id
/// and its main, chat, updater and audio stream addresses in those fields; for a client whose
/// id an entry holds, that entry keeps its id, main and updater streams and takes the new
/// chat address as both its chat and audio stream. No other entry changes.
pub proof fn lemma_join_registers_client_streams(
    cs: Seq<ConnectionView>,
    uid: Seq<char>,
    main_addr: Seq<char>,
    chat_addr: Seq<char>,
    updater_addr: Seq<char>,
    audio_addr: Seq<char>,
)
    ensures
        ({
            let r = registered(cs, joining_connection(uid, main_addr, chat_addr, updater_addr, audio_addr));
            let k = connection_matching(cs, uid);
            &&& k < 0 ==> {
                &&& r.len() == cs.len() + 1
                &&& r[cs.len() as int] == (ConnectionView {
                    id: uid,
                    main_stream: Some(main_addr),
                    chat_stream: Some(chat_addr),
                    updater_stream: Some(updater_addr),
                    audio_tx_stream: Some(audio_addr),
                })
            }
            &&& k >= 0 ==> {
                &&& r.len() == cs.len()
                &&& r[k].id == cs[k].id
                &&& r[k].main_stream == cs[k].main_stream
                &&& r[k].updater_stream == cs[k].updater_stream
                &&& r[k].chat_stream == Some(chat_addr)
                &&& r[k].audio_tx_stream == Some(chat_addr)
            }
            &&& forall|x: int| 0 <= x < cs.len() && x != k ==> #[trigger] r[x] == cs[x]
        }),
{
    lemma_first_where(cs.len(), |j: int| has_substring(cs[j].id, uid));
}

/// Loading a chat gives the first channel whose id contains the requested id exactly the
/// given messages, in the given order, whatever chat it held before; its id, name and
/// members stay, and no other channel changes.
pub proof fn lemma_install_gives_exact_chat(chs: Seq<ChannelView>, channel_id: Seq<char>, msgs: Seq<MessageView>)
    ensures
        ({
            let k = channel_matching(chs, channel_id);
            k >= 0 ==> {
                let r = chs.update(k, with_chat(chs[k], msgs));
                &&& r[k].chat_msgs == Some(msgs)
                &&& r[k].id == chs[k].id
                &&& r[k].channel_name == chs[k].channel_name
                &&& r[k].users == chs[k].users
                &&& forall|x: int| 0 <= x < chs.len() && x != k ==> #[trigger] r[x] == chs[x]
            }
        }),
{
    lemma_first_where(chs.len(), |i: int| has_substring(chs[i].id, channel_id));
}

} // verus!
