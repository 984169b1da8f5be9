//! The binary frames sent to clients. They are written by `bincode::serialize`
//! (bincode 1, default configuration: fixed-width little-endian integers, a
//! `u64` length before each string and each sequence, one tag byte before an
//! option's content, tuples and structs field after field).
use vstd::prelude::*;
use vstd::utf8::encode_utf8;

use crate::model::{Message, MessageView, User, UserView};

verus! {

/// A length as bincode writes it: eight bytes, least significant first.
pub open spec fn le_u64(n: nat) -> Seq<u8> {
    seq![
        (n % 0x100) as u8,
        ((n / 0x100) % 0x100) as u8,
        ((n / 0x1_0000) % 0x100) as u8,
        ((n / 0x100_0000) % 0x100) as u8,
        ((n / 0x1_0000_0000) % 0x100) as u8,
        ((n / 0x100_0000_0000) % 0x100) as u8,
        ((n / 0x1_0000_0000_0000) % 0x100) as u8,
        ((n / 0x100_0000_0000_0000) % 0x100) as u8,
    ]
}

/// A string as bincode writes it: its UTF-8 byte count, then its UTF-8 bytes.
pub open spec fn bin_text(s: Seq<char>) -> Seq<u8> {
    le_u64(encode_utf8(s).len()) + encode_utf8(s)
}

pub open spec fn bin_pair(p: (Seq<char>, Seq<char>)) -> Seq<u8> {
    bin_text(p.0) + bin_text(p.1)
}

pub open spec fn bin_pairs_body(ps: Seq<(Seq<char>, Seq<char>)>) -> Seq<u8>
    decreases ps.len(),
{
    if ps.len() == 0 {
        seq![]
    } else {
        bin_pairs_body(ps.drop_last()) + bin_pair(ps.last())
    }
}

/// A list of string pairs as bincode writes it.
pub open spec fn bin_pair_list(ps: Seq<(Seq<char>, Seq<char>)>) -> Seq<u8> {
    le_u64(ps.len()) + bin_pairs_body(ps)
}

pub open spec fn bin_record(r: (Seq<char>, Seq<char>, Seq<char>, Seq<char>, Seq<char>)) -> Seq<u8> {
    bin_text(r.0) + bin_text(r.1) + bin_text(r.2) + bin_text(r.3) + bin_text(r.4)
}

pub open spec fn bin_records_body(
    rs: Seq<(Seq<char>, Seq<char>, Seq<char>, Seq<char>, Seq<char>)>,
) -> Seq<u8>
    decreases rs.len(),
{
    if rs.len() == 0 {
        seq![]
    } else {
        bin_records_body(rs.drop_last()) + bin_record(rs.last())
    }
}

/// A list of five-string records as bincode writes it.
pub open spec fn bin_record_list(rs: Seq<(Seq<char>, Seq<char>, Seq<char>, Seq<char>, Seq<char>)>) -> Seq<u8> {
    le_u64(rs.len()) + bin_records_body(rs)
}

/// A channel with its id and name and with neither members nor chat (two empty options),
/// as bincode writes it.
pub open spec fn bin_channel_header(id: Seq<char>, name: Seq<char>) -> Seq<u8> {
    bin_text(id) + bin_text(name) + seq![0u8, 0u8]
}

/// The (name, id) pairs of a list of members.
pub open spec fn name_id_pairs(us: Seq<UserView>) -> Seq<(Seq<char>, Seq<char>)> {
    Seq::new(us.len(), |i: int| (us[i].name, us[i].id))
}

/// The fields of each message, in declaration order.
pub open spec fn message_fields(ms: Seq<MessageView>) -> Seq<
    (Seq<char>, Seq<char>, Seq<char>, Seq<char>, Seq<char>),
> {
    Seq::new(ms.len(), |i: int| (ms[i].id, ms[i].sender_id, ms[i].sender, ms[i].date, ms[i].content))
}

/// The bytes of a member list sent to a client: the (name, id) pair of each member.
pub open spec fn bin_user_list(us: Seq<UserView>) -> Seq<u8> {
    bin_pair_list(name_id_pairs(us))
}

/// The bytes of a list of chat messages sent to a client.
pub open spec fn bin_messages(ms: Seq<MessageView>) -> Seq<u8> {
    bin_record_list(message_fields(ms))
}

/// Calls `bincode::serialize` on a channel that carries only an id and a name (its member
/// and chat options both `None`; a `None` is one zero byte whatever the option would hold).
/// Claims that the bytes are the strings' encodings followed by the two zero tags. bincode's
/// source shows no failure for strings and options written to a `Vec`; the `Err` arm is
/// never taken.
#[verifier::external_body]
fn serialize_channel_header(id: &str, name: &str) -> (r: Vec<u8>)
    ensures
        r@ == bin_channel_header(id@, name@),
{
    match bincode::serialize(&(id, name, None::<()>, None::<()>)) {
        Ok(bytes) => bytes,
        Err(_) => Vec::new(),
    }
}

/// Calls `bincode::serialize` on a `Vec<(String, String)>`. Claims the documented layout:
/// the element count, then each pair's two strings. bincode's source shows no failure for
/// strings and sequences written to a `Vec`; the `Err` arm is never taken.
#[verifier::external_body]
fn serialize_pairs(pairs: &Vec<(String, String)>) -> (r: Vec<u8>)
    ensures
        r@ == bin_pair_list(pairs.deep_view()),
{
    match bincode::serialize(pairs) {
        Ok(bytes) => bytes,
        Err(_) => Vec::new(),
    }
}

/// Calls `bincode::serialize` on a `Vec` of five-string tuples. Claims the documented
/// layout: the element count, then each tuple's strings in order. bincode's source shows no
/// failure for strings and sequences written to a `Vec`; the `Err` arm is never taken.
#[verifier::external_body]
fn serialize_records(records: &Vec<(String, String, String, String, String)>) -> (r: Vec<u8>)
    ensures
        r@ == bin_record_list(records.deep_view()),
{
    match bincode::serialize(records) {
        Ok(bytes) => bytes,
        Err(_) => Vec::new(),
    }
}

/// The frame that describes a channel by its id and name alone.
pub fn encode_channel_header(id: &str, name: &str) -> (r: Vec<u8>)
    ensures
        r@ == bin_channel_header(id@, name@),
{
    serialize_channel_header(id, name)
}

/// The (name, id) pair of each member, in order.
pub fn user_pairs(users: &Vec<User>) -> (r: Vec<(String, String)>)
    ensures
        r.deep_view() == name_id_pairs(users.deep_view()),
{
    let mut r: Vec<(String, String)> = Vec::new();
    let mut i: usize = 0;
    while i < users.len()
        invariant
            i <= users.len(),
            r@.len() == i,
            forall|j: int|
                0 <= j < i ==> #[trigger] r@[j].deep_view() == (users@[j].name@, users@[j].id@),
        decreases users.len() - i,
    {
        r.push((users[i].name.clone(), users[i].id.clone()));
        i = i + 1;
    }
    assert(r.deep_view() =~= name_id_pairs(users.deep_view()));
    r
}

/// The fields of each message, in order.
pub fn message_records(msgs: &Vec<Message>) -> (r: Vec<(String, String, String, String, String)>)
    ensures
        r.deep_view() == message_fields(msgs.deep_view()),
{
    let mut r: Vec<(String, String, String, String, String)> = Vec::new();
    let mut i: usize = 0;
    while i < msgs.len()
        invariant
            i <= msgs.len(),
            r@.len() == i,
            forall|j: int|
                0 <= j < i ==> #[trigger] r@[j].deep_view() == (
                    msgs@[j].id@,
                    msgs@[j].sender_id@,
                    msgs@[j].sender@,
                    msgs@[j].date@,
                    msgs@[j].content@,
                ),
        decreases msgs.len() - i,
    {
        let m = &msgs[i];
        r.push((m.id.clone(), m.sender_id.clone(), m.sender.clone(), m.date.clone(), m.content.clone()));
        i = i + 1;
    }
    assert(r.deep_view() =~= message_fields(msgs.deep_view()));
    r
}

/// The frame listing a channel's members by name and id.
pub fn encode_user_list(users: &Vec<User>) -> (r: Vec<u8>)
    ensures
        r@ == bin_user_list(users.deep_view()),
{
    let pairs = user_pairs(users);
    serialize_pairs(&pairs)
}

/// The frame carrying a list of chat messages.
pub fn encode_messages(msgs: &Vec<Message>) -> (r: Vec<u8>)
    ensures
        r@ == bin_messages(msgs.deep_view()),
{
    let records = message_records(msgs);
    serialize_records(&records)
}

} // verus!
