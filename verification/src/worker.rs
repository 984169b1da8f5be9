//! The decisions of the chat-history worker, which keeps each channel's chat in the
//! database and in the channel pool.
use vstd::prelude::*;

use crate::model::{Channel, Message, MessageView, CHAT_MAX_SIZE};
use crate::wire::{bin_messages, encode_messages};
use crate::protocol::ChatLine;
use crate::text::{before_first, lemma_first_index_is, lemma_first_index_of, split_once_at};

verus! {

/// Whether a client whose copy of a channel holds `chan_len` messages can be sent the
/// messages it lacks from the `db_len` stored ones: its copy is not longer than the stored
/// chat, the gap read as a 32-bit signed number is not negative, and its copy is not full.
pub open spec fn catches_up(db_len: nat, chan_len: nat) -> bool {
    &&& chan_len <= db_len
    &&& (db_len - chan_len) % 0x1_0000_0000 < 0x8000_0000
    &&& chan_len < CHAT_MAX_SIZE
}

/// The messages a client is sent when it asks to update its chat: those past its copy
/// when it can catch up, otherwise the last stored message alone.
pub open spec fn fresh(db: Seq<MessageView>, chan_len: nat) -> Seq<MessageView> {
    if catches_up(db.len(), chan_len) {
        db.skip(chan_len as int)
    } else {
        seq![db.last()]
    }
}

/// The messages to send a client whose copy of a channel holds `chan_len` messages, given
/// the channel's stored chat `db`. The copy must not be longer than the stored chat; the
/// server's length arithmetic underflows on one that is.
pub fn fresh_messages(chan_len: usize, db: &Vec<Message>) -> (v: Vec<Message>)
    requires
        chan_len <= db.len(),
    ensures
        v.deep_view() == fresh(db.deep_view(), chan_len as nat),
{
    let gap: usize = db.len() - chan_len;
    let wide: u64 = gap as u64;
    if wide % 0x1_0000_0000u64 < 0x8000_0000u64 && chan_len < CHAT_MAX_SIZE {
        let mut out: Vec<Message> = Vec::new();
        let mut i: usize = chan_len;
        while i < db.len()
            invariant
                chan_len <= i <= db.len(),
                out@.len() == i - chan_len,
                forall|j: int| 0 <= j < out@.len() ==> #[trigger] out@[j]@ == db@[chan_len + j]@,
            decreases db.len() - i,
        {
            out.push(db[i].duplicate());
            i = i + 1;
        }
        assert(out.deep_view() =~= db.deep_view().skip(chan_len as int));
        out
    } else {
        let last = db[db.len() - 1].duplicate();
        let mut out: Vec<Message> = Vec::new();
        out.push(last);
        assert(out.deep_view() =~= seq![db.deep_view().last()]);
        out
    }
}

/// The reply to a client's chat update: the messages its copy `client` of a channel
/// lacks, given the channel's stored chat `db`. The copy must carry a chat that is not
/// longer than the stored one; the server stops on any other.
pub fn update_chat_frame(client: &Channel, db: &Vec<Message>) -> (b: Vec<u8>)
    requires
        client@.chat_msgs matches Some(ms) && ms.len() <= db.len(),
    ensures
        b@ == bin_messages(fresh(db.deep_view(), client@.chat_msgs->0.len())),
{
    let held = match &client.chat_msgs {
        None => 0,
        Some(ms) => ms.len(),
    };
    let msgs = fresh_messages(held, db);
    encode_messages(&msgs)
}

/// A client whose copy is a prefix of the stored chat and that can catch up ends with the
/// stored chat once it appends what it is sent.
pub proof fn lemma_fresh_catches_up(db: Seq<MessageView>, copy: Seq<MessageView>)
    requires
        catches_up(db.len(), copy.len()),
        copy == db.take(copy.len() as int),
    ensures
        copy + fresh(db, copy.len()) == db,
{
    assert(copy + db.skip(copy.len() as int) =~= db);
}

/// What a client is sent for its copy of `chan_len` messages (not more than are stored):
/// a copy of ten or more messages gets exactly the last stored message; a shorter copy
/// whose gap to the stored chat is below 2^31 gets every stored message past its copy, in
/// stored order.
pub proof fn lemma_fresh_reply(db: Seq<MessageView>, chan_len: nat)
    requires
        chan_len <= db.len(),
    ensures
        chan_len >= 10 ==> fresh(db, chan_len) == seq![db[db.len() - 1]],
        chan_len < 10 && db.len() - chan_len < 0x8000_0000 ==> fresh(db, chan_len) == db.subrange(
            chan_len as int,
            db.len() as int,
        ),
{
    if chan_len < 10 && db.len() - chan_len < 0x8000_0000 {
        assert(db.skip(chan_len as int) =~= db.subrange(chan_len as int, db.len() as int));
    }
}

/// Whether the stored chat is over the limit, so that its oldest message is dropped.
pub fn history_exceeds_limit(len: usize) -> (r: bool)
    ensures
        r == (len > CHAT_MAX_SIZE),
{
    len > CHAT_MAX_SIZE
}

/// A message's date: the clock text up to its first `'.'` (the fraction of a second and
/// what follows go).
pub fn chat_timestamp(now: &str) -> (r: String)
    ensures
        r@ == before_first(now@, '.'),
{
    match split_once_at(now, '.') {
        Some((head, _)) => head,
        None => now.to_owned(),
    }
}

/// The message that a chat line becomes, with the given id and clock text.
pub open spec fn composed(
    channel_id: Seq<char>,
    user_id: Seq<char>,
    name: Seq<char>,
    content: Seq<char>,
    msg_id: Seq<char>,
    now: Seq<char>,
) -> MessageView {
    MessageView {
        id: msg_id,
        sender_id: user_id,
        sender: name,
        date: before_first(now, '.'),
        content: content,
    }
}

/// Builds the stored message for a chat line, given its id and the clock text.
pub fn compose_message(line: &ChatLine, msg_id: String, now: &str) -> (r: Message)
    ensures
        r@ == composed(line.channel_id@, line.user_id@, line.name@, line.content@, msg_id@, now@),
{
    Message {
        id: msg_id,
        sender_id: line.user_id.clone(),
        sender: line.name.clone(),
        date: chat_timestamp(now),
        content: line.content.clone(),
    }
}

pub open spec fn is_lower_hex_digit(c: char) -> bool {
    (48 <= (c as int) <= 57) || (97 <= (c as int) <= 102)
}

/// The text of a random (version 4) UUID: 36 characters, hyphens at 8, 13, 18 and 23,
/// lower-case hex digits elsewhere, version digit `4`, variant digit one of `8 9 a b`.
pub open spec fn is_v4_uuid_text(s: Seq<char>) -> bool {
    &&& s.len() == 36
    &&& forall|i: int|
        0 <= i < 36 ==> if i == 8 || i == 13 || i == 18 || i == 23 {
            #[trigger] s[i] == '-'
        } else {
            is_lower_hex_digit(s[i])
        }
    &&& s[14] == '4'
    &&& (s[19] == '8' || s[19] == '9' || s[19] == 'a' || s[19] == 'b')
}

/// Calls `uuid::Uuid::new_v4` and writes the UUID as `to_string` does. The value is random;
/// the contract claims only its documented shape: the hyphenated lower-case form, with the
/// version and variant that `new_v4` sets.
#[verifier::external_body]
fn random_message_id() -> (r: String)
    ensures
        is_v4_uuid_text(r@),
{
    uuid::Uuid::new_v4().to_string()
}

pub open spec fn is_digit(c: char) -> bool {
    48 <= (c as int) <= 57
}

/// `count` decimal digits stand in `s` from index `from` on.
pub open spec fn digits_at(s: Seq<char>, from: int, count: int) -> bool {
    forall|i: int| from <= i < from + count ==> #[trigger] is_digit(s[i])
}

/// A year of `n` characters at the start of `s`: four digits, or a sign and at least four
/// digits.
pub open spec fn year_text_at(s: Seq<char>, n: int) -> bool {
    ||| (n == 4 && digits_at(s, 0, 4))
    ||| (n >= 5 && (s[0] == '+' || s[0] == '-') && digits_at(s, 1, n - 1))
}

/// `s` starts with a date and a time of day, `YYYY-MM-DD HH:MM:SS`, whose year has `n`
/// characters.
pub open spec fn date_time_at(s: Seq<char>, n: int) -> bool {
    &&& n >= 4
    &&& s.len() >= n + 15
    &&& year_text_at(s, n)
    &&& s[n] == '-'
    &&& digits_at(s, n + 1, 2)
    &&& s[n + 3] == '-'
    &&& digits_at(s, n + 4, 2)
    &&& s[n + 6] == ' '
    &&& digits_at(s, n + 7, 2)
    &&& s[n + 9] == ':'
    &&& digits_at(s, n + 10, 2)
    &&& s[n + 12] == ':'
    &&& digits_at(s, n + 13, 2)
}

/// A fraction of a second: nothing, or `'.'` and three, six or nine digits.
pub open spec fn fraction_text(f: Seq<char>) -> bool {
    ||| f.len() == 0
    ||| (f[0] == '.' && (f.len() == 4 || f.len() == 7 || f.len() == 10) && digits_at(f, 1, f.len() - 1))
}

/// A UTC offset: a sign, `HH:MM`, and `:SS` where the seconds are not zero.
pub open spec fn offset_text(o: Seq<char>) -> bool {
    &&& (o.len() == 6 || o.len() == 9)
    &&& (o[0] == '+' || o[0] == '-')
    &&& digits_at(o, 1, 2)
    &&& o[3] == ':'
    &&& digits_at(o, 4, 2)
    &&& o.len() == 9 ==> (o[6] == ':' && digits_at(o, 7, 2))
}

/// A local time as chrono writes it, with a year of `n` characters and a fraction of `fl`
/// characters: date, space, time of day, fraction, space, offset.
pub open spec fn local_time_shape(t: Seq<char>, n: int, fl: int) -> bool {
    &&& date_time_at(t, n)
    &&& fl >= 0
    &&& t.len() >= n + 16 + fl
    &&& fraction_text(t.subrange(n + 15, n + 15 + fl))
    &&& t[n + 15 + fl] == ' '
    &&& offset_text(t.skip(n + 16 + fl))
}

pub open spec fn is_local_time_text(t: Seq<char>) -> bool {
    exists|n: int, fl: int| local_time_shape(t, n, fl)
}

/// A message's date: a date and time of day, followed by a space and an offset when the
/// clock showed no fraction of a second.
pub open spec fn is_message_date(d: Seq<char>) -> bool {
    exists|n: int|
        #[trigger] date_time_at(d, n) && (d.len() == n + 15 || (d.len() > n + 15 && d[n + 15] == ' '
            && offset_text(d.skip(n + 16))))
}

/// Calls `chrono::Local::now` and writes the time as `to_string` does. Which time it holds
/// rests on the clock and the time zone; the contract claims only the shape that chrono's
/// `Display` gives it: date, space, time of day, fraction of a second if not zero, space,
/// offset.
#[verifier::external_body]
fn local_time_text() -> (r: String)
    ensures
        is_local_time_text(r@),
{
    chrono::Local::now().to_string()
}

/// Up to the end of its time of day, a date-time text holds no `'.'`.
proof fn lemma_date_time_has_no_dot(s: Seq<char>, n: int)
    requires
        date_time_at(s, n),
    ensures
        forall|j: int| 0 <= j < n + 15 ==> s[j] != '.',
{
    assert forall|j: int| 0 <= j < n + 15 implies s[j] != '.' by {
        if j < n {
            if n == 4 {
                assert(is_digit(s[j]));
            } else if j > 0 {
                assert(is_digit(s[j]));
            }
        } else if j != n && j != n + 3 && j != n + 6 && j != n + 9 && j != n + 12 {
            assert(is_digit(s[j]));
        }
    }
}

/// The clock text up to its first `'.'` is a message date.
pub proof fn lemma_message_date(t: Seq<char>)
    requires
        is_local_time_text(t),
    ensures
        is_message_date(before_first(t, '.')),
{
    let (n, fl) = choose|n: int, fl: int| local_time_shape(t, n, fl);
    lemma_date_time_has_no_dot(t, n);
    let f = t.subrange(n + 15, n + 15 + fl);
    let o = t.skip(n + 16 + fl);
    if fl > 0 {
        assert(t[n + 15] == f[0]);
        lemma_first_index_is(t, '.', n + 15);
        let d = t.take(n + 15);
        assert(date_time_at(d, n)) by {
            assert(forall|i: int| 0 <= i < n + 15 ==> d[i] == t[i]);
        }
        assert(before_first(t, '.') == d);
    } else {
        assert forall|j: int| 0 <= j < t.len() implies t[j] != '.' by {
            if j >= n + 16 {
                let k = j - (n + 16);
                assert(o[k] == t[j]);
                if k != 0 && k != 3 && k != 6 {
                    assert(is_digit(o[k]));
                }
            }
        }
        lemma_first_index_is(t, '.', -1);
        assert(before_first(t, '.') == t);
        assert(date_time_at(t, n));
    }
}

/// The text before the first `'.'` holds no `'.'`.
pub proof fn lemma_before_first_has_no_dot(s: Seq<char>)
    ensures
        !before_first(s, '.').contains('.'),
{
    lemma_first_index_of(s, '.');
}

/// The stored message for a new chat line: a fresh random id, the sender's id and name and
/// the text from the line, and the local time up to its fraction of a second (with the
/// offset where the clock showed no fraction).
pub fn new_chat_message(line: &ChatLine) -> (r: Message)
    ensures
        is_v4_uuid_text(r.id@),
        r.sender_id@ == line.user_id@,
        r.sender@ == line.name@,
        r.content@ == line.content@,
        !r.date@.contains('.'),
        is_message_date(r.date@),
{
    let id = random_message_id();
    let now = local_time_text();
    proof {
        lemma_before_first_has_no_dot(now@);
        lemma_message_date(now@);
    }
    compose_message(line, id, now.as_str())
}

} // verus!
