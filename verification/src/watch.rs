//! The watcher that runs for each connected client: it compares the member count and the
//! chat length of the client's channel with what it last saw, and says whom to signal.
use vstd::prelude::*;

use crate::model::{Channel, ChannelView, Connection, ConnectionView, User, UserView, CHAT_MAX_SIZE};
use crate::pool::{
    as_indices, first_where, held, indices_where, lemma_as_indices_push, lemma_first_where,
    lemma_first_where_stable, with_chat,
};
use crate::text::{has_substring, text_contains};

verus! {

/// What the watcher last saw of its channel.
pub struct WatchState {
    pub users_len: usize,
    pub chat_len: usize,
}

impl WatchState {
    /// A watcher that has seen nothing yet.
    pub fn new() -> (r: WatchState)
        ensures
            r.users_len == 0,
            r.chat_len == 0,
    {
        WatchState { users_len: 0, chat_len: 0 }
    }
}

/// What a watcher's look at the pools calls for.
pub enum WatchAction {
    /// Nothing changed.
    Idle,
    /// The member count changed: the client is told to refresh its member list, and its
    /// audio goes to these connections (their chat and audio streams), in order.
    MembersChanged(Vec<usize>),
    /// The chat changed: each of these connections is told, on its updater stream, to
    /// refresh its chat.
    ChatChanged(Vec<usize>),
}

/// A channel that shows nothing new to a watcher that saw `users_len` members and
/// `chat_len` messages.
pub open spec fn quiet(ch: ChannelView, users_len: nat, chat_len: nat) -> bool {
    &&& ch.users is Some
    &&& ch.chat_msgs is Some
    &&& ch.users->0.len() == users_len
    &&& ch.chat_msgs->0.len() == chat_len
}

/// The channel the watcher acts on: the first whose id occurs in the watched channel's id
/// and that is not quiet; -1 when there is none.
pub open spec fn acting_channel(
    chs: Seq<ChannelView>,
    current: Seq<char>,
    users_len: nat,
    chat_len: nat,
) -> int {
    first_where(
        chs.len(),
        |k: int| has_substring(current, chs[k].id) && !quiet(chs[k], users_len, chat_len),
    )
}

/// The connections whose updater stream's peer address occurs in the updater address of
/// the member `u`.
pub open spec fn links_of(u: UserView, cs: Seq<ConnectionView>) -> Seq<int> {
    indices_where(cs.len(), |j: int| has_substring(u.updater_stream, held(cs[j].updater_stream)))
}

/// The connections linked to each member, member after member.
pub open spec fn links(us: Seq<UserView>, cs: Seq<ConnectionView>) -> Seq<int>
    decreases us.len(),
{
    if us.len() == 0 {
        Seq::empty()
    } else {
        links(us.drop_last(), cs) + links_of(us.last(), cs)
    }
}

/// Whether the links can be gathered: with any member, every connection's updater stream is
/// unwrapped; where `streams` is set, each linked connection's chat and audio streams too.
pub open spec fn links_defined(us: Seq<UserView>, cs: Seq<ConnectionView>, streams: bool) -> bool {
    &&& us.len() > 0 ==> forall|j: int| 0 <= j < cs.len() ==> (#[trigger] cs[j]).updater_stream is Some
    &&& streams ==> forall|i: int, j: int|
        #![trigger us[i], cs[j]]
        0 <= i < us.len() && 0 <= j < cs.len() && has_substring(
            us[i].updater_stream,
            held(cs[j].updater_stream),
        ) ==> cs[j].chat_stream is Some && cs[j].audio_tx_stream is Some
}

/// Gathers the connections linked to the members, failing where a needed stream is missing.
fn collect_links(us: &Vec<User>, cs: &Vec<Connection>, streams: bool) -> (r: Result<Vec<usize>, ()>)
    ensures
        r is Ok <==> links_defined(us.deep_view(), cs.deep_view(), streams),
        r matches Ok(v) ==> as_indices(v@) == links(us.deep_view(), cs.deep_view()),
{
    let ghost uv = us.deep_view();
    let ghost cv = cs.deep_view();
    let mut out: Vec<usize> = Vec::new();
    let mut i: usize = 0;
    while i < us.len()
        invariant
            i <= us.len(),
            uv == us.deep_view(),
            cv == cs.deep_view(),
            i > 0 ==> forall|j: int| 0 <= j < cv.len() ==> (#[trigger] cv[j]).updater_stream is Some,
            streams ==> forall|a: int, j: int|
                #![trigger uv[a], cv[j]]
                0 <= a < i && 0 <= j < cv.len() && has_substring(
                    uv[a].updater_stream,
                    held(cv[j].updater_stream),
                ) ==> cv[j].chat_stream is Some && cv[j].audio_tx_stream is Some,
            as_indices(out@) == links(uv.take(i as int), cv),
        decreases us.len() - i,
    {
        let ghost start = as_indices(out@);
        let mut j: usize = 0;
        while j < cs.len()
            invariant
                i < us.len(),
                j <= cs.len(),
                uv == us.deep_view(),
                cv == cs.deep_view(),
                i > 0 ==> forall|k: int| 0 <= k < cv.len() ==> (#[trigger] cv[k]).updater_stream is Some,
                forall|k: int| 0 <= k < j ==> (#[trigger] cv[k]).updater_stream is Some,
                streams ==> forall|a: int, k: int|
                    #![trigger uv[a], cv[k]]
                    0 <= a < i && 0 <= k < cv.len() && has_substring(
                        uv[a].updater_stream,
                        held(cv[k].updater_stream),
                    ) ==> cv[k].chat_stream is Some && cv[k].audio_tx_stream is Some,
                streams ==> forall|k: int|
                    0 <= k < j && has_substring(uv[i as int].updater_stream, held(cv[k].updater_stream))
                        ==> (#[trigger] cv[k]).chat_stream is Some && cv[k].audio_tx_stream is Some,
                start == links(uv.take(i as int), cv),
                as_indices(out@) == start + indices_where(
                    j as nat,
                    |k: int| has_substring(uv[i as int].updater_stream, held(cv[k].updater_stream)),
                ),
            decreases cs.len() - j,
        {
            let up = match &cs[j].updater_stream {
                Some(a) => a,
                None => {
                    assert(cv[j as int].updater_stream is None);
                    assert(!links_defined(uv, cv, streams));
                    return Err(());
                },
            };
            assert(held(cv[j as int].updater_stream) == up@);
            if text_contains(us[i].updater_stream.as_str(), up.as_str()) {
                if streams && (cs[j].chat_stream.is_none() || cs[j].audio_tx_stream.is_none()) {
                    assert(!links_defined(uv, cv, streams));
                    return Err(());
                }
                proof {
                    lemma_as_indices_push(out@, j);
                }
                out.push(j);
            }
            j = j + 1;
        }
        assert(uv.take(i + 1).drop_last() =~= uv.take(i as int));
        assert(uv.take(i + 1).last() == uv[i as int]);
        i = i + 1;
    }
    assert(uv.take(us.len() as int) =~= uv);
    Ok(out)
}

/// The chat after a watcher's look: the oldest message goes when the watcher had seen a
/// full chat.
pub open spec fn trimmed(chat: Seq<crate::model::MessageView>, chat_len: nat) -> Seq<crate::model::MessageView> {
    if chat_len == CHAT_MAX_SIZE {
        chat.drop_first()
    } else {
        chat
    }
}

/// Whether the watcher gets through its look without unwrapping something missing: the
/// acting channel's member list; for a member change, the streams of the linked
/// connections; for a chat change, the chat, the updater streams, and a message to drop
/// when the watcher had seen a full chat.
pub open spec fn watch_defined(
    chs: Seq<ChannelView>,
    cs: Seq<ConnectionView>,
    current: Seq<char>,
    users_len: nat,
    chat_len: nat,
) -> bool {
    let k = acting_channel(chs, current, users_len, chat_len);
    k >= 0 ==> {
        let ch = chs[k];
        &&& ch.users is Some
        &&& if ch.users->0.len() != users_len {
            links_defined(ch.users->0, cs, true)
        } else {
            &&& ch.chat_msgs is Some
            &&& links_defined(ch.users->0, cs, false)
            &&& chat_len == CHAT_MAX_SIZE ==> ch.chat_msgs->0.len() > 0
        }
    }
}

/// Whether a look finds a member change: the acting channel's member count differs from
/// the one the watcher last saw.
pub open spec fn member_change_seen(
    chs: Seq<ChannelView>,
    current: Seq<char>,
    users_len: nat,
    chat_len: nat,
) -> bool {
    let k = acting_channel(chs, current, users_len, chat_len);
    k >= 0 && chs[k].users->0.len() != users_len
}

/// The pool and the watcher's counts after one look.
pub open spec fn looked(chs: Seq<ChannelView>, current: Seq<char>, users_len: nat, chat_len: nat) -> (
    Seq<ChannelView>,
    nat,
    nat,
) {
    let k = acting_channel(chs, current, users_len, chat_len);
    if k < 0 {
        (chs, users_len, chat_len)
    } else if chs[k].users->0.len() != users_len {
        (chs, chs[k].users->0.len(), chat_len)
    } else {
        let chat = trimmed(chs[k].chat_msgs->0, chat_len);
        (chs.update(k, with_chat(chs[k], chat)), users_len, chat.len())
    }
}

fn find_acting_channel(
    channels: &Vec<Channel>,
    current: &str,
    users_len: usize,
    chat_len: usize,
) -> (r: Option<usize>)
    ensures
        match r {
            Some(k) => k == acting_channel(channels.deep_view(), current@, users_len as nat, chat_len as nat),
            None => acting_channel(channels.deep_view(), current@, users_len as nat, chat_len as nat) < 0,
        },
{
    let ghost chs = channels.deep_view();
    let ghost p = |k: int| has_substring(current@, chs[k].id) && !quiet(chs[k], users_len as nat, chat_len as nat);
    let mut k: usize = 0;
    while k < channels.len()
        invariant
            k <= channels.len(),
            chs == channels.deep_view(),
            p == (|k: int| has_substring(current@, chs[k].id) && !quiet(chs[k], users_len as nat, chat_len as nat)),
            first_where(k as nat, p) == -1,
        decreases channels.len() - k,
    {
        let ch = &channels[k];
        if text_contains(current, ch.id.as_str()) {
            let is_quiet = match (&ch.users, &ch.chat_msgs) {
                (Some(us), Some(ms)) => us.len() == users_len && ms.len() == chat_len,
                _ => false,
            };
            if !is_quiet {
                assert(p(k as int));
                assert(first_where((k + 1) as nat, p) == k);
                proof {
                    lemma_first_where_stable((k + 1) as nat, chs.len(), p);
                }
                return Some(k);
            }
        }
        k = k + 1;
    }
    None
}

/// One look, or `Err` (with the state and pool unchanged) where it cannot be taken.
fn watch_attempt(
    state: &mut WatchState,
    current: &str,
    channels: &mut Vec<Channel>,
    conns: &Vec<Connection>,
) -> (r: Result<WatchAction, ()>)
    ensures
        r is Ok <==> watch_defined(
            old(channels).deep_view(),
            conns.deep_view(),
            current@,
            old(state).users_len as nat,
            old(state).chat_len as nat,
        ),
        r is Err ==> final(channels).deep_view() == old(channels).deep_view()
            && final(state).users_len == old(state).users_len
            && final(state).chat_len == old(state).chat_len,
        r is Ok ==> looked(
            old(channels).deep_view(),
            current@,
            old(state).users_len as nat,
            old(state).chat_len as nat,
        ) == (final(channels).deep_view(), final(state).users_len as nat, final(state).chat_len as nat),
        r matches Ok(a) ==> {
            let chs = old(channels).deep_view();
            let k = acting_channel(chs, current@, old(state).users_len as nat, old(state).chat_len as nat);
            if k < 0 {
                &&& a is Idle
                &&& final(channels).deep_view() == chs
                &&& final(state).users_len == old(state).users_len
                &&& final(state).chat_len == old(state).chat_len
            } else if chs[k].users->0.len() != old(state).users_len {
                &&& a matches WatchAction::MembersChanged(v) && as_indices(v@) == links(chs[k].users->0, conns.deep_view())
                &&& final(channels).deep_view() == chs
                &&& final(state).users_len == chs[k].users->0.len()
                &&& final(state).chat_len == old(state).chat_len
            } else {
                let chat = trimmed(chs[k].chat_msgs->0, old(state).chat_len as nat);
                &&& a matches WatchAction::ChatChanged(v) && as_indices(v@) == links(chs[k].users->0, conns.deep_view())
                &&& final(channels).deep_view() == chs.update(k, with_chat(chs[k], chat))
                &&& final(state).users_len == old(state).users_len
                &&& final(state).chat_len == chat.len()
            }
        },
{
    let ghost chs = channels.deep_view();
    proof {
        lemma_first_where(
            chs.len(),
            |k: int| has_substring(current@, chs[k].id) && !quiet(chs[k], state.users_len as nat, state.chat_len as nat),
        );
    }
    let k = match find_acting_channel(channels, current, state.users_len, state.chat_len) {
        None => {
            return Ok(WatchAction::Idle);
        },
        Some(k) => k,
    };
    let members_changed = match &channels[k].users {
        None => {
            return Err(());
        },
        Some(us) => us.len() != state.users_len,
    };
    if members_changed {
        let (links, n) = match &channels[k].users {
            None => {
                return Err(());
            },
            Some(us) => match collect_links(us, conns, true) {
                Err(()) => {
                    return Err(());
                },
                Ok(v) => (v, us.len()),
            },
        };
        state.users_len = n;
        return Ok(WatchAction::MembersChanged(links));
    }
    let full = state.chat_len == CHAT_MAX_SIZE;
    let chat_count = match &channels[k].chat_msgs {
        None => {
            return Err(());
        },
        Some(ms) => ms.len(),
    };
    let links = match &channels[k].users {
        None => {
            return Err(());
        },
        Some(us) => match collect_links(us, conns, false) {
            Err(()) => {
                return Err(());
            },
            Ok(v) => v,
        },
    };
    if full && chat_count == 0 {
        return Err(());
    }
    let ghost before = channels.deep_view();
    let mut ch = channels.remove(k);
    let mut ms = match ch.chat_msgs.take() {
        Some(ms) => ms,
        None => Vec::new(),
    };
    let ghost old_chat = ms.deep_view();
    if full {
        ms.remove(0);
        assert(ms.deep_view() =~= old_chat.drop_first());
    }
    let new_len = ms.len();
    ch.chat_msgs = Some(ms);
    channels.insert(k, ch);
    assert(channels.deep_view() =~= before.update(
        k as int,
        with_chat(before[k as int], trimmed(old_chat, state.chat_len as nat)),
    ));
    state.chat_len = new_len;
    Ok(WatchAction::ChatChanged(links))
}

/// Whether the watcher can take its next look: the acting channel has a member list; on a
/// member change the linked connections hold their updater, chat and audio streams; on a
/// chat change the channel has a chat, the connections hold their updater streams, and a
/// full chat has a message to drop. Where this is false the server stops on a missing list
/// or stream. Nothing is changed.
pub fn can_watch(state: &WatchState, current: &str, channels: &Vec<Channel>, conns: &Vec<Connection>) -> (r: bool)
    ensures
        r == watch_defined(
            channels.deep_view(),
            conns.deep_view(),
            current@,
            state.users_len as nat,
            state.chat_len as nat,
        ),
{
    let mut chs = crate::model::duplicate_channels(channels);
    let mut st = WatchState { users_len: state.users_len, chat_len: state.chat_len };
    watch_attempt(&mut st, current, &mut chs, conns).is_ok()
}

/// One look of a client's watcher at the pools. The watcher follows the channels whose id
/// occurs in `current`, its client's channel id, and acts on the first of them that shows
/// a member count or a chat length other than it last saw: on a member change it records
/// the new count and names the connections linked to the members; otherwise, on a chat
/// change, it names the same connections, drops the oldest message if it had seen a full
/// chat, and records the new chat length.
pub fn watch_step(
    state: &mut WatchState,
    current: &str,
    channels: &mut Vec<Channel>,
    conns: &Vec<Connection>,
) -> (a: WatchAction)
    requires
        watch_defined(
            old(channels).deep_view(),
            conns.deep_view(),
            current@,
            old(state).users_len as nat,
            old(state).chat_len as nat,
        ),
    ensures
        looked(
            old(channels).deep_view(),
            current@,
            old(state).users_len as nat,
            old(state).chat_len as nat,
        ) == (final(channels).deep_view(), final(state).users_len as nat, final(state).chat_len as nat),
        (a is MembersChanged) == member_change_seen(
            old(channels).deep_view(),
            current@,
            old(state).users_len as nat,
            old(state).chat_len as nat,
        ),
        ({
            let chs = old(channels).deep_view();
            let k = acting_channel(chs, current@, old(state).users_len as nat, old(state).chat_len as nat);
            if k < 0 {
                a is Idle
            } else if chs[k].users->0.len() != old(state).users_len {
                a matches WatchAction::MembersChanged(v) && as_indices(v@) == links(chs[k].users->0, conns.deep_view())
            } else {
                a matches WatchAction::ChatChanged(v) && as_indices(v@) == links(chs[k].users->0, conns.deep_view())
            }
        }),
{
    match watch_attempt(state, current, channels, conns) {
        Ok(a) => a,
        Err(()) => {
            proof {
                assert(false);
            }
            WatchAction::Idle
        },
    }
}

/// A watcher of a single channel with a member list signals a member change on the very
/// look that finds the channel's member count other than the one it last saw, and then
/// records that count. A new watcher has seen no member, so its first look at a channel
/// with members signals one.
pub proof fn lemma_member_change_signalled(
    chs: Seq<ChannelView>,
    current: Seq<char>,
    users_len: nat,
    chat_len: nat,
    k0: int,
)
    requires
        0 <= k0 < chs.len(),
        has_substring(current, chs[k0].id),
        forall|k: int| 0 <= k < chs.len() && has_substring(current, #[trigger] chs[k].id) ==> k == k0,
        chs[k0].users is Some,
        chs[k0].users->0.len() != users_len,
    ensures
        member_change_seen(chs, current, users_len, chat_len),
        looked(chs, current, users_len, chat_len).1 == chs[k0].users->0.len(),
        looked(chs, current, users_len, chat_len).0 == chs,
{
    lemma_acting_on_single_channel(chs, current, users_len, chat_len, k0);
}

pub proof fn lemma_first_where_none(n: nat, p: spec_fn(int) -> bool)
    requires
        forall|j: int| 0 <= j < n ==> !#[trigger] p(j),
    ensures
        first_where(n, p) == -1,
{
    lemma_first_where(n, p);
}

/// The channel the watcher acts on when a single channel is watched: that channel, unless
/// it is quiet.
pub proof fn lemma_acting_on_single_channel(
    chs: Seq<ChannelView>,
    current: Seq<char>,
    users_len: nat,
    chat_len: nat,
    k0: int,
)
    requires
        0 <= k0 < chs.len(),
        has_substring(current, chs[k0].id),
        forall|k: int| 0 <= k < chs.len() && has_substring(current, #[trigger] chs[k].id) ==> k == k0,
    ensures
        acting_channel(chs, current, users_len, chat_len) == if quiet(chs[k0], users_len, chat_len) {
            -1
        } else {
            k0
        },
{
    let p = |k: int| has_substring(current, chs[k].id) && !quiet(chs[k], users_len, chat_len);
    lemma_first_where(chs.len(), p);
    if quiet(chs[k0], users_len, chat_len) {
        assert forall|j: int| 0 <= j < chs.len() implies !#[trigger] p(j) by {
            if has_substring(current, chs[j].id) {
                assert(j == k0);
            }
        }
        lemma_first_where_none(chs.len(), p);
    } else {
        if first_where(chs.len(), p) < 0 {
            assert(p(k0));
        } else {
            let r = first_where(chs.len(), p);
            assert(p(r));
            assert(has_substring(current, chs[r].id));
        }
    }
}

/// A watcher of a single channel with a member list and a chat settles: on a pool that
/// nothing else changes, its third look finds nothing to act on.
pub proof fn lemma_watch_settles(
    chs: Seq<ChannelView>,
    current: Seq<char>,
    users_len: nat,
    chat_len: nat,
    k0: int,
)
    requires
        0 <= k0 < chs.len(),
        has_substring(current, chs[k0].id),
        forall|k: int| 0 <= k < chs.len() && has_substring(current, #[trigger] chs[k].id) ==> k == k0,
        chs[k0].users is Some,
        chs[k0].chat_msgs is Some,
        chat_len == CHAT_MAX_SIZE ==> chs[k0].chat_msgs->0.len() > 0,
    ensures
        ({
            let (c1, u1, h1) = looked(chs, current, users_len, chat_len);
            let (c2, u2, h2) = looked(c1, current, u1, h1);
            acting_channel(c2, current, u2, h2) < 0
        }),
{
    let (c1, u1, h1) = looked(chs, current, users_len, chat_len);
    lemma_acting_on_single_channel(chs, current, users_len, chat_len, k0);
    assert(c1.len() == chs.len());
    assert forall|k: int| 0 <= k < c1.len() implies #[trigger] c1[k].id == chs[k].id by {}
    assert(c1[k0].users == chs[k0].users);
    assert(c1[k0].chat_msgs is Some);
    lemma_acting_on_single_channel(c1, current, u1, h1, k0);
    let (c2, u2, h2) = looked(c1, current, u1, h1);
    assert(c2.len() == chs.len());
    assert forall|k: int| 0 <= k < c2.len() implies #[trigger] c2[k].id == chs[k].id by {}
    assert(c2[k0].users == chs[k0].users);
    assert(c2[k0].chat_msgs is Some);
    lemma_acting_on_single_channel(c2, current, u2, h2, k0);
    assert(quiet(c2[k0], u2, h2));
}

} // verus!
