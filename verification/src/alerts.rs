//! Notifications for unread messages of the alerts channel.
use std::collections::HashMap;

use vstd::prelude::*;
use vstd::slice::slice_subrange;
use vstd::std_specs::iter::IteratorSpec;

use crate::decimal::{append_numeral, numeral, parse_i64, signed_value};
use crate::destination::{Target, TelegramDestination, minus_hundred, target_id};
use crate::sync::lemma_push_contains;
use crate::text::{append_str, byte_len, copied, from_chars, longer_than, to_chars, utf8_len};

verus! {

broadcast use vstd::std_specs::hash::group_hash_axioms;

/// The notifications that are shown.
#[derive(Clone, Debug)]
pub struct AlertsState {
    /// The processes that show notifications, by the ids of their messages.
    pub notified_pids: HashMap<i32, u32>,
}

impl Default for AlertsState {
    fn default() -> (r: Self)
        ensures
            r.notified_pids@ == Map::<i32, u32>::empty(),
    {
        AlertsState { notified_pids: HashMap::new() }
    }
}

/// The group and the topic that alerts come from, where they are known by numbers. The
/// general topic 1 stands for the whole group.
pub open spec fn alerts_of(t: Target) -> Option<(u64, Option<u64>)> {
    match target_id(t) {
        None => None,
        Some(group) => Some(
            (group, (match t {
                Target::GroupTopic(n, topic) => if topic == 1 {
                    None
                } else {
                    Some(topic)
                },
                _ => None,
            })),
        ),
    }
}

/// The group and the topic to look at: the general topic 1 means the whole group.
pub fn alerts_target(channel: &TelegramDestination) -> (r: Option<(u64, Option<u64>)>)
    ensures
        r == alerts_of(channel@),
{
    match channel.as_group_topic() {
        Some((group, topic)) => if topic == 1 {
            Some((group, None))
        } else {
            Some((group, Some(topic)))
        },
        None => None,
    }
}

/// The channel id in a chat id: what follows `-100`, or the number without its
/// sign.
pub open spec fn channel_of(chat_id: int) -> int {
    let s = numeral(chat_id);
    if s.len() >= 4 && s.take(4) == minus_hundred() {
        match signed_value(s.skip(4), i64::MIN as int, i64::MAX as int) {
            Some(id) => id,
            None => 0,
        }
    } else if chat_id < 0 {
        -chat_id
    } else {
        chat_id
    }
}

/// The channel id in a chat id.
pub fn extract_channel_id(chat_id: i64) -> (r: i64)
    requires
        chat_id > i64::MIN,
    ensures
        r == channel_of(chat_id as int),
{
    let mut v: Vec<char> = Vec::new();
    append_numeral(&mut v, chat_id as i128);
    assert(v@ =~= numeral(chat_id as int));
    let s = v.as_slice();
    proof {
        if s@.len() >= 4 && s@.take(4) == minus_hundred() {
            assert(s@.take(4)[0] == s@[0] && s@.take(4)[1] == s@[1] && s@.take(4)[2] == s@[2]
                && s@.take(4)[3] == s@[3]);
        }
    }
    if s.len() >= 4 && s[0] == '-' && s[1] == '1' && s[2] == '0' && s[3] == '0' {
        assert(s@.take(4) =~= minus_hundred());
        let rest = slice_subrange(s, 4, s.len());
        assert(rest@ =~= s@.skip(4));
        match parse_i64(rest) {
            Some(id) => id,
            None => 0,
        }
    } else if chat_id < 0 {
        -chat_id
    } else {
        chat_id
    }
}

// ---------------------------------------------------------------------------
// Unread messages
// ---------------------------------------------------------------------------

/// A message of the alerts channel.
pub struct AlertMessage {
    pub id: i32,
    pub text: String,
    /// The message was sent by the user who is signed in.
    pub out: bool,
}

/// The number of characters that make up the first `n` bytes of a text, where a
/// character ends there.
pub open spec fn chars_in_bytes(s: Seq<char>, n: int, k: int) -> bool {
    0 <= k <= s.len() && byte_len(s.take(k)) == n
}

/// A text of more than a hundred bytes can be cut after a hundred of them.
pub open spec fn can_be_cut(s: Seq<char>) -> bool {
    byte_len(s) > 100 ==> exists|k: int| chars_in_bytes(s, 100, k)
}

/// The text to show: the first hundred bytes and three dots, where there are more.
pub open spec fn preview(s: Seq<char>) -> Seq<char> {
    if byte_len(s) > 100 {
        s.take(choose|k: int| chars_in_bytes(s, 100, k)) + "..."@
    } else {
        s
    }
}

/// The unread messages: those behind the last one that was read that others sent.
pub open spec fn unread(ms: Seq<AlertMessage>, read_up_to: int) -> Seq<(i32, Seq<char>)>
    decreases ms.len(),
{
    if ms.len() == 0 {
        Seq::empty()
    } else {
        let before = unread(ms.drop_last(), read_up_to);
        let m = ms.last();
        if m.id > read_up_to && !m.out {
            before.push((m.id, preview(m.text@)))
        } else {
            before
        }
    }
}

/// The ids and texts of messages.
pub open spec fn alert_texts(v: Seq<(i32, String)>) -> Seq<(i32, Seq<char>)> {
    v.map_values(|m: (i32, String)| (m.0, m.1@))
}

/// More characters make more bytes.
proof fn lemma_byte_len_grows(s: Seq<char>, i: int, j: int)
    requires
        0 <= i <= j <= s.len(),
    ensures
        byte_len(s.take(j)) >= byte_len(s.take(i)) + (j - i),
    decreases j - i,
{
    if i < j {
        lemma_byte_len_grows(s, i, j - 1);
        assert(s.take(j).drop_last() =~= s.take(j - 1));
    }
}

/// Whether a text of more than a hundred bytes can be cut after a hundred of them.
pub fn is_cuttable(text: &str) -> (r: bool)
    ensures
        r == can_be_cut(text@),
{
    let chars = to_chars(text);
    let s = chars.as_slice();
    let mut bytes: usize = 0;
    let mut i: usize = 0;
    assert(text@.take(0) =~= Seq::empty());
    while i < s.len() && bytes < 100
        invariant
            i <= s.len(),
            s@ == text@,
            bytes == byte_len(text@.take(i as int)),
            bytes <= 103,
            i > 0 ==> byte_len(text@.take(i - 1)) < 100,
        decreases s.len() - i,
    {
        assert(text@.take(i + 1).drop_last() =~= text@.take(i as int));
        bytes = bytes + utf8_len(s[i]);
        i += 1;
    }
    proof {
        let all = text@;
        assert(all.take(all.len() as int) =~= all);
        lemma_byte_len_grows(all, i as int, all.len() as int);
        if bytes == 100 {
            assert(chars_in_bytes(all, 100, i as int));
        } else if bytes > 100 {
            assert forall|k: int| !chars_in_bytes(all, 100, k) by {
                if 0 <= k < i {
                    lemma_byte_len_grows(all, k, i - 1);
                } else if i <= k <= all.len() {
                    lemma_byte_len_grows(all, i as int, k);
                }
            }
        }
    }
    bytes <= 100
}

/// The text to show for a message.
fn write_preview(s: &[char]) -> (r: Vec<char>)
    requires
        can_be_cut(s@),
    ensures
        r@ == preview(s@),
{
    if !longer_than(s, 100) {
        return copied(s);
    }
    let ghost cut = choose|k: int| chars_in_bytes(s@, 100, k);
    assert(chars_in_bytes(s@, 100, cut));
    let mut n: usize = 0;
    let mut i: usize = 0;
    assert(byte_len(s@.take(0)) == 0);
    while n < 100 && i < s.len()
        invariant
            i <= s.len(),
            chars_in_bytes(s@, 100, cut),
            i <= cut,
            n == byte_len(s@.take(i as int)),
            n <= 100,
        decreases s.len() - i,
    {
        assert(s@.take(i + 1).drop_last() =~= s@.take(i as int));
        proof {
            if i == cut {
                assert(false);
            }
            lemma_byte_len_grows(s@, i + 1, cut);
        }
        n += utf8_len(s[i]);
        i += 1;
    }
    proof {
        lemma_byte_len_grows(s@, i as int, cut);
        assert(i == cut);
    }
    let mut r = copied(slice_subrange(s, 0, i));
    assert(r@ =~= s@.take(cut));
    append_str(&mut r, "...");
    r
}

/// The unread messages with the texts to show for them.
pub fn unread_messages(messages: &Vec<AlertMessage>, read_inbox_max_id: i32) -> (r: Vec<
    (i32, String),
>)
    requires
        forall|i: int|
            0 <= i < messages.len() && (#[trigger] messages[i]).id > read_inbox_max_id
                && !messages[i].out ==> can_be_cut(messages[i].text@),
    ensures
        alert_texts(r@) == unread(messages@, read_inbox_max_id as int),
{
    let mut r: Vec<(i32, String)> = Vec::new();
    let mut i: usize = 0;
    assert(alert_texts(r@) =~= Seq::empty());
    while i < messages.len()
        invariant
            i <= messages.len(),
            forall|i: int|
                0 <= i < messages.len() && (#[trigger] messages[i]).id > read_inbox_max_id
                    && !messages[i].out ==> can_be_cut(messages[i].text@),
            alert_texts(r@) == unread(messages@.take(i as int), read_inbox_max_id as int),
        decreases messages.len() - i,
    {
        assert(messages@.take(i + 1).drop_last() =~= messages@.take(i as int));
        let m = &messages[i];
        if m.id > read_inbox_max_id && !m.out {
            let text = write_preview(to_chars(m.text.as_str()).as_slice());
            let ghost before = alert_texts(r@);
            r.push((m.id, from_chars(text.as_slice())));
            assert(alert_texts(r@) =~= before.push((m.id, text@)));
        }
        i += 1;
    }
    assert(messages@.take(messages@.len() as int) =~= messages@);
    r
}

// ---------------------------------------------------------------------------
// Notifications
// ---------------------------------------------------------------------------

/// The message is among the unread ones.
pub open spec fn is_unread(v: Seq<(i32, String)>, id: i32) -> bool {
    exists|i: int| 0 <= i < v.len() && (#[trigger] v[i]).0 == id
}

fn holds_unread(v: &Vec<(i32, String)>, id: i32) -> (r: bool)
    ensures
        r == is_unread(v@, id),
{
    let mut i: usize = 0;
    while i < v.len()
        invariant
            i <= v.len(),
            forall|j: int| 0 <= j < i ==> (#[trigger] v[j]).0 != id,
        decreases v.len() - i,
    {
        if v[i].0 == id {
            return true;
        }
        i += 1;
    }
    false
}

/// Whether the message is among the first `n` unread ones.
fn stands_before(v: &Vec<(i32, String)>, n: usize, id: i32) -> (r: bool)
    requires
        n <= v.len(),
    ensures
        r == is_unread(v@.take(n as int), id),
{
    let ghost front = v@.take(n as int);
    let mut i: usize = 0;
    while i < n
        invariant
            i <= n <= v.len(),
            front == v@.take(n as int),
            forall|j: int| 0 <= j < i ==> (#[trigger] front[j]).0 != id,
        decreases n - i,
    {
        assert(front[i as int] == v@[i as int]);
        if v[i].0 == id {
            return true;
        }
        i += 1;
    }
    false
}

/// The notifications of messages that are no longer unread are taken out, and those of the
/// others stay.
pub open spec fn dismissed(
    pids: Map<i32, u32>,
    v: Seq<(i32, String)>,
    left: Map<i32, u32>,
    out: Seq<(i32, u32)>,
) -> bool {
    &&& forall|id: i32| #[trigger] left.contains_key(id) <==> pids.contains_key(id) && is_unread(v, id)
    &&& forall|id: i32| #[trigger] left.contains_key(id) ==> left[id] == pids[id]
    &&& out.no_duplicates()
    &&& forall|id: i32, pid: u32| #[trigger]
        out.contains((id, pid)) <==> pids.contains_key(id) && pids[id] == pid && !is_unread(v, id)
}

/// The messages with notifications, in any order.
fn held_ids(m: &HashMap<i32, u32>) -> (r: Vec<i32>)
    ensures
        r@.no_duplicates(),
        forall|id: i32| #[trigger] r@.contains(id) <==> m@.contains_key(id),
{
    let keys = m.keys();
    let ghost full = keys.remaining();
    let ghost ids = full.map_values(|k: &i32| *k);
    let mut r: Vec<i32> = Vec::new();
    for k in it: keys
        invariant
            it.seq() == full,
            ids == full.map_values(|k: &i32| *k),
            r@ == ids.take(it.index() as int),
    {
        r.push(*k);
        assert(r@ =~= ids.take(it.index() + 1));
    }
    proof {
        assert(r@ =~= ids);
        assert(ids =~= full.unref());
        assert forall|id: i32| #[trigger] r@.contains(id) <==> m@.contains_key(id) by {
            assert(full.unref().to_set().contains(id) <==> full.unref().contains(id));
        }
    }
    r
}

impl AlertsState {
    /// Takes out the notifications of messages that are no longer unread, each
    /// once and in any order. Their processes are to be ended.
    pub fn dismiss_read(&mut self, unread: &Vec<(i32, String)>) -> (r: Vec<(i32, u32)>)
        ensures
            dismissed(
                old(self).notified_pids@,
                unread@,
                final(self).notified_pids@,
                r@,
            ),
    {
        let keys = held_ids(&self.notified_pids);
        let ghost start = self.notified_pids@;
        let mut r: Vec<(i32, u32)> = Vec::new();
        let mut i: usize = 0;
        while i < keys.len()
            invariant
                i <= keys.len(),
                keys@.no_duplicates(),
                forall|id: i32| #[trigger] keys@.contains(id) <==> start.contains_key(id),
                forall|id: i32| #[trigger]
                    self.notified_pids@.contains_key(id) <==> start.contains_key(id) && (
                    is_unread(unread@, id) || !keys@.take(i as int).contains(id)),
                forall|id: i32| #[trigger]
                    self.notified_pids@.contains_key(id) ==> self.notified_pids@[id] == start[id],
                r@.no_duplicates(),
                forall|id: i32, pid: u32| #[trigger]
                    r@.contains((id, pid)) <==> keys@.take(i as int).contains(id) && start[id]
                        == pid && !is_unread(unread@, id),
            decreases keys.len() - i,
        {
            let id = keys[i];
            let ghost before = r@;
            let ghost held = self.notified_pids@;
            let ghost front = keys@.take(i as int);
            proof {
                assert(keys@.contains(keys@[i as int]));
                assert(!front.contains(id)) by {
                    if front.contains(id) {
                        let x = choose|x: int| 0 <= x < front.len() && front[x] == id;
                        assert(keys@[x] == keys@[i as int]);
                    }
                }
                assert(keys@.take(i + 1) =~= front.push(id));
            }
            if !holds_unread(unread, id) {
                match self.notified_pids.remove(&id) {
                    Some(pid) => {
                        r.push((id, pid));
                        proof {
                            assert(!before.contains((id, pid)));
                            assert forall|a: int, b: int|
                                0 <= a < r.len() && 0 <= b < r.len() && a != b implies r@[a]
                                != r@[b] by {
                                if a == before.len() {
                                    assert(before[b] == r@[b]);
                                } else if b == before.len() {
                                    assert(before[a] == r@[a]);
                                }
                            }
                            assert forall|x: i32, p: u32| #[trigger] r@.contains((x, p)) <==> keys@.take(
                                i + 1,
                            ).contains(x) && start[x] == p && !is_unread(unread@, x) by {
                                lemma_push_contains(before, (id, pid), (x, p));
                                lemma_push_contains(front, id, x);
                            }
                        }
                    },
                    None => {},
                }
            } else {
                proof {
                    assert forall|x: i32, p: u32| #[trigger] r@.contains((x, p)) <==> keys@.take(
                        i + 1,
                    ).contains(x) && start[x] == p && !is_unread(unread@, x) by {
                        lemma_push_contains(front, id, x);
                    }
                }
            }
            proof {
                assert forall|x: i32| #[trigger]
                    self.notified_pids@.contains_key(x) <==> start.contains_key(x) && (is_unread(
                        unread@,
                        x,
                    ) || !keys@.take(i + 1).contains(x)) by {
                    lemma_push_contains(front, id, x);
                    assert(held.contains_key(x) <==> start.contains_key(x) && (is_unread(
                        unread@,
                        x,
                    ) || !front.contains(x)));
                }
            }
            i += 1;
        }
        proof {
            assert(keys@.take(keys@.len() as int) =~= keys@);
        }
        r
    }

    /// The unread messages without a notification, in their order, each where it
    /// stands first.
    pub fn to_notify(&self, unread: &Vec<(i32, String)>) -> (r: Vec<(i32, String)>)
        ensures
            alert_texts(r@) == not_notified(unread@, self.notified_pids@),
    {
        let mut r: Vec<(i32, String)> = Vec::new();
        let mut i: usize = 0;
        assert(alert_texts(r@) =~= Seq::empty());
        while i < unread.len()
            invariant
                i <= unread.len(),
                alert_texts(r@) == not_notified(unread@.take(i as int), self.notified_pids@),
            decreases unread.len() - i,
        {
            assert(unread@.take(i + 1).drop_last() =~= unread@.take(i as int));
            if !self.notified_pids.contains_key(&unread[i].0) && !stands_before(
                unread,
                i,
                unread[i].0,
            ) {
                let ghost before = alert_texts(r@);
                r.push((unread[i].0, unread[i].1.clone()));
                assert(alert_texts(r@) =~= before.push((unread[i as int].0, unread[i as int].1@)));
            }
            i += 1;
        }
        assert(unread@.take(unread@.len() as int) =~= unread@);
        r
    }

    /// Records the process that shows the notification of a message.
    pub fn record(&mut self, message_id: i32, pid: u32)
        ensures
            final(self).notified_pids@ == old(self).notified_pids@.insert(message_id, pid),
    {
        self.notified_pids.insert(message_id, pid);
    }
}

/// The unread messages without a notification, each where it stands first.
pub open spec fn not_notified(v: Seq<(i32, String)>, pids: Map<i32, u32>) -> Seq<(i32, Seq<char>)>
    decreases v.len(),
{
    if v.len() == 0 {
        Seq::empty()
    } else if pids.contains_key(v.last().0) || is_unread(v.drop_last(), v.last().0) {
        not_notified(v.drop_last(), pids)
    } else {
        not_notified(v.drop_last(), pids).push((v.last().0, v.last().1@))
    }
}

// ---------------------------------------------------------------------------
// Laws
// ---------------------------------------------------------------------------

/// No message with a notification is notified again, none is notified twice, and
/// every unread message without one is, with the text where it stands first.
pub proof fn law_notified_once(v: Seq<(i32, String)>, pids: Map<i32, u32>)
    ensures
        forall|i: int|
            0 <= i < not_notified(v, pids).len() ==> !pids.contains_key(
                (#[trigger] not_notified(v, pids)[i]).0,
            ) && is_unread(v, not_notified(v, pids)[i].0),
        forall|i: int, j: int|
            0 <= i < j < not_notified(v, pids).len() ==> (#[trigger] not_notified(v, pids)[i]).0
                != (#[trigger] not_notified(v, pids)[j]).0,
        forall|i: int|
            0 <= i < v.len() && !pids.contains_key((#[trigger] v[i]).0) && !is_unread(
                v.take(i),
                v[i].0,
            ) ==> not_notified(v, pids).contains((v[i].0, v[i].1@)),
    decreases v.len(),
{
    if v.len() > 0 {
        let front = v.drop_last();
        let before = not_notified(front, pids);
        let all = not_notified(v, pids);
        law_notified_once(front, pids);
        assert forall|i: int| 0 <= i < all.len() implies !pids.contains_key((#[trigger] all[i]).0)
            && is_unread(v, all[i].0) by {
            if i < before.len() {
                assert(all[i] == before[i]);
                let k = choose|k: int| 0 <= k < front.len() && front[k].0 == before[i].0;
                assert(v[k] == front[k]);
            } else {
                assert(v[v.len() - 1].0 == all[i].0);
            }
        }
        assert forall|i: int, j: int| 0 <= i < j < all.len() implies (#[trigger] all[i]).0 != (
        #[trigger] all[j]).0 by {
            assert(all[i] == before[i]);
            if j < before.len() {
                assert(all[j] == before[j]);
            }
        }
        assert forall|i: int|
            0 <= i < v.len() && !pids.contains_key((#[trigger] v[i]).0) && !is_unread(
                v.take(i),
                v[i].0,
            ) implies all.contains((v[i].0, v[i].1@)) by {
            let x = (v[i].0, v[i].1@);
            if i < front.len() {
                assert(front[i] == v[i]);
                assert(front.take(i) =~= v.take(i));
                assert(before.contains(x));
            } else {
                assert(v.take(i) =~= front);
            }
            lemma_push_contains(before, (v.last().0, v.last().1@), x);
        }
    }
}

} // verus!
