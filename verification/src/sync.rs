//! What changed in a topic file, and what to push for it.
use std::collections::BTreeMap;

use vstd::prelude::*;
use vstd::slice::slice_subrange;
use vstd::std_specs::btree::increasing_seq;
use vstd::std_specs::cmp::OrdSpec;
use vstd::std_specs::iter::IteratorSpec;

use crate::decimal::{parse_i32, parse_i64, signed_value};
use crate::header::{header_line, is_header_line};
use crate::marker::{Marker, marker_from, read_marker, without_marker};
use crate::tag::id_value;
use crate::text::{
    append, blank, copied, from_chars, joined, lemma_trimmed_end, lemma_trimmed_same,
    lemma_trimmed_start, lines, newline, same, split_lines, starts, str_stands_at, string_texts,
    texts, to_chars, trim, trimmed, trimmed_start,
};
use crate::unicode::whitespace;

verus! {

broadcast use vstd::std_specs::btree::group_btree_axioms;

/// Who sent a message.
#[derive(Clone, Copy, Debug, Eq, PartialEq, Structural)]
pub enum MessageSender {
    Bot,
    User,
}

impl Default for MessageSender {
    fn default() -> (r: Self)
        ensures
            r == MessageSender::Bot,
    {
        MessageSender::Bot
    }
}

/// The sender that a tag names.
pub open spec fn sender_named(s: Seq<char>) -> MessageSender {
    if s == "user"@ {
        MessageSender::User
    } else {
        MessageSender::Bot
    }
}

impl MessageSender {
    /// The sender that a tag names: the user, or else the bot.
    pub fn from_tag(s: &str) -> (r: Self)
        ensures
            r == sender_named(s@),
    {
        sender_of_chars(to_chars(s).as_slice())
    }
}

fn sender_of_chars(s: &[char]) -> (r: MessageSender)
    ensures
        r == sender_named(s@),
{
    if same(s, to_chars("user").as_slice()) {
        MessageSender::User
    } else {
        MessageSender::Bot
    }
}

// ---------------------------------------------------------------------------
// The messages of a file
// ---------------------------------------------------------------------------

/// A message in a file.
#[derive(Clone, Debug)]
pub struct ParsedMessage {
    pub content: String,
    pub sender: MessageSender,
}

/// What a message in a file says.
pub struct Parsed {
    pub content: Seq<char>,
    pub sender: MessageSender,
}

impl View for ParsedMessage {
    type V = Parsed;

    open spec fn view(&self) -> Parsed {
        Parsed { content: self.content@, sender: self.sender }
    }
}

/// What messages in a file say.
pub open spec fn parsed(m: Map<i32, ParsedMessage>) -> Map<i32, Parsed> {
    m.map_values(|p: ParsedMessage| p@)
}

/// The message on a line that holds a tag: the line without its tag.
pub open spec fn message_on(line: Seq<char>, m: Marker) -> Parsed {
    Parsed {
        content: trimmed(without_marker(line, m)),
        sender: match m.sender {
            Some(s) => sender_named(s),
            None => MessageSender::Bot,
        },
    }
}

/// The tag on a line.
pub open spec fn line_marker(line: Seq<char>) -> Option<Marker> {
    marker_from(line, 0)
}

/// The line holds a tag with an id.
pub open spec fn has_message(line: Seq<char>) -> bool {
    line_marker(line) is Some && id_value(line_marker(line)->0.digits) is Some
}

/// The id of the message on a line that holds one.
pub open spec fn id_on(line: Seq<char>) -> i32 {
    id_value(line_marker(line)->0.digits)->0 as i32
}

/// The messages on the lines by their ids. Of two with one id the later one counts.
pub open spec fn messages_on(ls: Seq<Seq<char>>) -> Map<i32, Parsed>
    decreases ls.len(),
{
    if ls.len() == 0 {
        Map::empty()
    } else {
        let before = messages_on(ls.drop_last());
        let line = ls.last();
        if has_message(line) {
            before.insert(id_on(line), message_on(line, line_marker(line)->0))
        } else {
            before
        }
    }
}

/// The second since 1970 that a tag holds.
pub open spec fn time_on(m: Marker) -> Option<i64> {
    match m.ts {
        Some(digits) => match signed_value(digits, i64::MIN as int, i64::MAX as int) {
            Some(second) => Some(second as i64),
            None => None,
        },
        None => None,
    }
}

/// The times of the messages on the lines by their ids. Of two with one id the later
/// one counts, whether its tag holds a time or not.
pub open spec fn times_on(ls: Seq<Seq<char>>) -> Map<i32, i64>
    decreases ls.len(),
{
    if ls.len() == 0 {
        Map::empty()
    } else {
        let before = times_on(ls.drop_last());
        let line = ls.last();
        if has_message(line) {
            match time_on(line_marker(line)->0) {
                Some(second) => before.insert(id_on(line), second),
                None => before.remove(id_on(line)),
            }
        } else {
            before
        }
    }
}

/// The last line that holds a message.
pub open spec fn last_message_line(ls: Seq<Seq<char>>) -> Option<int>
    decreases ls.len(),
{
    if ls.len() == 0 {
        None
    } else if has_message(ls.last()) {
        Some(ls.len() - 1)
    } else {
        last_message_line(ls.drop_last())
    }
}

/// The lines without a tag, with their numbers.
pub open spec fn untagged(ls: Seq<Seq<char>>) -> Seq<(int, Seq<char>)>
    decreases ls.len(),
{
    if ls.len() == 0 {
        Seq::empty()
    } else if line_marker(ls.last()) is None {
        untagged(ls.drop_last()).push((ls.len() - 1, ls.last()))
    } else {
        untagged(ls.drop_last())
    }
}

/// The texts of numbered lines.
pub open spec fn numbered_texts(v: Seq<(usize, String)>) -> Seq<(int, Seq<char>)> {
    v.map_values(|p: (usize, String)| (p.0 as int, p.1@))
}

/// A file's content with the places of its messages.
#[derive(Debug)]
pub struct FileContentInfo {
    /// The last line that holds a message, counted from zero.
    pub last_tagged_line: Option<usize>,
    /// The messages by their ids.
    pub tagged_messages: BTreeMap<i32, ParsedMessage>,
    /// The lines without a tag, with their numbers.
    pub untagged_lines: Vec<(usize, String)>,
}

/// What a line holds.
enum LineKind {
    /// A message with its id, and with its time where its tag holds it.
    Message(i32, ParsedMessage, Option<i64>),
    /// A tag without an id.
    Unreadable,
    /// No tag.
    Untagged,
}

/// What a line holds.
fn read_line(line: &[char]) -> (r: LineKind)
    ensures
        match r {
            LineKind::Message(id, p, ts) => has_message(line@) && id == id_on(line@) && p@
                == message_on(line@, line_marker(line@)->0) && time_on(line_marker(line@)->0)
                == ts,
            LineKind::Unreadable => line_marker(line@) is Some && !has_message(line@),
            LineKind::Untagged => line_marker(line@) is None,
        },
{
    let f = match read_marker(line) {
        None => {
            return LineKind::Untagged;
        },
        Some(f) => f,
    };
    match parse_i32(slice_subrange(line, f.start + 9, f.digits_end)) {
        None => LineKind::Unreadable,
        Some(id) => {
            let sender = if f.has_sender {
                sender_of_chars(slice_subrange(line, f.fields_end + 1, f.end - 4))
            } else {
                MessageSender::Bot
            };
            let ts = if f.time_end > f.digits_end {
                parse_i64(slice_subrange(line, f.digits_end + 4, f.time_end))
            } else {
                None
            };
            let mut rest = copied(slice_subrange(line, 0, f.start));
            let tail = slice_subrange(line, f.end, line.len());
            append(&mut rest, tail);
            proof {
                assert(tail@ =~= line@.skip(f.end as int));
                assert(rest@ =~= without_marker(line@, f.of(line@)));
            }
            let content = from_chars(trim(rest.as_slice()));
            LineKind::Message(id, ParsedMessage { content, sender }, ts)
        },
    }
}

/// A file's content with the places of its messages.
pub fn parse_file_with_positions(content: &str) -> (r: FileContentInfo)
    ensures
        parsed(r.tagged_messages@) == messages_on(lines(content@)),
        match r.last_tagged_line {
            Some(l) => last_message_line(lines(content@)) == Some(l as int),
            None => last_message_line(lines(content@)) is None,
        },
        numbered_texts(r.untagged_lines@) == untagged(lines(content@)),
{
    let ls = split_lines(to_chars(content).as_slice());
    let ghost all = texts(ls@);
    let mut last: Option<usize> = None;
    let mut messages: BTreeMap<i32, ParsedMessage> = BTreeMap::new();
    let mut rest: Vec<(usize, String)> = Vec::new();
    let mut i: usize = 0;
    assert(parsed(messages@) =~= Map::empty());
    assert(numbered_texts(rest@) =~= Seq::empty());
    while i < ls.len()
        invariant
            i <= ls.len(),
            all == texts(ls@),
            parsed(messages@) == messages_on(all.take(i as int)),
            match last {
                Some(l) => last_message_line(all.take(i as int)) == Some(l as int),
                None => last_message_line(all.take(i as int)) is None,
            },
            numbered_texts(rest@) == untagged(all.take(i as int)),
        decreases ls.len() - i,
    {
        proof {
            assert(all.take(i + 1).drop_last() =~= all.take(i as int));
            assert(all.take(i + 1).last() == ls[i as int]@);
        }
        match read_line(ls[i].as_slice()) {
            LineKind::Message(id, p, _) => {
                let ghost before = messages@;
                messages.insert(id, p);
                assert(parsed(messages@) =~= parsed(before).insert(id, p@));
                last = Some(i);
            },
            LineKind::Unreadable => {},
            LineKind::Untagged => {
                let ghost before = rest@;
                rest.push((i, from_chars(ls[i].as_slice())));
                assert(numbered_texts(rest@) =~= numbered_texts(before).push(
                    (i as int, ls[i as int]@),
                ));
            },
        }
        i += 1;
    }
    assert(all.take(all.len() as int) =~= all);
    FileContentInfo { last_tagged_line: last, tagged_messages: messages, untagged_lines: rest }
}

/// The messages of a file by their ids.
pub fn parse_file_messages(content: &str) -> (r: BTreeMap<i32, ParsedMessage>)
    ensures
        parsed(r@) == messages_on(lines(content@)),
{
    parse_file_with_positions(content).tagged_messages
}

/// The times of a file's messages by their ids, where their tags hold them.
pub fn parse_message_times(content: &str) -> (r: BTreeMap<i32, i64>)
    ensures
        r@ == times_on(lines(content@)),
{
    let ls = split_lines(to_chars(content).as_slice());
    let ghost all = texts(ls@);
    let mut times: BTreeMap<i32, i64> = BTreeMap::new();
    let mut i: usize = 0;
    assert(times@ =~= Map::empty());
    while i < ls.len()
        invariant
            i <= ls.len(),
            all == texts(ls@),
            times@ == times_on(all.take(i as int)),
        decreases ls.len() - i,
    {
        proof {
            assert(all.take(i + 1).drop_last() =~= all.take(i as int));
            assert(all.take(i + 1).last() == ls[i as int]@);
        }
        match read_line(ls[i].as_slice()) {
            LineKind::Message(id, _, Some(second)) => {
                times.insert(id, second);
            },
            LineKind::Message(id, _, None) => {
                times.remove(&id);
            },
            _ => {},
        }
        i += 1;
    }
    assert(all.take(all.len() as int) =~= all);
    times
}

// ---------------------------------------------------------------------------
// Changes
// ---------------------------------------------------------------------------

/// What changed between two states of a file.
#[derive(Clone, Debug)]
pub struct FileChanges {
    /// The ids of deleted messages.
    pub deleted: Vec<i32>,
    /// Edited messages: their ids, their new contents and their senders.
    pub edited: Vec<(i32, String, MessageSender)>,
    /// New messages.
    pub created: Vec<String>,
    /// Lines that were put in above the last message.
    pub invalid_inserts: Vec<String>,
}

impl Default for FileChanges {
    fn default() -> (r: Self)
        ensures
            r.deleted@ == Seq::<i32>::empty(),
            r.edited@ == Seq::<(i32, String, MessageSender)>::empty(),
            r.created@ == Seq::<String>::empty(),
            r.invalid_inserts@ == Seq::<String>::empty(),
    {
        FileChanges {
            deleted: Vec::new(),
            edited: Vec::new(),
            created: Vec::new(),
            invalid_inserts: Vec::new(),
        }
    }
}

impl FileChanges {
    /// Nothing is to be pushed.
    pub fn is_empty(&self) -> (r: bool)
        ensures
            r == (self.deleted.len() == 0 && self.edited.len() == 0 && self.created.len() == 0),
    {
        self.deleted.len() == 0 && self.edited.len() == 0 && self.created.len() == 0
    }

    /// Lines were put in above the last message.
    pub fn has_invalid_inserts(&self) -> (r: bool)
        ensures
            r == (self.invalid_inserts.len() > 0),
    {
        self.invalid_inserts.len() > 0
    }
}

/// The ids grow from each to the next.
pub open spec fn growing(v: Seq<i32>) -> bool {
    forall|i: int, j: int| 0 <= i < j < v.len() ==> v[i] < v[j]
}

/// The messages that are in the old state and not in the new, by their ids.
pub open spec fn are_deleted(
    v: Seq<i32>,
    old_state: Map<i32, Parsed>,
    new_state: Map<i32, Parsed>,
) -> bool {
    &&& growing(v)
    &&& forall|id: i32| #[trigger]
        v.contains(id) <==> old_state.contains_key(id) && !new_state.contains_key(id)
}

/// The message is in both states, with another content in the new one.
pub open spec fn was_edited(
    id: i32,
    old_state: Map<i32, Parsed>,
    new_state: Map<i32, Parsed>,
) -> bool {
    old_state.contains_key(id) && new_state.contains_key(id) && old_state[id].content
        != new_state[id].content
}

/// The ids of edited messages.
pub open spec fn edited_ids(v: Seq<(i32, String, MessageSender)>) -> Seq<i32> {
    v.map_values(|e: (i32, String, MessageSender)| e.0)
}

/// The messages that were edited, by their ids, with their new contents and their
/// old senders.
pub open spec fn are_edited(
    v: Seq<(i32, String, MessageSender)>,
    old_state: Map<i32, Parsed>,
    new_state: Map<i32, Parsed>,
) -> bool {
    &&& growing(edited_ids(v))
    &&& forall|id: i32| #[trigger]
        edited_ids(v).contains(id) <==> was_edited(id, old_state, new_state)
    &&& forall|i: int|
        0 <= i < v.len() ==> (#[trigger] v[i]).1@ == new_state[v[i].0].content && v[i].2
            == old_state[v[i].0].sender
}

proof fn lemma_increasing_ids(keys: Seq<i32>)
    requires
        increasing_seq(keys),
    ensures
        growing(keys),
{
    assert forall|i: int, j: int| 0 <= i < j < keys.len() implies keys[i] < keys[j] by {
        assert(keys[i].cmp_spec(&keys[j]) is Less);
    }
}

/// The keys of a map in their order.
pub fn sorted_message_ids<V>(m: &BTreeMap<i32, V>) -> (r: Vec<i32>)
    ensures
        growing(r@),
        r@.to_set() == m@.dom(),
{
    let iter = m.iter();
    let ghost full = iter.remaining();
    let ghost keys = full.map_values(|kv: (&i32, &V)| *kv.0);
    let mut r: Vec<i32> = Vec::new();
    for kv in it: iter
        invariant
            it.seq() == full,
            keys == full.map_values(|kv: (&i32, &V)| *kv.0),
            r@ == keys.take(it.index() as int),
    {
        r.push(*kv.0);
        assert(r@ =~= keys.take(it.index() + 1));
    }
    proof {
        assert(r@ =~= keys);
        lemma_increasing_ids(keys);
        assert forall|k: i32| keys.to_set().contains(k) <==> m@.dom().contains(k) by {
            if keys.contains(k) {
                let i = choose|i: int| 0 <= i < keys.len() && keys[i] == k;
                assert(m@.contains_key(*full[i].0));
            }
            if m@.contains_key(k) {
                assert(full.contains((&k, &m@[k])));
                let i = choose|i: int| 0 <= i < full.len() && full[i] == (&k, &m@[k]);
                assert(keys[i] == k);
            }
        }
        assert(keys.to_set() =~= m@.dom());
    }
    r
}

/// The ids that are in the old state and not in the new.
fn find_deleted(
    old_state: &BTreeMap<i32, ParsedMessage>,
    new_state: &BTreeMap<i32, ParsedMessage>,
) -> (r: Vec<i32>)
    ensures
        are_deleted(r@, parsed(old_state@), parsed(new_state@)),
{
    let keys = sorted_message_ids(old_state);
    let mut r: Vec<i32> = Vec::new();
    let mut i: usize = 0;
    while i < keys.len()
        invariant
            i <= keys.len(),
            growing(keys@),
            growing(r@),
            forall|j: int, k: int| 0 <= j < r.len() && i <= k < keys.len() ==> r@[j] < keys@[k],
            forall|id: i32| #[trigger]
                r@.contains(id) <==> keys@.take(i as int).contains(id)
                    && !new_state@.contains_key(id),
        decreases keys.len() - i,
    {
        let id = keys[i];
        let ghost before = r@;
        let ghost front = keys@.take(i as int);
        if !new_state.contains_key(&id) {
            r.push(id);
        }
        proof {
            assert(keys@.take(i + 1) =~= front.push(id));
            assert forall|x: i32| #[trigger] r@.contains(x) <==> keys@.take(i + 1).contains(x)
                && !new_state@.contains_key(x) by {
                lemma_push_contains(front, id, x);
                lemma_push_contains(before, id, x);
            }
        }
        i += 1;
    }
    proof {
        assert(keys@.take(keys@.len() as int) =~= keys@);
        assert forall|id: i32| #[trigger] r@.contains(id) <==> parsed(old_state@).contains_key(id)
            && !parsed(new_state@).contains_key(id) by {
            assert(keys@.contains(id) <==> keys@.to_set().contains(id));
        }
    }
    r
}

pub proof fn lemma_push_contains<T>(s: Seq<T>, x: T, y: T)
    ensures
        s.push(x).contains(y) <==> s.contains(y) || x == y,
{
    if s.contains(y) {
        let i = choose|i: int| 0 <= i < s.len() && s[i] == y;
        assert(s.push(x)[i] == y);
    }
    if x == y {
        assert(s.push(x)[s.len() as int] == y);
    }
    if s.push(x).contains(y) {
        let i = choose|i: int| 0 <= i < s.push(x).len() && s.push(x)[i] == y;
        if i < s.len() {
            assert(s[i] == y);
        }
    }
}

/// The messages that were edited.
fn find_edited(
    old_state: &BTreeMap<i32, ParsedMessage>,
    new_state: &BTreeMap<i32, ParsedMessage>,
) -> (r: Vec<(i32, String, MessageSender)>)
    ensures
        are_edited(r@, parsed(old_state@), parsed(new_state@)),
{
    let keys = sorted_message_ids(new_state);
    let ghost olds = parsed(old_state@);
    let ghost news = parsed(new_state@);
    let mut r: Vec<(i32, String, MessageSender)> = Vec::new();
    let mut i: usize = 0;
    assert(edited_ids(r@) =~= Seq::empty());
    while i < keys.len()
        invariant
            i <= keys.len(),
            olds == parsed(old_state@),
            news == parsed(new_state@),
            keys@.to_set() == new_state@.dom(),
            growing(keys@),
            growing(edited_ids(r@)),
            forall|j: int, k: int|
                0 <= j < r.len() && i <= k < keys.len() ==> edited_ids(r@)[j] < keys@[k],
            forall|id: i32| #[trigger]
                edited_ids(r@).contains(id) <==> keys@.take(i as int).contains(id) && was_edited(
                    id,
                    olds,
                    news,
                ),
            forall|j: int|
                0 <= j < r.len() ==> (#[trigger] r@[j]).1@ == news[r@[j].0].content && r@[j].2
                    == olds[r@[j].0].sender,
        decreases keys.len() - i,
    {
        let id = keys[i];
        let ghost before = edited_ids(r@);
        let ghost front = keys@.take(i as int);
        proof {
            assert(keys@.to_set().contains(keys@[i as int]));
        }
        match (old_state.get(&id), new_state.get(&id)) {
            (Some(old_msg), Some(new_msg)) => {
                let a = to_chars(old_msg.content.as_str());
                let b = to_chars(new_msg.content.as_str());
                if !same(a.as_slice(), b.as_slice()) {
                    assert(was_edited(id, olds, news));
                    r.push((id, from_chars(b.as_slice()), old_msg.sender));
                    assert(edited_ids(r@) =~= before.push(id));
                } else {
                    assert(!was_edited(id, olds, news));
                }
            },
            _ => {
                assert(!was_edited(id, olds, news));
            },
        }
        proof {
            assert(keys@.take(i + 1) =~= front.push(id));
            assert forall|x: i32| #[trigger]
                edited_ids(r@).contains(x) <==> keys@.take(i + 1).contains(x) && was_edited(
                    x,
                    olds,
                    news,
                ) by {
                lemma_push_contains(front, id, x);
                lemma_push_contains(before, id, x);
            }
        }
        i += 1;
    }
    proof {
        assert(keys@.take(keys@.len() as int) =~= keys@);
        assert forall|id: i32| #[trigger]
            edited_ids(r@).contains(id) <==> was_edited(id, olds, news) by {
            assert(keys@.contains(id) <==> keys@.to_set().contains(id));
        }
    }
    r
}

/// What was deleted and edited between two states of a file.
pub fn detect_changes(
    old_state: &BTreeMap<i32, ParsedMessage>,
    new_state: &BTreeMap<i32, ParsedMessage>,
) -> (r: FileChanges)
    ensures
        are_deleted(r.deleted@, parsed(old_state@), parsed(new_state@)),
        are_edited(r.edited@, parsed(old_state@), parsed(new_state@)),
        r.created.len() == 0,
        r.invalid_inserts.len() == 0,
{
    let deleted = find_deleted(old_state, new_state);
    let edited = find_edited(old_state, new_state);
    FileChanges { deleted, edited, created: Vec::new(), invalid_inserts: Vec::new() }
}

// ---------------------------------------------------------------------------
// New messages
// ---------------------------------------------------------------------------

/// The text is among those of the numbered lines.
pub open spec fn among(v: Seq<(int, Seq<char>)>, line: Seq<char>) -> bool {
    exists|i: int| 0 <= i < v.len() && (#[trigger] v[i]).1 == line
}

/// The line is new: not blank, no date header, and not among the old lines.
pub open spec fn is_new(line: Seq<char>, old_lines: Seq<(int, Seq<char>)>) -> bool {
    let s = trimmed(line);
    s.len() > 0 && !header_line(s) && !among(old_lines, line)
}

/// The line stands above the last message, or is that line.
pub open spec fn is_above(l: int, last: Option<int>) -> bool {
    last is Some && l <= last->0
}

/// Those of the lines that are new, above the last message or below it.
pub open spec fn new_lines(
    v: Seq<(int, Seq<char>)>,
    old_lines: Seq<(int, Seq<char>)>,
    last: Option<int>,
    above: bool,
) -> Seq<Seq<char>>
    decreases v.len(),
{
    if v.len() == 0 {
        Seq::empty()
    } else {
        let before = new_lines(v.drop_last(), old_lines, last, above);
        if is_new(v.last().1, old_lines) && is_above(v.last().0, last) == above {
            before.push(v.last().1)
        } else {
            before
        }
    }
}

/// The messages that lines make, with the one that is not complete yet. A line
/// after a dot and a space starts a message; other lines go on with it.
pub open spec fn gathered(ls: Seq<Seq<char>>) -> (Seq<Seq<char>>, Seq<char>)
    decreases ls.len(),
{
    if ls.len() == 0 {
        (Seq::empty(), Seq::empty())
    } else {
        let (done, current) = gathered(ls.drop_last());
        let s = trimmed(ls.last());
        if s.len() == 0 {
            (done, current)
        } else if starts(s, ". "@) {
            (if current.len() > 0 {
                done.push(trimmed(current))
            } else {
                done
            }, s.skip(2))
        } else if current.len() == 0 {
            (done, s)
        } else {
            (done, current + newline() + s)
        }
    }
}

/// The messages that lines make.
pub open spec fn coalesced(ls: Seq<Seq<char>>) -> Seq<Seq<char>> {
    let (done, current) = gathered(ls);
    if current.len() > 0 {
        done.push(trimmed(current))
    } else {
        done
    }
}

/// Gathers lines into messages. A line after a dot and a space starts a message.
pub fn coalesce_new_messages(ls: &[String]) -> (r: Vec<String>)
    ensures
        string_texts(r@) == coalesced(string_texts(ls@)),
{
    let ghost all = string_texts(ls@);
    let mut done: Vec<String> = Vec::new();
    let mut current: Vec<char> = Vec::new();
    let mut i: usize = 0;
    assert(string_texts(done@) =~= Seq::empty());
    while i < ls.len()
        invariant
            i <= ls.len(),
            all == string_texts(ls@),
            (string_texts(done@), current@) == gathered(all.take(i as int)),
        decreases ls.len() - i,
    {
        proof {
            assert(all.take(i + 1).drop_last() =~= all.take(i as int));
            assert(all.take(i + 1).last() == ls[i as int]@);
            reveal_strlit(". ");
        }
        let chars = to_chars(ls[i].as_str());
        let s = trim(chars.as_slice());
        let ghost before = string_texts(done@);
        if s.len() > 0 {
            if str_stands_at(s, 0, ". ") {
                if current.len() > 0 {
                    done.push(from_chars(trim(current.as_slice())));
                    assert(string_texts(done@) =~= before.push(trimmed(current@)));
                }
                current = copied(slice_subrange(s, 2, s.len()));
                assert(current@ =~= s@.skip(2));
            } else if current.len() == 0 {
                current = copied(s);
            } else {
                let ghost was = current@;
                current.push('\n');
                append(&mut current, s);
                assert(current@ =~= was + newline() + s@);
            }
        }
        i += 1;
    }
    assert(all.take(all.len() as int) =~= all);
    if current.len() > 0 {
        let ghost before = string_texts(done@);
        done.push(from_chars(trim(current.as_slice())));
        assert(string_texts(done@) =~= before.push(trimmed(current@)));
    }
    done
}

/// Whether the text is among those of the numbered lines.
fn is_among(v: &Vec<(usize, String)>, line: &[char]) -> (r: bool)
    ensures
        r == among(numbered_texts(v@), line@),
{
    let ghost all = numbered_texts(v@);
    let mut i: usize = 0;
    while i < v.len()
        invariant
            i <= v.len(),
            all == numbered_texts(v@),
            forall|j: int| 0 <= j < i ==> (#[trigger] all[j]).1 != line@,
        decreases v.len() - i,
    {
        if same(to_chars(v[i].1.as_str()).as_slice(), line) {
            assert(all[i as int].1 == line@);
            return true;
        }
        i += 1;
    }
    false
}

/// What changed between two contents of a file: messages deleted, edited and new,
/// and lines that were put in above the last message.
pub open spec fn are_changes(r: FileChanges, old_content: Seq<char>, new_content: Seq<char>) -> bool {
    let old_lines = lines(old_content);
    let ls = lines(new_content);
    let last = last_message_line(ls);
    &&& are_deleted(r.deleted@, messages_on(old_lines), messages_on(ls))
    &&& are_edited(r.edited@, messages_on(old_lines), messages_on(ls))
    &&& string_texts(r.created@) == coalesced(
        new_lines(untagged(ls), untagged(old_lines), last, false),
    )
    &&& string_texts(r.invalid_inserts@) == new_lines(
        untagged(ls),
        untagged(old_lines),
        last,
        true,
    )
}

/// What changed between two contents of a file: messages deleted, edited and new,
/// and lines that were put in above the last message.
pub fn detect_changes_with_new_messages(old_content: &str, new_content: &str) -> (r: FileChanges)
    ensures
        are_changes(r, old_content@, new_content@),
{
    let old_info = parse_file_with_positions(old_content);
    let new_info = parse_file_with_positions(new_content);
    let mut changes = detect_changes(&old_info.tagged_messages, &new_info.tagged_messages);
    let v = new_info.untagged_lines;
    let olds = old_info.untagged_lines;
    let ghost all = numbered_texts(v@);
    let ghost old_lines = numbered_texts(olds@);
    let ghost last = last_message_line(lines(new_content@));
    let mut below: Vec<String> = Vec::new();
    let mut above: Vec<String> = Vec::new();
    let mut i: usize = 0;
    assert(string_texts(below@) =~= Seq::empty());
    assert(string_texts(above@) =~= Seq::empty());
    while i < v.len()
        invariant
            i <= v.len(),
            all == numbered_texts(v@),
            old_lines == numbered_texts(olds@),
            match new_info.last_tagged_line {
                Some(l) => last == Some(l as int),
                None => last is None,
            },
            string_texts(below@) == new_lines(all.take(i as int), old_lines, last, false),
            string_texts(above@) == new_lines(all.take(i as int), old_lines, last, true),
        decreases v.len() - i,
    {
        proof {
            assert(all.take(i + 1).drop_last() =~= all.take(i as int));
            assert(all.take(i + 1).last() == (v[i as int].0 as int, v[i as int].1@));
        }
        let chars = to_chars(v[i].1.as_str());
        let s = trim(chars.as_slice());
        if s.len() > 0 && !is_header_line(s) && !is_among(&olds, chars.as_slice()) {
            let is_insert = match new_info.last_tagged_line {
                Some(l) => v[i].0 <= l,
                None => false,
            };
            let line = from_chars(chars.as_slice());
            if is_insert {
                let ghost before = string_texts(above@);
                above.push(line);
                assert(string_texts(above@) =~= before.push(chars@));
            } else {
                let ghost before = string_texts(below@);
                below.push(line);
                assert(string_texts(below@) =~= before.push(chars@));
            }
        }
        i += 1;
    }
    assert(all.take(all.len() as int) =~= all);
    changes.created = coalesce_new_messages(below.as_slice());
    changes.invalid_inserts = above;
    changes
}

// ---------------------------------------------------------------------------
// Updates
// ---------------------------------------------------------------------------

/// A change of a message to push.
#[derive(Clone, Debug)]
pub enum MessageUpdate {
    Delete { group_id: u64, topic_id: u64, message_id: i32 },
    Edit {
        group_id: u64,
        topic_id: u64,
        message_id: i32,
        new_content: String,
        sender: MessageSender,
    },
    Create { group_id: u64, topic_id: u64, content: String },
}

/// What a change says.
pub enum Update {
    Delete(u64, u64, i32),
    Edit(u64, u64, i32, Seq<char>, MessageSender),
    Create(u64, u64, Seq<char>),
}

impl View for MessageUpdate {
    type V = Update;

    open spec fn view(&self) -> Update {
        match *self {
            MessageUpdate::Delete { group_id, topic_id, message_id } => Update::Delete(
                group_id,
                topic_id,
                message_id,
            ),
            MessageUpdate::Edit {
                group_id,
                topic_id,
                message_id,
                new_content,
                sender,
            } => Update::Edit(group_id, topic_id, message_id, new_content@, sender),
            MessageUpdate::Create { group_id, topic_id, content } => Update::Create(
                group_id,
                topic_id,
                content@,
            ),
        }
    }
}

/// What changes say.
pub open spec fn updates_of(v: Seq<MessageUpdate>) -> Seq<Update> {
    v.map_values(|u: MessageUpdate| u@)
}

/// The updates for changes of a topic's file: deletions, edits, and new messages.
pub open spec fn wanted_updates(
    deleted: Seq<i32>,
    edited: Seq<(i32, String, MessageSender)>,
    created: Seq<String>,
    group: u64,
    topic: u64,
) -> Seq<Update> {
    deleted.map_values(|id: i32| Update::Delete(group, topic, id)) + edited.map_values(
        |e: (i32, String, MessageSender)| Update::Edit(group, topic, e.0, e.1@, e.2),
    ) + created.map_values(|c: String| Update::Create(group, topic, c@))
}

/// The updates to push for changes of a topic's file.
pub fn changes_to_updates(changes: &FileChanges, group_id: u64, topic_id: u64) -> (r: Vec<
    MessageUpdate,
>)
    ensures
        updates_of(r@) == wanted_updates(
            changes.deleted@,
            changes.edited@,
            changes.created@,
            group_id,
            topic_id,
        ),
{
    let ghost d = changes.deleted@.map_values(|id: i32| Update::Delete(group_id, topic_id, id));
    let ghost e = changes.edited@.map_values(
        |e: (i32, String, MessageSender)| Update::Edit(group_id, topic_id, e.0, e.1@, e.2),
    );
    let ghost c = changes.created@.map_values(|c: String| Update::Create(group_id, topic_id, c@));
    let mut r: Vec<MessageUpdate> = Vec::new();
    let mut i: usize = 0;
    while i < changes.deleted.len()
        invariant
            i <= changes.deleted.len(),
            d == changes.deleted@.map_values(|id: i32| Update::Delete(group_id, topic_id, id)),
            updates_of(r@) == d.take(i as int),
        decreases changes.deleted.len() - i,
    {
        let ghost before = updates_of(r@);
        r.push(MessageUpdate::Delete { group_id, topic_id, message_id: changes.deleted[i] });
        assert(updates_of(r@) =~= before.push(d[i as int]));
        i += 1;
    }
    let mut j: usize = 0;
    assert(updates_of(r@) =~= d + e.take(0));
    while j < changes.edited.len()
        invariant
            j <= changes.edited.len(),
            e == changes.edited@.map_values(
                |e: (i32, String, MessageSender)| Update::Edit(group_id, topic_id, e.0, e.1@, e.2),
            ),
            updates_of(r@) == d + e.take(j as int),
        decreases changes.edited.len() - j,
    {
        let ghost before = updates_of(r@);
        let edit = &changes.edited[j];
        r.push(
            MessageUpdate::Edit {
                group_id,
                topic_id,
                message_id: edit.0,
                new_content: edit.1.clone(),
                sender: edit.2,
            },
        );
        assert(updates_of(r@) =~= before.push(e[j as int]));
        assert(d + e.take(j + 1) =~= (d + e.take(j as int)).push(e[j as int]));
        j += 1;
    }
    let mut k: usize = 0;
    assert(updates_of(r@) =~= d + e + c.take(0));
    while k < changes.created.len()
        invariant
            k <= changes.created.len(),
            c == changes.created@.map_values(|c: String| Update::Create(group_id, topic_id, c@)),
            updates_of(r@) == d + e + c.take(k as int),
        decreases changes.created.len() - k,
    {
        let ghost before = updates_of(r@);
        r.push(
            MessageUpdate::Create { group_id, topic_id, content: changes.created[k].clone() },
        );
        assert(updates_of(r@) =~= before.push(c[k as int]));
        assert(d + e + c.take(k + 1) =~= (d + e + c.take(k as int)).push(c[k as int]));
        k += 1;
    }
    assert(c.take(c.len() as int) =~= c);
    r
}

// ---------------------------------------------------------------------------
// Laws
// ---------------------------------------------------------------------------

/// Between a file and itself nothing changed.
pub proof fn law_no_changes(
    content: Seq<char>,
    deleted: Seq<i32>,
    edited: Seq<(i32, String, MessageSender)>,
)
    requires
        are_deleted(deleted, messages_on(lines(content)), messages_on(lines(content))),
        are_edited(edited, messages_on(lines(content)), messages_on(lines(content))),
    ensures
        deleted.len() == 0,
        edited.len() == 0,
        forall|above: bool|
            new_lines(
                untagged(lines(content)),
                untagged(lines(content)),
                last_message_line(lines(content)),
                above,
            ) == Seq::<Seq<char>>::empty(),
        coalesced(Seq::empty()) == Seq::<Seq<char>>::empty(),
{
    if deleted.len() > 0 {
        assert(deleted.contains(deleted[0]));
    }
    if edited.len() > 0 {
        assert(edited_ids(edited).contains(edited_ids(edited)[0]));
    }
    let v = untagged(lines(content));
    let last = last_message_line(lines(content));
    assert forall|above: bool| new_lines(v, v, last, above) == Seq::<Seq<char>>::empty() by {
        lemma_no_new_lines(v, v, last, above, v.len() as int);
        assert(v.take(v.len() as int) =~= v);
    }
}

/// The contents of the messages of a state after they were deleted and edited.
pub open spec fn contents_after(
    state: Map<i32, Parsed>,
    deleted: Seq<i32>,
    edited: Seq<(i32, String, MessageSender)>,
) -> Map<i32, Seq<char>> {
    Map::new(
        |id: i32| state.contains_key(id) && !deleted.contains(id),
        |id: i32|
            if edited_ids(edited).contains(id) {
                edited[edited_ids(edited).index_of(id)].1@
            } else {
                state[id].content
            },
    )
}

/// The deletions and edits lead from the old state to the new one: done to the old
/// messages, they leave those that are still there, with their new contents.
pub proof fn law_changes_lead_to_the_new_state(
    old_state: Map<i32, Parsed>,
    new_state: Map<i32, Parsed>,
    deleted: Seq<i32>,
    edited: Seq<(i32, String, MessageSender)>,
)
    requires
        are_deleted(deleted, old_state, new_state),
        are_edited(edited, old_state, new_state),
    ensures
        forall|id: i32| #[trigger]
            contents_after(old_state, deleted, edited).contains_key(id) <==> old_state.contains_key(
                id,
            ) && new_state.contains_key(id),
        forall|id: i32| #[trigger]
            contents_after(old_state, deleted, edited).contains_key(id) ==> contents_after(
                old_state,
                deleted,
                edited,
            )[id] == new_state[id].content,
{
    let after = contents_after(old_state, deleted, edited);
    assert forall|id: i32| #[trigger] after.contains_key(id) implies after[id]
        == new_state[id].content by {
        assert(deleted.contains(id) <==> old_state.contains_key(id) && !new_state.contains_key(id));
        if edited_ids(edited).contains(id) {
            let i = edited_ids(edited).index_of(id);
            assert(edited_ids(edited)[i] == id);
            assert(edited[i].0 == id);
        } else {
            assert(!was_edited(id, old_state, new_state));
        }
    }
}

proof fn lemma_no_new_lines(
    v: Seq<(int, Seq<char>)>,
    old_lines: Seq<(int, Seq<char>)>,
    last: Option<int>,
    above: bool,
    i: int,
)
    requires
        0 <= i <= v.len(),
        v == old_lines,
    ensures
        new_lines(v.take(i), old_lines, last, above) == Seq::<Seq<char>>::empty(),
    decreases i,
{
    if i > 0 {
        lemma_no_new_lines(v, old_lines, last, above, i - 1);
        assert(v.take(i).drop_last() =~= v.take(i - 1));
        assert(v.take(i).last() == v[i - 1]);
        assert(old_lines[i - 1].1 == v[i - 1].1);
    } else {
        assert(v.take(0) =~= Seq::empty());
    }
}

/// The message that is being gathered: none before the first line that is not blank,
/// and then one that ends in what is no white space.
proof fn lemma_gathered(ls: Seq<Seq<char>>)
    ensures
        gathered(ls).1.len() == 0 ==> gathered(ls).0.len() == 0,
        gathered(ls).1.len() > 0 ==> !whitespace(gathered(ls).1.last()),
    decreases ls.len(),
{
    if ls.len() > 0 {
        lemma_gathered(ls.drop_last());
        let s = trimmed(ls.last());
        let t = trimmed_start(ls.last());
        lemma_trimmed_end(t);
        reveal_strlit(". ");
        if s.len() > 0 && starts(s, ". "@) {
            if s.len() == 2 {
                assert(s.subrange(0, 2)[1] == ' ');
                assert(s.last() == ' ');
            }
            assert(s.skip(2).last() == s.last());
        }
    }
}

/// A text that ends in what is no white space keeps its end when it is trimmed.
proof fn lemma_trimmed_concat(a: Seq<char>, b: Seq<char>)
    requires
        a.len() > 0,
        !whitespace(a.last()),
        b.len() > 0,
        !whitespace(b.last()),
    ensures
        trimmed(a + b) == trimmed(a) + b,
    decreases a.len(),
{
    if whitespace(a[0]) {
        let t = a.skip(1);
        assert(t.len() > 0);
        assert(t.last() == a.last());
        lemma_trimmed_concat(t, b);
        assert((a + b).skip(1) =~= t + b);
        assert((a + b)[0] == a[0]);
    } else {
        assert((a + b)[0] == a[0]);
        assert((a + b).last() == b.last());
    }
}

/// How new lines make messages, line by line. A blank line counts for nothing. A line
/// behind a dot and a space starts a message of its own. Any other line goes on with
/// the last message, on a new line of it, or starts the first one.
pub proof fn law_lines_make_messages(ls: Seq<Seq<char>>, x: Seq<char>)
    ensures
        blank(x) ==> coalesced(ls.push(x)) == coalesced(ls),
        !blank(x) && starts(trimmed(x), seq!['.', ' ']) ==> coalesced(ls.push(x)) == coalesced(
            ls,
        ).push(trimmed(trimmed(x).skip(2))),
        !blank(x) && !starts(trimmed(x), seq!['.', ' ']) && coalesced(ls).len() == 0 ==> coalesced(
            ls.push(x),
        ) == seq![trimmed(x)],
        !blank(x) && !starts(trimmed(x), seq!['.', ' ']) && coalesced(ls).len() > 0 ==> coalesced(
            ls.push(x),
        ) == coalesced(ls).drop_last().push(
            coalesced(ls).last() + seq!['\n'] + trimmed(x),
        ),
{
    reveal_strlit(". ");
    assert(". "@ =~= seq!['.', ' ']);
    let all = ls.push(x);
    assert(all.drop_last() =~= ls);
    let (done, current) = gathered(ls);
    lemma_gathered(ls);
    lemma_gathered(all);
    let s = trimmed(x);
    lemma_trimmed_start(x);
    lemma_trimmed_end(trimmed_start(x));
    if s.len() > 0 && !starts(s, ". "@) {
        assert(s.len() > 0 ==> !whitespace(s[0]));
        lemma_trimmed_same(s);
        if current.len() > 0 {
            lemma_trimmed_concat(current, newline() + s);
            assert(current + newline() + s =~= current + (newline() + s));
            assert(trimmed(current) + (newline() + s) =~= trimmed(current) + newline() + s);
            assert(coalesced(ls).drop_last() =~= done);
        } else {
            assert(done =~= Seq::empty());
            assert(done.push(s) =~= seq![s]);
        }
    }
}

/// Lines none of which is blank or starts with a dot and a space make one message:
/// those lines without the white space around them, in their order.
pub proof fn law_plain_lines_make_one_message(ls: Seq<Seq<char>>)
    requires
        ls.len() > 0,
        forall|i: int|
            0 <= i < ls.len() ==> !blank(#[trigger] ls[i]) && !starts(
                trimmed(ls[i]),
                seq!['.', ' '],
            ),
    ensures
        coalesced(ls) == seq![
            joined(ls.map_values(|line: Seq<char>| trimmed(line)), seq!['\n']),
        ],
    decreases ls.len(),
{
    let front = ls.drop_last();
    let x = ls.last();
    assert(ls =~= front.push(x));
    assert(!blank(ls[ls.len() - 1]));
    law_lines_make_messages(front, x);
    let ts = ls.map_values(|line: Seq<char>| trimmed(line));
    if front.len() > 0 {
        assert forall|i: int| 0 <= i < front.len() implies !blank(#[trigger] front[i]) && !starts(
            trimmed(front[i]),
            seq!['.', ' '],
        ) by {
            assert(front[i] == ls[i]);
        }
        law_plain_lines_make_one_message(front);
        assert(ts.drop_last() =~= front.map_values(|line: Seq<char>| trimmed(line)));
        assert(coalesced(front).drop_last() =~= Seq::empty());
    } else {
        assert(gathered(front).0.len() == 0);
        assert(coalesced(front).len() == 0);
    }
    assert(coalesced(ls) =~= seq![joined(ts, seq!['\n'])]);
}

} // verus!
