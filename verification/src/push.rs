//! Pushing changes: what to ask for, and what to do to the files afterwards.
use vstd::prelude::*;
use vstd::slice::slice_subrange;

use crate::calendar::{Timestamp, lemma_date_exists};
use crate::decimal::{append_decimal, decimal};
use crate::merge::lemma_ids_after_line_end;
use crate::server::{
    appended, format_message_append_with_sender, gap, law_appended_ids, message_tag,
};
use crate::sort::{group_by_key, groups_of};
use crate::sync::{MessageSender, MessageUpdate, Update, updates_of};
use crate::tag::{first_id, opener, read_first_id, tag_ids};
use crate::text::{
    append, append_str, contains_str, copied, find_char, first_index, from_chars, join_lines,
    joined, last_occurrence, lines, newline, occurs, occurs_at, rfind, split_lines, texts, to_chars,
    trim, trimmed,
};
use crate::topics::{distinct_topics, in_topic_order};

verus! {

// ---------------------------------------------------------------------------
// The plan
// ---------------------------------------------------------------------------

/// The deletions among the updates: the group, and the topic and the message in it.
pub open spec fn deletions_in(us: Seq<Update>) -> Seq<(u64, (u64, i32))>
    decreases us.len(),
{
    if us.len() == 0 {
        Seq::empty()
    } else {
        let before = deletions_in(us.drop_last());
        match us.last() {
            Update::Delete(group, topic, id) => before.push((group, (topic, id))),
            _ => before,
        }
    }
}

/// The edits among the updates.
pub open spec fn edits_in(us: Seq<Update>) -> Seq<Update>
    decreases us.len(),
{
    if us.len() == 0 {
        Seq::empty()
    } else if us.last() is Edit {
        edits_in(us.drop_last()).push(us.last())
    } else {
        edits_in(us.drop_last())
    }
}

/// The new messages among the updates.
pub open spec fn creates_in(us: Seq<Update>) -> Seq<Update>
    decreases us.len(),
{
    if us.len() == 0 {
        Seq::empty()
    } else if us.last() is Create {
        creates_in(us.drop_last()).push(us.last())
    } else {
        creates_in(us.drop_last())
    }
}

/// An edit to make.
#[derive(Clone, Debug)]
pub struct PlannedEdit {
    pub group_id: u64,
    pub topic_id: u64,
    pub message_id: i32,
    pub new_content: String,
    pub sender: MessageSender,
}

/// A message to send.
#[derive(Clone, Debug)]
pub struct PlannedMessage {
    pub group_id: u64,
    pub topic_id: u64,
    pub content: String,
}

impl View for PlannedEdit {
    type V = Update;

    open spec fn view(&self) -> Update {
        Update::Edit(
            self.group_id,
            self.topic_id,
            self.message_id,
            self.new_content@,
            self.sender,
        )
    }
}

impl View for PlannedMessage {
    type V = Update;

    open spec fn view(&self) -> Update {
        Update::Create(self.group_id, self.topic_id, self.content@)
    }
}

/// What to ask for: the deletions of each group, the edits, and the messages to send.
pub struct PushPlan {
    pub deletions: Vec<(u64, Vec<(u64, i32)>)>,
    pub edits: Vec<PlannedEdit>,
    pub creates: Vec<PlannedMessage>,
    /// The number of deletions.
    pub delete_count: usize,
}

/// Plans the updates: deletions together by their groups, edits and new messages
/// in their order.
pub fn plan_push(updates: &Vec<MessageUpdate>) -> (r: PushPlan)
    ensures
        groups_of(r.deletions@, deletions_in(updates_of(updates@))),
        r.delete_count == deletions_in(updates_of(updates@)).len(),
        r.edits@.map_values(|e: PlannedEdit| e@) == edits_in(updates_of(updates@)),
        r.creates@.map_values(|c: PlannedMessage| c@) == creates_in(updates_of(updates@)),
{
    let ghost all = updates_of(updates@);
    let mut deletions: Vec<(u64, (u64, i32))> = Vec::new();
    let mut edits: Vec<PlannedEdit> = Vec::new();
    let mut creates: Vec<PlannedMessage> = Vec::new();
    let mut i: usize = 0;
    assert(edits@.map_values(|e: PlannedEdit| e@) =~= Seq::empty());
    assert(creates@.map_values(|c: PlannedMessage| c@) =~= Seq::empty());
    while i < updates.len()
        invariant
            i <= updates.len(),
            all == updates_of(updates@),
            deletions@ == deletions_in(all.take(i as int)),
            edits@.map_values(|e: PlannedEdit| e@) == edits_in(all.take(i as int)),
            creates@.map_values(|c: PlannedMessage| c@) == creates_in(all.take(i as int)),
        decreases updates.len() - i,
    {
        proof {
            assert(all.take(i + 1).drop_last() =~= all.take(i as int));
            assert(all.take(i + 1).last() == updates[i as int]@);
        }
        let ghost old_edits = edits@.map_values(|e: PlannedEdit| e@);
        let ghost old_creates = creates@.map_values(|c: PlannedMessage| c@);
        match &updates[i] {
            MessageUpdate::Delete { group_id, topic_id, message_id } => {
                deletions.push((*group_id, (*topic_id, *message_id)));
            },
            MessageUpdate::Edit { group_id, topic_id, message_id, new_content, sender } => {
                edits.push(
                    PlannedEdit {
                        group_id: *group_id,
                        topic_id: *topic_id,
                        message_id: *message_id,
                        new_content: new_content.clone(),
                        sender: *sender,
                    },
                );
                assert(edits@.map_values(|e: PlannedEdit| e@) =~= old_edits.push(
                    updates[i as int]@,
                ));
            },
            MessageUpdate::Create { group_id, topic_id, content } => {
                creates.push(
                    PlannedMessage {
                        group_id: *group_id,
                        topic_id: *topic_id,
                        content: content.clone(),
                    },
                );
                assert(creates@.map_values(|c: PlannedMessage| c@) =~= old_creates.push(
                    updates[i as int]@,
                ));
            },
        }
        i += 1;
    }
    assert(all.take(all.len() as int) =~= all);
    let delete_count = deletions.len();
    PushPlan { deletions: group_by_key(&deletions), edits, creates, delete_count }
}

/// What is about to be pushed.
pub open spec fn notice(deletions: int, edits: int, creates: int) -> Seq<char> {
    "Pushing "@ + decimal(deletions + edits + creates) + " updates ("@ + decimal(deletions)
        + " deletions, "@ + decimal(edits) + " edits, "@ + decimal(creates) + " creates)"@
}

/// What is about to be pushed.
pub fn push_notice(plan: &PushPlan) -> (r: String)
    ensures
        r@ == notice(plan.delete_count as int, plan.edits.len() as int, plan.creates.len() as int),
{
    let (deletions, edits, creates) = (plan.delete_count, plan.edits.len(), plan.creates.len());
    let mut v = to_chars("Pushing ");
    append_decimal(&mut v, deletions as u128 + edits as u128 + creates as u128);
    append_str(&mut v, " updates (");
    append_decimal(&mut v, deletions as u128);
    append_str(&mut v, " deletions, ");
    append_decimal(&mut v, edits as u128);
    append_str(&mut v, " edits, ");
    append_decimal(&mut v, creates as u128);
    append_str(&mut v, " creates)");
    from_chars(v.as_slice())
}

/// The most updates to push without asking.
pub const CONFIRM_ABOVE: usize = 25;

/// So many updates are pushed only after a question.
pub open spec fn asks_first(total: int) -> bool {
    total > CONFIRM_ABOVE
}

/// Whether to ask before so many updates are pushed.
pub fn needs_confirmation(total: usize) -> (r: bool)
    ensures
        r == asks_first(total as int),
{
    total > CONFIRM_ABOVE
}

/// The answer to a question is yes: the letter y, in either case.
pub open spec fn says_yes(answer: Seq<char>) -> bool {
    trimmed(answer) == seq!['y'] || trimmed(answer) == seq!['Y']
}

/// Whether the answer to a question is yes.
pub fn is_yes(answer: &str) -> (r: bool)
    ensures
        r == says_yes(answer@),
{
    let chars = to_chars(answer);
    let s = trim(chars.as_slice());
    let r = s.len() == 1 && (s[0] == 'y' || s[0] == 'Y');
    proof {
        if s@.len() == 1 {
            assert(s@[0] == 'y' ==> s@ =~= seq!['y']);
            assert(s@[0] == 'Y' ==> s@ =~= seq!['Y']);
        }
        assert(s@ == seq!['y'] ==> s@[0] == 'y');
        assert(s@ == seq!['Y'] ==> s@[0] == 'Y');
    }
    r
}

/// The plan needs a user's client: bots can only send.
pub open spec fn asks_for_client(plan: PushPlan) -> bool {
    plan.delete_count > 0 || plan.edits.len() > 0
}

/// Whether the plan needs a user's client: bots can only send.
pub fn needs_client(plan: &PushPlan) -> (r: bool)
    ensures
        r == asks_for_client(*plan),
{
    plan.delete_count > 0 || plan.edits.len() > 0
}

/// How a message is edited.
#[derive(Clone, Copy, Debug, Eq, PartialEq, Structural)]
pub enum EditRoute {
    /// With the bot's token.
    BotApi,
    /// With the user's client.
    Client,
}

/// How a message is edited: only its sender can edit it.
pub open spec fn route_of(sender: MessageSender) -> EditRoute {
    match sender {
        MessageSender::Bot => EditRoute::BotApi,
        MessageSender::User => EditRoute::Client,
    }
}

/// How a message is edited: only its sender can edit it.
pub fn edit_route(sender: MessageSender) -> (r: EditRoute)
    ensures
        r == route_of(sender),
{
    match sender {
        MessageSender::Bot => EditRoute::BotApi,
        MessageSender::User => EditRoute::Client,
    }
}

// ---------------------------------------------------------------------------
// Deleted messages
// ---------------------------------------------------------------------------

/// The first tag on the line is that of one of these messages.
pub open spec fn is_of(line: Seq<char>, ids: Seq<i32>) -> bool {
    match first_id(line) {
        Some(id) => ids.contains(id as i32),
        None => false,
    }
}

/// The lines that hold none of these messages.
pub open spec fn lines_without(ls: Seq<Seq<char>>, ids: Seq<i32>) -> Seq<Seq<char>>
    decreases ls.len(),
{
    if ls.len() == 0 {
        Seq::empty()
    } else if is_of(ls.last(), ids) {
        lines_without(ls.drop_last(), ids)
    } else {
        lines_without(ls.drop_last(), ids).push(ls.last())
    }
}

/// Whether the id is among the given ones.
fn holds_message_id(ids: &Vec<i32>, id: i32) -> (r: bool)
    ensures
        r == ids@.contains(id),
{
    let mut i: usize = 0;
    while i < ids.len()
        invariant
            i <= ids.len(),
            forall|j: int| 0 <= j < i ==> ids@[j] != id,
        decreases ids.len() - i,
    {
        if ids[i] == id {
            assert(ids@[i as int] == id);
            return true;
        }
        i += 1;
    }
    false
}

/// Whether the first tag on the line is that of one of these messages.
fn line_is_of(line: &[char], ids: &Vec<i32>) -> (r: bool)
    ensures
        r == is_of(line@, ids@),
{
    match read_first_id(line) {
        Some(id) => holds_message_id(ids, id),
        None => false,
    }
}

/// A file's content without the lines of deleted messages, and the number of
/// those lines, where there are any.
pub open spec fn is_removal(
    content: Seq<char>,
    ids: Seq<i32>,
    new: Seq<char>,
    removed: int,
) -> bool {
    let ls = lines(content);
    let left = lines_without(ls, ids);
    removed > 0 && removed == ls.len() - left.len() && new == joined(left, newline())
}

/// A file's content without the lines of deleted messages, and the number of
/// those lines, where there are any.
pub fn remove_deleted_lines(content: &str, ids: &Vec<i32>) -> (r: Option<(String, usize)>)
    ensures
        match r {
            Some((new, removed)) => is_removal(content@, ids@, new@, removed as int),
            None => lines_without(lines(content@), ids@).len() == lines(content@).len(),
        },
{
    let ls = split_lines(to_chars(content).as_slice());
    let ghost all = texts(ls@);
    let mut out: Vec<Vec<char>> = Vec::new();
    let mut removed: usize = 0;
    let mut i: usize = 0;
    assert(texts(out@) =~= Seq::empty());
    while i < ls.len()
        invariant
            i <= ls.len(),
            all == texts(ls@),
            texts(out@) == lines_without(all.take(i as int), ids@),
            removed == i - out.len(),
        decreases ls.len() - i,
    {
        proof {
            assert(all.take(i + 1).drop_last() =~= all.take(i as int));
            assert(all.take(i + 1).last() == ls[i as int]@);
        }
        if line_is_of(ls[i].as_slice(), ids) {
            removed += 1;
        } else {
            let ghost before = texts(out@);
            out.push(copied(ls[i].as_slice()));
            assert(texts(out@) =~= before.push(ls[i as int]@));
        }
        i += 1;
    }
    proof {
        assert(all.take(all.len() as int) =~= all);
        assert(texts(out@).len() == out.len());
        assert(all.len() == ls.len());
    }
    if removed > 0 {
        Some((from_chars(join_lines(&out).as_slice()), removed))
    } else {
        None
    }
}

// ---------------------------------------------------------------------------
// New messages
// ---------------------------------------------------------------------------

/// The rest of the line from position `i` on.
pub open spec fn rest_of_line(s: Seq<char>, i: int) -> Seq<char> {
    s.skip(i).take(first_index(s.skip(i), '\n'))
}

/// The pattern stands in the text, and no tag opens behind its last occurrence on
/// the same line.
pub open spec fn stands_untagged(s: Seq<char>, p: Seq<char>) -> bool {
    occurs(s, p) && !occurs(rest_of_line(s, last_place(s, p) + p.len()), opener())
}

/// The place of the last occurrence of a pattern.
pub open spec fn last_place(s: Seq<char>, p: Seq<char>) -> int {
    choose|i: int| last_occurrence(s, p, i)
}

/// The text without the last occurrence of a pattern.
pub open spec fn without_last(s: Seq<char>, p: Seq<char>) -> Seq<char> {
    s.take(last_place(s, p)) + s.skip(last_place(s, p) + p.len())
}

/// The text without a message that stands in it without a tag: on a line of its
/// own after a dot and a space, or at the start of a line, or anywhere.
pub open spec fn without_sent(s: Seq<char>, message: Seq<char>) -> Seq<char> {
    let dotted = "\n. "@ + message;
    let on_line = "\n"@ + message;
    if stands_untagged(s, dotted) {
        without_last(s, dotted)
    } else if stands_untagged(s, on_line) {
        without_last(s, on_line)
    } else if stands_untagged(s, message) {
        without_last(s, message)
    } else {
        s
    }
}

/// The text without the messages that stand in it without tags.
pub open spec fn without_all_sent(s: Seq<char>, sent: Seq<(Seq<char>, i32)>) -> Seq<char>
    decreases sent.len(),
{
    if sent.len() == 0 {
        s
    } else {
        without_sent(without_all_sent(s, sent.drop_last()), sent.last().0)
    }
}

/// The text, which was last written to at the given time, with the messages behind
/// it, each with its tag and, where time went by since the last write, set apart.
pub open spec fn with_all_sent(
    s: Seq<char>,
    sent: Seq<(Seq<char>, i32)>,
    last: Option<Timestamp>,
    now: Timestamp,
) -> Seq<char>
    decreases sent.len(),
{
    if sent.len() == 0 {
        s
    } else {
        let front = sent.drop_last();
        with_all_sent(s, front, last, now) + appended(
            sent.last().0,
            Some(message_tag(sent.last().1 as int, now.second(), None, false, None)),
            gap(if front.len() == 0 {
                last
            } else {
                Some(now)
            }, now),
        )
    }
}

/// The texts and ids of sent messages.
pub open spec fn sent_texts(v: Seq<(String, i32)>) -> Seq<(Seq<char>, i32)> {
    v.map_values(|m: (String, i32)| (m.0@, m.1))
}

proof fn lemma_last_place(s: Seq<char>, p: Seq<char>, i: int)
    requires
        last_occurrence(s, p, i),
    ensures
        last_place(s, p) == i,
        occurs(s, p),
{
    let j = last_place(s, p);
    assert(last_occurrence(s, p, j));
    if i < j {
        assert(!occurs_at(s, j, p));
    } else if j < i {
        assert(!occurs_at(s, i, p));
    }
}

/// The text without the last occurrence of the pattern, where no tag opens behind
/// it on the same line.
fn remove_untagged(s: &[char], p: &[char]) -> (r: Option<Vec<char>>)
    ensures
        match r {
            Some(t) => stands_untagged(s@, p@) && t@ == without_last(s@, p@),
            None => !stands_untagged(s@, p@),
        },
{
    match rfind(s, p) {
        None => None,
        Some(i) => {
            proof {
                lemma_last_place(s@, p@, i as int);
                assert(i + p@.len() <= s.len());
            }
            let e = i + p.len();
            let stop = find_char(s, e, '\n');
            let rest = slice_subrange(s, e, stop);
            assert(rest@ =~= rest_of_line(s@, e as int));
            if contains_str(rest, "<!-- msg:") {
                return None;
            }
            let mut t = copied(slice_subrange(s, 0, i));
            let tail = slice_subrange(s, e, s.len());
            append(&mut t, tail);
            assert(t@ =~= without_last(s@, p@));
            Some(t)
        },
    }
}

/// The text without a message that stands in it without a tag.
fn remove_sent(s: &[char], message: &[char]) -> (r: Vec<char>)
    ensures
        r@ == without_sent(s@, message@),
{
    let mut dotted = to_chars("\n. ");
    append(&mut dotted, message);
    match remove_untagged(s, dotted.as_slice()) {
        Some(t) => {
            return t;
        },
        None => {},
    }
    let mut on_line = to_chars("\n");
    append(&mut on_line, message);
    match remove_untagged(s, on_line.as_slice()) {
        Some(t) => {
            return t;
        },
        None => {},
    }
    match remove_untagged(s, message) {
        Some(t) => t,
        None => copied(s),
    }
}

/// A file's content after messages were sent: each is taken out where it stands
/// without a tag, and then all are put behind the rest with their tags. The file was
/// last written to at the given time, where that is known.
pub fn tag_sent_messages(
    content: &str,
    sent: &Vec<(String, i32)>,
    last_write: Option<Timestamp>,
    now: Timestamp,
) -> (r: String)
    requires
        now.valid(),
        last_write is Some ==> last_write->0.valid(),
    ensures
        r@ == with_all_sent(
            without_all_sent(content@, sent_texts(sent@)),
            sent_texts(sent@),
            last_write,
            now,
        ),
{
    let ghost all = sent_texts(sent@);
    let mut text = to_chars(content);
    let mut i: usize = 0;
    while i < sent.len()
        invariant
            i <= sent.len(),
            all == sent_texts(sent@),
            text@ == without_all_sent(content@, all.take(i as int)),
        decreases sent.len() - i,
    {
        proof {
            assert(all.take(i + 1).drop_last() =~= all.take(i as int));
            assert(all.take(i + 1).last() == (sent[i as int].0@, sent[i as int].1));
        }
        text = remove_sent(text.as_slice(), to_chars(sent[i].0.as_str()).as_slice());
        i += 1;
    }
    assert(all.take(all.len() as int) =~= all);
    let ghost base = text@;
    let mut last = last_write;
    let mut k: usize = 0;
    while k < sent.len()
        invariant
            k <= sent.len(),
            now.valid(),
            last is Some ==> last->0.valid(),
            last == (if k == 0 {
                last_write
            } else {
                Some(now)
            }),
            all == sent_texts(sent@),
            text@ == with_all_sent(base, all.take(k as int), last_write, now),
        decreases sent.len() - k,
    {
        proof {
            assert(all.take(k + 1).drop_last() =~= all.take(k as int));
            assert(all.take(k + 1).last() == (sent[k as int].0@, sent[k as int].1));
        }
        let formatted = format_message_append_with_sender(
            sent[k].0.as_str(),
            last,
            now,
            Some(sent[k].1),
            None,
        );
        append_str(&mut text, formatted.as_str());
        last = Some(now);
        k += 1;
    }
    assert(all.take(all.len() as int) =~= all);
    from_chars(text.as_slice())
}

/// A message that was sent, with its id.
#[derive(Clone, Debug)]
pub struct SentMessage {
    pub group_id: u64,
    pub topic_id: u64,
    pub content: String,
    pub message_id: i32,
}

/// The messages that were sent to a topic of a group, in order.
pub open spec fn sent_to(all: Seq<SentMessage>, group: u64, topic: u64) -> Seq<(Seq<char>, i32)>
    decreases all.len(),
{
    if all.len() == 0 {
        Seq::empty()
    } else {
        let before = sent_to(all.drop_last(), group, topic);
        let m = all.last();
        if m.group_id == group && m.topic_id == topic {
            before.push((m.content@, m.message_id))
        } else {
            before
        }
    }
}

/// The messages that were sent to one topic.
pub struct TopicMessages {
    pub group_id: u64,
    pub topic_id: u64,
    pub messages: Vec<(String, i32)>,
}

/// The topics of the messages.
pub open spec fn topics_of_messages(v: Seq<TopicMessages>) -> Seq<(u64, u64)> {
    v.map_values(|t: TopicMessages| (t.group_id, t.topic_id))
}

/// The topics to which messages were sent.
pub open spec fn sent_places(all: Seq<SentMessage>) -> Seq<(u64, u64)> {
    all.map_values(|m: SentMessage| (m.group_id, m.topic_id))
}

/// Sent messages by their topics, each topic once and in order.
pub open spec fn are_by_topic(r: Seq<TopicMessages>, all: Seq<SentMessage>) -> bool {
    &&& in_topic_order(topics_of_messages(r))
    &&& forall|t: (u64, u64)| #[trigger]
        topics_of_messages(r).contains(t) <==> sent_places(all).contains(t)
    &&& forall|i: int|
        0 <= i < r.len() ==> sent_texts((#[trigger] r[i]).messages@) == sent_to(
            all,
            r[i].group_id,
            r[i].topic_id,
        )
}

/// The messages that were sent to a topic.
fn collect_sent(all: &Vec<SentMessage>, group: u64, topic: u64) -> (r: Vec<(String, i32)>)
    ensures
        sent_texts(r@) == sent_to(all@, group, topic),
{
    let mut r: Vec<(String, i32)> = Vec::new();
    let mut i: usize = 0;
    assert(sent_texts(r@) =~= Seq::empty());
    while i < all.len()
        invariant
            i <= all.len(),
            sent_texts(r@) == sent_to(all@.take(i as int), group, topic),
        decreases all.len() - i,
    {
        assert(all@.take(i + 1).drop_last() =~= all@.take(i as int));
        let m = &all[i];
        if m.group_id == group && m.topic_id == topic {
            let ghost before = sent_texts(r@);
            r.push((m.content.clone(), m.message_id));
            assert(sent_texts(r@) =~= before.push((m.content@, m.message_id)));
        }
        i += 1;
    }
    assert(all@.take(all@.len() as int) =~= all@);
    r
}

/// The topics to which messages were sent.
fn places_of(all: &Vec<SentMessage>) -> (r: Vec<(u64, u64)>)
    ensures
        r@ == sent_places(all@),
{
    let mut r: Vec<(u64, u64)> = Vec::new();
    let mut i: usize = 0;
    while i < all.len()
        invariant
            i <= all.len(),
            r@ == sent_places(all@).take(i as int),
        decreases all.len() - i,
    {
        r.push((all[i].group_id, all[i].topic_id));
        i += 1;
        assert(r@ =~= sent_places(all@).take(i as int));
    }
    assert(r@ =~= sent_places(all@));
    r
}

/// The messages that were sent, by their groups and topics.
pub fn sent_by_topic(all: &Vec<SentMessage>) -> (r: Vec<TopicMessages>)
    ensures
        are_by_topic(r@, all@),
{
    let topics = distinct_topics(&places_of(all));
    let mut r: Vec<TopicMessages> = Vec::new();
    let mut i: usize = 0;
    assert(topics_of_messages(r@) =~= topics@.take(0));
    while i < topics.len()
        invariant
            i <= topics.len(),
            topics_of_messages(r@) == topics@.take(i as int),
            forall|i: int|
                0 <= i < r.len() ==> sent_texts((#[trigger] r@[i]).messages@) == sent_to(
                    all@,
                    r@[i].group_id,
                    r@[i].topic_id,
                ),
        decreases topics.len() - i,
    {
        let (group_id, topic_id) = topics[i];
        let ghost before = topics_of_messages(r@);
        r.push(TopicMessages { group_id, topic_id, messages: collect_sent(all, group_id, topic_id) });
        proof {
            assert(topics_of_messages(r@) =~= before.push((group_id, topic_id)));
            assert(topics@.take(i + 1) =~= topics@.take(i as int).push(topics@[i as int]));
        }
        i += 1;
    }
    assert(topics@.take(topics@.len() as int) =~= topics@);
    r
}

// ---------------------------------------------------------------------------
// Laws
// ---------------------------------------------------------------------------

/// Every update is planned: as a deletion, as an edit or as a message to send.
pub proof fn law_every_update_is_planned(us: Seq<Update>)
    ensures
        deletions_in(us).len() + edits_in(us).len() + creates_in(us).len() == us.len(),
    decreases us.len(),
{
    if us.len() > 0 {
        law_every_update_is_planned(us.drop_last());
    }
}

/// Of deleted messages no line is left, and every other line stays, in order.
pub proof fn law_deleted_lines_are_gone(ls: Seq<Seq<char>>, ids: Seq<i32>)
    ensures
        lines_without(ls, ids) == ls.filter(|line: Seq<char>| !is_of(line, ids)),
        forall|i: int|
            0 <= i < lines_without(ls, ids).len() ==> !is_of(
                #[trigger] lines_without(ls, ids)[i],
                ids,
            ),
    decreases ls.len(),
{
    reveal(Seq::filter);
    if ls.len() > 0 {
        law_deleted_lines_are_gone(ls.drop_last(), ids);
    }
}

/// The ids that sent messages bring: those of tags in their own texts, each
/// followed by that of the message.
pub open spec fn ids_sent(sent: Seq<(Seq<char>, i32)>) -> Seq<int>
    decreases sent.len(),
{
    if sent.len() == 0 {
        Seq::empty()
    } else {
        ids_sent(sent.drop_last()) + tag_ids(sent.last().0).push(sent.last().1 as int)
    }
}

/// Behind a text whose last line is closed every sent message has its tag: the ids
/// of the messages follow those of the text, in order.
pub proof fn law_sent_messages_are_tagged(
    text: Seq<char>,
    sent: Seq<(Seq<char>, i32)>,
    last: Option<Timestamp>,
    now: Timestamp,
)
    requires
        now.valid(),
        text.len() == 0 || text.last() == '\n',
        forall|i: int| 0 <= i < sent.len() ==> (#[trigger] sent[i]).1 >= 0,
    ensures
        tag_ids(with_all_sent(text, sent, last, now)) == tag_ids(text) + ids_sent(sent),
        with_all_sent(text, sent, last, now).len() == 0 || with_all_sent(
            text,
            sent,
            last,
            now,
        ).last() == '\n',
    decreases sent.len(),
{
    if sent.len() == 0 {
        assert(tag_ids(text) + Seq::<int>::empty() =~= tag_ids(text));
    } else {
        let front = sent.drop_last();
        assert forall|i: int| 0 <= i < front.len() implies (#[trigger] front[i]).1 >= 0 by {
            assert(sent[i] == front[i]);
        }
        law_sent_messages_are_tagged(text, front, last, now);
        let before = with_all_sent(text, front, last, now);
        let m = sent.last();
        assert(sent[sent.len() - 1].1 >= 0);
        reveal_strlit("\n");
        let tag = message_tag(m.1 as int, now.second(), None, false, None);
        let g = gap(if front.len() == 0 {
            last
        } else {
            Some(now)
        }, now);
        lemma_date_exists(now);
        law_appended_ids(m.0, m.1 as int, now.second(), None, None, g);
        let new = appended(m.0, Some(tag), g);
        lemma_ids_after_line_end(before, new);
        assert(new.last() == '\n');
        assert((before + new).last() == new.last());
        assert(tag_ids(text) + ids_sent(front) + tag_ids(m.0).push(m.1 as int) =~= tag_ids(text) + (
        ids_sent(front) + tag_ids(m.0).push(m.1 as int)));
    }
}

} // verus!
