//! What came of a push.
use vstd::prelude::*;

use crate::decimal::{append_decimal, append_numeral, decimal, numeral};
use crate::push::{PlannedEdit, PlannedMessage, SentMessage};
use crate::results::{CreateResult, MessageResult, OpResult};
use crate::sync::{MessageSender, lemma_push_contains};
use crate::text::{append_str, from_chars};
use crate::topics::{distinct_topics, in_topic_order};

verus! {

// ---------------------------------------------------------------------------
// Outcomes
// ---------------------------------------------------------------------------

/// What came of an update: of which group, of which message or topic, whether it
/// succeeded, and a note.
pub struct Outcome {
    pub group: u64,
    pub id: int,
    pub success: bool,
    pub note: Seq<char>,
}

/// What came of updates of messages.
pub open spec fn message_outcomes(v: Seq<MessageResult>) -> Seq<Outcome> {
    v.map_values(
        |m: MessageResult|
            Outcome {
                group: m.group_id,
                id: m.message_id as int,
                success: m.result.success,
                note: m.result.message@,
            },
    )
}

/// What came of messages to send.
pub open spec fn create_outcomes(v: Seq<CreateResult>) -> Seq<Outcome> {
    v.map_values(
        |c: CreateResult|
            Outcome {
                group: c.group_id,
                id: c.topic_id as int,
                success: c.result.success,
                note: c.result.message@,
            },
    )
}

// ---------------------------------------------------------------------------
// Deletions
// ---------------------------------------------------------------------------

/// A deletion took place: messages were deleted. The reply does not say which
/// ones; where any were, all count as deleted.
pub open spec fn took_place(reply: Result<usize, String>) -> bool {
    match reply {
        Ok(count) => count > 0,
        Err(_) => false,
    }
}

/// The note on the deletions of a group.
pub open spec fn deletion_note(group: u64, reply: Result<usize, String>) -> Seq<char> {
    match reply {
        Ok(count) => if count > 0 {
            "Deleted "@ + decimal(count as int) + " message(s) from group "@ + decimal(group as int)
        } else {
            "No messages were deleted from Telegram, local files unchanged"@
        },
        Err(e) => "Failed to delete from group "@ + decimal(group as int) + ": "@ + e@,
    }
}

/// What came of the deletions of a group.
pub open spec fn group_outcomes(
    group: u64,
    items: Seq<(u64, i32)>,
    reply: Result<usize, String>,
) -> Seq<Outcome> {
    items.map_values(
        |item: (u64, i32)|
            Outcome {
                group,
                id: item.1 as int,
                success: took_place(reply),
                note: deletion_note(group, reply),
            },
    )
}

/// What came of the deletions of all groups.
pub open spec fn deletion_outcomes(
    groups: Seq<(u64, Vec<(u64, i32)>)>,
    replies: Seq<Result<usize, String>>,
) -> Seq<Outcome>
    decreases groups.len(),
{
    if groups.len() == 0 {
        Seq::empty()
    } else {
        deletion_outcomes(groups.drop_last(), replies.drop_last()) + group_outcomes(
            groups.last().0,
            groups.last().1@,
            replies.last(),
        )
    }
}

/// The messages of the deletions that took place, with their groups and topics.
pub open spec fn deleted(
    groups: Seq<(u64, Vec<(u64, i32)>)>,
    replies: Seq<Result<usize, String>>,
) -> Seq<((u64, u64), i32)>
    decreases groups.len(),
{
    if groups.len() == 0 {
        Seq::empty()
    } else {
        let before = deleted(groups.drop_last(), replies.drop_last());
        if took_place(replies.last()) {
            before + placed_in(groups.last().0, groups.last().1@)
        } else {
            before
        }
    }
}

/// The messages with the group before their topics.
pub open spec fn placed_in(group: u64, items: Seq<(u64, i32)>) -> Seq<((u64, u64), i32)> {
    items.map_values(|item: (u64, i32)| ((group, item.0), item.1))
}

/// The messages of a topic.
pub open spec fn ids_at(items: Seq<((u64, u64), i32)>, topic: (u64, u64)) -> Seq<i32>
    decreases items.len(),
{
    if items.len() == 0 {
        Seq::empty()
    } else if items.last().0 == topic {
        ids_at(items.drop_last(), topic).push(items.last().1)
    } else {
        ids_at(items.drop_last(), topic)
    }
}

/// The topics of messages.
pub open spec fn topics_among(items: Seq<((u64, u64), i32)>) -> Seq<(u64, u64)> {
    items.map_values(|item: ((u64, u64), i32)| item.0)
}

/// Whether a deletion took place.
pub fn deletion_took_place(reply: &Result<usize, String>) -> (r: bool)
    ensures
        r == took_place(*reply),
{
    match reply {
        Ok(count) => *count > 0,
        Err(_) => false,
    }
}

/// The note on the deletions of a group.
fn write_deletion_note(group: u64, reply: &Result<usize, String>) -> (r: String)
    ensures
        r@ == deletion_note(group, *reply),
{
    let mut v: Vec<char> = Vec::new();
    match reply {
        Ok(count) => if *count > 0 {
            append_str(&mut v, "Deleted ");
            append_decimal(&mut v, *count as u128);
            append_str(&mut v, " message(s) from group ");
            append_decimal(&mut v, group as u128);
            assert(v@ =~= deletion_note(group, *reply));
        } else {
            append_str(&mut v, "No messages were deleted from Telegram, local files unchanged");
            assert(v@ =~= deletion_note(group, *reply));
        },
        Err(e) => {
            append_str(&mut v, "Failed to delete from group ");
            append_decimal(&mut v, group as u128);
            append_str(&mut v, ": ");
            append_str(&mut v, e.as_str());
            assert(v@ =~= deletion_note(group, *reply));
        },
    }
    from_chars(v.as_slice())
}

/// What came of the deletions, by the reply to each group's.
pub fn settle_deletions(
    groups: &Vec<(u64, Vec<(u64, i32)>)>,
    replies: &Vec<Result<usize, String>>,
) -> (r: Vec<MessageResult>)
    requires
        groups.len() == replies.len(),
    ensures
        message_outcomes(r@) == deletion_outcomes(groups@, replies@),
{
    let mut r: Vec<MessageResult> = Vec::new();
    let mut i: usize = 0;
    assert(message_outcomes(r@) =~= Seq::empty());
    while i < groups.len()
        invariant
            i <= groups.len(),
            groups.len() == replies.len(),
            message_outcomes(r@) == deletion_outcomes(
                groups@.take(i as int),
                replies@.take(i as int),
            ),
        decreases groups.len() - i,
    {
        let group_id = groups[i].0;
        let items = &groups[i].1;
        let ghost before = message_outcomes(r@);
        let ghost part = group_outcomes(group_id, items@, replies@[i as int]);
        let mut k: usize = 0;
        assert(before + part.take(0) =~= before);
        while k < items.len()
            invariant
                k <= items.len(),
                i < replies.len(),
                part == group_outcomes(group_id, items@, replies@[i as int]),
                message_outcomes(r@) == before + part.take(k as int),
            decreases items.len() - k,
        {
            let ghost had = message_outcomes(r@);
            let result = OpResult {
                success: deletion_took_place(&replies[i]),
                message: write_deletion_note(group_id, &replies[i]),
            };
            r.push(MessageResult { group_id, message_id: items[k].1, result });
            assert(message_outcomes(r@) =~= had.push(part[k as int]));
            k += 1;
            assert(message_outcomes(r@) =~= before + part.take(k as int));
        }
        proof {
            assert(part.take(part.len() as int) =~= part);
            assert(groups@.take(i + 1).drop_last() =~= groups@.take(i as int));
            assert(replies@.take(i + 1).drop_last() =~= replies@.take(i as int));
        }
        i += 1;
    }
    assert(groups@.take(groups@.len() as int) =~= groups@);
    assert(replies@.take(replies@.len() as int) =~= replies@);
    r
}

/// The messages of one topic whose lines are to go.
pub struct TopicDeletions {
    pub group_id: u64,
    pub topic_id: u64,
    pub message_ids: Vec<i32>,
}

/// The topics whose lines are to go.
pub open spec fn deletion_topics(v: Seq<TopicDeletions>) -> Seq<(u64, u64)> {
    v.map_values(|t: TopicDeletions| (t.group_id, t.topic_id))
}

/// The messages whose lines are to go, by their topics, each topic once and in order.
pub open spec fn are_removals(
    r: Seq<TopicDeletions>,
    groups: Seq<(u64, Vec<(u64, i32)>)>,
    replies: Seq<Result<usize, String>>,
) -> bool {
    let gone = deleted(groups, replies);
    &&& in_topic_order(deletion_topics(r))
    &&& forall|t: (u64, u64)| #[trigger]
        deletion_topics(r).contains(t) <==> topics_among(gone).contains(t)
    &&& forall|i: int|
        0 <= i < r.len() ==> (#[trigger] r[i]).message_ids@ == ids_at(
            gone,
            (r[i].group_id, r[i].topic_id),
        )
}

/// The messages of the deletions that took place.
fn collect_deleted(
    groups: &Vec<(u64, Vec<(u64, i32)>)>,
    replies: &Vec<Result<usize, String>>,
) -> (r: Vec<((u64, u64), i32)>)
    requires
        groups.len() == replies.len(),
    ensures
        r@ == deleted(groups@, replies@),
{
    let mut r: Vec<((u64, u64), i32)> = Vec::new();
    let mut i: usize = 0;
    while i < groups.len()
        invariant
            i <= groups.len(),
            groups.len() == replies.len(),
            r@ == deleted(groups@.take(i as int), replies@.take(i as int)),
        decreases groups.len() - i,
    {
        let group = groups[i].0;
        let items = &groups[i].1;
        let ghost before = r@;
        let ghost part = placed_in(group, items@);
        if deletion_took_place(&replies[i]) {
            let mut k: usize = 0;
            assert(before + part.take(0) =~= before);
            while k < items.len()
                invariant
                    k <= items.len(),
                    part == placed_in(group, items@),
                    r@ == before + part.take(k as int),
                decreases items.len() - k,
            {
                r.push(((group, items[k].0), items[k].1));
                k += 1;
                assert(r@ =~= before + part.take(k as int));
            }
            assert(part.take(part.len() as int) =~= part);
        }
        proof {
            assert(groups@.take(i + 1).drop_last() =~= groups@.take(i as int));
            assert(replies@.take(i + 1).drop_last() =~= replies@.take(i as int));
        }
        i += 1;
    }
    assert(groups@.take(groups@.len() as int) =~= groups@);
    assert(replies@.take(replies@.len() as int) =~= replies@);
    r
}

/// The topics of messages.
fn collect_topics(items: &Vec<((u64, u64), i32)>) -> (r: Vec<(u64, u64)>)
    ensures
        r@ == topics_among(items@),
{
    let mut r: Vec<(u64, u64)> = Vec::new();
    let mut i: usize = 0;
    while i < items.len()
        invariant
            i <= items.len(),
            r@ == topics_among(items@).take(i as int),
        decreases items.len() - i,
    {
        let topic = items[i].0;
        r.push(topic);
        i += 1;
        assert(r@ =~= topics_among(items@).take(i as int));
    }
    assert(r@ =~= topics_among(items@));
    r
}

/// The messages of a topic.
fn collect_ids(items: &Vec<((u64, u64), i32)>, topic: (u64, u64)) -> (r: Vec<i32>)
    ensures
        r@ == ids_at(items@, topic),
{
    let mut r: Vec<i32> = Vec::new();
    let mut i: usize = 0;
    while i < items.len()
        invariant
            i <= items.len(),
            r@ == ids_at(items@.take(i as int), topic),
        decreases items.len() - i,
    {
        assert(items@.take(i + 1).drop_last() =~= items@.take(i as int));
        let place = items[i].0;
        if place.0 == topic.0 && place.1 == topic.1 {
            r.push(items[i].1);
        }
        i += 1;
    }
    assert(items@.take(items@.len() as int) =~= items@);
    r
}

/// The messages whose lines are to go, by their groups and topics: those of the
/// deletions that took place.
pub fn lines_to_remove(
    groups: &Vec<(u64, Vec<(u64, i32)>)>,
    replies: &Vec<Result<usize, String>>,
) -> (r: Vec<TopicDeletions>)
    requires
        groups.len() == replies.len(),
    ensures
        are_removals(r@, groups@, replies@),
{
    let items = collect_deleted(groups, replies);
    let topics = distinct_topics(&collect_topics(&items));
    let mut r: Vec<TopicDeletions> = Vec::new();
    let mut i: usize = 0;
    assert(deletion_topics(r@) =~= topics@.take(0));
    while i < topics.len()
        invariant
            i <= topics.len(),
            items@ == deleted(groups@, replies@),
            deletion_topics(r@) == topics@.take(i as int),
            forall|i: int|
                0 <= i < r.len() ==> (#[trigger] r@[i]).message_ids@ == ids_at(
                    items@,
                    (r@[i].group_id, r@[i].topic_id),
                ),
        decreases topics.len() - i,
    {
        let (group_id, topic_id) = topics[i];
        let message_ids = collect_ids(&items, (group_id, topic_id));
        let ghost before = deletion_topics(r@);
        r.push(TopicDeletions { group_id, topic_id, message_ids });
        proof {
            assert(deletion_topics(r@) =~= before.push((group_id, topic_id)));
            assert(topics@.take(i + 1) =~= topics@.take(i as int).push(topics@[i as int]));
        }
        i += 1;
    }
    assert(topics@.take(topics@.len() as int) =~= topics@);
    r
}

// ---------------------------------------------------------------------------
// Edits
// ---------------------------------------------------------------------------

/// The sender's name.
pub open spec fn sender_name(sender: MessageSender) -> Seq<char> {
    match sender {
        MessageSender::Bot => "Bot"@,
        MessageSender::User => "User"@,
    }
}

/// The note on an edit.
pub open spec fn edit_note(e: PlannedEdit, reply: Result<(), String>) -> Seq<char> {
    match reply {
        Ok(_) => "Edited message "@ + numeral(e.message_id as int) + " in group "@ + decimal(
            e.group_id as int,
        ) + " (via "@ + sender_name(e.sender) + ")"@,
        Err(error) => "Failed to edit message "@ + numeral(e.message_id as int) + " in group "@
            + decimal(e.group_id as int) + ": "@ + error@,
    }
}

/// What came of an edit.
pub open spec fn edit_outcome(e: PlannedEdit, reply: Result<(), String>) -> Outcome {
    Outcome {
        group: e.group_id,
        id: e.message_id as int,
        success: reply is Ok,
        note: edit_note(e, reply),
    }
}

/// What came of the edits.
pub open spec fn edit_outcomes(
    edits: Seq<PlannedEdit>,
    replies: Seq<Result<(), String>>,
) -> Seq<Outcome> {
    Seq::new(edits.len(), |i: int| edit_outcome(edits[i], replies[i]))
}

/// The note on an edit.
fn write_edit_note(e: &PlannedEdit, reply: &Result<(), String>) -> (r: String)
    ensures
        r@ == edit_note(*e, *reply),
{
    let mut v: Vec<char> = Vec::new();
    match reply {
        Ok(_) => {
            append_str(&mut v, "Edited message ");
            append_numeral(&mut v, e.message_id as i128);
            append_str(&mut v, " in group ");
            append_decimal(&mut v, e.group_id as u128);
            append_str(&mut v, " (via ");
            append_str(
                &mut v,
                match e.sender {
                    MessageSender::Bot => "Bot",
                    MessageSender::User => "User",
                },
            );
            append_str(&mut v, ")");
            assert(v@ =~= edit_note(*e, *reply));
        },
        Err(error) => {
            append_str(&mut v, "Failed to edit message ");
            append_numeral(&mut v, e.message_id as i128);
            append_str(&mut v, " in group ");
            append_decimal(&mut v, e.group_id as u128);
            append_str(&mut v, ": ");
            append_str(&mut v, error.as_str());
            assert(v@ =~= edit_note(*e, *reply));
        },
    }
    from_chars(v.as_slice())
}

/// What came of the edits, by the reply to each.
pub fn settle_edits(edits: &Vec<PlannedEdit>, replies: &Vec<Result<(), String>>) -> (r: Vec<
    MessageResult,
>)
    requires
        edits.len() == replies.len(),
    ensures
        message_outcomes(r@) == edit_outcomes(edits@, replies@),
{
    let mut r: Vec<MessageResult> = Vec::new();
    let mut i: usize = 0;
    while i < edits.len()
        invariant
            i <= edits.len(),
            edits.len() == replies.len(),
            message_outcomes(r@) == edit_outcomes(edits@, replies@).take(i as int),
        decreases edits.len() - i,
    {
        let e = &edits[i];
        let result = OpResult {
            success: replies[i].is_ok(),
            message: write_edit_note(e, &replies[i]),
        };
        let ghost before = message_outcomes(r@);
        r.push(MessageResult { group_id: e.group_id, message_id: e.message_id, result });
        proof {
            let all = edit_outcomes(edits@, replies@);
            assert(message_outcomes(r@) =~= before.push(all[i as int]));
            assert(all.take(i + 1) =~= all.take(i as int).push(all[i as int]));
        }
        i += 1;
    }
    assert(message_outcomes(r@) =~= edit_outcomes(edits@, replies@));
    r
}

// ---------------------------------------------------------------------------
// New messages
// ---------------------------------------------------------------------------

/// The note on a message to send.
pub open spec fn send_note(m: PlannedMessage, reply: Result<i32, String>) -> Seq<char> {
    match reply {
        Ok(id) => "Sent message to group "@ + decimal(m.group_id as int) + " topic "@ + decimal(
            m.topic_id as int,
        ) + " (msg_id: "@ + numeral(id as int) + ")"@,
        Err(e) => "Failed to send message to group "@ + decimal(m.group_id as int) + " topic "@
            + decimal(m.topic_id as int) + ": "@ + e@,
    }
}

/// What came of the messages to send.
pub open spec fn send_outcomes(
    messages: Seq<PlannedMessage>,
    replies: Seq<Result<i32, String>>,
) -> Seq<Outcome> {
    Seq::new(
        messages.len(),
        |i: int|
            Outcome {
                group: messages[i].group_id,
                id: messages[i].topic_id as int,
                success: replies[i] is Ok,
                note: send_note(messages[i], replies[i]),
            },
    )
}

/// A message that was sent: its group and topic, its text and its id.
pub open spec fn sent_as(v: Seq<SentMessage>) -> Seq<(u64, u64, Seq<char>, i32)> {
    v.map_values(|m: SentMessage| (m.group_id, m.topic_id, m.content@, m.message_id))
}

/// The messages that were sent, with the ids that they got.
pub open spec fn sent_among(
    messages: Seq<PlannedMessage>,
    replies: Seq<Result<i32, String>>,
) -> Seq<(u64, u64, Seq<char>, i32)>
    decreases messages.len(),
{
    if messages.len() == 0 {
        Seq::empty()
    } else {
        let before = sent_among(messages.drop_last(), replies.drop_last());
        let m = messages.last();
        match replies.last() {
            Ok(id) => before.push((m.group_id, m.topic_id, m.content@, id)),
            Err(_) => before,
        }
    }
}

/// The note on a message to send.
fn write_send_note(m: &PlannedMessage, reply: &Result<i32, String>) -> (r: String)
    ensures
        r@ == send_note(*m, *reply),
{
    let mut v: Vec<char> = Vec::new();
    match reply {
        Ok(id) => {
            append_str(&mut v, "Sent message to group ");
            append_decimal(&mut v, m.group_id as u128);
            append_str(&mut v, " topic ");
            append_decimal(&mut v, m.topic_id as u128);
            append_str(&mut v, " (msg_id: ");
            append_numeral(&mut v, *id as i128);
            append_str(&mut v, ")");
            assert(v@ =~= send_note(*m, *reply));
        },
        Err(e) => {
            append_str(&mut v, "Failed to send message to group ");
            append_decimal(&mut v, m.group_id as u128);
            append_str(&mut v, " topic ");
            append_decimal(&mut v, m.topic_id as u128);
            append_str(&mut v, ": ");
            append_str(&mut v, e.as_str());
            assert(v@ =~= send_note(*m, *reply));
        },
    }
    from_chars(v.as_slice())
}

/// What came of the messages to send, by the reply to each, and the messages that
/// were sent.
pub fn settle_sends(messages: &Vec<PlannedMessage>, replies: &Vec<Result<i32, String>>) -> (r: (
    Vec<CreateResult>,
    Vec<SentMessage>,
))
    requires
        messages.len() == replies.len(),
    ensures
        create_outcomes(r.0@) == send_outcomes(messages@, replies@),
        sent_as(r.1@) == sent_among(messages@, replies@),
{
    let mut results: Vec<CreateResult> = Vec::new();
    let mut sent: Vec<SentMessage> = Vec::new();
    let mut i: usize = 0;
    assert(sent_as(sent@) =~= Seq::empty());
    while i < messages.len()
        invariant
            i <= messages.len(),
            messages.len() == replies.len(),
            create_outcomes(results@) == send_outcomes(messages@, replies@).take(i as int),
            sent_as(sent@) == sent_among(messages@.take(i as int), replies@.take(i as int)),
        decreases messages.len() - i,
    {
        let m = &messages[i];
        let ghost before = sent_as(sent@);
        proof {
            assert(messages@.take(i + 1).drop_last() =~= messages@.take(i as int));
            assert(replies@.take(i + 1).drop_last() =~= replies@.take(i as int));
        }
        let result = OpResult {
            success: replies[i].is_ok(),
            message: write_send_note(m, &replies[i]),
        };
        let ghost had = create_outcomes(results@);
        results.push(CreateResult { group_id: m.group_id, topic_id: m.topic_id, result });
        proof {
            let all = send_outcomes(messages@, replies@);
            assert(create_outcomes(results@) =~= had.push(all[i as int]));
            assert(all.take(i + 1) =~= all.take(i as int).push(all[i as int]));
        }
        match &replies[i] {
            Ok(id) => {
                sent.push(
                    SentMessage {
                        group_id: m.group_id,
                        topic_id: m.topic_id,
                        content: m.content.clone(),
                        message_id: *id,
                    },
                );
                assert(sent_as(sent@) =~= before.push((m.group_id, m.topic_id, m.content@, *id)));
            },
            Err(_) => {},
        }
        i += 1;
    }
    proof {
        assert(create_outcomes(results@) =~= send_outcomes(messages@, replies@));
        assert(messages@.take(messages@.len() as int) =~= messages@);
        assert(replies@.take(replies@.len() as int) =~= replies@);
    }
    (results, sent)
}

// ---------------------------------------------------------------------------
// Laws
// ---------------------------------------------------------------------------

/// Only lines of messages go whose deletion was asked for and took place.
pub proof fn law_only_deleted_lines_go(
    groups: Seq<(u64, Vec<(u64, i32)>)>,
    replies: Seq<Result<usize, String>>,
    topic: (u64, u64),
    id: i32,
)
    requires
        groups.len() == replies.len(),
        ids_at(deleted(groups, replies), topic).contains(id),
    ensures
        exists|k: int|
            0 <= k < groups.len() && (#[trigger] groups[k]).0 == topic.0 && took_place(replies[k])
                && groups[k].1@.contains((topic.1, id)),
    decreases groups.len(),
{
    let all = deleted(groups, replies);
    lemma_ids_at(all, topic, id);
    if groups.len() > 0 {
        let (front, heard) = (groups.drop_last(), replies.drop_last());
        let before = deleted(front, heard);
        let x = choose|x: int| 0 <= x < all.len() && all[x] == (topic, id);
        if x < before.len() {
            assert(before[x] == (topic, id));
            lemma_ids_at(before, topic, id);
            law_only_deleted_lines_go(front, heard, topic, id);
            let k = choose|k: int|
                0 <= k < front.len() && (#[trigger] front[k]).0 == topic.0 && took_place(heard[k])
                    && front[k].1@.contains((topic.1, id));
            assert(groups[k] == front[k] && replies[k] == heard[k]);
        } else {
            let k = groups.len() - 1;
            let items = groups[k].1@;
            let y = x - before.len();
            assert(placed_in(groups[k].0, items)[y] == (topic, id));
            assert(items[y] == (topic.1, id));
            assert(groups[k].0 == topic.0);
        }
    }
}

/// Of every deletion that took place, the line goes.
pub proof fn law_deleted_messages_lose_their_lines(
    groups: Seq<(u64, Vec<(u64, i32)>)>,
    replies: Seq<Result<usize, String>>,
    k: int,
    item: (u64, i32),
)
    requires
        groups.len() == replies.len(),
        0 <= k < groups.len(),
        took_place(replies[k]),
        groups[k].1@.contains(item),
    ensures
        ids_at(deleted(groups, replies), (groups[k].0, item.0)).contains(item.1),
    decreases groups.len(),
{
    let (front, heard) = (groups.drop_last(), replies.drop_last());
    let all = deleted(groups, replies);
    let before = deleted(front, heard);
    let topic = (groups[k].0, item.0);
    if k < front.len() {
        assert(front[k] == groups[k] && heard[k] == replies[k]);
        law_deleted_messages_lose_their_lines(front, heard, k, item);
        lemma_ids_at(before, topic, item.1);
        let x = choose|x: int| 0 <= x < before.len() && before[x] == (topic, item.1);
        assert(all[x] == (topic, item.1));
    } else {
        let items = groups[k].1@;
        let y = choose|y: int| 0 <= y < items.len() && items[y] == item;
        assert(placed_in(groups[k].0, items)[y] == (topic, item.1));
        assert(all[before.len() + y] == (topic, item.1));
    }
    lemma_ids_at(all, topic, item.1);
}

pub proof fn lemma_ids_at(items: Seq<((u64, u64), i32)>, topic: (u64, u64), id: i32)
    ensures
        ids_at(items, topic).contains(id) <==> items.contains((topic, id)),
    decreases items.len(),
{
    if items.len() > 0 {
        let front = items.drop_last();
        lemma_ids_at(front, topic, id);
        lemma_push_contains(ids_at(front, topic), items.last().1, id);
        lemma_push_contains(front, items.last(), (topic, id));
        assert(items =~= front.push(items.last()));
    }
}

} // verus!
