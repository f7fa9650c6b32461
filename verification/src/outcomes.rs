//! What is reported of a push.
use vstd::prelude::*;

use crate::backfill::MAX_MESSAGES_PER_FETCH;
use crate::buffer::only_creates;
use crate::decimal::{decimal, numeral};
use crate::fetch::PAGE;
use crate::push::{
    CONFIRM_ABOVE, EditRoute, PlannedEdit, PlannedMessage, PushPlan, SentMessage, asks_first,
    asks_for_client, notice, route_of, says_yes, sent_to,
};
use crate::results::{
    CreateResult, FileCleanup, MessageResult, PushResults, cleanup_line, cleanup_lines,
    create_result_line, create_result_lines, create_successes, message_result_line,
    message_result_lines, message_successes, shown_results, tallies, tally,
};
use crate::server::{GAP, MAX_BACKOFF};
use crate::settle::{
    Outcome, deleted, deletion_outcomes, edit_outcomes, ids_at, send_outcomes, sent_among,
    took_place,
};
use crate::sync::{MessageSender, MessageUpdate};
use crate::text::{joined, lemma_trimmed_push, lemma_trimmed_same, trimmed};
use crate::unicode::whitespace;

verus! {

// ---------------------------------------------------------------------------
// Settling
// ---------------------------------------------------------------------------

/// The messages of a group were deleted where the reply counts any, and then all of
/// them were; where it counts none, or is a failure, none was. Each has an outcome of
/// its own with the group, its id and a note.
pub proof fn law_deletions_are_settled(
    groups: Seq<(u64, Vec<(u64, i32)>)>,
    replies: Seq<Result<usize, String>>,
    g: (u64, Vec<(u64, i32)>),
    reply: Result<usize, String>,
    i: int,
)
    requires
        groups.len() == replies.len(),
        0 <= i < g.1@.len(),
    ensures
        ({
            let before = deletion_outcomes(groups, replies);
            let after = deletion_outcomes(groups.push(g), replies.push(reply));
            let o = after[before.len() + i];
            &&& after.len() == before.len() + g.1@.len()
            &&& after.take(before.len() as int) == before
            &&& o.group == g.0
            &&& o.id == g.1@[i].1
            &&& o.success == (reply matches Ok(count) && count > 0)
            &&& (reply matches Ok(count) && count > 0) ==> o.note == "Deleted "@ + decimal(
                reply->Ok_0 as int,
            ) + " message(s) from group "@ + decimal(g.0 as int)
            &&& reply matches Ok(count) ==> count == 0 ==> o.note
                == "No messages were deleted from Telegram, local files unchanged"@
            &&& reply matches Err(e) ==> o.note == "Failed to delete from group "@ + decimal(
                g.0 as int,
            ) + ": "@ + e@
        }),
        ({
            let before = deleted(groups, replies);
            let after = deleted(groups.push(g), replies.push(reply));
            &&& (reply matches Ok(count) && count > 0) ==> after.len() == before.len() + g.1@.len()
                && after.take(before.len() as int) == before && after[before.len() + i] == ((
                g.0,
                g.1@[i].0,
            ), g.1@[i].1)
            &&& !(reply matches Ok(count) && count > 0) ==> after == before
        }),
        deletion_outcomes(Seq::empty(), Seq::empty()) == Seq::<Outcome>::empty(),
        deleted(Seq::empty(), Seq::empty()) == Seq::<((u64, u64), i32)>::empty(),
{
    let all = groups.push(g);
    let heard = replies.push(reply);
    assert(all.drop_last() =~= groups);
    assert(heard.drop_last() =~= replies);
    let before = deletion_outcomes(groups, replies);
    let after = deletion_outcomes(all, heard);
    assert(after.take(before.len() as int) =~= before);
    let had = deleted(groups, replies);
    if took_place(reply) {
        assert(deleted(all, heard).take(had.len() as int) =~= had);
    }
}

/// The messages of a topic among deleted ones are those of that topic, in their order.
pub proof fn law_deleted_messages_of_a_topic(
    items: Seq<((u64, u64), i32)>,
    topic: (u64, u64),
)
    ensures
        ids_at(items, topic) == items.filter(
            |item: ((u64, u64), i32)| item.0 == topic,
        ).map_values(|item: ((u64, u64), i32)| item.1),
    decreases items.len(),
{
    reveal(Seq::filter);
    let f = |item: ((u64, u64), i32)| item.0 == topic;
    let pick = |item: ((u64, u64), i32)| item.1;
    if items.len() > 0 {
        law_deleted_messages_of_a_topic(items.drop_last(), topic);
        let before = items.drop_last().filter(f);
        if f(items.last()) {
            assert(before.push(items.last()).map_values(pick) =~= before.map_values(pick).push(
                items.last().1,
            ));
        }
    } else {
        assert(items.filter(f).map_values(pick) =~= Seq::empty());
    }
}

/// An edit succeeded where its reply says so, and its note names the message, the group
/// and the sender or the failure.
pub proof fn law_edits_are_settled(
    edits: Seq<PlannedEdit>,
    replies: Seq<Result<(), String>>,
    i: int,
)
    requires
        edits.len() == replies.len(),
        0 <= i < edits.len(),
    ensures
        ({
            let o = edit_outcomes(edits, replies)[i];
            let e = edits[i];
            &&& edit_outcomes(edits, replies).len() == edits.len()
            &&& o.group == e.group_id
            &&& o.id == e.message_id
            &&& o.success == (replies[i] is Ok)
            &&& replies[i] is Ok && e.sender == MessageSender::Bot ==> o.note == "Edited message "@
                + numeral(e.message_id as int) + " in group "@ + decimal(e.group_id as int)
                + " (via Bot)"@
            &&& replies[i] is Ok && e.sender == MessageSender::User ==> o.note
                == "Edited message "@ + numeral(e.message_id as int) + " in group "@ + decimal(
                e.group_id as int,
            ) + " (via User)"@
            &&& replies[i] matches Err(x) ==> o.note == "Failed to edit message "@ + numeral(
                e.message_id as int,
            ) + " in group "@ + decimal(e.group_id as int) + ": "@ + x@
        }),
{
    reveal_strlit(" (via ");
    reveal_strlit("Bot");
    reveal_strlit("User");
    reveal_strlit(")");
    reveal_strlit(" (via Bot)");
    reveal_strlit(" (via User)");
    let e = edits[i];
    let o = edit_outcomes(edits, replies)[i];
    let head = "Edited message "@ + numeral(e.message_id as int) + " in group "@ + decimal(
        e.group_id as int,
    );
    if replies[i] is Ok {
        match e.sender {
            MessageSender::Bot => {
                assert(o.note =~= head + " (via Bot)"@);
            },
            MessageSender::User => {
                assert(o.note =~= head + " (via User)"@);
            },
        }
    }
}

/// A message was sent where its reply holds its id. Those that were sent are kept with
/// their topics, their whole texts and their ids, in their order.
pub proof fn law_sends_are_settled(
    messages: Seq<PlannedMessage>,
    replies: Seq<Result<i32, String>>,
    m: PlannedMessage,
    reply: Result<i32, String>,
)
    requires
        messages.len() == replies.len(),
    ensures
        ({
            let o = send_outcomes(messages.push(m), replies.push(reply)).last();
            &&& send_outcomes(messages.push(m), replies.push(reply)).drop_last() == send_outcomes(
                messages,
                replies,
            )
            &&& o.group == m.group_id
            &&& o.id == m.topic_id
            &&& o.success == (reply is Ok)
            &&& reply matches Ok(id) ==> o.note == "Sent message to group "@ + decimal(
                m.group_id as int,
            ) + " topic "@ + decimal(m.topic_id as int) + " (msg_id: "@ + numeral(id as int) + ")"@
            &&& reply matches Err(x) ==> o.note == "Failed to send message to group "@ + decimal(
                m.group_id as int,
            ) + " topic "@ + decimal(m.topic_id as int) + ": "@ + x@
        }),
        reply matches Ok(id) ==> sent_among(messages.push(m), replies.push(reply)) == sent_among(
            messages,
            replies,
        ).push((m.group_id, m.topic_id, m.content@, id)),
        reply is Err ==> sent_among(messages.push(m), replies.push(reply)) == sent_among(
            messages,
            replies,
        ),
        sent_among(Seq::empty(), Seq::empty()) == Seq::<(u64, u64, Seq<char>, i32)>::empty(),
{
    assert(messages.push(m).drop_last() =~= messages);
    assert(replies.push(reply).drop_last() =~= replies);
    assert(send_outcomes(messages.push(m), replies.push(reply)).drop_last() =~= send_outcomes(
        messages,
        replies,
    ));
}

/// The messages that were sent to a topic are those with its ids, with their whole texts
/// and their ids.
pub proof fn law_messages_sent_to_a_topic(
    all: Seq<SentMessage>,
    m: SentMessage,
    group: u64,
    topic: u64,
)
    ensures
        sent_to(Seq::empty(), group, topic) == Seq::<(Seq<char>, i32)>::empty(),
        m.group_id == group && m.topic_id == topic ==> sent_to(all.push(m), group, topic)
            == sent_to(all, group, topic).push((m.content@, m.message_id)),
        m.group_id != group || m.topic_id != topic ==> sent_to(all.push(m), group, topic)
            == sent_to(all, group, topic),
{
    assert(all.push(m).drop_last() =~= all);
}

// ---------------------------------------------------------------------------
// Showing results
// ---------------------------------------------------------------------------

/// Each result is shown on a line with a mark of success or failure.
pub proof fn law_result_lines(m: MessageResult, c: CreateResult, f: FileCleanup, kind: Seq<char>)
    ensures
        m.result.success ==> message_result_line(kind, m) == "  ✓ "@ + kind + " msg:"@ + numeral(
            m.message_id as int,
        ) + " (group:"@ + decimal(m.group_id as int) + "): "@ + m.result.message@ + "\n"@,
        !m.result.success ==> message_result_line(kind, m) == "  ✗ "@ + kind + " msg:"@ + numeral(
            m.message_id as int,
        ) + " (group:"@ + decimal(m.group_id as int) + "): "@ + m.result.message@ + "\n"@,
        c.result.success ==> create_result_line(c) == "  ✓ create (group:"@ + decimal(
            c.group_id as int,
        ) + "/topic:"@ + decimal(c.topic_id as int) + "): "@ + c.result.message@ + "\n"@,
        !c.result.success ==> create_result_line(c) == "  ✗ create (group:"@ + decimal(
            c.group_id as int,
        ) + "/topic:"@ + decimal(c.topic_id as int) + "): "@ + c.result.message@ + "\n"@,
        f.lines_removed > 0 ==> cleanup_line(f) == "  ✓ cleanup "@ + f.path@ + ": "@ + f.message@
            + "\n"@,
        f.lines_removed == 0 ==> cleanup_line(f) == "  ✗ cleanup "@ + f.path@ + ": "@ + f.message@
            + "\n"@,
{
    reveal_strlit("  ");
    reveal_strlit(" ");
    reveal_strlit("✓");
    reveal_strlit("✗");
    reveal_strlit("  ✓ ");
    reveal_strlit("  ✗ ");
    reveal_strlit(" create (group:");
    reveal_strlit("  ✓ create (group:");
    reveal_strlit("  ✗ create (group:");
    reveal_strlit(" cleanup ");
    reveal_strlit("  ✓ cleanup ");
    reveal_strlit("  ✗ cleanup ");
    assert("  "@ + "✓"@ + " "@ =~= "  ✓ "@);
    assert("  "@ + "✗"@ + " "@ =~= "  ✗ "@);
    assert("  "@ + "✓"@ + " create (group:"@ =~= "  ✓ create (group:"@);
    assert("  "@ + "✗"@ + " create (group:"@ =~= "  ✗ create (group:"@);
    assert("  "@ + "✓"@ + " cleanup "@ =~= "  ✓ cleanup "@);
    assert("  "@ + "✗"@ + " cleanup "@ =~= "  ✗ cleanup "@);
}

/// The lines of results come in the order of the results, and successes are counted.
pub proof fn law_results_in_order(
    kind: Seq<char>,
    v: Seq<MessageResult>,
    m: MessageResult,
    w: Seq<CreateResult>,
    c: CreateResult,
    x: Seq<FileCleanup>,
    f: FileCleanup,
)
    ensures
        message_result_lines(kind, v.push(m)) == message_result_lines(kind, v)
            + message_result_line(kind, m),
        create_result_lines(w.push(c)) == create_result_lines(w) + create_result_line(c),
        cleanup_lines(x.push(f)) == cleanup_lines(x) + cleanup_line(f),
        message_result_lines(kind, Seq::empty()) == Seq::<char>::empty(),
        create_result_lines(Seq::empty()) == Seq::<char>::empty(),
        cleanup_lines(Seq::empty()) == Seq::<char>::empty(),
        message_successes(v) == v.filter(|r: MessageResult| r.result.success).len(),
        create_successes(w) == w.filter(|r: CreateResult| r.result.success).len(),
{
    assert(v.push(m).drop_last() =~= v);
    assert(w.push(c).drop_last() =~= w);
    assert(x.push(f).drop_last() =~= x);
    lemma_message_successes(v);
    lemma_create_successes(w);
}

proof fn lemma_message_successes(v: Seq<MessageResult>)
    ensures
        message_successes(v) == v.filter(|r: MessageResult| r.result.success).len(),
    decreases v.len(),
{
    reveal(Seq::filter);
    if v.len() > 0 {
        lemma_message_successes(v.drop_last());
    }
}

proof fn lemma_create_successes(v: Seq<CreateResult>)
    ensures
        create_successes(v) == v.filter(|r: CreateResult| r.result.success).len(),
    decreases v.len(),
{
    reveal(Seq::filter);
    if v.len() > 0 {
        lemma_create_successes(v.drop_last());
    }
}

/// What is shown: a heading, the deletions, the edits, the messages and the files, and a
/// summary of the kinds that there were. A kind is counted out of all only where some of
/// it failed. Without updates nothing is shown.
pub proof fn law_results_are_shown(r: PushResults, succeeded: int, total: int, kind: Seq<char>)
    ensures
        r.deletions.len() == 0 && r.edits.len() == 0 && r.creates.len() == 0 ==> shown_results(
            r,
        ).len() == 0,
        r.deletions.len() > 0 || r.edits.len() > 0 || r.creates.len() > 0 ==> shown_results(r)
            == "\nResults:\n"@ + message_result_lines("delete"@, r.deletions@)
            + message_result_lines("edit"@, r.edits@) + create_result_lines(r.creates@)
            + cleanup_lines(r.file_cleanups@) + ("Summary: "@ + joined(tallies(r), ", "@) + "\n"@),
        succeeded == total ==> tally(succeeded, total, kind) == decimal(succeeded) + kind,
        succeeded < total ==> tally(succeeded, total, kind) == decimal(succeeded) + "/"@ + decimal(
            total,
        ) + kind,
        r.deletions.len() > 0 && r.edits.len() > 0 && r.creates.len() > 0 ==> tallies(r) == seq![
            tally(message_successes(r.deletions@), r.deletions.len() as int, " deletions"@),
            tally(message_successes(r.edits@), r.edits.len() as int, " edits"@),
            tally(create_successes(r.creates@), r.creates.len() as int, " creates"@),
        ],
        r.deletions.len() > 0 && r.edits.len() == 0 && r.creates.len() == 0 ==> tallies(r) == seq![
            tally(message_successes(r.deletions@), r.deletions.len() as int, " deletions"@),
        ],
        r.deletions.len() == 0 && r.edits.len() > 0 && r.creates.len() == 0 ==> tallies(r) == seq![
            tally(message_successes(r.edits@), r.edits.len() as int, " edits"@),
        ],
        r.deletions.len() == 0 && r.edits.len() == 0 && r.creates.len() > 0 ==> tallies(r) == seq![
            tally(create_successes(r.creates@), r.creates.len() as int, " creates"@),
        ],
{
    let d = tally(message_successes(r.deletions@), r.deletions.len() as int, " deletions"@);
    let e = tally(message_successes(r.edits@), r.edits.len() as int, " edits"@);
    let c = tally(create_successes(r.creates@), r.creates.len() as int, " creates"@);
    if r.deletions.len() > 0 && r.edits.len() > 0 && r.creates.len() > 0 {
        assert(tallies(r) =~= seq![d, e, c]);
    } else if r.deletions.len() > 0 && r.edits.len() == 0 && r.creates.len() == 0 {
        assert(tallies(r) =~= seq![d]);
    } else if r.deletions.len() == 0 && r.edits.len() > 0 && r.creates.len() == 0 {
        assert(tallies(r) =~= seq![e]);
    } else if r.deletions.len() == 0 && r.edits.len() == 0 && r.creates.len() > 0 {
        assert(tallies(r) =~= seq![c]);
    }
}

/// The notice before a push counts what is to be done, and all of it.
pub proof fn law_notices(deletions: int, edits: int, creates: int)
    ensures
        notice(deletions, edits, creates) == "Pushing "@ + decimal(deletions + edits + creates)
            + " updates ("@ + decimal(deletions) + " deletions, "@ + decimal(edits) + " edits, "@
            + decimal(creates) + " creates)"@,
{
}

/// Up to twenty-five updates are pushed without asking, sixty seconds is the longest
/// pause before a connection, a hundred messages come on a page and a thousand updates
/// in a batch.
pub proof fn law_limits()
    ensures
        CONFIRM_ABOVE == 25,
        MAX_BACKOFF == 60,
        PAGE == 100,
        MAX_MESSAGES_PER_FETCH == 1000,
        GAP == 360_000_000_000,
{
}

proof fn lemma_trimmed_around(a: Seq<char>, c: char, b: Seq<char>)
    requires
        !whitespace(c),
        forall|i: int| 0 <= i < a.len() ==> whitespace(#[trigger] a[i]),
        forall|i: int| 0 <= i < b.len() ==> whitespace(#[trigger] b[i]),
    ensures
        trimmed(a + seq![c] + b) == seq![c],
    decreases a.len() + b.len(),
{
    let s = a + seq![c] + b;
    if b.len() > 0 {
        let front = b.drop_last();
        assert forall|i: int| 0 <= i < front.len() implies whitespace(#[trigger] front[i]) by {
            assert(front[i] == b[i]);
        }
        lemma_trimmed_around(a, c, front);
        assert(s =~= (a + seq![c] + front).push(b.last()));
        assert(whitespace(b[b.len() - 1]));
        lemma_trimmed_push(a + seq![c] + front, b.last());
    } else if a.len() > 0 {
        let rest = a.skip(1);
        assert forall|i: int| 0 <= i < rest.len() implies whitespace(#[trigger] rest[i]) by {
            assert(rest[i] == a[i + 1]);
        }
        lemma_trimmed_around(rest, c, b);
        assert(s.skip(1) =~= rest + seq![c] + b);
        assert(s[0] == a[0]);
    } else {
        assert(s =~= seq![c]);
        lemma_trimmed_same(s);
    }
}

/// The answer is yes where it is the letter y in either case, with white space around it
/// or none; any other letter is no.
pub proof fn law_answers(a: Seq<char>, c: char, b: Seq<char>)
    requires
        !whitespace(c),
        forall|i: int| 0 <= i < a.len() ==> whitespace(#[trigger] a[i]),
        forall|i: int| 0 <= i < b.len() ==> whitespace(#[trigger] b[i]),
    ensures
        says_yes(a + seq![c] + b) <==> c == 'y' || c == 'Y',
        !says_yes(Seq::empty()),
{
    lemma_trimmed_around(a, c, b);
    let s = seq![c];
    assert(s[0] == c);
    assert(seq!['y'][0] == 'y');
    assert(seq!['Y'][0] == 'Y');
    if c == 'y' {
        assert(s =~= seq!['y']);
    }
    if c == 'Y' {
        assert(s =~= seq!['Y']);
    }
    let none = Seq::<char>::empty();
    lemma_trimmed_same(none);
    assert(trimmed(none).len() == 0);
}

/// More than twenty-five updates are asked about. A bot's message is edited by the bot,
/// and a user's by the user. Deletions and edits take the user's client, and only
/// messages to send can wait for it.
pub proof fn law_ways_of_pushing(total: int, plan: PushPlan, us: Seq<MessageUpdate>, i: int)
    ensures
        asks_first(total) <==> total > 25,
        route_of(MessageSender::Bot) == EditRoute::BotApi,
        route_of(MessageSender::User) == EditRoute::Client,
        asks_for_client(plan) <==> plan.delete_count > 0 || plan.edits.len() > 0,
        only_creates(us) && 0 <= i < us.len() ==> us[i] is Create,
        !only_creates(us) ==> exists|k: int| 0 <= k < us.len() && !((#[trigger] us[k]) is Create),
{
}

} // verus!
