//! What edits of a topic file come to.
use vstd::prelude::*;

use crate::calendar::Timestamp;
use crate::decimal::{numeral, signed_value};
use crate::header::header_line;
use crate::layout::law_tags;
use crate::marker::{marker_at, marker_from};
use crate::push::{
    SentMessage, TopicMessages, are_by_topic, creates_in, deletions_in, edits_in, is_removal,
    last_place, lines_without, rest_of_line, sent_places, sent_texts, sent_to, stands_untagged,
    topics_of_messages, with_all_sent, without_all_sent, without_last, without_sent,
};
use crate::server::{Gap, appended, gap, law_tag_reads_back, message_tag};
use crate::settle::{
    TopicDeletions, are_removals, deleted, deletion_topics, ids_at, lemma_ids_at, topics_among,
};
use crate::sort::{groups_of, has_key, values_with};
use crate::sync::{
    FileChanges, MessageSender, Parsed, Update, among, are_changes, are_deleted, are_edited,
    coalesced, edited_ids, last_message_line, law_lines_make_messages, law_no_changes, messages_on,
    new_lines, untagged, wanted_updates, was_edited,
};
use crate::tag::{first_id, id_value, tag_starts};
use crate::text::{
    blank, first_index, joined, lacks, last_occurrence, lemma_lines_concat, lemma_one_line, lines,
    newline, occurs, occurs_at, starts, string_texts, trimmed,
};
use crate::topics::earlier;

verus! {

// ---------------------------------------------------------------------------
// Reading a file
// ---------------------------------------------------------------------------

/// A file is read line by line. A line without a tag holds no message and is kept as it
/// is, with its number. A line with a tag holds the message of the tag's id: what is left
/// of the line without the tag and the white space around it. The sender is the user
/// where the tag says so, and else the bot. A later line takes the place of an earlier
/// one with the same id.
pub proof fn law_lines_are_read(ls: Seq<Seq<char>>, line: Seq<char>)
    ensures
        ({
            let all = ls.push(line);
            let m = marker_from(line, 0);
            let digits = m->0.digits;
            &&& m is None ==> messages_on(all) == messages_on(ls) && untagged(all) == untagged(
                ls,
            ).push((ls.len() as int, line)) && last_message_line(all) == last_message_line(ls)
            &&& m is Some ==> untagged(all) == untagged(ls)
            &&& m is Some && signed_value(digits, i32::MIN as int, i32::MAX as int) is None
                ==> messages_on(all) == messages_on(ls) && last_message_line(all)
                == last_message_line(ls)
            &&& m is Some && signed_value(digits, i32::MIN as int, i32::MAX as int) is Some ==> {
                let id = signed_value(digits, i32::MIN as int, i32::MAX as int)->0 as i32;
                &&& messages_on(all).contains_key(id)
                &&& messages_on(all)[id].content == trimmed(
                    line.take(m->0.start) + line.skip(m->0.end),
                )
                &&& messages_on(all)[id].sender == (if m->0.sender == Some("user"@) {
                    MessageSender::User
                } else {
                    MessageSender::Bot
                })
                &&& messages_on(all).remove(id) == messages_on(ls).remove(id)
                &&& last_message_line(all) == Some(ls.len() as int)
            }
        }),
{
    let all = ls.push(line);
    assert(all.drop_last() =~= ls);
    let m = marker_from(line, 0);
    if m is Some && id_value(m->0.digits) is Some {
        let id = id_value(m->0.digits)->0 as i32;
        assert(messages_on(all).remove(id) =~= messages_on(ls).remove(id));
    }
}

/// The tag on a line is the first that stands there.
pub proof fn law_first_tag_counts(line: Seq<char>, i: int, n: int)
    requires
        0 <= i <= n,
    ensures
        n < line.len() && marker_at(line, n) is Some && (forall|j: int|
            i <= j < n ==> #[trigger] marker_at(line, j) is None) ==> marker_from(line, i)
            == marker_at(line, n),
        (forall|j: int| i <= j < line.len() ==> #[trigger] marker_at(line, j) is None)
            ==> marker_from(line, i) is None,
    decreases line.len() - i,
{
    if i < line.len() {
        if marker_at(line, i) is None && i < n {
            law_first_tag_counts(line, i + 1, n);
        } else if marker_at(line, i) is None {
            law_first_tag_counts(line, i + 1, i + 1);
        }
    }
}

// ---------------------------------------------------------------------------
// Changes
// ---------------------------------------------------------------------------

/// The messages that are only in the old state are deleted, each once. Those that are in
/// both with different contents are edited, each once, to the new content and by the
/// sender that the old state names.
pub proof fn law_what_was_deleted_and_edited(
    old_state: Map<i32, Parsed>,
    new_state: Map<i32, Parsed>,
    deleted: Seq<i32>,
    edited: Seq<(i32, String, MessageSender)>,
    id: i32,
)
    requires
        are_deleted(deleted, old_state, new_state),
        are_edited(edited, old_state, new_state),
    ensures
        deleted.no_duplicates(),
        forall|i: int, j: int|
            0 <= i < j < edited.len() ==> (#[trigger] edited[i]).0 != (#[trigger] edited[j]).0,
        old_state.contains_key(id) && !new_state.contains_key(id) ==> deleted.contains(id),
        new_state.contains_key(id) || !old_state.contains_key(id) ==> !deleted.contains(id),
        old_state.contains_key(id) && new_state.contains_key(id) && old_state[id].content
            != new_state[id].content ==> exists|i: int|
            0 <= i < edited.len() && (#[trigger] edited[i]).0 == id && edited[i].1@
                == new_state[id].content && edited[i].2 == old_state[id].sender,
        !(old_state.contains_key(id) && new_state.contains_key(id) && old_state[id].content
            != new_state[id].content) ==> forall|i: int|
            0 <= i < edited.len() ==> (#[trigger] edited[i]).0 != id,
{
    let ids = edited_ids(edited);
    assert forall|i: int, j: int| 0 <= i < j < edited.len() implies (#[trigger] edited[i]).0 != (
    #[trigger] edited[j]).0 by {
        assert(ids[i] < ids[j]);
    }
    assert(deleted.contains(id) <==> old_state.contains_key(id) && !new_state.contains_key(id));
    assert(ids.contains(id) <==> was_edited(id, old_state, new_state));
    if was_edited(id, old_state, new_state) {
        let i = choose|i: int| 0 <= i < ids.len() && ids[i] == id;
        assert(edited[i].0 == id);
    } else {
        assert forall|i: int| 0 <= i < edited.len() implies (#[trigger] edited[i]).0 != id by {
            assert(ids[i] == edited[i].0);
            assert(ids.contains(ids[i]));
        }
    }
}

/// Of the lines without tags those are new that are neither blank nor date headers and
/// stood nowhere among the old ones. Those above the last message, or on its line, are
/// kept apart from those below it.
pub proof fn law_new_lines(
    v: Seq<(int, Seq<char>)>,
    n: int,
    line: Seq<char>,
    old_lines: Seq<(int, Seq<char>)>,
    last: Option<int>,
)
    ensures
        forall|above: bool| #[trigger]
            new_lines(v.push((n, line)), old_lines, last, above) == (if trimmed(line).len() > 0
                && !header_line(trimmed(line)) && (forall|j: int|
                0 <= j < old_lines.len() ==> (#[trigger] old_lines[j]).1 != line) && above == (last
                is Some && n <= last->0) {
                new_lines(v, old_lines, last, above).push(line)
            } else {
                new_lines(v, old_lines, last, above)
            }),
        forall|above: bool| #[trigger]
            new_lines(Seq::empty(), old_lines, last, above) == Seq::<Seq<char>>::empty(),
{
    let all = v.push((n, line));
    assert(all.drop_last() =~= v);
    assert(all.last() == (n, line));
    assert forall|above: bool| #[trigger]
        new_lines(all, old_lines, last, above) == (if trimmed(line).len() > 0 && !header_line(
            trimmed(line),
        ) && (forall|j: int| 0 <= j < old_lines.len() ==> (#[trigger] old_lines[j]).1 != line)
            && above == (last is Some && n <= last->0) {
            new_lines(v, old_lines, last, above).push(line)
        } else {
            new_lines(v, old_lines, last, above)
        }) by {
        assert(among(old_lines, line) <==> !(forall|j: int|
            0 <= j < old_lines.len() ==> (#[trigger] old_lines[j]).1 != line));
    }
}

proof fn lemma_last_message_line(ls: Seq<Seq<char>>)
    ensures
        last_message_line(ls) matches Some(l) ==> 0 <= l < ls.len(),
    decreases ls.len(),
{
    if ls.len() > 0 {
        lemma_last_message_line(ls.drop_last());
    }
}

proof fn lemma_old_lines_are_not_new(
    v: Seq<(int, Seq<char>)>,
    old_lines: Seq<(int, Seq<char>)>,
    last: Option<int>,
    above: bool,
    i: int,
)
    requires
        0 <= i <= v.len(),
        forall|j: int| 0 <= j < v.len() ==> among(old_lines, (#[trigger] v[j]).1),
    ensures
        new_lines(v.take(i), old_lines, last, above) == Seq::<Seq<char>>::empty(),
    decreases i,
{
    if i > 0 {
        lemma_old_lines_are_not_new(v, old_lines, last, above, i - 1);
        assert(v.take(i).drop_last() =~= v.take(i - 1));
        assert(v.take(i).last() == v[i - 1]);
    } else {
        assert(v.take(0) =~= Seq::empty());
    }
}

/// A line that is typed at the end of a file, without a tag, is sent as one message, and
/// nothing else changes.
pub proof fn law_typed_line_is_sent(old_content: Seq<char>, typed: Seq<char>)
    requires
        old_content.len() == 0 || old_content.last() == '\n',
        lacks(typed, '\n'),
        typed.last() != '\r',
        !blank(typed),
        !header_line(trimmed(typed)),
        marker_from(typed, 0) is None,
        !starts(trimmed(typed), seq!['.', ' ']),
        forall|j: int|
            0 <= j < lines(old_content).len() ==> #[trigger] lines(old_content)[j] != typed,
    ensures
        ({
            let old_lines = lines(old_content);
            let ls = lines(old_content + typed + seq!['\n']);
            let last = last_message_line(ls);
            &&& messages_on(ls) == messages_on(old_lines)
            &&& coalesced(new_lines(untagged(ls), untagged(old_lines), last, false)) == seq![
                trimmed(typed),
            ]
            &&& new_lines(untagged(ls), untagged(old_lines), last, true).len() == 0
        }),
{
    let old_lines = lines(old_content);
    let new = old_content + typed + seq!['\n'];
    let ls = lines(new);
    if typed.len() == 0 {
        assert(trimmed(typed).len() == 0);
    }
    lemma_one_line(typed);
    lemma_lines_concat(old_content, typed + newline());
    assert(new =~= old_content + (typed + newline()));
    assert(ls =~= old_lines.push(typed));
    law_lines_are_read(old_lines, typed);
    let last = last_message_line(ls);
    lemma_last_message_line(old_lines);
    let v = untagged(old_lines);
    assert forall|j: int| 0 <= j < v.len() implies among(v, (#[trigger] v[j]).1) by {}
    lemma_untagged_from(old_lines);
    law_new_lines(v, old_lines.len() as int, typed, v, last);
    lemma_old_lines_are_not_new(v, v, last, false, v.len() as int);
    lemma_old_lines_are_not_new(v, v, last, true, v.len() as int);
    assert(v.take(v.len() as int) =~= v);
    let none = Seq::<Seq<char>>::empty();
    assert(none.push(typed) =~= seq![typed]);
    law_lines_make_messages(none, typed);
    assert(coalesced(none).len() == 0);
}

proof fn lemma_untagged_from(ls: Seq<Seq<char>>)
    ensures
        forall|j: int|
            0 <= j < untagged(ls).len() ==> exists|k: int|
                0 <= k < ls.len() && ls[k] == (#[trigger] untagged(ls)[j]).1,
    decreases ls.len(),
{
    if ls.len() > 0 {
        let front = ls.drop_last();
        lemma_untagged_from(front);
        assert forall|j: int| 0 <= j < untagged(ls).len() implies exists|k: int|
            0 <= k < ls.len() && ls[k] == (#[trigger] untagged(ls)[j]).1 by {
            if j < untagged(front).len() {
                assert(untagged(ls)[j] == untagged(front)[j]);
                let k = choose|k: int| 0 <= k < front.len() && front[k] == untagged(front)[j].1;
                assert(ls[k] == untagged(ls)[j].1);
            } else {
                assert(ls[ls.len() - 1] == untagged(ls)[j].1);
            }
        }
    }
}

// ---------------------------------------------------------------------------
// Updates and plans
// ---------------------------------------------------------------------------

/// Each deletion, each edit and each new message is one update of the topic, in this
/// order.
pub proof fn law_changes_become_updates(
    deleted: Seq<i32>,
    edited: Seq<(i32, String, MessageSender)>,
    created: Seq<String>,
    group: u64,
    topic: u64,
    i: int,
)
    ensures
        ({
            let us = wanted_updates(deleted, edited, created, group, topic);
            let (d, e, c) = (deleted.len(), edited.len(), created.len());
            &&& us.len() == d + e + c
            &&& 0 <= i < d ==> us[i] == Update::Delete(group, topic, deleted[i])
            &&& 0 <= i < e ==> us[d + i] == Update::Edit(
                group,
                topic,
                edited[i].0,
                edited[i].1@,
                edited[i].2,
            )
            &&& 0 <= i < c ==> us[d + e + i] == Update::Create(group, topic, created[i]@)
        }),
{
}

/// The plan keeps the edits and the new messages among the updates, in their order, and
/// the deletions with their groups, topics and ids.
pub proof fn law_plan_keeps_the_order(us: Seq<Update>)
    ensures
        edits_in(us) == us.filter(|u: Update| u is Edit),
        creates_in(us) == us.filter(|u: Update| u is Create),
        deletions_in(us) == us.filter(|u: Update| u is Delete).map_values(
            |u: Update| (u->Delete_0, (u->Delete_1, u->Delete_2)),
        ),
    decreases us.len(),
{
    reveal(Seq::filter);
    let pick = |u: Update| (u->Delete_0, (u->Delete_1, u->Delete_2));
    if us.len() > 0 {
        law_plan_keeps_the_order(us.drop_last());
        let ds = us.drop_last().filter(|u: Update| u is Delete);
        if us.last() is Delete {
            assert(ds.push(us.last()).map_values(pick) =~= ds.map_values(pick).push(
                pick(us.last()),
            ));
        }
    } else {
        assert(us.filter(|u: Update| u is Delete).map_values(pick) =~= Seq::empty());
    }
}

/// Items are grouped by their keys: the keys grow, each key of an item stands once, and
/// under it are the values of its items in their order.
pub proof fn law_groups_hold_their_items<V>(
    groups: Seq<(u64, Vec<V>)>,
    items: Seq<(u64, V)>,
    key: u64,
)
    requires
        groups_of(groups, items),
    ensures
        forall|i: int, j: int|
            0 <= i < j < groups.len() ==> (#[trigger] groups[i]).0 < (#[trigger] groups[j]).0,
        (exists|i: int| 0 <= i < items.len() && (#[trigger] items[i]).0 == key) ==> exists|g: int|
            0 <= g < groups.len() && (#[trigger] groups[g]).0 == key,
        forall|g: int|
            0 <= g < groups.len() && (#[trigger] groups[g]).0 == key ==> groups[g].1@
                == items.filter(|item: (u64, V)| item.0 == key).map_values(
                |item: (u64, V)| item.1,
            ),
{
    let keys = groups.map_values(|g: (u64, Vec<V>)| g.0);
    assert forall|i: int, j: int| 0 <= i < j < groups.len() implies (#[trigger] groups[i]).0 < (
    #[trigger] groups[j]).0 by {
        assert(keys[i] < keys[j]);
    }
    if exists|i: int| 0 <= i < items.len() && (#[trigger] items[i]).0 == key {
        assert(has_key(items, key));
        assert(keys.contains(key));
        let g = choose|g: int| 0 <= g < keys.len() && keys[g] == key;
        assert(groups[g].0 == key);
    }
    lemma_values_with(items, key);
}

proof fn lemma_values_with<V>(items: Seq<(u64, V)>, key: u64)
    ensures
        values_with(items, key) == items.filter(|item: (u64, V)| item.0 == key).map_values(
            |item: (u64, V)| item.1,
        ),
    decreases items.len(),
{
    reveal(Seq::filter);
    let f = |item: (u64, V)| item.0 == key;
    let pick = |item: (u64, V)| item.1;
    if items.len() > 0 {
        lemma_values_with(items.drop_last(), key);
        let before = items.drop_last().filter(f);
        if items.last().0 == key {
            assert(before.push(items.last()).map_values(pick) =~= before.map_values(pick).push(
                items.last().1,
            ));
        }
    } else {
        assert(items.filter(f).map_values(pick) =~= Seq::empty());
    }
}

// ---------------------------------------------------------------------------
// Files after a push
// ---------------------------------------------------------------------------

proof fn lemma_first_id_behind(x: Seq<char>, t: Seq<char>)
    requires
        lacks(x, '<'),
    ensures
        first_id(x + t) == first_id(t),
    decreases x.len(),
{
    reveal_strlit("<!-- msg:");
    if x.len() == 0 {
        assert(x + t =~= t);
    } else {
        let s = x + t;
        if tag_starts(s) {
            assert(s.subrange(0, 9)[0] == '<');
            assert(s[0] == x[0]);
        }
        assert(s.skip(1) =~= x.skip(1) + t);
        assert forall|i: int| 0 <= i < x.skip(1).len() implies #[trigger] x.skip(1)[i] != '<' by {
            assert(x.skip(1)[i] == x[i + 1]);
        }
        lemma_first_id_behind(x.skip(1), t);
    }
}

/// The line of a written message goes with the message and stays without it, whatever
/// its tag says of time, sender and answered message. A line that opens no tag stays.
pub proof fn law_lines_go_with_their_messages(
    x: Seq<char>,
    id: i32,
    second: int,
    sender: Option<Seq<char>>,
    reply_to: Option<i32>,
    ids: Seq<i32>,
)
    requires
        lacks(x, '<'),
        0 <= id,
        sender is Some ==> lacks(sender->0, '<'),
    ensures
        ({
            let line = x + message_tag(id as int, second, sender, false, reply_to);
            &&& ids.contains(id) ==> lines_without(seq![line], ids).len() == 0
            &&& !ids.contains(id) ==> lines_without(seq![line], ids) == seq![line]
            &&& lines_without(seq![x], ids) == seq![x]
        }),
{
    let tag = message_tag(id as int, second, sender, false, reply_to);
    let line = x + tag;
    law_tag_reads_back(id as int, second, sender, reply_to);
    lemma_first_id_behind(x, tag);
    lemma_first_id_behind(x, Seq::empty());
    assert(x + Seq::<char>::empty() =~= x);
    let none = Seq::<Seq<char>>::empty();
    assert(seq![line].drop_last() =~= none);
    assert(seq![x].drop_last() =~= none);
    assert(lines_without(none, ids) =~= none);
    assert(none.push(line) =~= seq![line]);
    assert(none.push(x) =~= seq![x]);
}

/// Lines are taken out of the pieces of a file piece by piece.
pub proof fn law_lines_go_piece_by_piece(a: Seq<Seq<char>>, b: Seq<Seq<char>>, ids: Seq<i32>)
    ensures
        lines_without(a + b, ids) == lines_without(a, ids) + lines_without(b, ids),
    decreases b.len(),
{
    if b.len() == 0 {
        assert(a + b =~= a);
        assert(lines_without(a, ids) + lines_without(b, ids) =~= lines_without(a, ids));
    } else {
        law_lines_go_piece_by_piece(a, b.drop_last(), ids);
        assert((a + b).drop_last() =~= a + b.drop_last());
        assert((a + b).last() == b.last());
        assert(lines_without(a + b, ids) =~= lines_without(a, ids) + lines_without(b, ids));
    }
}

/// Sent messages are put behind the file one by one, each whole and with the tag of its
/// id and of the moment, without a sender. Only the first one is set apart from what
/// stood there before.
pub proof fn law_sent_messages_are_appended(
    s: Seq<char>,
    sent: Seq<(Seq<char>, i32)>,
    message: Seq<char>,
    id: i32,
    last: Option<Timestamp>,
    now: Timestamp,
)
    ensures
        with_all_sent(s, Seq::empty(), last, now) == s,
        with_all_sent(s, sent.push((message, id)), last, now) == with_all_sent(s, sent, last, now)
            + appended(
            message,
            Some(
                "<!-- msg:"@ + numeral(id as int) + " ts:"@ + numeral(now.second()) + " -->"@,
            ),
            if sent.len() == 0 {
                gap(last, now)
            } else {
                Gap::Short
            },
        ),
{
    let all = sent.push((message, id));
    assert(all.drop_last() =~= sent);
    law_tags(id as int, now.second(), Seq::empty(), 0);
}

proof fn lemma_taken_out(s: Seq<char>, p: Seq<char>, a: Seq<char>, b: Seq<char>)
    requires
        s == a + p + b,
        last_occurrence(s, p, a.len() as int),
        b.len() == 0 || b[0] == '\n',
    ensures
        stands_untagged(s, p),
        without_last(s, p) == a + b,
{
    let i = a.len() as int;
    let j = last_place(s, p);
    assert(last_occurrence(s, p, j));
    if i < j {
        assert(!occurs_at(s, j, p));
    } else if j < i {
        assert(!occurs_at(s, i, p));
    }
    assert(s.skip(i + p.len()) =~= b);
    assert(s.take(i) =~= a);
    reveal_strlit("<!-- msg:");
    assert(rest_of_line(s, i + p.len()).len() == 0) by {
        assert(first_index(b, '\n') == 0);
    }
}

/// The text of a sent message is taken out where it stands on a line of its own, with
/// the line feed before it: behind a dot and a space, or else by itself. Where it stands
/// on none, as at the start of a file, it is taken out by itself. A text that stands
/// nowhere is not missed.
pub proof fn law_sent_text_is_taken_out(a: Seq<char>, message: Seq<char>, b: Seq<char>)
    requires
        b.len() == 0 || b[0] == '\n',
    ensures
        ({
            let p = "\n. "@ + message;
            last_occurrence(a + p + b, p, a.len() as int) ==> without_sent(a + p + b, message) == a
                + b
        }),
        ({
            let p = "\n"@ + message;
            let s = a + p + b;
            last_occurrence(s, p, a.len() as int) && !occurs(s, "\n. "@ + message)
                ==> without_sent(s, message) == a + b
        }),
        !occurs(a, "\n. "@ + message) && !occurs(a, "\n"@ + message) && !occurs(a, message)
            ==> without_sent(a, message) == a,
        ({
            let s = a + message + b;
            last_occurrence(s, message, a.len() as int) && !occurs(s, "\n. "@ + message) && !occurs(
                s,
                "\n"@ + message,
            ) ==> without_sent(s, message) == a + b
        }),
{
    let p = "\n. "@ + message;
    if last_occurrence(a + p + b, p, a.len() as int) {
        lemma_taken_out(a + p + b, p, a, b);
    }
    let q = "\n"@ + message;
    if last_occurrence(a + q + b, q, a.len() as int) {
        lemma_taken_out(a + q + b, q, a, b);
    }
    if last_occurrence(a + message + b, message, a.len() as int) {
        lemma_taken_out(a + message + b, message, a, b);
    }
}

/// A text behind whose last occurrences a tag opens on the same line stays.
pub proof fn law_tagged_text_stays(s: Seq<char>, message: Seq<char>)
    requires
        forall|i: int, p: Seq<char>|
            #![trigger last_occurrence(s, p, i)]
            last_occurrence(s, p, i) && (p == "\n. "@ + message || p == "\n"@ + message || p
                == message) ==> occurs(rest_of_line(s, i + p.len()), "<!-- msg:"@),
    ensures
        without_sent(s, message) == s,
{
    lemma_has_last(s, "\n. "@ + message);
    lemma_has_last(s, "\n"@ + message);
    lemma_has_last(s, message);
}

proof fn lemma_has_last(s: Seq<char>, p: Seq<char>)
    ensures
        occurs(s, p) ==> last_occurrence(s, p, last_place(s, p)),
{
    if occurs(s, p) {
        let i = choose|i: int| occurs_at(s, i, p);
        lemma_last_from(s, p, i);
    }
}

proof fn lemma_last_from(s: Seq<char>, p: Seq<char>, i: int)
    requires
        occurs_at(s, i, p),
    ensures
        exists|j: int| last_occurrence(s, p, j),
    decreases s.len() - i,
{
    if !last_occurrence(s, p, i) {
        let j = choose|j: int| i < j && occurs_at(s, j, p);
        lemma_last_from(s, p, j);
    }
}

/// Texts of sent messages are taken out one after the other.
pub proof fn law_sent_texts_are_taken_out(
    s: Seq<char>,
    sent: Seq<(Seq<char>, i32)>,
    message: Seq<char>,
    id: i32,
)
    ensures
        without_all_sent(s, Seq::empty()) == s,
        without_all_sent(s, sent.push((message, id))) == without_sent(
            without_all_sent(s, sent),
            message,
        ),
{
    assert(sent.push((message, id)).drop_last() =~= sent);
}

// ---------------------------------------------------------------------------
// Whole files
// ---------------------------------------------------------------------------

/// A file that was left as it is has no changes.
pub proof fn law_unchanged_files(r: FileChanges, content: Seq<char>)
    requires
        are_changes(r, content, content),
    ensures
        r.deleted.len() == 0,
        r.edited.len() == 0,
        r.created.len() == 0,
        r.invalid_inserts.len() == 0,
{
    law_no_changes(content, r.deleted@, r.edited@);
    let ls = lines(content);
    let none = new_lines(untagged(ls), untagged(ls), last_message_line(ls), false);
    assert(none == Seq::<Seq<char>>::empty());
    assert(string_texts(r.created@).len() == 0);
    assert(string_texts(r.invalid_inserts@).len() == 0) by {
        assert(new_lines(untagged(ls), untagged(ls), last_message_line(ls), true) == Seq::<
            Seq<char>,
        >::empty());
    }
}

/// A line typed at the end of a file is the one change of it.
pub proof fn law_typed_lines_are_changes(r: FileChanges, old_content: Seq<char>, typed: Seq<char>)
    requires
        are_changes(r, old_content, old_content + typed + seq!['\n']),
        old_content.len() == 0 || old_content.last() == '\n',
        lacks(typed, '\n'),
        typed.last() != '\r',
        !blank(typed),
        !header_line(trimmed(typed)),
        marker_from(typed, 0) is None,
        !starts(trimmed(typed), seq!['.', ' ']),
        forall|j: int|
            0 <= j < lines(old_content).len() ==> #[trigger] lines(old_content)[j] != typed,
    ensures
        r.deleted.len() == 0,
        r.edited.len() == 0,
        r.invalid_inserts.len() == 0,
        r.created.len() == 1,
        r.created[0]@ == trimmed(typed),
{
    law_typed_line_is_sent(old_content, typed);
    law_no_changes(old_content, r.deleted@, r.edited@);
    let created = string_texts(r.created@);
    assert(created == seq![trimmed(typed)]);
    assert(created.len() == r.created.len());
    assert(created[0] == r.created[0]@);
    assert(string_texts(r.invalid_inserts@).len() == r.invalid_inserts.len());
}

/// What changed in a file is read from its messages and its lines without tags.
pub proof fn law_changes_of_files(r: FileChanges, old_content: Seq<char>, new_content: Seq<char>)
    requires
        are_changes(r, old_content, new_content),
    ensures
        are_deleted(r.deleted@, messages_on(lines(old_content)), messages_on(lines(new_content))),
        are_edited(r.edited@, messages_on(lines(old_content)), messages_on(lines(new_content))),
        forall|i: int|
            #![trigger r.invalid_inserts[i]]
            0 <= i < r.invalid_inserts.len() ==> lines(new_content).contains(
                r.invalid_inserts[i]@,
            ) && !lines(old_content).contains(r.invalid_inserts[i]@) || exists|j: int|
                0 <= j < lines(old_content).len() && lines(old_content)[j]
                    == r.invalid_inserts[i]@ && marker_from(lines(old_content)[j], 0) is Some,
{
    let ls = lines(new_content);
    let olds = lines(old_content);
    let v = untagged(ls);
    let old_lines = untagged(olds);
    let last = last_message_line(ls);
    let above = new_lines(v, old_lines, last, true);
    assert forall|i: int|
        #![trigger r.invalid_inserts[i]]
        0 <= i < r.invalid_inserts.len() implies ls.contains(r.invalid_inserts[i]@)
        && !olds.contains(r.invalid_inserts[i]@) || exists|j: int|
        0 <= j < olds.len() && olds[j] == r.invalid_inserts[i]@ && marker_from(olds[j], 0)
            is Some by {
        let line = r.invalid_inserts[i]@;
        assert(string_texts(r.invalid_inserts@)[i] == line);
        assert(above[i] == line);
        lemma_new_lines_from(v, old_lines, last, true, i);
        lemma_untagged_from(ls);
        let k = choose|k: int| 0 <= k < v.len() && (#[trigger] v[k]).1 == line && !among(
            old_lines,
            line,
        );
        let x = choose|x: int| 0 <= x < ls.len() && ls[x] == v[k].1;
        assert(ls.contains(line));
        if olds.contains(line) {
            let j = choose|j: int| 0 <= j < olds.len() && olds[j] == line;
            if marker_from(olds[j], 0) is None {
                lemma_untagged_holds(olds, j);
            }
        }
    }
}

proof fn lemma_new_lines_from(
    v: Seq<(int, Seq<char>)>,
    old_lines: Seq<(int, Seq<char>)>,
    last: Option<int>,
    above: bool,
    i: int,
)
    requires
        0 <= i < new_lines(v, old_lines, last, above).len(),
    ensures
        exists|k: int|
            0 <= k < v.len() && (#[trigger] v[k]).1 == new_lines(v, old_lines, last, above)[i]
                && !among(old_lines, v[k].1),
    decreases v.len(),
{
    let front = v.drop_last();
    let before = new_lines(front, old_lines, last, above);
    let all = new_lines(v, old_lines, last, above);
    if i < before.len() {
        lemma_new_lines_from(front, old_lines, last, above, i);
        assert(all[i] == before[i]);
        let k = choose|k: int|
            0 <= k < front.len() && (#[trigger] front[k]).1 == before[i] && !among(
                old_lines,
                front[k].1,
            );
        assert(v[k] == front[k]);
    } else {
        assert(v[v.len() - 1].1 == all[i]);
    }
}

proof fn lemma_untagged_holds(ls: Seq<Seq<char>>, j: int)
    requires
        0 <= j < ls.len(),
        marker_from(ls[j], 0) is None,
    ensures
        among(untagged(ls), ls[j]),
    decreases ls.len(),
{
    let front = ls.drop_last();
    if j < front.len() {
        assert(front[j] == ls[j]);
        lemma_untagged_holds(front, j);
        let k = choose|k: int| 0 <= k < untagged(front).len() && (#[trigger] untagged(front)[k]).1
            == ls[j];
        assert(untagged(ls)[k] == untagged(front)[k]);
    } else {
        assert(untagged(ls)[untagged(ls).len() - 1].1 == ls[j]);
    }
}

/// What is left of a file once lines are taken out are the other lines, with line feeds
/// between them.
pub proof fn law_removals(content: Seq<char>, ids: Seq<i32>, new: Seq<char>, removed: int)
    requires
        is_removal(content, ids, new, removed),
    ensures
        new == joined(lines_without(lines(content), ids), seq!['\n']),
        removed + lines_without(lines(content), ids).len() == lines(content).len(),
        removed > 0,
{
}

/// Sent messages come by their topics: each topic once, in order, with its messages.
pub proof fn law_sent_by_topics(r: Seq<TopicMessages>, all: Seq<SentMessage>, i: int, k: int)
    requires
        are_by_topic(r, all),
    ensures
        0 <= i < all.len() ==> exists|t: int|
            0 <= t < r.len() && (#[trigger] r[t]).group_id == all[i].group_id && r[t].topic_id
                == all[i].topic_id,
        0 <= k < r.len() ==> sent_texts(r[k].messages@) == sent_to(
            all,
            r[k].group_id,
            r[k].topic_id,
        ),
        forall|a: int, b: int|
            0 <= a < b < r.len() ==> (#[trigger] r[a]).group_id != (#[trigger] r[b]).group_id
                || r[a].topic_id != r[b].topic_id,
{
    let ts = topics_of_messages(r);
    if 0 <= i < all.len() {
        let place = sent_places(all)[i];
        assert(sent_places(all).contains(place));
        assert(ts.contains(place));
        let t = choose|t: int| 0 <= t < ts.len() && ts[t] == place;
        assert(r[t].group_id == all[i].group_id);
    }
    assert forall|a: int, b: int| 0 <= a < b < r.len() implies (#[trigger] r[a]).group_id != (
    #[trigger] r[b]).group_id || r[a].topic_id != r[b].topic_id by {
        assert(earlier(ts[a], ts[b]));
    }
}

/// The lines that go come by their topics: each topic once, with all its messages whose
/// deletion took place.
pub proof fn law_removals_by_topics(
    r: Seq<TopicDeletions>,
    groups: Seq<(u64, Vec<(u64, i32)>)>,
    replies: Seq<Result<usize, String>>,
    i: int,
    k: int,
)
    requires
        are_removals(r, groups, replies),
    ensures
        ({
            let gone = deleted(groups, replies);
            &&& 0 <= i < gone.len() ==> exists|t: int|
                0 <= t < r.len() && (#[trigger] r[t]).group_id == (gone[i].0).0 && r[t].topic_id
                    == (gone[i].0).1 && r[t].message_ids@.contains(gone[i].1)
            &&& 0 <= k < r.len() ==> r[k].message_ids@ == ids_at(
                gone,
                (r[k].group_id, r[k].topic_id),
            )
        }),
        forall|a: int, b: int|
            0 <= a < b < r.len() ==> (#[trigger] r[a]).group_id != (#[trigger] r[b]).group_id
                || r[a].topic_id != r[b].topic_id,
{
    let gone = deleted(groups, replies);
    let ts = deletion_topics(r);
    if 0 <= i < gone.len() {
        let place = topics_among(gone)[i];
        assert(topics_among(gone).contains(place));
        assert(ts.contains(place));
        let t = choose|t: int| 0 <= t < ts.len() && ts[t] == place;
        assert(gone.contains((place, gone[i].1))) by {
            assert(gone[i] == (place, gone[i].1));
        }
        lemma_ids_at(gone, place, gone[i].1);
        assert(r[t].message_ids@ == ids_at(gone, (r[t].group_id, r[t].topic_id)));
        assert(r[t].group_id == place.0 && r[t].topic_id == place.1);
    }
    assert forall|a: int, b: int| 0 <= a < b < r.len() implies (#[trigger] r[a]).group_id != (
    #[trigger] r[b]).group_id || r[a].topic_id != r[b].topic_id by {
        assert(earlier(ts[a], ts[b]));
    }
}

} // verus!
