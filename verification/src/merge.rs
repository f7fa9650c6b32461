//! Merging fetched messages into a topic file.
use vstd::prelude::*;

use crate::calendar::{
    DAY, Date, SECOND, Timestamp, current_year, day_of, lemma_date_exists, month_text,
    second_in_range,
};
use crate::decimal::padded;
use crate::fetch::{Fetched, FetchedMessage, fetched};
use crate::header::{
    DateHeader, backfill_chars, backfilled, backfilled_line, backfilled_lines, dated_line,
    header_of, headers, inferred_year, last_date, law_month_names, lemma_header_no_tags,
    lemma_header_of, read_last_date,
};
use crate::order::{reorder_chars, reordered};
use crate::pull::ids_increase;
use crate::server::{
    Gap, appended, format_message_append_with_sender, gap, law_appended_ids,
    lemma_ids_before_newline, lemma_numeral_lacks, lemma_padded_lacks, message_tag,
};
use crate::tag::{
    ids_of_lines, increasing, lemma_no_tags, lemma_tag_ids_joined, lemma_tag_ids_last,
    lemma_tag_ids_lines, lemma_tag_ids_of_lines, tag_ids,
};
use crate::text::{
    append, append_str, copied, from_chars, lacks, lines, newline, to_chars, trim_end, trimmed_end,
};
use crate::unicode::{ascii_letter, whitespace};

verus! {

/// The instant at which a message was sent.
pub open spec fn sent_at(m: Fetched) -> Timestamp {
    Timestamp { nanos: (m.date * SECOND) as i128 }
}

/// What stands for the sender of a message in its tag.
pub open spec fn sender_of(m: Fetched) -> Seq<char> {
    if m.outgoing {
        "user"@
    } else {
        "bot"@
    }
}

/// What is written of a message, where there is anything to write: its text, or
/// a note of its photo and then its text.
pub open spec fn content_of(m: Fetched) -> Option<Seq<char>> {
    if m.photo {
        Some(if m.text.len() == 0 {
            "[photo]"@
        } else {
            "[photo]\n"@ + m.text
        })
    } else if m.text.len() > 0 {
        Some(m.text)
    } else {
        None
    }
}

/// The tag of a fetched message.
pub open spec fn fetched_tag(m: Fetched) -> Seq<char> {
    message_tag(m.id, sent_at(m).second(), Some(sender_of(m)), false, None)
}

/// The text and the time of the last write after the messages were appended.
pub open spec fn with_messages(text: Seq<char>, last: Option<Timestamp>, ms: Seq<Fetched>) -> (
    Seq<char>,
    Option<Timestamp>,
)
    decreases ms.len(),
{
    if ms.len() == 0 {
        (text, last)
    } else {
        let (before, time) = with_messages(text, last, ms.drop_last());
        let m = ms.last();
        match content_of(m) {
            None => (before, time),
            Some(content) => (
                before + appended(content, Some(fetched_tag(m)), gap(time, sent_at(m))),
                Some(sent_at(m)),
            ),
        }
    }
}

/// A file's content, made ready for more messages: its messages in order, its
/// headers with years, and nothing but a line feed behind its last line.
pub open spec fn made_ready(content: Seq<char>, current: int) -> Seq<char> {
    let ordered = if increasing(tag_ids(content)) {
        content
    } else {
        reordered(content)
    };
    let s = trimmed_end(backfilled(ordered, current));
    if s.len() == 0 {
        s
    } else {
        s + newline()
    }
}

/// The end of the day of the last date header, as the time of the last write.
pub open spec fn last_write_in(text: Seq<char>) -> Option<Timestamp> {
    match last_date(lines(text)) {
        None => None,
        Some(d) => {
            let second = d.number() * 86400 + 86399;
            if second_in_range(second) {
                Some(Timestamp { nanos: (second * SECOND) as i128 })
            } else {
                None
            }
        },
    }
}

/// A file's content after messages were merged into it.
pub open spec fn merged(content: Seq<char>, ms: Seq<Fetched>, current: int) -> Seq<char> {
    let ready = made_ready(content, current);
    with_messages(ready, last_write_in(ready), ms).0
}

// ---------------------------------------------------------------------------
// Merging
// ---------------------------------------------------------------------------

/// The content made ready for more messages.
fn make_ready(content: &[char], current: i16) -> (r: Vec<char>)
    ensures
        r@ == made_ready(content@, current as int),
{
    let ordered = if ids_increase(content) {
        copied(content)
    } else {
        reorder_chars(content)
    };
    let filled = backfill_chars(ordered.as_slice(), current);
    let mut r = copied(trim_end(filled.as_slice()));
    if r.len() > 0 {
        r.push('\n');
        assert(r@ =~= trimmed_end(filled@) + newline());
    }
    r
}

proof fn lemma_header_date_valid(ls: Seq<Seq<char>>)
    ensures
        last_date(ls) is Some ==> last_date(ls)->0.valid(),
    decreases ls.len(),
{
    if ls.len() > 0 {
        lemma_header_date_valid(ls.drop_last());
    }
}

/// The end of the day of the last date header, as the time of the last write.
fn find_last_write(text: &[char]) -> (r: Option<Timestamp>)
    ensures
        r == last_write_in(text@),
        r is Some ==> r->0.valid(),
{
    match read_last_date(text) {
        None => None,
        Some(d) => {
            proof {
                lemma_header_date_valid(lines(text@));
            }
            d.last_second()
        },
    }
}

/// What is written of a message, where there is anything to write.
fn write_content(m: &FetchedMessage) -> (r: Option<String>)
    ensures
        match r {
            Some(s) => content_of(m@) == Some(s@),
            None => content_of(m@) is None,
        },
{
    let text = to_chars(m.text.as_str());
    if m.photo {
        if text.len() == 0 {
            Some(from_chars(to_chars("[photo]").as_slice()))
        } else {
            let mut v = to_chars("[photo]\n");
            append(&mut v, text.as_slice());
            Some(from_chars(v.as_slice()))
        }
    } else if text.len() > 0 {
        Some(from_chars(text.as_slice()))
    } else {
        None
    }
}

/// A file's content after messages were merged into it. `current` is the current
/// year.
pub fn merge_messages(content: &str, messages: &Vec<FetchedMessage>, current: i16) -> (r: String)
    ensures
        r@ == merged(content@, fetched(messages@), current as int),
{
    let mut text = make_ready(to_chars(content).as_slice(), current);
    let ghost ready = text@;
    let mut last = find_last_write(text.as_slice());
    let ghost start = last;
    let ghost all = fetched(messages@);
    let mut i: usize = 0;
    while i < messages.len()
        invariant
            i <= messages.len(),
            all == fetched(messages@),
            (text@, last) == with_messages(ready, start, all.take(i as int)),
            last is Some ==> last->0.valid(),
        decreases messages.len() - i,
    {
        proof {
            assert(all.take(i + 1).drop_last() =~= all.take(i as int));
            assert(all.take(i + 1).last() == messages[i as int]@);
        }
        let m = &messages[i];
        let time = Timestamp { nanos: m.date as i128 * SECOND };
        let sender = if m.is_outgoing {
            "user"
        } else {
            "bot"
        };
        match write_content(m) {
            Some(content) => {
                let formatted = format_message_append_with_sender(
                    content.as_str(),
                    last,
                    time,
                    Some(m.id),
                    Some(sender),
                );
                append_str(&mut text, formatted.as_str());
                last = Some(time);
            },
            None => {},
        }
        i += 1;
    }
    assert(all.take(all.len() as int) =~= all);
    from_chars(text.as_slice())
}

/// A file's content after messages were merged into it, with the year that the
/// clock shows for the current one.
pub fn merge_mtproto_messages_to_file(content: &str, messages: &Vec<FetchedMessage>) -> (r: String)
    ensures
        exists|current: int|
            -9999 <= current <= 9999 && r@ == #[trigger] merged(
                content@,
                fetched(messages@),
                current,
            ),
{
    let year = current_year();
    let r = merge_messages(content, messages, year);
    assert(r@ == merged(content@, fetched(messages@), year as int));
    r
}

/// The time of the last message that is written, where any is.
pub open spec fn last_sent(ms: Seq<Fetched>) -> Option<Timestamp>
    decreases ms.len(),
{
    if ms.len() == 0 {
        None
    } else if content_of(ms.last()) is Some {
        Some(sent_at(ms.last()))
    } else {
        last_sent(ms.drop_last())
    }
}

/// The time of the last write to a file that the messages are merged into, where any
/// of them is written.
pub fn last_write_of(messages: &Vec<FetchedMessage>) -> (r: Option<Timestamp>)
    ensures
        r == last_sent(fetched(messages@)),
        r is Some ==> r->0.valid(),
{
    let ghost all = fetched(messages@);
    let mut i: usize = messages.len();
    assert(all.take(all.len() as int) =~= all);
    while i > 0
        invariant
            i <= messages.len(),
            all == fetched(messages@),
            last_sent(all) == last_sent(all.take(i as int)),
        decreases i,
    {
        i -= 1;
        let m = &messages[i];
        proof {
            assert(all.take(i + 1).drop_last() =~= all.take(i as int));
            assert(all.take(i + 1).last() == m@);
        }
        if write_content(m).is_some() {
            return Some(Timestamp { nanos: m.date as i128 * SECOND });
        }
    }
    None
}

// ---------------------------------------------------------------------------
// Laws
// ---------------------------------------------------------------------------

/// Merging messages leaves a file last written to at the time of the last of them
/// that is written.
pub proof fn law_merging_sets_last_write(
    text: Seq<char>,
    last: Option<Timestamp>,
    ms: Seq<Fetched>,
)
    ensures
        with_messages(text, last, ms).1 == (match last_sent(ms) {
            Some(t) => Some(t),
            None => last,
        }),
    decreases ms.len(),
{
    if ms.len() > 0 {
        law_merging_sets_last_write(text, last, ms.drop_last());
    }
}

/// The ids that the messages bring: those of tags in their own texts, each
/// followed by that of the message.
pub open spec fn ids_brought(ms: Seq<Fetched>) -> Seq<int>
    decreases ms.len(),
{
    if ms.len() == 0 {
        Seq::empty()
    } else {
        let before = ids_brought(ms.drop_last());
        match content_of(ms.last()) {
            None => before,
            Some(content) => before + tag_ids(content).push(ms.last().id),
        }
    }
}

/// The message has an id and a second that Telegram can give it.
pub open spec fn sendable(m: Fetched) -> bool {
    0 <= m.id <= i32::MAX && i32::MIN <= m.date <= i32::MAX
}

proof fn lemma_sent_at(m: Fetched)
    requires
        sendable(m),
    ensures
        sent_at(m).valid(),
        sent_at(m).date().valid(),
{
    lemma_date_exists(sent_at(m));
}

/// Filling in years changes no tags.
pub proof fn lemma_backfilled_ids(content: Seq<char>, current: int)
    ensures
        tag_ids(backfilled(content, current)) == tag_ids(content),
{
    let ls = lines(content);
    lemma_tag_ids_of_lines(content);
    lemma_tag_ids_joined(backfilled_lines(ls, current));
    lemma_backfilled_lines_ids(ls, current, ls.len() as int);
    assert(ls.take(ls.len() as int) =~= ls);
    assert(backfilled_lines(ls, current).take(ls.len() as int) =~= backfilled_lines(ls, current));
}

proof fn lemma_backfilled_lines_ids(ls: Seq<Seq<char>>, current: int, i: int)
    requires
        0 <= i <= ls.len(),
    ensures
        ids_of_lines(backfilled_lines(ls, current).take(i)) == ids_of_lines(ls.take(i)),
    decreases i,
{
    let new = backfilled_lines(ls, current);
    if i > 0 {
        lemma_backfilled_lines_ids(ls, current, i - 1);
        assert(new.take(i).drop_last() =~= new.take(i - 1));
        assert(ls.take(i).drop_last() =~= ls.take(i - 1));
        let line = ls[i - 1];
        match header_of(line) {
            Some(h) => {
                if h.year is None {
                    lemma_header_no_tags(line);
                    lemma_header_of(line);
                    lemma_dated_line_no_tags(
                        h,
                        inferred_year(headers(ls), headers(ls.take(i - 1)).len() as int, current),
                    );
                }
            },
            None => {},
        }
        assert(new.take(i).last() == backfilled_line(ls, i - 1, current));
        assert(ls.take(i).last() == line);
    } else {
        assert(new.take(0) =~= Seq::empty());
        assert(ls.take(0) =~= Seq::empty());
    }
}

proof fn lemma_dated_line_no_tags(h: DateHeader, year: int)
    requires
        1 <= h.month <= 12,
        0 <= h.day,
    ensures
        tag_ids(dated_line(h, year)) == Seq::<int>::empty(),
{
    let m = month_text(h.month as int);
    law_month_names(h.month as int);
    assert forall|i: int| 0 <= i < m.len() implies #[trigger] m[i] != '<' by {
        assert(ascii_letter(m[i]));
    }
    lemma_padded_lacks(h.day as int, 2);
    lemma_numeral_lacks(year, '<');
    let a = seq!['#', '#', ' '] + m + seq![' '] + padded(h.day as int, 2) + seq![',', ' '];
    assert(lacks(a, '<'));
    assert(lacks(dated_line(h, year), '<'));
    lemma_no_tags(dated_line(h, year));
}

/// White space at the end of a text holds no part of a tag.
proof fn lemma_trimmed_end_ids(s: Seq<char>)
    ensures
        tag_ids(trimmed_end(s)) == tag_ids(s),
    decreases s.len(),
{
    if s.len() > 0 && whitespace(s.last()) {
        let t = s.drop_last();
        lemma_trimmed_end_ids(t);
        lemma_tag_ids_last(t, s.last());
        assert(s =~= t.push(s.last()));
    }
}

/// Making a file ready for more messages changes no tags, once its messages are
/// in order.
pub proof fn law_made_ready_keeps_ids(content: Seq<char>, current: int)
    ensures
        tag_ids(made_ready(content, current)) == (if increasing(tag_ids(content)) {
            tag_ids(content)
        } else {
            tag_ids(reordered(content))
        }),
{
    let ordered = if increasing(tag_ids(content)) {
        content
    } else {
        reordered(content)
    };
    let filled = backfilled(ordered, current);
    lemma_backfilled_ids(ordered, current);
    lemma_trimmed_end_ids(filled);
    let s = trimmed_end(filled);
    lemma_ids_before_newline(s);
}

/// Texts that end in a line feed, or are empty, keep their tags apart from those
/// of what comes behind.
pub proof fn lemma_ids_after_line_end(a: Seq<char>, b: Seq<char>)
    requires
        a.len() == 0 || a.last() == '\n',
    ensures
        tag_ids(a + b) == tag_ids(a) + tag_ids(b),
{
    if a.len() == 0 {
        assert(a + b =~= b);
        assert(tag_ids(a) =~= Seq::empty());
        assert(Seq::<int>::empty() + tag_ids(b) =~= tag_ids(b));
    } else {
        let front = a.drop_last();
        assert(a =~= front + newline());
        lemma_ids_before_newline(front);
        lemma_tag_ids_lines(front, b);
        assert(a + b =~= front + newline() + b);
    }
}

proof fn lemma_with_messages_ids(text: Seq<char>, last: Option<Timestamp>, ms: Seq<Fetched>)
    requires
        text.len() == 0 || text.last() == '\n',
        forall|i: int| 0 <= i < ms.len() ==> sendable(#[trigger] ms[i]),
    ensures
        tag_ids(with_messages(text, last, ms).0) == tag_ids(text) + ids_brought(ms),
        with_messages(text, last, ms).0.len() == 0 || with_messages(text, last, ms).0.last()
            == '\n',
    decreases ms.len(),
{
    if ms.len() == 0 {
        assert(tag_ids(text) + Seq::<int>::empty() =~= tag_ids(text));
    } else {
        let front = ms.drop_last();
        assert forall|i: int| 0 <= i < front.len() implies sendable(#[trigger] front[i]) by {
            assert(ms[i] == front[i]);
        }
        lemma_with_messages_ids(text, last, front);
        let (before, time) = with_messages(text, last, front);
        let m = ms.last();
        assert(sendable(ms[ms.len() - 1]));
        match content_of(m) {
            None => {},
            Some(content) => {
                reveal_strlit("user");
                reveal_strlit("bot");
                reveal_strlit("\n");
                lemma_sent_at(m);
                let g = gap(time, sent_at(m));
                assert(lacks(sender_of(m), '<'));
                law_appended_ids(
                    content,
                    m.id,
                    sent_at(m).second(),
                    Some(sender_of(m)),
                    None,
                    g,
                );
                let new = appended(content, Some(fetched_tag(m)), g);
                lemma_ids_after_line_end(before, new);
                assert(new.last() == '\n');
                assert((before + new).last() == new.last());
                assert(tag_ids(text) + ids_brought(front) + tag_ids(content).push(m.id)
                    =~= tag_ids(text) + (ids_brought(front) + tag_ids(content).push(m.id)));
            },
        }
    }
}

/// Merging puts the ids of the messages, in order, behind those of the file.
pub proof fn law_merging_appends_ids(content: Seq<char>, ms: Seq<Fetched>, current: int)
    requires
        forall|i: int| 0 <= i < ms.len() ==> sendable(#[trigger] ms[i]),
    ensures
        tag_ids(merged(content, ms, current)) == tag_ids(made_ready(content, current))
            + ids_brought(ms),
{
    let ready = made_ready(content, current);
    lemma_with_messages_ids(ready, last_write_in(ready), ms);
}

/// A message of the day of the last date header gets no header of its own: between
/// the end of a day and any moment of it there is no gap.
pub proof fn law_no_second_header_for_a_day(d: Date, t: Timestamp)
    requires
        d.valid(),
        t.valid(),
        t.date() == d,
        second_in_range(d.number() * 86400 + 86399),
    ensures
        gap(
            Some(Timestamp { nanos: ((d.number() * 86400 + 86399) * SECOND) as i128 }),
            t,
        ) == Gap::Short,
{
    lemma_date_exists(t);
    let n = d.number();
    assert(day_of(t.nanos as int) == n);
    assert(t.nanos < (n + 1) * DAY);
    assert((n + 1) * DAY - (n * 86400 + 86399) * SECOND == SECOND);
}

} // verus!
