//! Showing messages of all topics.
use std::collections::HashMap;

use vstd::prelude::*;
use vstd::slice::slice_subrange;

use crate::calendar::{
    Date, SECOND, Timestamp, before, clock_text, iso_text, month_text, second_in_range,
};
use crate::config::AppConfig;
use crate::decimal::{parse_i16, parse_i8};
use crate::header::{day_value, header_line, is_header_line, month_name, year_value};
use crate::sort::{law_sorting, stable, stable_sort};
use crate::sync::{
    growing, messages_on, parse_file_messages, parse_message_times, parsed, sorted_message_ids,
    times_on,
};
use crate::tag::{first_id, read_first_id};
use crate::text::{
    append, append_str, from_chars, lines, same, split_lines, starts, str_stands_at, texts,
    to_chars, trim, trimmed,
};
use crate::unicode::lowercase;

verus! {

broadcast use {
    vstd::std_specs::btree::group_btree_axioms,
    vstd::std_specs::hash::group_hash_axioms,
};

/// A message to show.
#[derive(Clone, Debug)]
pub struct RawMessage {
    pub message_id: i32,
    pub date: Date,
    /// The second since 1970, where the message's tag holds it.
    pub ts: Option<i64>,
    pub content: String,
    pub is_voice: bool,
    pub group_name: String,
    pub topic_name: String,
}

/// A number by which messages come in the order of their dates and ids.
pub open spec fn place_of(m: RawMessage) -> int {
    ((m.date.year * 16 + m.date.month) * 32 + m.date.day) * 4294967296 + m.message_id
}

/// The messages with their places.
pub open spec fn placed(ms: Seq<RawMessage>) -> Seq<(i64, RawMessage)> {
    ms.map_values(|m: RawMessage| (place_of(m) as i64, m))
}

/// The messages by their dates and ids.
pub open spec fn in_order(ms: Seq<RawMessage>) -> Seq<RawMessage> {
    stable(placed(ms)).map_values(|p: (i64, RawMessage)| p.1)
}

/// All messages have dates.
pub open spec fn all_dated(ms: Seq<RawMessage>) -> bool {
    forall|i: int| 0 <= i < ms.len() ==> (#[trigger] ms[i]).date.valid()
}

/// The seconds of the message are such that it can be shown.
pub open spec fn showable(m: RawMessage) -> bool {
    m.date.valid() && (m.ts is Some ==> second_in_range(m.ts->0 as int))
}

/// All messages can be shown.
pub open spec fn all_showable(ms: Seq<RawMessage>) -> bool {
    forall|i: int| 0 <= i < ms.len() ==> showable(#[trigger] ms[i])
}

/// The messages by their dates and ids.
pub fn sort_messages(messages: Vec<RawMessage>) -> (r: Vec<RawMessage>)
    requires
        all_dated(messages@),
    ensures
        r@ == in_order(messages@),
{
    let ghost all = messages@;
    let mut keyed: Vec<(i64, RawMessage)> = Vec::new();
    for m in it: messages
        invariant
            it.seq() == all,
            all_dated(all),
            keyed@ == placed(all.take(it.index() as int)),
    {
        proof {
            assert(m == all[it.index() as int]);
            assert(m.date.valid());
        }
        let day: i64 = (m.date.year as i64 * 16 + m.date.month as i64) * 32 + m.date.day as i64;
        let place: i64 = day * 4294967296 + m.message_id as i64;
        keyed.push((place, m));
        assert(keyed@ =~= placed(all.take(it.index() + 1)));
    }
    assert(all.take(all.len() as int) =~= all);
    let sorted = stable_sort(keyed);
    let ghost whole = sorted@;
    let mut r: Vec<RawMessage> = Vec::new();
    for p in it: sorted
        invariant
            it.seq() == whole,
            r@ == whole.take(it.index() as int).map_values(|p: (i64, RawMessage)| p.1),
    {
        r.push(p.1);
        assert(r@ =~= whole.take(it.index() + 1).map_values(|p: (i64, RawMessage)| p.1));
    }
    assert(whole.take(whole.len() as int) =~= whole);
    r
}

/// The last `count` messages by their dates and ids.
pub open spec fn last_ones(ms: Seq<RawMessage>, count: int) -> Seq<RawMessage> {
    let s = in_order(ms);
    if s.len() > count {
        s.skip(s.len() - count)
    } else {
        s
    }
}

/// The last `count` messages by their dates and ids.
pub fn last_messages(messages: Vec<RawMessage>, count: usize) -> (r: Vec<RawMessage>)
    requires
        all_dated(messages@),
    ensures
        r@ == last_ones(messages@, count as int),
{
    let mut sorted = sort_messages(messages);
    let n = sorted.len();
    if n > count {
        let r = sorted.split_off(n - count);
        assert(r@ =~= in_order(messages@).skip(n - count));
        r
    } else {
        sorted
    }
}

/// Those of the messages that are not before the date.
pub open spec fn not_before(ms: Seq<RawMessage>, from: Date) -> Seq<RawMessage>
    decreases ms.len(),
{
    if ms.len() == 0 {
        Seq::empty()
    } else if before(ms.last().date, from) {
        not_before(ms.drop_last(), from)
    } else {
        not_before(ms.drop_last(), from).push(ms.last())
    }
}

/// The messages from a date on, by their dates and ids.
pub fn messages_since(messages: Vec<RawMessage>, from: Date) -> (r: Vec<RawMessage>)
    requires
        all_dated(messages@),
    ensures
        r@ == in_order(not_before(messages@, from)),
{
    let ghost all = messages@;
    let mut left: Vec<RawMessage> = Vec::new();
    for m in it: messages
        invariant
            it.seq() == all,
            all_dated(all),
            all_dated(left@),
            left@ == not_before(all.take(it.index() as int), from),
    {
        proof {
            assert(m == all[it.index() as int]);
            assert(all.take(it.index() + 1).drop_last() =~= all.take(it.index() as int));
            assert(all.take(it.index() + 1).last() == m);
        }
        if !m.date.is_before(from) {
            left.push(m);
        }
    }
    assert(all.take(all.len() as int) =~= all);
    sort_messages(left)
}

/// Whether so many messages are shown without asking.
pub fn shown_without_asking(count: usize, config: &AppConfig) -> (r: bool)
    ensures
        r == (count <= (match config.print_confirm_threshold {
            Some(n) => n,
            None => 64,
        })),
{
    count <= config.print_confirm_threshold()
}

// ---------------------------------------------------------------------------
// Messages of a file
// ---------------------------------------------------------------------------

/// The ids of messages.
pub open spec fn raw_ids(v: Seq<RawMessage>) -> Seq<i32> {
    v.map_values(|m: RawMessage| m.message_id)
}

/// The second of a message, where its tag holds one that an instant may have.
pub open spec fn shown_second(times: Map<i32, i64>, id: i32) -> Option<i64> {
    if times.contains_key(id) && second_in_range(times[id] as int) {
        Some(times[id])
    } else {
        None
    }
}

/// What the content of a voice message starts with.
pub open spec fn voice() -> Seq<char> {
    "[voice] "@
}

/// The messages are those of a topic's file: those with tags, by their ids, each with
/// its date, or with today's where the file does not show it, and with its time, where
/// its tag holds it.
pub open spec fn are_messages_of(
    r: Seq<RawMessage>,
    content: Seq<char>,
    group_name: Seq<char>,
    topic_name: Seq<char>,
    today: Date,
) -> bool {
    let ms = messages_on(lines(content));
    let dates = message_dates(lines(content), today.year, today);
    let times = times_on(lines(content));
    &&& all_dated(r)
    &&& all_showable(r)
    &&& growing(raw_ids(r))
    &&& forall|id: i32| #[trigger] raw_ids(r).contains(id) <==> ms.contains_key(id)
    &&& forall|i: int|
        0 <= i < r.len() ==> {
            let m = #[trigger] r[i];
            &&& m.content@ == ms[m.message_id].content
            &&& m.date == (if dates.contains_key(m.message_id) {
                dates[m.message_id]
            } else {
                today
            })
            &&& m.ts == shown_second(times, m.message_id)
            &&& m.is_voice == starts(m.content@, voice())
            &&& m.group_name@ == group_name
            &&& m.topic_name@ == topic_name
        }
}

/// The messages of a topic's file: those with tags, by their ids, each with its
/// date, or with today's where the file does not show it, and with its time, where
/// its tag holds it.
pub fn file_messages(content: &str, group_name: &str, topic_name: &str, today: Date) -> (r: Vec<
    RawMessage,
>)
    requires
        today.valid(),
    ensures
        are_messages_of(r@, content@, group_name@, topic_name@, today),
{
    let messages = parse_file_messages(content);
    let dates = build_message_date_map(content, today.year, today);
    let keys = sorted_message_ids(&messages);
    let ghost ms = messages_on(lines(content@));
    let times = parse_message_times(content);
    let ghost mt = times_on(lines(content@));
    let ghost md = message_dates(lines(content@), today.year, today);
    let mut r: Vec<RawMessage> = Vec::new();
    let mut i: usize = 0;
    while i < keys.len()
        invariant
            i <= keys.len(),
            today.valid(),
            ms == parsed(messages@),
            md == dates@,
            mt == times@,
            all_valid(md),
            keys@.to_set() == messages@.dom(),
            r.len() == i,
            all_dated(r@),
            all_showable(r@),
            forall|j: int|
                0 <= j < i ==> {
                    let m = #[trigger] r@[j];
                    &&& m.message_id == keys@[j]
                    &&& m.content@ == ms[m.message_id].content
                    &&& m.date == (if md.contains_key(m.message_id) {
                        md[m.message_id]
                    } else {
                        today
                    })
                    &&& m.ts == shown_second(mt, m.message_id)
                    &&& m.is_voice == starts(m.content@, voice())
                    &&& m.group_name@ == group_name@
                    &&& m.topic_name@ == topic_name@
                },
        decreases keys.len() - i,
    {
        let id = keys[i];
        proof {
            assert(keys@.to_set().contains(keys@[i as int]));
        }
        let date = match dates.get(&id) {
            Some(d) => *d,
            None => today,
        };
        let ts = match times.get(&id) {
            Some(second) => match Timestamp::from_second(*second) {
                Some(_) => Some(*second),
                None => None,
            },
            None => None,
        };
        match messages.get(&id) {
            Some(m) => {
                let is_voice = str_stands_at(to_chars(m.content.as_str()).as_slice(), 0, "[voice] ");
                r.push(
                    RawMessage {
                        message_id: id,
                        date,
                        ts,
                        content: m.content.clone(),
                        is_voice,
                        group_name: from_chars(to_chars(group_name).as_slice()),
                        topic_name: from_chars(to_chars(topic_name).as_slice()),
                    },
                );
            },
            None => {
                return r;
            },
        }
        i += 1;
    }
    proof {
        assert(raw_ids(r@) =~= keys@);
        assert forall|id: i32| #[trigger]
            raw_ids(r@).contains(id) <==> ms.contains_key(id) by {
            assert(keys@.contains(id) <==> keys@.to_set().contains(id));
        }
    }
    r
}

// ---------------------------------------------------------------------------
// Dates of messages
// ---------------------------------------------------------------------------

/// The month with that short name, whatever its case, from the month `m` on.
pub open spec fn month_in_any_case(name: Seq<char>, m: int) -> Option<int>
    decreases 13 - m,
{
    if m > 12 {
        None
    } else if lowercase(month_text(m)) == lowercase(name) {
        Some(m)
    } else {
        month_in_any_case(name, m + 1)
    }
}

/// The year of a header without one: the current year, or the one before where the
/// day would be after today.
pub open spec fn year_without_header(month: int, day: int, current: i16, today: Date) -> int {
    let d = Date { year: current, month: month as i8, day: day as i8 };
    if d.valid() && before(today, d) {
        current - 1
    } else {
        current as int
    }
}

/// The date of the messages below a line, where the line changes it.
pub open spec fn date_from(line: Seq<char>, current: i16, today: Date) -> Option<Option<Date>> {
    let s = trimmed(line);
    if header_line(s) {
        match month_in_any_case(s.subrange(3, 6), 1) {
            None => None,
            Some(m) => {
                let day = day_value(s);
                let year = match year_value(s) {
                    Some(y) => y,
                    None => year_without_header(m, day, current, today),
                };
                let d = Date { year: year as i16, month: m as i8, day: day as i8 };
                Some(if d.valid() {
                    Some(d)
                } else {
                    None
                })
            },
        }
    } else {
        None
    }
}

/// The date of the messages below the lines.
pub open spec fn date_below(ls: Seq<Seq<char>>, current: i16, today: Date) -> Option<Date>
    decreases ls.len(),
{
    if ls.len() == 0 {
        None
    } else {
        match date_from(ls.last(), current, today) {
            Some(d) => d,
            None => date_below(ls.drop_last(), current, today),
        }
    }
}

/// The dates of messages by their ids.
pub open spec fn message_dates(ls: Seq<Seq<char>>, current: i16, today: Date) -> Map<i32, Date>
    decreases ls.len(),
{
    if ls.len() == 0 {
        Map::empty()
    } else {
        let above = message_dates(ls.drop_last(), current, today);
        let date = date_below(ls.drop_last(), current, today);
        let id = first_id(ls.last());
        if !header_line(trimmed(ls.last())) && date is Some && id is Some {
            above.insert(id->0 as i32, date->0)
        } else {
            above
        }
    }
}

/// All dates are dates of the calendar.
pub open spec fn all_valid(m: Map<i32, Date>) -> bool {
    forall|id: i32| #[trigger] m.contains_key(id) ==> m[id].valid()
}

/// The month with that short name, whatever its case.
fn find_month(name: &[char]) -> (r: Option<i8>)
    ensures
        match r {
            Some(m) => 1 <= m <= 12 && month_in_any_case(name@, 1) == Some(m as int),
            None => month_in_any_case(name@, 1) is None,
        },
{
    let wanted = to_chars(from_chars(name).as_str().to_lowercase().as_str());
    let mut m: i8 = 1;
    while m <= 12
        invariant
            1 <= m <= 13,
            wanted@ == lowercase(name@),
            month_in_any_case(name@, 1) == month_in_any_case(name@, m as int),
        decreases 13 - m,
    {
        let low = to_chars(month_name(m).to_lowercase().as_str());
        if same(low.as_slice(), wanted.as_slice()) {
            return Some(m);
        }
        m += 1;
    }
    None
}

/// The date of the messages below a line, where the line changes it.
fn read_date(line: &[char], current: i16, today: Date) -> (r: Option<Option<Date>>)
    ensures
        r == date_from(line@, current, today),
{
    let s = trim(line);
    if !is_header_line(s) {
        return None;
    }
    let n = s.len();
    let w: usize = if n == 8 || n == 14 {
        1
    } else {
        2
    };
    match find_month(slice_subrange(s, 3, 6)) {
        None => None,
        Some(month) => {
            let day: i8 = match parse_i8(slice_subrange(s, 7, 7 + w)) {
                Some(d) => d,
                None => 1,
            };
            let named: Option<i16> = if n >= 14 {
                parse_i16(slice_subrange(s, 9 + w, 13 + w))
            } else {
                None
            };
            let year: i16 = match named {
                Some(y) => y,
                None => match Date::new(current, month, day) {
                    Some(d) => if today.is_before(d) {
                        current - 1
                    } else {
                        current
                    },
                    None => current,
                },
            };
            Some(Date::new(year, month, day))
        },
    }
}

/// The dates of messages by their ids, by the date headers above them. Headers
/// without a year are taken for the last such day up to today.
pub fn build_message_date_map(content: &str, current_year: i16, today: Date) -> (r: HashMap<
    i32,
    Date,
>)
    ensures
        r@ == message_dates(lines(content@), current_year, today),
        all_valid(r@),
{
    let ls = split_lines(to_chars(content).as_slice());
    let ghost all = texts(ls@);
    let mut r: HashMap<i32, Date> = HashMap::new();
    let mut current: Option<Date> = None;
    let mut i: usize = 0;
    while i < ls.len()
        invariant
            i <= ls.len(),
            all == texts(ls@),
            r@ == message_dates(all.take(i as int), current_year, today),
            all_valid(r@),
            current == date_below(all.take(i as int), current_year, today),
            current is Some ==> current->0.valid(),
        decreases ls.len() - i,
    {
        proof {
            assert(all.take(i + 1).drop_last() =~= all.take(i as int));
            assert(all.take(i + 1).last() == ls[i as int]@);
        }
        let line = ls[i].as_slice();
        if is_header_line(trim(line)) {
            match read_date(line, current_year, today) {
                Some(d) => {
                    current = d;
                },
                None => {},
            }
        } else {
            match (current, read_first_id(line)) {
                (Some(d), Some(id)) => {
                    r.insert(id, d);
                },
                _ => {},
            }
        }
        i += 1;
    }
    assert(all.take(all.len() as int) =~= all);
    r
}

// ---------------------------------------------------------------------------
// Text to print
// ---------------------------------------------------------------------------

/// Two messages of one topic.
pub open spec fn same_topic(a: RawMessage, b: RawMessage) -> bool {
    a.group_name@ == b.group_name@ && a.topic_name@ == b.topic_name@
}

/// The runs of messages of one topic: where each starts and ends.
pub open spec fn runs(ms: Seq<RawMessage>) -> Seq<(int, int)>
    decreases ms.len(),
{
    let n = ms.len() as int;
    if n == 0 {
        Seq::empty()
    } else {
        let before = runs(ms.drop_last());
        if n > 1 && same_topic(ms[n - 2], ms[n - 1]) {
            before.drop_last().push((before.last().0, n))
        } else {
            before.push((n - 1, n))
        }
    }
}

/// The places as numbers.
pub open spec fn places(v: Seq<(usize, usize)>) -> Seq<(int, int)> {
    v.map_values(|p: (usize, usize)| (p.0 as int, p.1 as int))
}

fn is_same_topic(a: &RawMessage, b: &RawMessage) -> (r: bool)
    ensures
        r == same_topic(*a, *b),
{
    same(
        to_chars(a.group_name.as_str()).as_slice(),
        to_chars(b.group_name.as_str()).as_slice(),
    ) && same(
        to_chars(a.topic_name.as_str()).as_slice(),
        to_chars(b.topic_name.as_str()).as_slice(),
    )
}

/// The runs of messages of one topic: where each starts and ends.
pub fn group_consecutive(messages: &Vec<RawMessage>) -> (r: Vec<(usize, usize)>)
    ensures
        places(r@) == runs(messages@),
{
    let mut r: Vec<(usize, usize)> = Vec::new();
    let mut i: usize = 0;
    assert(places(r@) =~= Seq::empty());
    while i < messages.len()
        invariant
            i <= messages.len(),
            places(r@) == runs(messages@.take(i as int)),
            i > 0 ==> r.len() > 0,
        decreases messages.len() - i,
    {
        let ghost ms = messages@.take(i + 1);
        let ghost before = places(r@);
        assert(ms.drop_last() =~= messages@.take(i as int));
        if i > 0 && is_same_topic(&messages[i - 1], &messages[i]) {
            let last = r.len() - 1;
            let start = r[last].0;
            r.set(last, (start, i + 1));
            assert(places(r@) =~= before.drop_last().push((before.last().0, i + 1)));
        } else {
            r.push((i, i + 1));
            assert(places(r@) =~= before.push((i as int, i + 1)));
        }
        i += 1;
    }
    assert(messages@.take(messages@.len() as int) =~= messages@);
    r
}

/// The time of a message: the day and the time of day in UTC, where it is known.
pub open spec fn time_text(m: RawMessage) -> Seq<char> {
    match m.ts {
        Some(ts) => {
            let t = Timestamp { nanos: (ts * SECOND) as i128 };
            iso_text(t.date()) + " "@ + clock_text(t) + " UTC"@
        },
        None => iso_text(m.date) + " UNKNOWN UTC"@,
    }
}

/// The content of a message as it is shown: that of a voice message without its
/// mark.
pub open spec fn shown_content(content: Seq<char>, is_voice: bool) -> Seq<char> {
    if is_voice && starts(content, "[voice] "@) {
        content.skip(8)
    } else {
        content
    }
}

/// A message as it is shown.
pub open spec fn message_line(m: RawMessage) -> Seq<char> {
    "["@ + time_text(m) + "] "@ + shown_content(m.content@, m.is_voice) + "\n"@
}

/// Messages as they are shown: each run of one topic under its name, with a blank
/// line before each run but the first.
pub open spec fn listing(ms: Seq<RawMessage>) -> Seq<char>
    decreases ms.len(),
{
    let n = ms.len() as int;
    if n == 0 {
        Seq::empty()
    } else {
        let m = ms.last();
        let before = listing(ms.drop_last());
        if n > 1 && same_topic(ms[n - 2], ms[n - 1]) {
            before + message_line(m)
        } else {
            (if n > 1 {
                before + "\n"@
            } else {
                before
            }) + ("## "@ + m.group_name@ + "/"@ + m.topic_name@ + "\n"@) + message_line(m)
        }
    }
}


/// The time of a message: the day and the time of day in UTC, where it is known.
pub fn format_message_time(m: &RawMessage) -> (r: String)
    requires
        showable(*m),
    ensures
        r@ == time_text(*m),
{
    match m.ts {
        Some(ts) => {
            let t = Timestamp { nanos: ts as i128 * SECOND };
            let mut v = to_chars(t.utc_date().iso_text().as_str());
            append_str(&mut v, " ");
            append_str(&mut v, t.clock_text().as_str());
            append_str(&mut v, " UTC");
            from_chars(v.as_slice())
        },
        None => {
            let mut v = to_chars(m.date.iso_text().as_str());
            append_str(&mut v, " UNKNOWN UTC");
            from_chars(v.as_slice())
        },
    }
}

/// The content of a message as it is shown.
pub fn format_display_content(content: &str, is_voice: bool) -> (r: String)
    ensures
        r@ == shown_content(content@, is_voice),
{
    let v = to_chars(content);
    if is_voice && str_stands_at(v.as_slice(), 0, "[voice] ") {
        proof {
            reveal_strlit("[voice] ");
        }
        let rest = slice_subrange(v.as_slice(), 8, v.len());
        assert(rest@ =~= v@.skip(8));
        from_chars(rest)
    } else {
        from_chars(v.as_slice())
    }
}

/// Messages as they are shown.
pub fn print_messages(messages: &Vec<RawMessage>) -> (r: String)
    requires
        all_showable(messages@),
    ensures
        r@ == listing(messages@),
{
    let mut out: Vec<char> = Vec::new();
    let mut i: usize = 0;
    while i < messages.len()
        invariant
            i <= messages.len(),
            all_showable(messages@),
            out@ == listing(messages@.take(i as int)),
        decreases messages.len() - i,
    {
        let ghost ms = messages@.take(i + 1);
        let ghost before = out@;
        assert(ms.drop_last() =~= messages@.take(i as int));
        let m = &messages[i];
        let goes_on = i > 0 && is_same_topic(&messages[i - 1], m);
        if !goes_on {
            if i > 0 {
                append_str(&mut out, "\n");
            }
            let mut head = to_chars("## ");
            append_str(&mut head, m.group_name.as_str());
            append_str(&mut head, "/");
            append_str(&mut head, m.topic_name.as_str());
            append_str(&mut head, "\n");
            append(&mut out, head.as_slice());
        }
        let mut line = to_chars("[");
        append_str(&mut line, format_message_time(m).as_str());
        append_str(&mut line, "] ");
        append_str(&mut line, format_display_content(m.content.as_str(), m.is_voice).as_str());
        append_str(&mut line, "\n");
        assert(line@ == message_line(*m));
        append(&mut out, line.as_slice());
        i += 1;
    }
    assert(messages@.take(messages@.len() as int) =~= messages@);
    from_chars(out.as_slice())
}

// ---------------------------------------------------------------------------
// Laws
// ---------------------------------------------------------------------------

/// The places of messages are ordered as their dates are, and by their ids on one
/// date.
pub proof fn law_places(a: RawMessage, b: RawMessage)
    requires
        a.date.valid(),
        b.date.valid(),
    ensures
        place_of(a) < place_of(b) <==> before(a.date, b.date) || (a.date == b.date && a.message_id
            < b.message_id),
        i64::MIN <= place_of(a) <= i64::MAX,
{
}

/// Sorted messages come in the order of their dates, and by their ids on one date.
pub proof fn law_messages_in_order(ms: Seq<RawMessage>, i: int, j: int)
    requires
        all_dated(ms),
        0 <= i < j < ms.len(),
    ensures
        in_order(ms).len() == ms.len(),
        !before(in_order(ms)[j].date, in_order(ms)[i].date),
        in_order(ms)[i].date == in_order(ms)[j].date ==> in_order(ms)[i].message_id <= in_order(
            ms,
        )[j].message_id,
{
    let s = stable(placed(ms));
    law_sorting(placed(ms));
    let a = s[i];
    let b = s[j];
    lemma_placed_from(ms, i);
    lemma_placed_from(ms, j);
    law_places(a.1, b.1);
    law_places(b.1, a.1);
    assert(a.0 <= b.0);
}

proof fn lemma_placed_from(ms: Seq<RawMessage>, i: int)
    requires
        all_dated(ms),
        0 <= i < stable(placed(ms)).len(),
    ensures
        stable(placed(ms))[i].0 == place_of(stable(placed(ms))[i].1),
        stable(placed(ms))[i].1.date.valid(),
        ms.contains(stable(placed(ms))[i].1),
{
    let s = stable(placed(ms));
    let p = placed(ms);
    law_sorting(p);
    p.to_multiset_ensures();
    s.to_multiset_ensures();
    assert(s.contains(s[i]));
    assert(p.to_multiset().count(s[i]) > 0);
    assert(p.contains(s[i]));
    let k = choose|k: int| 0 <= k < p.len() && p[k] == s[i];
    assert(p[k] == (place_of(ms[k]) as i64, ms[k]));
    law_places(ms[k], ms[k]);
    assert(ms.contains(ms[k]));
}

/// Messages that can be shown can be shown in order too, all of them or those from a
/// date on.
pub proof fn law_sorted_messages_can_be_shown(ms: Seq<RawMessage>, from: Date)
    requires
        all_showable(ms),
    ensures
        all_showable(in_order(ms)),
        all_showable(in_order(not_before(ms, from))),
{
    lemma_in_order_showable(ms);
    lemma_not_before_showable(ms, from);
    lemma_in_order_showable(not_before(ms, from));
}

proof fn lemma_in_order_showable(ms: Seq<RawMessage>)
    requires
        all_showable(ms),
    ensures
        all_showable(in_order(ms)),
{
    assert forall|i: int| 0 <= i < ms.len() implies (#[trigger] ms[i]).date.valid() by {
        assert(showable(ms[i]));
    }
    let r = in_order(ms);
    assert forall|i: int| 0 <= i < r.len() implies showable(#[trigger] r[i]) by {
        lemma_placed_from(ms, i);
        let k = choose|k: int| 0 <= k < ms.len() && ms[k] == r[i];
        assert(showable(ms[k]));
    }
}

proof fn lemma_not_before_showable(ms: Seq<RawMessage>, from: Date)
    requires
        all_showable(ms),
    ensures
        all_showable(not_before(ms, from)),
    decreases ms.len(),
{
    if ms.len() > 0 {
        let front = ms.drop_last();
        assert forall|i: int| 0 <= i < front.len() implies showable(#[trigger] front[i]) by {
            assert(front[i] == ms[i]);
        }
        lemma_not_before_showable(front, from);
        assert(showable(ms[ms.len() - 1]));
    }
}

/// The run starts where the one before it ends, its messages are of one topic,
/// and the message before it is of another.
pub open spec fn is_run(rs: Seq<(int, int)>, ms: Seq<RawMessage>, k: int) -> bool {
    &&& 0 <= rs[k].0 < rs[k].1 <= ms.len()
    &&& rs[k].0 == (if k == 0 {
        0
    } else {
        rs[k - 1].1
    })
    &&& k > 0 ==> !same_topic(ms[rs[k].0 - 1], ms[rs[k].0])
    &&& forall|i: int| rs[k].0 <= i < rs[k].1 ==> same_topic(ms[rs[k].0], #[trigger] ms[i])
}

/// The runs cover all messages one after the other; the messages of a run are of
/// one topic, and those of the next run are of another.
pub proof fn law_runs(ms: Seq<RawMessage>)
    ensures
        ms.len() == 0 ==> runs(ms).len() == 0,
        ms.len() > 0 ==> runs(ms).len() > 0 && runs(ms).last().1 == ms.len(),
        forall|k: int| 0 <= k < runs(ms).len() ==> #[trigger] is_run(runs(ms), ms, k),
    decreases ms.len(),
{
    let n = ms.len() as int;
    if n > 0 {
        let front = ms.drop_last();
        law_runs(front);
        let b = runs(front);
        let r = runs(ms);
        if n > 1 {
            assert(is_run(b, front, b.len() - 1));
        }
        assert forall|k: int| 0 <= k < r.len() implies #[trigger] is_run(r, ms, k) by {
            lemma_next_run(ms, b, k);
        }
    }
}

proof fn lemma_next_run(ms: Seq<RawMessage>, b: Seq<(int, int)>, k: int)
    requires
        ms.len() > 0,
        b == runs(ms.drop_last()),
        ms.len() > 1 ==> b.len() > 0 && b.last().1 == ms.len() - 1,
        ms.len() == 1 ==> b.len() == 0,
        forall|j: int| 0 <= j < b.len() ==> #[trigger] is_run(b, ms.drop_last(), j),
        0 <= k < runs(ms).len(),
    ensures
        is_run(runs(ms), ms, k),
{
    let n = ms.len() as int;
    let front = ms.drop_last();
    let r = runs(ms);
    let last = b.len() - 1;
    if k < last || (k == last && !(n > 1 && same_topic(ms[n - 2], ms[n - 1]))) {
        assert(is_run(b, front, k));
        assert(r[k] == b[k]);
        if k > 0 {
            assert(r[k - 1] == b[k - 1]);
            assert(is_run(b, front, k - 1));
            assert(front[r[k].0 - 1] == ms[r[k].0 - 1]);
        }
        assert(front[r[k].0] == ms[r[k].0]);
        assert forall|i: int| r[k].0 <= i < r[k].1 implies same_topic(
            ms[r[k].0],
            #[trigger] ms[i],
        ) by {
            assert(front[i] == ms[i]);
            assert(front[r[k].0] == ms[r[k].0]);
        }
    } else if k == last {
        assert(is_run(b, front, k));
        assert(r[k] == (b[k].0, n));
        if k > 0 {
            assert(r[k - 1] == b[k - 1]);
            assert(is_run(b, front, k - 1));
            assert(front[r[k].0 - 1] == ms[r[k].0 - 1]);
        }
        assert(front[r[k].0] == ms[r[k].0]);
        assert forall|i: int| r[k].0 <= i < r[k].1 implies same_topic(
            ms[r[k].0],
            #[trigger] ms[i],
        ) by {
            assert(front[n - 2] == ms[n - 2]);
            assert(same_topic(front[b[k].0], front[n - 2]));
            if i < n - 1 {
                assert(front[i] == ms[i]);
            }
        }
    } else {
        assert(r =~= b.push((n - 1, n)));
        assert(r[k] == (n - 1, n));
        if k > 0 {
            assert(r[k - 1] == b.last());
            assert(!same_topic(ms[n - 2], ms[n - 1]));
        }
    }
}

} // verus!
