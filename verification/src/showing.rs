//! What is shown of messages.
use vstd::prelude::*;

use crate::alerts::{
    AlertMessage, alerts_of, can_be_cut, channel_of, chars_in_bytes, dismissed, is_unread, preview,
    unread,
};
use crate::calendar::{
    Date, Timestamp, before, clock_text, date_text, iso_text, law_before_is_earlier,
    lemma_number_in_range, month_text,
};
use crate::config::Timeframe;
use crate::decimal::{
    decimal, lemma_decimal, lemma_decimal_len, lemma_padded, lemma_signed_round_trip, numeral,
    padded, signed_value,
};
use crate::destination::{Name, Target, minus_hundred};
use crate::header::{header_line, law_month_names, lemma_written_header};
use crate::last::{
    RawMessage, all_dated, are_messages_of, date_below, date_from, in_order, last_ones,
    law_messages_in_order, listing, message_dates, message_line, month_in_any_case, not_before,
    placed, raw_ids, shown_content, shown_second, voice, year_without_header,
};
use crate::marker::marker_from;
use crate::since::{SinceError, is_start, partial_date};
use crate::sort::{law_sorting, stable};
use crate::sync::{messages_on, times_on};
use crate::tag::first_id;
use crate::text::{byte_len, lemma_trimmed_same, lines, trimmed};
use crate::tidiness::law_undated_headers;
use crate::unicode::{all_ascii, ascii, ascii_digit, ascii_letter, ascii_lower, lowercase};

verus! {

// ---------------------------------------------------------------------------
// Which messages
// ---------------------------------------------------------------------------

/// From a date on are the messages of that day and of later ones, in their order.
pub proof fn law_messages_from_a_date(ms: Seq<RawMessage>, from: Date)
    requires
        all_dated(ms),
        from.valid(),
    ensures
        not_before(ms, from) == ms.filter(|m: RawMessage| m.date.number() >= from.number()),
    decreases ms.len(),
{
    reveal(Seq::filter);
    if ms.len() > 0 {
        let front = ms.drop_last();
        assert forall|i: int| 0 <= i < front.len() implies (#[trigger] front[i]).date.valid() by {
            assert(front[i] == ms[i]);
        }
        law_messages_from_a_date(front, from);
        assert(ms[ms.len() - 1].date.valid());
        law_before_is_earlier(ms.last().date, from);
    }
}

/// Sorting loses no message and adds none.
pub proof fn law_all_messages_are_sorted(ms: Seq<RawMessage>, m: RawMessage)
    ensures
        in_order(ms).len() == ms.len(),
        in_order(ms).contains(m) <==> ms.contains(m),
{
    let p = placed(ms);
    let s = stable(p);
    law_sorting(p);
    p.to_multiset_ensures();
    s.to_multiset_ensures();
    let r = in_order(ms);
    if r.contains(m) {
        let i = choose|i: int| 0 <= i < r.len() && r[i] == m;
        assert(s.contains(s[i]));
        assert(p.to_multiset().count(s[i]) > 0);
        assert(p.contains(s[i]));
        let k = choose|k: int| 0 <= k < p.len() && p[k] == s[i];
        assert(ms[k] == m);
    }
    if ms.contains(m) {
        let k = choose|k: int| 0 <= k < ms.len() && ms[k] == m;
        assert(p.contains(p[k]));
        assert(p.to_multiset().count(p[k]) > 0);
        assert(s.to_multiset().count(p[k]) > 0);
        assert(s.contains(p[k]));
        let i = choose|i: int| 0 <= i < s.len() && s[i] == p[k];
        assert(r[i] == m);
    }
}

// ---------------------------------------------------------------------------
// Dates
// ---------------------------------------------------------------------------

/// The months are known by their short names.
proof fn lemma_month_in_any_case(m: int, k: int)
    requires
        1 <= k <= m <= 12,
    ensures
        month_in_any_case(month_text(m), k) == Some(m),
    decreases m - k,
{
    if k < m {
        lemma_months_differ(k, m);
        lemma_month_in_any_case(m, k + 1);
    }
}

proof fn lemma_months_differ(k: int, m: int)
    requires
        1 <= k < m <= 12,
    ensures
        lowercase(month_text(k)) != lowercase(month_text(m)),
{
    reveal_strlit("Jan");
    reveal_strlit("Feb");
    reveal_strlit("Mar");
    reveal_strlit("Apr");
    reveal_strlit("May");
    reveal_strlit("Jun");
    reveal_strlit("Jul");
    reveal_strlit("Aug");
    reveal_strlit("Sep");
    reveal_strlit("Oct");
    reveal_strlit("Nov");
    reveal_strlit("Dec");
    let a = month_text(k);
    let b = month_text(m);
    law_month_names(k);
    law_month_names(m);
    assert(all_ascii(a)) by {
        assert forall|i: int| 0 <= i < a.len() implies ascii(#[trigger] a[i]) by {
            assert(ascii_letter(a[i]));
        }
    }
    assert(all_ascii(b)) by {
        assert forall|i: int| 0 <= i < b.len() implies ascii(#[trigger] b[i]) by {
            assert(ascii_letter(b[i]));
        }
    }
    let la = lowercase(a);
    let lb = lowercase(b);
    assert(la[0] == ascii_lower(a[0]) && la[1] == ascii_lower(a[1]) && la[2] == ascii_lower(a[2]));
    assert(lb[0] == ascii_lower(b[0]) && lb[1] == ascii_lower(b[1]) && lb[2] == ascii_lower(b[2]));
}

/// Messages below a date header that was written for a date are of that date, until the
/// next header. Lines that are no headers change no date.
pub proof fn law_dates_hold_below_headers(
    ls: Seq<Seq<char>>,
    d: Date,
    line: Seq<char>,
    current: i16,
    today: Date,
)
    requires
        d.valid(),
        0 <= d.year,
        !header_line(trimmed(line)),
    ensures
        date_below(ls.push("## "@ + date_text(d)), current, today) == Some(d),
        date_below(ls.push(line), current, today) == date_below(ls, current, today),
        date_below(Seq::empty(), current, today) is None,
{
    reveal_strlit("## ");
    assert("## "@ =~= seq!['#', '#', ' ']);
    let s = "## "@ + date_text(d);
    assert(ls.push(s).drop_last() =~= ls);
    assert(ls.push(line).drop_last() =~= ls);
    lemma_written_header(d);
    lemma_month_in_any_case(d.month as int, 1);
    assert(date_from(s, current, today) == Some(Some(d)));
}

/// A message is of the date that holds where it stands. Of two messages with one id the
/// later counts; a message above all dates has none. Headers hold no messages.
pub proof fn law_messages_are_dated(
    ls: Seq<Seq<char>>,
    line: Seq<char>,
    current: i16,
    today: Date,
)
    ensures
        ({
            let before = message_dates(ls, current, today);
            let after = message_dates(ls.push(line), current, today);
            let date = date_below(ls, current, today);
            &&& header_line(trimmed(line)) || first_id(line) is None || date is None ==> after
                == before
            &&& !header_line(trimmed(line)) && first_id(line) is Some && date is Some ==> after
                == before.insert(first_id(line)->0 as i32, date->0)
        }),
        message_dates(Seq::empty(), current, today) == Map::<i32, Date>::empty(),
{
    assert(ls.push(line).drop_last() =~= ls);
}

/// A header without a year is of the current year, or of the one before where its day
/// would otherwise lie ahead.
pub proof fn law_years_that_headers_leave_out(month: int, day: int, current: i16, today: Date)
    requires
        today.valid(),
        1 <= month <= 12,
        0 <= day <= 99,
    ensures
        ({
            let d = Date { year: current, month: month as i8, day: day as i8 };
            &&& d.valid() && d.number() > today.number() ==> year_without_header(
                month,
                day,
                current,
                today,
            ) == current - 1
            &&& !d.valid() || d.number() <= today.number() ==> year_without_header(
                month,
                day,
                current,
                today,
            ) == current
        }),
{
    let d = Date { year: current, month: month as i8, day: day as i8 };
    if d.valid() {
        law_before_is_earlier(today, d);
    }
}

// ---------------------------------------------------------------------------
// Lines
// ---------------------------------------------------------------------------

/// A message is shown on a line with its day and its time, where that is known, and its
/// content. The mark of a voice message is left out.
pub proof fn law_message_lines(m: RawMessage, text: Seq<char>)
    ensures
        shown_content(text, false) == text,
        shown_content("[voice] "@ + text, true) == text,
        ({
            let shown = shown_content(m.content@, m.is_voice);
            &&& m.ts is None ==> message_line(m) == "["@ + iso_text(m.date) + " UNKNOWN UTC] "@
                + shown + "\n"@
            &&& m.ts matches Some(ts) ==> {
                let t = Timestamp { nanos: (ts * 1_000_000_000) as i128 };
                message_line(m) == "["@ + iso_text(t.date()) + " "@ + clock_text(t) + " UTC] "@
                    + shown + "\n"@
            }
        }),
{
    reveal_strlit("[voice] ");
    reveal_strlit(" UNKNOWN UTC");
    reveal_strlit(" UNKNOWN UTC] ");
    reveal_strlit(" UTC");
    reveal_strlit(" UTC] ");
    reveal_strlit("] ");
    let v = "[voice] "@ + text;
    assert(v.subrange(0, 8) =~= "[voice] "@);
    assert(v.skip(8) =~= text);
    let shown = shown_content(m.content@, m.is_voice);
    match m.ts {
        None => {
            assert(message_line(m) =~= "["@ + iso_text(m.date) + " UNKNOWN UTC] "@ + shown + "\n"@);
        },
        Some(ts) => {
            let t = Timestamp { nanos: (ts * 1_000_000_000) as i128 };
            assert(message_line(m) =~= "["@ + iso_text(t.date()) + " "@ + clock_text(t)
                + " UTC] "@ + shown + "\n"@);
        },
    }
}

/// Messages are shown one below the other. Where the topic changes, its name and that of
/// its group stand above, behind a blank line unless they come first.
pub proof fn law_listing_of_messages(ms: Seq<RawMessage>, m: RawMessage)
    ensures
        listing(Seq::empty()) == Seq::<char>::empty(),
        ms.len() == 0 ==> listing(ms.push(m)) == "## "@ + m.group_name@ + "/"@ + m.topic_name@
            + "\n"@ + message_line(m),
        ms.len() > 0 && ms.last().group_name@ == m.group_name@ && ms.last().topic_name@
            == m.topic_name@ ==> listing(ms.push(m)) == listing(ms) + message_line(m),
        ms.len() > 0 && !(ms.last().group_name@ == m.group_name@ && ms.last().topic_name@
            == m.topic_name@) ==> listing(ms.push(m)) == listing(ms) + "\n## "@ + m.group_name@
            + "/"@ + m.topic_name@ + "\n"@ + message_line(m),
{
    reveal_strlit("\n## ");
    reveal_strlit("## ");
    reveal_strlit("\n");
    let all = ms.push(m);
    assert(all.drop_last() =~= ms);
    if ms.len() == 0 {
        assert(listing(ms) =~= Seq::empty());
        assert(listing(all) =~= "## "@ + m.group_name@ + "/"@ + m.topic_name@ + "\n"@
            + message_line(m));
    } else {
        assert(all[ms.len() - 1] == ms.last());
        if !(ms.last().group_name@ == m.group_name@ && ms.last().topic_name@ == m.topic_name@) {
            assert(listing(all) =~= listing(ms) + "\n## "@ + m.group_name@ + "/"@ + m.topic_name@
                + "\n"@ + message_line(m));
        }
    }
}

/// A message's time is the one that its tag holds, where that is one an instant may have.
pub proof fn law_shown_seconds(times: Map<i32, i64>, id: i32)
    ensures
        !times.contains_key(id) ==> shown_second(times, id) is None,
        times.contains_key(id) && -377705023201 <= times[id] <= 253402207200 ==> shown_second(
            times,
            id,
        ) == Some(times[id]),
        voice() == "[voice] "@,
{
}

/// Times are read line by line: a tag with an id brings its time, or takes an earlier
/// one away where it has none. Other lines bring nothing.
pub proof fn law_times_are_read(ls: Seq<Seq<char>>, line: Seq<char>)
    ensures
        ({
            let before = times_on(ls);
            let after = times_on(ls.push(line));
            let m = marker_from(line, 0);
            let id = signed_value(m->0.digits, i32::MIN as int, i32::MAX as int);
            let ts = signed_value(m->0.ts->0, i64::MIN as int, i64::MAX as int);
            &&& m is None || id is None ==> after == before
            &&& m is Some && id is Some && m->0.ts is Some && ts is Some ==> after == before.insert(
                id->0 as i32,
                ts->0 as i64,
            )
            &&& m is Some && id is Some && (m->0.ts is None || ts is None) ==> after
                == before.remove(id->0 as i32)
        }),
        times_on(Seq::empty()) == Map::<i32, i64>::empty(),
{
    assert(ls.push(line).drop_last() =~= ls);
}

// ---------------------------------------------------------------------------
// Alerts
// ---------------------------------------------------------------------------

/// The unread messages are those behind the last one that was read, without one's own,
/// in their order.
pub proof fn law_unread_messages(ms: Seq<AlertMessage>, read_up_to: int)
    ensures
        unread(ms, read_up_to) == ms.filter(|m: AlertMessage| m.id > read_up_to && !m.out).map_values(
            |m: AlertMessage| (m.id, preview(m.text@)),
        ),
    decreases ms.len(),
{
    reveal(Seq::filter);
    let f = |m: AlertMessage| m.id > read_up_to && !m.out;
    let show = |m: AlertMessage| (m.id, preview(m.text@));
    if ms.len() > 0 {
        law_unread_messages(ms.drop_last(), read_up_to);
        let before = ms.drop_last().filter(f);
        if f(ms.last()) {
            assert(before.push(ms.last()).map_values(show) =~= before.map_values(show).push(
                show(ms.last()),
            ));
        }
    } else {
        assert(ms.filter(f).map_values(show) =~= Seq::empty());
    }
}

proof fn lemma_ascii_bytes(s: Seq<char>)
    requires
        all_ascii(s),
    ensures
        byte_len(s) == s.len(),
    decreases s.len(),
{
    if s.len() > 0 {
        let front = s.drop_last();
        assert forall|i: int| 0 <= i < front.len() implies ascii(#[trigger] front[i]) by {
            assert(front[i] == s[i]);
        }
        lemma_ascii_bytes(front);
        assert(ascii(s[s.len() - 1]));
    }
}

/// A text of up to a hundred bytes is shown whole. Of a longer one that can be cut there
/// the first hundred bytes are shown, and three dots.
pub proof fn law_previews(s: Seq<char>)
    ensures
        byte_len(s) <= 100 ==> preview(s) == s,
        byte_len(s) > 100 && can_be_cut(s) ==> exists|k: int|
            0 <= k <= s.len() && byte_len(s.take(k)) == 100 && preview(s) == #[trigger] s.take(k)
                + "..."@,
        all_ascii(s) && s.len() > 100 ==> preview(s) == s.take(100) + "..."@,
{
    if byte_len(s) > 100 && can_be_cut(s) {
        let k = choose|k: int| chars_in_bytes(s, 100, k);
        assert(preview(s) == s.take(k) + "..."@);
    }
    if all_ascii(s) && s.len() > 100 {
        lemma_ascii_bytes(s);
        lemma_ascii_take(s, 100);
        assert(chars_in_bytes(s, 100, 100));
        let k = choose|k: int| chars_in_bytes(s, 100, k);
        lemma_ascii_take(s, k);
    }
}

proof fn lemma_ascii_take(s: Seq<char>, k: int)
    requires
        all_ascii(s),
        0 <= k <= s.len(),
    ensures
        byte_len(s.take(k)) == k,
{
    let t = s.take(k);
    assert forall|i: int| 0 <= i < t.len() implies ascii(#[trigger] t[i]) by {
        assert(t[i] == s[i]);
    }
    lemma_ascii_bytes(t);
}

/// The channel of a chat id is what stands behind `-100`; any other id is taken without
/// its sign.
pub proof fn law_channels_of_chats(chat_id: int, n: int)
    requires
        0 <= n <= i64::MAX,
    ensures
        numeral(chat_id) == seq!['-', '1', '0', '0'] + decimal(n) ==> channel_of(chat_id) == n,
        chat_id >= 0 ==> channel_of(chat_id) == chat_id,
        -1000 < chat_id < 0 && chat_id != -100 ==> channel_of(chat_id) == -chat_id,
{
    let s = numeral(chat_id);
    if s == seq!['-', '1', '0', '0'] + decimal(n) {
        assert(s.take(4) =~= seq!['-', '1', '0', '0']);
        assert(s.skip(4) =~= decimal(n));
        lemma_signed_round_trip(n, i64::MIN as int, i64::MAX as int);
    }
    if chat_id >= 0 {
        lemma_decimal(chat_id);
        assert(ascii_digit(decimal(chat_id)[0]));
        if s.len() >= 4 && s.take(4) == minus_hundred() {
            assert(s.take(4)[0] == '-');
            assert(s[0] == '-');
        }
    } else if -1000 < chat_id && chat_id != -100 {
        lemma_decimal_len(-chat_id);
        lemma_decimal(-chat_id);
        let d = decimal(-chat_id);
        assert(s =~= seq!['-'] + d);
        if s.len() >= 4 && s.take(4) == minus_hundred() {
            assert(s.take(4) =~= s);
            assert(d =~= s.skip(1));
            assert(d =~= decimal(100)) by {
                reveal_with_fuel(decimal, 4);
                assert(s[1] == '1' && s[2] == '0' && s[3] == '0');
                assert(decimal(100) =~= seq!['1', '0', '0']);
            }
            lemma_decimal(100);
        }
    }
}

// ---------------------------------------------------------------------------
// Selections
// ---------------------------------------------------------------------------

/// The last messages are as many as asked for, or all; they are the end of all messages
/// in order, and none that is left out is of a later day than one of them.
pub proof fn law_last_messages(ms: Seq<RawMessage>, count: int, i: int, j: int)
    requires
        all_dated(ms),
        0 <= count,
    ensures
        ({
            let r = last_ones(ms, count);
            let s = in_order(ms);
            &&& ms.len() <= count ==> r == s
            &&& ms.len() > count ==> r.len() == count
            &&& 0 <= i < ms.len() - r.len() && 0 <= j < r.len() ==> s[ms.len() - r.len() + j] == r[j]
                && !before(r[j].date, s[i].date)
        }),
{
    let s = in_order(ms);
    let r = last_ones(ms, count);
    assert(s.len() == ms.len()) by {
        law_sorting(placed(ms));
    }
    if 0 <= i < ms.len() - r.len() && 0 <= j < r.len() {
        law_messages_in_order(ms, i, ms.len() - r.len() + j);
    }
}

/// The messages of a file are those with tags, each once, with their whole contents, the
/// names of their group and topic, their dates and their times.
pub proof fn law_messages_of_a_file(
    r: Seq<RawMessage>,
    content: Seq<char>,
    group_name: Seq<char>,
    topic_name: Seq<char>,
    today: Date,
    id: i32,
)
    requires
        are_messages_of(r, content, group_name, topic_name, today),
    ensures
        ({
            let ls = lines(content);
            let dates = message_dates(ls, today.year, today);
            let times = times_on(ls);
            &&& (exists|i: int| 0 <= i < r.len() && (#[trigger] r[i]).message_id == id)
                <==> messages_on(ls).contains_key(id)
            &&& forall|i: int, j: int|
                0 <= i < j < r.len() ==> (#[trigger] r[i]).message_id < (#[trigger] r[j]).message_id
            &&& forall|i: int|
                0 <= i < r.len() && (#[trigger] r[i]).message_id == id ==> {
                    &&& r[i].content@ == messages_on(ls)[id].content
                    &&& r[i].group_name@ == group_name
                    &&& r[i].topic_name@ == topic_name
                    &&& dates.contains_key(id) ==> r[i].date == dates[id]
                    &&& !dates.contains_key(id) ==> r[i].date == today
                    &&& times.contains_key(id) && -377705023201 <= times[id] <= 253402207200
                        ==> r[i].ts == Some(times[id])
                    &&& !times.contains_key(id) ==> r[i].ts is None
                    &&& r[i].is_voice <==> r[i].content@.len() >= 8 && r[i].content@.take(8)
                        == "[voice] "@
                }
        }),
{
    reveal_strlit("[voice] ");
    let ids = raw_ids(r);
    assert(ids.contains(id) <==> messages_on(lines(content)).contains_key(id));
    if ids.contains(id) {
        let i = choose|i: int| 0 <= i < ids.len() && ids[i] == id;
        assert(r[i].message_id == id);
    }
    if exists|i: int| 0 <= i < r.len() && (#[trigger] r[i]).message_id == id {
        let i = choose|i: int| 0 <= i < r.len() && (#[trigger] r[i]).message_id == id;
        assert(ids[i] == id);
    }
    assert forall|i: int, j: int| 0 <= i < j < r.len() implies (#[trigger] r[i]).message_id < (
    #[trigger] r[j]).message_id by {
        assert(ids[i] < ids[j]);
    }
    assert forall|i: int| 0 <= i < r.len() && (#[trigger] r[i]).message_id == id implies (r[i].is_voice
        <==> r[i].content@.len() >= 8 && r[i].content@.take(8) == "[voice] "@) by {
        let c = r[i].content@;
        if c.len() >= 8 {
            assert(c.subrange(0, 8) =~= c.take(8));
        }
    }
}

/// Messages are shown from the date that a text names, or from one that lies as many
/// whole days back as a span has. One of the two has to be given, and not both.
pub proof fn law_where_showing_starts(
    r: Result<Date, SinceError>,
    text: Seq<char>,
    span: Timeframe,
    today: Date,
)
    requires
        today.valid(),
    ensures
        is_start(r, Some(text), None, today) ==> r == partial_date(text, today),
        is_start(r, Some(text), Some(span), today) ==> r == Err::<Date, SinceError>(SinceError::Both),
        is_start(r, None, None, today) ==> r == Err::<Date, SinceError>(SinceError::Neither),
        is_start(r, None, Some(span), today) && span.seconds <= 86400 * 3_650_000 && today.number()
            - span.seconds / 86400 >= -4371587 ==> r is Ok && r->Ok_0.valid() && r->Ok_0.number()
            == today.number() - span.seconds / 86400,
        is_start(r, None, Some(span), today) && today.number() - span.seconds / 86400 < -4371587
            ==> r == Err::<Date, SinceError>(SinceError::TooFarBack),
{
    lemma_number_in_range(today);
    match r {
        Ok(d) => {
            if d.valid() {
                lemma_number_in_range(d);
            }
        },
        Err(_) => {},
    }
}

/// Alerts come from a group that is known by a number, or from a topic of it. The general
/// topic stands for the group.
pub proof fn law_where_alerts_come_from(name: Seq<char>, id: u64, topic: u64)
    ensures
        alerts_of(Target::Channel(Name::Id(id))) == Some((id, None::<u64>)),
        alerts_of(Target::Group(Name::Id(id))) == Some((id, None::<u64>)),
        alerts_of(Target::GroupTopic(Name::Id(id), 1)) == Some((id, None::<u64>)),
        topic != 1 ==> alerts_of(Target::GroupTopic(Name::Id(id), topic)) == Some(
            (id, Some(topic)),
        ),
        alerts_of(Target::Channel(Name::At(name))) is None,
        alerts_of(Target::GroupTopic(Name::At(name), topic)) is None,
{
}

/// Of the notifications exactly those of messages that are no longer unread are
/// dismissed, each once. The others stay as they are.
pub proof fn law_dismissals(
    pids: Map<i32, u32>,
    v: Seq<(i32, String)>,
    left: Map<i32, u32>,
    out: Seq<(i32, u32)>,
    id: i32,
)
    requires
        dismissed(pids, v, left, out),
        pids.contains_key(id),
    ensures
        (exists|i: int| 0 <= i < v.len() && (#[trigger] v[i]).0 == id) ==> left.contains_key(id)
            && left[id] == pids[id] && !out.contains((id, pids[id])),
        (forall|i: int| 0 <= i < v.len() ==> (#[trigger] v[i]).0 != id) ==> !left.contains_key(id)
            && out.contains((id, pids[id])),
        out.no_duplicates(),
        forall|k: i32| #[trigger] left.contains_key(k) ==> pids.contains_key(k),
{
    assert(left.contains_key(id) <==> pids.contains_key(id) && is_unread(v, id));
    assert(out.contains((id, pids[id])) <==> pids.contains_key(id) && pids[id] == pids[id]
        && !is_unread(v, id));
}

/// A month is known by its short name in any case.
pub proof fn law_months_in_any_case(name: Seq<char>, m: int)
    requires
        1 <= m <= 12,
    ensures
        lowercase(name) == lowercase(month_text(m)) ==> month_in_any_case(name, 1) == Some(m),
        (forall|k: int| 1 <= k <= 12 ==> lowercase(name) != lowercase(#[trigger] month_text(k)))
            ==> month_in_any_case(name, 1) is None,
{
    if lowercase(name) == lowercase(month_text(m)) {
        lemma_month_in_any_case(m, 1);
        lemma_same_month(name, month_text(m), 1);
    }
    if forall|k: int| 1 <= k <= 12 ==> lowercase(name) != lowercase(#[trigger] month_text(k)) {
        lemma_unknown_month(name, 1);
    }
}

proof fn lemma_same_month(a: Seq<char>, b: Seq<char>, k: int)
    requires
        lowercase(a) == lowercase(b),
    ensures
        month_in_any_case(a, k) == month_in_any_case(b, k),
    decreases 13 - k,
{
    if k <= 12 {
        lemma_same_month(a, b, k + 1);
    }
}

proof fn lemma_unknown_month(name: Seq<char>, m: int)
    requires
        1 <= m,
        forall|k: int| 1 <= k <= 12 ==> lowercase(name) != lowercase(#[trigger] month_text(k)),
    ensures
        month_in_any_case(name, m) is None,
    decreases 13 - m,
{
    if m <= 12 {
        assert(lowercase(name) != lowercase(month_text(m)));
        lemma_unknown_month(name, m + 1);
    }
}

/// Below a header without a year messages are of its day in the year that holds for it,
/// or of none where that year has no such day. A header of no known month changes
/// nothing.
pub proof fn law_dates_below_undated_headers(
    ls: Seq<Seq<char>>,
    month: int,
    day: int,
    other: Seq<char>,
    current: i16,
    today: Date,
)
    requires
        1 <= month <= 12,
        0 <= day <= 99,
        -9998 <= current <= 9999,
    ensures
        ({
            let line = "## "@ + month_text(month) + " "@ + padded(day, 2);
            let year = year_without_header(month, day, current, today);
            let d = Date { year: year as i16, month: month as i8, day: day as i8 };
            &&& d.valid() ==> date_below(ls.push(line), current, today) == Some(d)
            &&& !d.valid() ==> date_below(ls.push(line), current, today) is None
        }),
        header_line(trimmed(other)) && month_in_any_case(trimmed(other).subrange(3, 6), 1) is None
            ==> date_below(ls.push(other), current, today) == date_below(ls, current, today),
{
    reveal_strlit("## ");
    reveal_strlit(" ");
    let name = month_text(month);
    let pd = padded(day, 2);
    let s = "## "@ + name + " "@ + pd;
    assert(ls.push(s).drop_last() =~= ls);
    assert(ls.push(other).drop_last() =~= ls);
    law_undated_headers(month, day);
    law_month_names(month);
    lemma_decimal_len(day);
    lemma_padded(day, 2);
    assert(s.len() == 9);
    assert(s[0] == '#');
    assert(s.last() == pd[1]);
    assert(ascii_digit(pd[1]));
    assert(ascii_digit(pd[0]));
    lemma_trimmed_same(s);
    assert(s.subrange(3, 6) =~= name);
    assert(s.subrange(7, 9) =~= pd);
    lemma_month_in_any_case(month, 1);
}

} // verus!
