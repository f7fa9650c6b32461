//! What messages look like in topic files.
use vstd::prelude::*;

use crate::calendar::{
    Date, Timestamp, date_text, day_of, lemma_date_exists, lemma_day_number_injective,
    second_in_range,
};
use crate::decimal::numeral;
use crate::fetch::Fetched;
use crate::header::{header_date, headers, last_date};
use crate::merge::{
    content_of, fetched_tag, last_sent, last_write_in, law_merging_sets_last_write,
    law_no_second_header_for_a_day, made_ready, merged, sendable, sender_of, sent_at, with_messages,
};
use crate::order::reordered;
use crate::server::{
    Gap, alt_end, appended, fence_around, gap, gap_text, image, longest_backticks, message_tag,
    misleading, needs_wrapping, path_end, pause_after,
};
use crate::tag::{increasing, tag_ids};
use crate::text::{
    lacks, lemma_first_index_is, lemma_trimmed_same, lines, occurs, occurs_at, starts, trimmed,
    trimmed_end,
};
use crate::unicode::whitespace;

verus! {

// ---------------------------------------------------------------------------
// Tags, gaps and fences
// ---------------------------------------------------------------------------

/// A tag holds the id, the second, the message that is answered and the sender, in this
/// order, and says where a message was forwarded.
pub proof fn law_tags(id: int, second: int, sender: Seq<char>, reply_to: i32)
    ensures
        message_tag(id, second, None, false, None) == "<!-- msg:"@ + numeral(id) + " ts:"@
            + numeral(second) + " -->"@,
        message_tag(id, second, Some(sender), false, None) == "<!-- msg:"@ + numeral(id) + " ts:"@
            + numeral(second) + " "@ + sender + " -->"@,
        message_tag(id, second, None, false, Some(reply_to)) == "<!-- msg:"@ + numeral(id)
            + " ts:"@ + numeral(second) + " reply_to:"@ + numeral(reply_to as int) + " -->"@,
        message_tag(id, second, Some(sender), false, Some(reply_to)) == "<!-- msg:"@ + numeral(id)
            + " ts:"@ + numeral(second) + " reply_to:"@ + numeral(reply_to as int) + " "@ + sender
            + " -->"@,
        message_tag(id, second, None, true, None) == "<!-- forwarded msg:"@ + numeral(id)
            + " ts:"@ + numeral(second) + " -->"@,
        message_tag(id, second, Some(sender), true, Some(reply_to)) == "<!-- forwarded msg:"@
            + numeral(id) + " ts:"@ + numeral(second) + " reply_to:"@ + numeral(reply_to as int)
            + " "@ + sender + " -->"@,
{
    reveal_strlit("<!-- msg:");
    reveal_strlit("<!-- forwarded msg:");
    reveal_strlit("forwarded ");
    reveal_strlit("<!-- ");
    reveal_strlit("msg:");
    reveal_strlit(" ts:");
    reveal_strlit(" reply_to:");
    reveal_strlit(" ");
    reveal_strlit(" -->");
    let (i, s, r) = (numeral(id), numeral(second), numeral(reply_to as int));
    assert(message_tag(id, second, None, false, None) =~= "<!-- msg:"@ + i + " ts:"@ + s
        + " -->"@);
    assert(message_tag(id, second, Some(sender), false, None) =~= "<!-- msg:"@ + i + " ts:"@ + s
        + " "@ + sender + " -->"@);
    assert(message_tag(id, second, None, false, Some(reply_to)) =~= "<!-- msg:"@ + i + " ts:"@ + s
        + " reply_to:"@ + r + " -->"@);
    assert(message_tag(id, second, Some(sender), false, Some(reply_to)) =~= "<!-- msg:"@ + i
        + " ts:"@ + s + " reply_to:"@ + r + " "@ + sender + " -->"@);
    assert(message_tag(id, second, None, true, None) =~= "<!-- forwarded msg:"@ + i + " ts:"@ + s
        + " -->"@);
    assert(message_tag(id, second, Some(sender), true, Some(reply_to)) =~= "<!-- forwarded msg:"@
        + i + " ts:"@ + s + " reply_to:"@ + r + " "@ + sender + " -->"@);
}

/// Messages less than six minutes apart stand together. Behind a longer pause a message
/// of the same day stands behind a dot, and one of another day under a date header.
pub proof fn law_pauses_between_messages(last: Timestamp, now: Timestamp)
    requires
        last.valid(),
        now.valid(),
    ensures
        ({
            let day: int = 86_400_000_000_000;
            let pause: int = now.nanos - last.nanos;
            &&& gap(None, now) == Gap::Short
            &&& pause < 360_000_000_000 ==> gap(Some(last), now) == Gap::Short
            &&& pause >= 360_000_000_000 && now.nanos as int / day == last.nanos as int / day
                ==> gap(Some(last), now) == Gap::Dot
            &&& pause >= 360_000_000_000 && now.nanos as int / day != last.nanos as int / day
                ==> (gap(Some(last), now) matches Gap::Day(d) && d.valid() && d.number()
                == now.nanos as int / day)
        }),
{
    lemma_date_exists(last);
    lemma_date_exists(now);
    if now.date().number() == last.date().number() {
        lemma_day_number_injective(now.date(), last.date());
    }
}

/// A message stands whole in its file, between what sets it apart and its tag: behind
/// nothing, a dot or a date header, and between fences where it has to.
pub proof fn law_message_in_file(message: Seq<char>, tag: Seq<char>, date: Date)
    ensures
        ({
            let fence = fence_around(message);
            let header = "\n## "@ + date_text(date) + "\n\n"@;
            let block = fence + "md\n"@ + message + "\n"@ + fence + "\n"@ + tag + "\n"@;
            let line = message + " "@ + tag + "\n"@;
            &&& needs_wrapping(message) ==> appended(message, Some(tag), Gap::Short) == block
            &&& needs_wrapping(message) ==> appended(message, Some(tag), Gap::Dot) == "\n"@ + block
            &&& needs_wrapping(message) ==> appended(message, Some(tag), Gap::Day(date)) == header
                + block
            &&& !needs_wrapping(message) ==> appended(message, Some(tag), Gap::Short) == line
            &&& !needs_wrapping(message) ==> appended(message, Some(tag), Gap::Dot) == "\n. "@
                + line
            &&& !needs_wrapping(message) ==> appended(message, Some(tag), Gap::Day(date)) == header
                + line
            &&& !needs_wrapping(message) ==> appended(message, None, Gap::Short) == message + "\n"@
            &&& needs_wrapping(message) ==> appended(message, None, Gap::Short) == fence + "md\n"@
                + message + "\n"@ + fence + "\n"@ + "\n"@
        }),
{
    reveal_strlit("\n");
    reveal_strlit(" ");
    reveal_strlit(". ");
    reveal_strlit("\n. ");
    reveal_strlit("md\n");
    let fence = fence_around(message);
    let header = "\n## "@ + date_text(date) + "\n\n"@;
    let block = fence + "md\n"@ + message + "\n"@ + fence + "\n"@ + tag + "\n"@;
    let line = message + " "@ + tag + "\n"@;
    if needs_wrapping(message) {
        assert(appended(message, Some(tag), Gap::Short) =~= block);
        assert(appended(message, Some(tag), Gap::Dot) =~= "\n"@ + block);
        assert(appended(message, Some(tag), Gap::Day(date)) =~= header + block);
        assert(appended(message, None, Gap::Short) =~= fence + "md\n"@ + message + "\n"@ + fence
            + "\n"@ + "\n"@);
    } else {
        assert(appended(message, Some(tag), Gap::Short) =~= line);
        assert(appended(message, Some(tag), Gap::Dot) =~= "\n. "@ + line);
        assert(appended(message, Some(tag), Gap::Day(date)) =~= header + line);
        assert(appended(message, None, Gap::Short) =~= message + "\n"@);
    }
}

/// A message stands between fences where it has several lines, or three backticks in a
/// row, or starts with a hash or with a dot and a space. No other message does.
pub proof fn law_what_is_wrapped(message: Seq<char>)
    ensures
        message.contains('\n') ==> needs_wrapping(message),
        !message.contains('\n') ==> (needs_wrapping(message) <==> (exists|i: int|
            0 <= i <= message.len() - 3 && #[trigger] message.subrange(i, i + 3) == seq![
                '`',
                '`',
                '`',
            ]) || (trimmed(message).len() > 0 && trimmed(message)[0] == '#') || (
        trimmed(message).len() > 1 && trimmed(message)[0] == '.' && trimmed(message)[1] == ' ')),
{
    reveal_strlit("```");
    reveal_strlit(". ");
    if !message.contains('\n') {
        assert forall|j: int| 0 <= j < message.len() implies #[trigger] message[j] != '\n' by {
            assert(message.contains(message[j]));
        }
        lemma_first_index_is(message, '\n', message.len() as int);
        let t = trimmed(message);
        if message.len() > 0 {
            assert(lines(message) =~= seq![message]);
            assert(misleading(lines(message)[0]) == misleading(message));
        } else {
            assert(lines(message).len() == 0);
        }
        if t.len() > 1 && t[0] == '.' && t[1] == ' ' {
            assert(t.subrange(0, 2) =~= ". "@);
        }
        if starts(t, ". "@) {
            assert(t.subrange(0, 2)[0] == t[0] && t.subrange(0, 2)[1] == t[1]);
        }
        assert("```"@ =~= seq!['`', '`', '`']);
        if exists|i: int|
            0 <= i <= message.len() - 3 && #[trigger] message.subrange(i, i + 3) == seq![
                '`',
                '`',
                '`',
            ] {
            let i = choose|i: int|
                0 <= i <= message.len() - 3 && #[trigger] message.subrange(i, i + 3) == seq![
                    '`',
                    '`',
                    '`',
                ];
            assert(occurs_at(message, i, "```"@));
        }
        if occurs(message, "```"@) {
            let i = choose|i: int| occurs_at(message, i, "```"@);
            assert(message.subrange(i, i + 3) == "```"@);
        }
    }
}

/// A fence is made of backticks alone: five, or one more than the longest run of the
/// message where that has four or more.
pub proof fn law_fences(message: Seq<char>)
    ensures
        forall|i: int|
            0 <= i < fence_around(message).len() ==> #[trigger] fence_around(message)[i] == '`',
        longest_backticks(message) <= 4 ==> fence_around(message).len() == 5,
        longest_backticks(message) >= 4 ==> fence_around(message).len() == longest_backticks(
            message,
        ) + 1,
{
}

/// Pauses between attempts to connect double, up to a minute.
pub proof fn law_pauses_double(n: nat)
    ensures
        pause_after(0) == 1,
        pause_after(n) <= 30 ==> pause_after(n + 1) == 2 * pause_after(n),
        pause_after(n) > 30 ==> pause_after(n + 1) == 60,
{
}

// ---------------------------------------------------------------------------
// Images
// ---------------------------------------------------------------------------

/// An image and what stands behind it: the path is what stands in round brackets, and
/// the caption is the rest without the white space around it.
pub proof fn law_images(alt: Seq<char>, path: Seq<char>, rest: Seq<char>)
    requires
        lacks(alt, ']'),
        lacks(path, ')'),
        path.len() > 0,
        rest.len() > 0 ==> !whitespace(rest.last()),
    ensures
        image("!["@ + alt + "]("@ + path + ")"@ + rest) == Some(
            (path, (if trimmed(rest).len() > 0 {
                Some(trimmed(rest))
            } else {
                None
            })),
        ),
{
    reveal_strlit("![");
    reveal_strlit("](");
    reveal_strlit(")");
    let s = "!["@ + alt + "]("@ + path + ")"@ + rest;
    assert(s[0] == '!');
    assert(s.last() == ')' || s.last() == rest.last());
    lemma_trimmed_same(s);
    assert(s.subrange(0, 2) =~= "!["@);
    let t = s.skip(2);
    assert forall|j: int| 0 <= j < alt.len() implies #[trigger] t[j] != ']' by {
        assert(t[j] == alt[j]);
    }
    assert(t[alt.len() as int] == ']');
    lemma_first_index_is(t, ']', alt.len() as int);
    let a = alt_end(s);
    let u = s.skip(a + 2);
    assert(s[a + 1] == '(');
    assert forall|j: int| 0 <= j < path.len() implies #[trigger] u[j] != ')' by {
        assert(u[j] == path[j]);
    }
    assert(u[path.len() as int] == ')');
    lemma_first_index_is(u, ')', path.len() as int);
    assert(s.subrange(a + 2, path_end(s)) =~= path);
    assert(s.skip(path_end(s) + 1) =~= rest);
}

/// What does not start with an exclamation mark and a square bracket is no image.
pub proof fn law_no_image(text: Seq<char>)
    requires
        trimmed(text).len() < 2 || trimmed(text)[0] != '!' || trimmed(text)[1] != '[',
    ensures
        image(text) is None,
{
    reveal_strlit("![");
    let s = trimmed(text);
    if starts(s, "!["@) {
        assert(s.subrange(0, 2)[0] == s[0] && s.subrange(0, 2)[1] == s[1]);
    }
}

// ---------------------------------------------------------------------------
// Merging
// ---------------------------------------------------------------------------

/// The time of the last write is the end of the day of the last date header.
pub proof fn law_last_write_is_the_end_of_a_day(text: Seq<char>)
    ensures
        last_date(lines(text)) is None ==> last_write_in(text) is None,
        last_date(lines(text)) matches Some(d) ==> second_in_range((d.number() + 1) * 86400 - 1)
            ==> last_write_in(text) == Some(
            Timestamp { nanos: (((d.number() + 1) * 86400 - 1) * 1_000_000_000) as i128 },
        ),
{
}

/// The last date is that of the last header that names one.
pub proof fn law_last_date(ls: Seq<Seq<char>>, line: Seq<char>)
    ensures
        last_date(Seq::empty()) is None,
        header_date(line) is Some ==> last_date(ls.push(line)) == header_date(line),
        header_date(line) is None ==> last_date(ls.push(line)) == last_date(ls),
{
    assert(ls.push(line).drop_last() =~= ls);
}

/// The last write is that of the last message with a text or a photo.
pub proof fn law_last_message_written(ms: Seq<Fetched>, m: Fetched)
    ensures
        last_sent(Seq::empty()) is None,
        m.photo || m.text.len() > 0 ==> last_sent(ms.push(m)) == Some(
            Timestamp { nanos: (m.date * 1_000_000_000) as i128 },
        ),
        !m.photo && m.text.len() == 0 ==> last_sent(ms.push(m)) == last_sent(ms),
{
    assert(ms.push(m).drop_last() =~= ms);
}

/// Merging no messages makes a file ready and nothing more. Each message is put behind
/// the ones before it, with all of its text, behind a note of its photo where it has
/// one, and with the tag of its id, its second and its sender. One without text and
/// photo adds nothing.
pub proof fn law_merging_appends_messages(
    content: Seq<char>,
    ms: Seq<Fetched>,
    m: Fetched,
    current: int,
)
    requires
        sendable(m),
    ensures
        merged(content, Seq::empty(), current) == made_ready(content, current),
        ({
            let before = merged(content, ms, current);
            let after = merged(content, ms.push(m), current);
            let last = match last_sent(ms) {
                Some(t) => Some(t),
                None => last_write_in(made_ready(content, current)),
            };
            let now = Timestamp { nanos: (m.date * 1_000_000_000) as i128 };
            let sender = if m.outgoing {
                " user -->"@
            } else {
                " bot -->"@
            };
            let tag = "<!-- msg:"@ + numeral(m.id) + " ts:"@ + numeral(m.date) + sender;
            let g = gap(last, now);
            &&& !m.photo && m.text.len() > 0 ==> after == before + appended(m.text, Some(tag), g)
            &&& m.photo && m.text.len() == 0 ==> after == before + appended(
                "[photo]"@,
                Some(tag),
                g,
            )
            &&& m.photo && m.text.len() > 0 ==> after == before + appended(
                "[photo]\n"@ + m.text,
                Some(tag),
                g,
            )
            &&& !m.photo && m.text.len() == 0 ==> after == before
        }),
{
    let ready = made_ready(content, current);
    let last = last_write_in(ready);
    assert(ms.push(m).drop_last() =~= ms);
    law_merging_sets_last_write(ready, last, ms);
    let s = sent_at(m);
    assert(s.nanos == m.date * 1_000_000_000);
    assert(s.second() == m.date) by {
        lemma_second_of(m.date);
    }
    law_tags(m.id, m.date, sender_of(m), 0);
    reveal_strlit("user");
    reveal_strlit("bot");
    reveal_strlit(" ");
    reveal_strlit(" -->");
    reveal_strlit(" user -->");
    reveal_strlit(" bot -->");
    let sender = if m.outgoing {
        " user -->"@
    } else {
        " bot -->"@
    };
    assert(fetched_tag(m) =~= "<!-- msg:"@ + numeral(m.id) + " ts:"@ + numeral(m.date) + sender);
}

proof fn lemma_second_of(date: int)
    requires
        i32::MIN <= date <= i32::MAX,
    ensures
        (Timestamp { nanos: (date * 1_000_000_000) as i128 }).second() == date,
{
}

/// A message stands whole in what is appended for it.
pub proof fn law_message_stands_whole(message: Seq<char>, tag: Option<Seq<char>>, g: Gap) -> (around:
    (Seq<char>, Seq<char>))
    ensures
        appended(message, tag, g) == around.0 + message + around.1,
{
    let fence = fence_around(message);
    let end = match tag {
        Some(t) => t,
        None => Seq::empty(),
    };
    let (above, behind) = if needs_wrapping(message) {
        (fence + "md\n"@, "\n"@ + fence + "\n"@ + end + "\n"@)
    } else {
        (match g {
            Gap::Dot => ". "@,
            _ => Seq::empty(),
        }, match tag {
            Some(t) => " "@ + t + "\n"@,
            None => "\n"@,
        })
    };
    let a = gap_text(g) + above;
    assert(appended(message, tag, g) =~= a + message + behind);
    (a, behind)
}

/// A fetched text is in the file from its first character to its last, whatever stands
/// before it and behind it.
pub proof fn law_whole_text_is_merged(content: Seq<char>, ms: Seq<Fetched>, m: Fetched, current: int)
    -> (around: (Seq<char>, Seq<char>))
    requires
        sendable(m),
        m.text.len() > 0,
    ensures
        merged(content, ms.push(m), current) == merged(content, ms, current) + around.0 + m.text
            + around.1,
{
    let ready = made_ready(content, current);
    let (before, time) = with_messages(ready, last_write_in(ready), ms);
    assert(ms.push(m).drop_last() =~= ms);
    let note = if m.photo {
        "[photo]\n"@
    } else {
        Seq::empty()
    };
    let message = content_of(m)->0;
    assert(message =~= note + m.text);
    let g = gap(time, sent_at(m));
    let tag = Some(fetched_tag(m));
    let (a, b) = law_message_stands_whole(message, tag, g);
    let new = appended(message, tag, g);
    assert(merged(content, ms.push(m), current) == before + new);
    assert(a + message + b =~= (a + note) + m.text + b);
    assert(before + new =~= before + (a + note) + m.text + b);
    (a + note, b)
}

/// A message of the day of the last date header stands under that header.
pub proof fn law_same_day_same_header(content: Seq<char>, m: Fetched, current: int)
    requires
        sendable(m),
        !m.photo,
        m.text.len() > 0,
        last_date(lines(made_ready(content, current))) matches Some(d) && d.valid() && m.date / 86400
            == d.number() && second_in_range(d.number() * 86400 + 86399),
    ensures
        merged(content, seq![m], current) == made_ready(content, current) + appended(
            m.text,
            Some(fetched_tag(m)),
            Gap::Short,
        ),
{
    let ready = made_ready(content, current);
    let d = last_date(lines(ready))->0;
    let t = sent_at(m);
    assert(t.nanos == m.date * 1_000_000_000);
    lemma_date_exists(t);
    assert(day_of(t.nanos as int) == m.date / 86400) by {
        lemma_day_of(m.date);
    }
    lemma_day_number_injective(t.date(), d);
    law_no_second_header_for_a_day(d, t);
    assert(seq![m].drop_last() =~= Seq::empty());
    assert(with_messages(ready, last_write_in(ready), Seq::empty()) == (
        ready,
        last_write_in(ready),
    ));
}

proof fn lemma_day_of(date: int)
    requires
        i32::MIN <= date <= i32::MAX,
    ensures
        day_of(date * 1_000_000_000) == date / 86400,
{
}

/// A file whose messages are in order and which has no date headers is made ready by
/// closing its last line: white space at its end goes, and a line feed comes.
pub proof fn law_tidy_files_are_ready(content: Seq<char>, current: int)
    requires
        increasing(tag_ids(content)),
        headers(lines(content)).len() == 0,
    ensures
        trimmed_end(content).len() == 0 ==> made_ready(content, current).len() == 0,
        trimmed_end(content).len() > 0 ==> made_ready(content, current) == trimmed_end(content)
            + seq!['\n'],
{
}

/// A file whose messages are out of order is made ready as it is once they are in order.
pub proof fn law_files_are_put_in_order(content: Seq<char>, current: int)
    requires
        !increasing(tag_ids(content)),
        increasing(tag_ids(reordered(content))),
    ensures
        made_ready(content, current) == made_ready(reordered(content), current),
{
}

/// An image has a path, and its brackets are closed.
pub proof fn law_half_images(alt: Seq<char>, path: Seq<char>, rest: Seq<char>)
    requires
        lacks(alt, ']'),
        lacks(path, ')'),
        path.len() > 0,
        !whitespace(path.last()),
        rest.len() > 0 ==> !whitespace(rest.last()),
        alt.len() > 0 ==> !whitespace(alt.last()),
    ensures
        image("!["@ + alt + "]()"@ + rest) is None,
        image("!["@ + alt + "]("@ + path) is None,
        image("!["@ + alt) is None,
{
    reveal_strlit("![");
    reveal_strlit("](");
    reveal_strlit("]()");
    let a = "!["@ + alt + "]()"@ + rest;
    let b = "!["@ + alt + "]("@ + path;
    let c = "!["@ + alt;
    assert(a.last() == ')' || a.last() == rest.last());
    assert(b.last() == path.last());
    assert(c.last() == '[' || c.last() == alt.last());
    assert(a[0] == '!' && b[0] == '!' && c[0] == '!');
    lemma_trimmed_same(a);
    lemma_trimmed_same(b);
    lemma_trimmed_same(c);
    let n = alt.len() as int;
    assert forall|j: int| 0 <= j < n implies #[trigger] a.skip(2)[j] != ']' by {
        assert(a.skip(2)[j] == alt[j]);
    }
    assert forall|j: int| 0 <= j < n implies #[trigger] b.skip(2)[j] != ']' by {
        assert(b.skip(2)[j] == alt[j]);
    }
    assert forall|j: int| 0 <= j < n implies #[trigger] c.skip(2)[j] != ']' by {
        assert(c.skip(2)[j] == alt[j]);
    }
    lemma_first_index_is(a.skip(2), ']', n);
    lemma_first_index_is(b.skip(2), ']', n);
    lemma_first_index_is(c.skip(2), ']', n);
    let u = a.skip(alt_end(a) + 2);
    assert(u[0] == ')');
    lemma_first_index_is(u, ')', 0);
    let v = b.skip(alt_end(b) + 2);
    assert(v =~= path);
    lemma_first_index_is(v, ')', path.len() as int);
}

/// Ids increase where each is larger than the one before it.
pub proof fn law_increasing_ids(ids: Seq<int>)
    ensures
        increasing(ids) <==> forall|i: int| 0 < i < ids.len() ==> ids[i - 1] < #[trigger] ids[i],
{
    if forall|i: int| 0 < i < ids.len() ==> ids[i - 1] < #[trigger] ids[i] {
        assert forall|i: int, j: int| 0 <= i < j < ids.len() implies ids[i] < ids[j] by {
            lemma_ids_grow(ids, i, j);
        }
    }
}

proof fn lemma_ids_grow(ids: Seq<int>, i: int, j: int)
    requires
        0 <= i < j < ids.len(),
        forall|k: int| 0 < k < ids.len() ==> ids[k - 1] < #[trigger] ids[k],
    ensures
        ids[i] < ids[j],
    decreases j - i,
{
    assert(ids[j - 1] < ids[j]);
    if i < j - 1 {
        lemma_ids_grow(ids, i, j - 1);
    }
}

} // verus!
