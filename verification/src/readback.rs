//! What is appended to a topic file is read back.
use vstd::prelude::*;

use crate::decimal::{all_digits, decimal, lemma_decimal, lemma_signed_round_trip, numeral};
use crate::durable::{law_wrapped_lines, lemma_gap_lacks, lemma_tag_line, lemma_tagged_line};
use crate::marker::{
    Marker, closer, field_len, lemma_word_run, lemma_word_run_is, marker_at, marker_from,
    number_run, without_marker, word_run,
};
use crate::server::{Gap, appended, body_of, gap_text, labelled, message_tag, needs_wrapping};
use crate::sync::{
    MessageSender, Parsed, has_message, id_on, line_marker, message_on, messages_on, sender_named,
    time_on, times_on,
};
use crate::tag::{
    after_tag, has_tag, lemma_digit_run, lemma_digit_run_is, lemma_tag_of, opener, tag_digits,
    tag_starts,
};
use crate::text::{lacks, lemma_lines_concat, lemma_trimmed_push, lines, newline, starts, trimmed};
use crate::unicode::{ascii_digit, digit, word};

verus! {

/// A number behind which no digit stands is read whole.
proof fn lemma_number_of(n: int, rest: Seq<char>)
    requires
        rest.len() > 0,
        !digit(rest[0]),
    ensures
        number_run(numeral(n) + rest) == numeral(n).len(),
        numeral(n).len() > 0,
{
    let s = numeral(n) + rest;
    let d = if n < 0 {
        decimal(-n)
    } else {
        decimal(n)
    };
    if n < 0 {
        lemma_decimal(-n);
        assert(s[0] == '-');
    } else {
        lemma_decimal(n);
        assert(s[0] == d[0]);
        assert(ascii_digit(d[0]));
    }
    let sign: int = if n < 0 {
        1
    } else {
        0
    };
    let t = s.skip(sign);
    assert(t =~= d + rest);
    assert forall|i: int| 0 <= i < d.len() implies digit(#[trigger] t[i]) by {
        assert(t[i] == d[i]);
        assert(ascii_digit(d[i]));
    }
    assert(t[d.len() as int] == rest[0]);
    lemma_digit_run_is(t, d.len() as int);
}

/// A label and a number behind which no digit stands are read whole.
proof fn lemma_field_of(label: Seq<char>, n: int, rest: Seq<char>)
    requires
        rest.len() > 0,
        !digit(rest[0]),
    ensures
        field_len(label + numeral(n) + rest, label) == (label + numeral(n)).len(),
        field_len(label + numeral(n) + rest, label) > label.len(),
        (label + numeral(n) + rest).skip((label + numeral(n)).len() as int) == rest,
{
    let s = label + numeral(n) + rest;
    lemma_number_of(n, rest);
    assert(s.skip(label.len() as int) =~= numeral(n) + rest);
    assert(s.subrange(0, label.len() as int) =~= label);
    assert(s.skip((label + numeral(n)).len() as int) =~= rest);
}

/// The name is one word.
pub open spec fn one_word(s: Seq<char>) -> bool {
    s.len() > 0 && forall|i: int| 0 <= i < s.len() ==> word(#[trigger] s[i])
}

/// A tag behind a text is read whole: its id, its time and its sender.
#[verifier::spinoff_prover]
#[verifier::rlimit(40)]
pub proof fn law_tag_is_read(
    x: Seq<char>,
    id: int,
    second: int,
    sender: Option<Seq<char>>,
    reply_to: Option<i32>,
)
    requires
        0 <= id,
        sender is Some ==> one_word(sender->0),
    ensures
        ({
            let line = x + message_tag(id, second, sender, false, reply_to);
            marker_at(line, x.len() as int) == Some(
                Marker {
                    start: x.len() as int,
                    end: line.len() as int,
                    digits: numeral(id),
                    ts: Some(numeral(second)),
                    sender,
                },
            )
        }),
{
    reveal_strlit("<!-- msg:");
    reveal_strlit("<!-- ");
    reveal_strlit("msg:");
    reveal_strlit(" ts:");
    reveal_strlit(" reply_to:");
    reveal_strlit(" ");
    reveal_strlit(" -->");
    let tag = message_tag(id, second, sender, false, reply_to);
    let line = x + tag;
    let t = line.skip(x.len() as int);
    assert(t =~= tag);
    let from = match sender {
        Some(s) => " "@ + s,
        None => Seq::empty(),
    };
    let reply = labelled(" reply_to:"@, reply_to);
    let rest = from + closer();
    let behind_time = reply + rest;
    let behind_id = " ts:"@ + numeral(second) + behind_time;
    assert(rest[0] == ' ');
    assert(behind_time[0] == ' ');
    assert(behind_id[0] == ' ');
    assert(tag =~= opener() + decimal(id) + behind_id);
    lemma_decimal(id);
    lemma_tag_of(decimal(id), behind_id);
    lemma_field_of(" ts:"@, second, behind_time);
    let time = field_len(behind_id, " ts:"@);
    assert(behind_id.skip(time) == behind_time);
    assert(behind_id.subrange(4, time) =~= numeral(second));
    if reply_to is Some {
        assert(behind_time =~= " reply_to:"@ + numeral(reply_to->0 as int) + rest);
        lemma_field_of(" reply_to:"@, reply_to->0 as int, rest);
    } else {
        assert(behind_time =~= rest);
        if starts(rest, " reply_to:"@) {
            assert(rest.subrange(0, 10)[9] == ':');
            assert(rest[9] == ':');
            if sender is Some && 9 < from.len() {
                assert(from[9] == sender->0[8]);
                assert(word(sender->0[8]));
            } else {
                assert(rest[9] == closer()[9 - from.len()]);
            }
            assert(false);
        }
        assert(behind_time.skip(0) =~= behind_time);
    }
    let answered = field_len(behind_time, " reply_to:"@);
    assert(behind_time.skip(answered) == rest);
    match sender {
        None => {
            assert(rest =~= closer());
            assert(rest.subrange(0, 4) =~= closer());
        },
        Some(s) => {
            let after = rest.skip(1);
            assert(after =~= s + closer());
            assert forall|i: int| 0 <= i < s.len() implies word(#[trigger] after[i]) by {
                assert(after[i] == s[i]);
            }
            assert(after[s.len() as int] == ' ');
            lemma_word_run_is(after, s.len() as int);
            let end = rest.skip(1 + s.len() as int);
            assert(end =~= closer());
            assert(end.subrange(0, 4) =~= closer());
            assert(rest.subrange(1, 1 + s.len() as int) =~= s);
            if starts(rest, closer()) {
                assert(rest.subrange(0, 4)[1] == '-');
                assert(rest[1] == s[0]);
                assert(word(s[0]));
                assert(false);
            }
        },
    }
}

proof fn lemma_marker_from(s: Seq<char>, i: int, n: int)
    requires
        0 <= i <= n < s.len(),
        forall|j: int| i <= j < n ==> #[trigger] marker_at(s, j) is None,
        marker_at(s, n) is Some,
    ensures
        marker_from(s, i) == marker_at(s, n),
    decreases n - i,
{
    if i < n {
        assert(marker_at(s, i) is None);
        lemma_marker_from(s, i + 1, n);
    }
}

/// A line that opens no tag holds no message.
proof fn lemma_no_marker(s: Seq<char>, i: int)
    requires
        0 <= i,
        lacks(s, '<'),
    ensures
        marker_from(s, i) is None,
    decreases s.len() - i,
{
    if i < s.len() {
        reveal_strlit("<!-- msg:");
        if tag_starts(s.skip(i)) {
            assert(s.skip(i).subrange(0, 9)[0] == '<');
            assert(s[i] == '<');
        }
        lemma_no_marker(s, i + 1);
    }
}

/// Lines that open no tags bring no messages.
proof fn lemma_no_messages(a: Seq<Seq<char>>, b: Seq<Seq<char>>)
    requires
        forall|l: int| 0 <= l < b.len() ==> lacks(#[trigger] b[l], '<'),
    ensures
        messages_on(a + b) == messages_on(a),
    decreases b.len(),
{
    if b.len() == 0 {
        assert(a + b =~= a);
    } else {
        lemma_no_messages(a, b.drop_last());
        assert((a + b).drop_last() =~= a + b.drop_last());
        assert((a + b).last() == b[b.len() - 1]);
        lemma_no_marker(b.last(), 0);
    }
}

/// What stands on a message's line before its tag.
pub open spec fn before_tag(message: Seq<char>, gap: Gap) -> Seq<char> {
    if needs_wrapping(message) {
        Seq::empty()
    } else {
        match gap {
            Gap::Dot => ". "@ + message + " "@,
            _ => message + " "@,
        }
    }
}

proof fn lemma_before_tag(message: Seq<char>, gap: Gap)
    requires
        !needs_wrapping(message),
    ensures
        trimmed(before_tag(message, gap)) == trimmed(
            match gap {
                Gap::Dot => ". "@ + message,
                _ => message,
            },
        ),
{
    reveal_strlit(" ");
    reveal_strlit(". ");
    let x = before_tag(message, gap);
    match gap {
        Gap::Dot => {
            assert(x =~= (". "@ + message).push(' '));
            lemma_trimmed_push(". "@ + message, ' ');
        },
        _ => {
            assert(x =~= message.push(' '));
            lemma_trimmed_push(message, ' ');
        },
    }
}

/// What a line with a message and its tag holds.
proof fn lemma_line_is_read(
    x: Seq<char>,
    id: i32,
    second: i64,
    sender: Option<Seq<char>>,
    reply_to: Option<i32>,
)
    requires
        0 <= id,
        sender is Some ==> one_word(sender->0),
        forall|i: int|
            0 <= i < x.len() ==> #[trigger] marker_at(
                x + message_tag(id as int, second as int, sender, false, reply_to),
                i,
            ) is None,
    ensures
        ({
            let line = x + message_tag(id as int, second as int, sender, false, reply_to);
            let m = line_marker(line)->0;
            &&& has_message(line)
            &&& id_on(line) == id
            &&& message_on(line, m).content == trimmed(x)
            &&& message_on(line, m).sender == (match sender {
                Some(s) => sender_named(s),
                None => MessageSender::Bot,
            })
            &&& time_on(m) == Some(second)
        }),
{
    let line = x + message_tag(id as int, second as int, sender, false, reply_to);
    law_tag_is_read(x, id as int, second as int, sender, reply_to);
    lemma_marker_within(line, x.len() as int);
    lemma_marker_from(line, 0, x.len() as int);
    lemma_signed_round_trip(id as int, i32::MIN as int, i32::MAX as int);
    lemma_signed_round_trip(second as int, i64::MIN as int, i64::MAX as int);
    let m = line_marker(line)->0;
    assert(without_marker(line, m) =~= x);
}

/// A tag does not start behind the end of a text.
proof fn lemma_marker_within(s: Seq<char>, i: int)
    requires
        marker_at(s, i) is Some,
        0 <= i <= s.len(),
    ensures
        i < s.len(),
{
    reveal_strlit("<!-- msg:");
}

/// The lines of a file with a message behind its content.
proof fn lemma_appended_lines(content: Seq<char>, message: Seq<char>, tag: Seq<char>, gap: Gap)
    requires
        content.len() == 0 || content.last() == '\n',
        lacks(tag, '\n'),
        tag.len() > 0,
        tag.last() == '>',
        has_tag(tag),
        gap matches Gap::Day(d) ==> d.valid(),
    ensures
        ({
            let all = lines(content + appended(message, Some(tag), gap));
            &&& all.len() > 0
            &&& all.last() == before_tag(message, gap) + tag
            &&& !needs_wrapping(message) ==> all.drop_last() == lines(content) + lines(
                gap_text(gap),
            )
        }),
{
    reveal_strlit("\n");
    reveal_strlit(" ");
    reveal_strlit(". ");
    assert("\n"@ =~= newline());
    let new = appended(message, Some(tag), gap);
    lemma_gap_lacks(gap, '<');
    lemma_lines_concat(content, new);
    let g = lines(gap_text(gap));
    let body = body_of(message, Some(tag), gap);
    assert(new =~= gap_text(gap) + (body + newline()));
    lemma_lines_concat(gap_text(gap), body + newline());
    let b = lines(body + newline());
    let all = lines(content) + (g + b);
    if needs_wrapping(message) {
        law_wrapped_lines(message, tag);
        assert(b.last() == tag);
        assert(before_tag(message, gap) + tag =~= tag);
    } else {
        lemma_tagged_line(message, tag, gap);
        assert(body =~= before_tag(message, gap) + tag);
        assert(all.drop_last() =~= lines(content) + g);
    }
    assert(all.last() == b.last());
}

/// A message that is appended to a file is read back: its id, its time, its sender,
/// and its text where it stands in no code block; of one in a code block the line of
/// the tag is read, which has no text. Where the message stands in no code block, all
/// others are read as before. The sender's name is one word, and the message's line
/// holds no whole tag before the message's own.
#[verifier::spinoff_prover]
#[verifier::rlimit(40)]
pub proof fn law_appended_message_reads_back(
    content: Seq<char>,
    message: Seq<char>,
    id: i32,
    second: i64,
    sender: Option<Seq<char>>,
    reply_to: Option<i32>,
    gap: Gap,
)
    requires
        content.len() == 0 || content.last() == '\n',
        0 <= id,
        sender is Some ==> one_word(sender->0),
        gap matches Gap::Day(d) ==> d.valid(),
        ({
            let x = before_tag(message, gap);
            let tag = message_tag(id as int, second as int, sender, false, reply_to);
            forall|i: int| 0 <= i < x.len() ==> #[trigger] marker_at(x + tag, i) is None
        }),
    ensures
        ({
            let tag = message_tag(id as int, second as int, sender, false, reply_to);
            let all = lines(content + appended(message, Some(tag), gap));
            let read = Parsed {
                content: trimmed(
                    if needs_wrapping(message) {
                        Seq::empty()
                    } else {
                        match gap {
                            Gap::Dot => ". "@ + message,
                            _ => message,
                        }
                    },
                ),
                sender: match sender {
                    Some(s) => sender_named(s),
                    None => MessageSender::Bot,
                },
            };
            &&& messages_on(all).contains_key(id)
            &&& messages_on(all)[id] == read
            &&& times_on(all).contains_key(id)
            &&& times_on(all)[id] == second
            &&& !needs_wrapping(message) ==> messages_on(all) == messages_on(lines(content)).insert(
                id,
                read,
            )
        }),
{
    let tag = message_tag(id as int, second as int, sender, false, reply_to);
    let x = before_tag(message, gap);
    if sender is Some {
        let s = sender->0;
        assert forall|i: int| 0 <= i < s.len() implies #[trigger] s[i] != '<' && s[i] != '\n' by {
            assert(word(s[i]));
        }
    }
    lemma_tag_line(id as int, second as int, sender, reply_to);
    lemma_appended_lines(content, message, tag, gap);
    lemma_line_is_read(x, id, second, sender, reply_to);
    if !needs_wrapping(message) {
        lemma_before_tag(message, gap);
        lemma_gap_lacks(gap, '<');
        lemma_no_messages(lines(content), lines(gap_text(gap)));
    }
}

/// A plain tag holds digits, and perhaps one word for the sender.
#[verifier::spinoff_prover]
#[verifier::rlimit(40)]
pub proof fn law_plain_tags(x: Seq<char>, digits: Seq<char>, sender: Seq<char>, b: Seq<char>)
    requires
        digits.len() > 0,
        all_digits(digits),
        one_word(sender),
    ensures
        marker_at(x + "<!-- msg:"@ + digits + " -->"@ + b, x.len() as int) == Some(
            Marker {
                start: x.len() as int,
                end: x.len() as int + 13 + digits.len(),
                digits,
                ts: None,
                sender: None,
            },
        ),
        marker_at(x + "<!-- msg:"@ + digits + " "@ + sender + " -->"@ + b, x.len() as int) == Some(
            Marker {
                start: x.len() as int,
                end: x.len() as int + 14 + digits.len() + sender.len(),
                digits,
                ts: None,
                sender: Some(sender),
            },
        ),
{
    reveal_strlit("<!-- msg:");
    reveal_strlit(" -->");
    reveal_strlit(" ");
    reveal_strlit(" ts:");
    reveal_strlit(" reply_to:");
    let s = x + "<!-- msg:"@ + digits + " -->"@ + b;
    let r = closer() + b;
    assert(s.skip(x.len() as int) =~= opener() + digits + r);
    assert(r[0] == ' ' && r[1] == '-');
    lemma_tag_of(digits, r);
    if starts(r, " ts:"@) {
        assert(r.subrange(0, 4)[1] == r[1]);
    }
    assert(r.skip(0) =~= r);
    if starts(r, " reply_to:"@) {
        assert(r.subrange(0, 10)[1] == r[1]);
    }
    assert(r.subrange(0, 4) =~= closer());
    let s2 = x + "<!-- msg:"@ + digits + " "@ + sender + " -->"@ + b;
    let q = " "@ + sender + closer() + b;
    assert(s2.skip(x.len() as int) =~= opener() + digits + q);
    assert(q[0] == ' ');
    lemma_tag_of(digits, q);
    let after = q.skip(1);
    assert(after =~= sender + (closer() + b));
    assert forall|i: int| 0 <= i < sender.len() implies word(#[trigger] after[i]) by {
        assert(after[i] == sender[i]);
    }
    assert(after[sender.len() as int] == ' ');
    lemma_word_run_is(after, sender.len() as int);
    lemma_word_is_no_label(q, sender, closer() + b);
    assert(q.skip(0) =~= q);
    let end = q.skip(1 + sender.len() as int);
    assert(end =~= closer() + b);
    assert(end.subrange(0, 4) =~= closer());
    assert(q.subrange(1, 1 + sender.len() as int) =~= sender);
    assert(word(sender[0]));
    if starts(q, closer()) {
        assert(q.subrange(0, 4)[1] == q[1]);
        assert(q[1] == sender[0]);
    }
}

/// A word behind a space is no label.
proof fn lemma_word_is_no_label(q: Seq<char>, sender: Seq<char>, rest: Seq<char>)
    requires
        one_word(sender),
        q.len() > 0,
        q.skip(1) == sender + rest,
        rest.len() > 0,
        rest[0] == ' ',
    ensures
        !starts(q, " ts:"@),
        !starts(q, " reply_to:"@),
{
    reveal_strlit(" ts:");
    reveal_strlit(" reply_to:");
    let t = q.skip(1);
    if starts(q, " ts:"@) {
        let p = q.subrange(0, 4);
        assert(p[1] == t[0] && p[2] == t[1] && p[3] == t[2]);
        assert(word(sender[0]));
        if sender.len() >= 3 {
            assert(word(sender[2]));
        } else {
            assert(t[sender.len() as int] == ' ');
        }
    }
    if starts(q, " reply_to:"@) {
        let p = q.subrange(0, 10);
        assert(p[1] == t[0] && p[2] == t[1] && p[3] == t[2] && p[4] == t[3] && p[5] == t[4] && p[6]
            == t[5] && p[7] == t[6] && p[8] == t[7] && p[9] == t[8]);
        if sender.len() >= 9 {
            assert(word(sender[8]));
        } else {
            assert(t[sender.len() as int] == ' ');
        }
    }
}

/// What is read as a tag starts and ends as one, and has digits.
#[verifier::spinoff_prover]
#[verifier::rlimit(40)]
pub proof fn law_what_tags_are(s: Seq<char>, i: int)
    requires
        0 <= i <= s.len(),
        marker_at(s, i) is Some,
    ensures
        ({
            let m = marker_at(s, i)->0;
            &&& m.start == i
            &&& i + 13 < m.end <= s.len()
            &&& s.subrange(i, i + 9) == "<!-- msg:"@
            &&& s.subrange(m.end - 4, m.end) == " -->"@
            &&& m.digits.len() > 0
            &&& s.subrange(i + 9, i + 9 + m.digits.len()) == m.digits
        }),
{
    reveal_strlit("<!-- msg:");
    reveal_strlit(" -->");
    reveal_strlit(" ts:");
    reveal_strlit(" reply_to:");
    let t = s.skip(i);
    lemma_digit_run(t.skip(9));
    assert(t.subrange(0, 9) =~= s.subrange(i, i + 9));
    let d = tag_digits(t);
    assert(s.subrange(i + 9, i + 9 + d.len()) =~= d);
    let behind_id = after_tag(t);
    assert(behind_id =~= s.skip(i + 9 + d.len()));
    let a = field_len(behind_id, " ts:"@);
    lemma_field_len(behind_id, " ts:"@);
    let behind_time = behind_id.skip(a);
    let b = field_len(behind_time, " reply_to:"@);
    lemma_field_len(behind_time, " reply_to:"@);
    let rest = behind_time.skip(b);
    let e = i + 9 + d.len() + a + b;
    assert(rest =~= s.skip(e));
    lemma_word_run(rest.skip(1));
    let w = word_run(rest.skip(1));
    if starts(rest, closer()) {
        assert(rest.subrange(0, 4) =~= s.subrange(e, e + 4));
    } else {
        assert(rest.skip(1 + w).subrange(0, 4) =~= s.subrange(e + 1 + w, e + 5 + w));
    }
}

proof fn lemma_field_len(s: Seq<char>, label: Seq<char>)
    ensures
        0 <= field_len(s, label) <= s.len(),
{
    let t = s.skip(label.len() as int);
    if starts(s, label) {
        if t.len() > 0 && t[0] == '-' {
            lemma_digit_run(t.skip(1));
        } else {
            assert(t.skip(0) =~= t);
            lemma_digit_run(t);
        }
    }
}

} // verus!
