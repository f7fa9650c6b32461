//! What is appended to a topic file outlives a clean-up.
use vstd::prelude::*;

use crate::calendar::{date_text, month_text, year_text};
use crate::cleanup::{
    cleaned, kept, lemma_blank_line, lemma_kept_stays, lemma_no_run, lemma_open_nonneg,
    lemma_open_prefix, open_at, squeezed, stays,
};
use crate::decimal::{decimal, lemma_decimal, numeral, padded};
use crate::header::{header_line, law_month_names, lemma_header_no_tags};
use crate::server::{
    Gap, appended, backticks_at_end, body_of, fence_around, gap_text, labelled, law_tag_reads_back,
    lemma_numeral_lacks, longest_backticks, message_tag, needs_wrapping, tagged, wrapped,
};
use crate::tag::{has_tag, lemma_untagged};
use crate::text::{
    blank, chomped, lacks, lemma_line_occurs, lemma_lines_concat, lemma_one_line,
    lemma_trimmed_same, lines, newline, occurs, occurs_at, trimmed,
};
use crate::unicode::{ascii_digit, ascii_letter};

verus! {

/// A long run of backticks in a text is no longer than the longest.
proof fn lemma_longest(s: Seq<char>, i: int, n: int)
    requires
        0 <= i,
        0 < n,
        i + n <= s.len(),
        forall|j: int| i <= j < i + n ==> #[trigger] s[j] == '`',
    ensures
        longest_backticks(s) >= n,
    decreases s.len(),
{
    if i + n < s.len() {
        let t = s.drop_last();
        assert forall|j: int| i <= j < i + n implies #[trigger] t[j] == '`' by {
            assert(t[j] == s[j]);
        }
        lemma_longest(t, i, n);
    } else {
        lemma_backticks_at_end(s, n);
    }
}

proof fn lemma_backticks_at_end(s: Seq<char>, n: int)
    requires
        0 <= n <= s.len(),
        forall|j: int| s.len() - n <= j < s.len() ==> #[trigger] s[j] == '`',
    ensures
        backticks_at_end(s) >= n,
    decreases s.len(),
{
    lemma_backticks_nonneg(s);
    if n > 0 {
        let t = s.drop_last();
        assert forall|j: int| t.len() - (n - 1) <= j < t.len() implies #[trigger] t[j] == '`' by {
            assert(t[j] == s[j]);
        }
        lemma_backticks_at_end(t, n - 1);
    }
}

proof fn lemma_backticks_nonneg(s: Seq<char>)
    ensures
        backticks_at_end(s) >= 0,
    decreases s.len(),
{
    if s.len() > 0 {
        lemma_backticks_nonneg(s.drop_last());
    }
}

/// The longest run of backticks stands somewhere in the text.
proof fn lemma_run_stands(s: Seq<char>) -> (i: int)
    ensures
        0 <= i,
        0 <= longest_backticks(s) <= s.len() - i,
        forall|j: int| i <= j < i + longest_backticks(s) ==> #[trigger] s[j] == '`',
    decreases s.len(),
{
    if s.len() == 0 {
        0
    } else {
        let t = s.drop_last();
        let before = longest_backticks(t);
        let here = backticks_at_end(s);
        let i = lemma_run_stands(t);
        if here > before {
            lemma_end_stands(s);
            s.len() - here
        } else {
            assert forall|j: int| i <= j < i + before implies #[trigger] s[j] == '`' by {
                assert(s[j] == t[j]);
            }
            i
        }
    }
}

proof fn lemma_end_stands(s: Seq<char>)
    ensures
        0 <= backticks_at_end(s) <= s.len(),
        forall|j: int| s.len() - backticks_at_end(s) <= j < s.len() ==> #[trigger] s[j] == '`',
    decreases s.len(),
{
    if s.len() > 0 && s.last() == '`' {
        let t = s.drop_last();
        lemma_end_stands(t);
        assert forall|j: int| s.len() - backticks_at_end(s) <= j < s.len() implies #[trigger] s[j]
            == '`' by {
            if j < t.len() {
                assert(s[j] == t[j]);
            }
        }
    }
}

/// No line of a message has a longer run of backticks than the message.
pub proof fn lemma_message_lines(message: Seq<char>, l: int)
    requires
        0 <= l < lines(message + newline()).len(),
    ensures
        longest_backticks(lines(message + newline())[l]) <= longest_backticks(message),
{
    let s = message + newline();
    let line = lines(s)[l];
    let n = longest_backticks(line);
    let k = lemma_run_stands(line);
    let _ = lemma_run_stands(message);
    if n > 0 {
        lemma_line_occurs(s, l);
        let at = choose|at: int| occurs_at(s, at, line);
        let i = at + k;
        assert forall|j: int| i <= j < i + n implies #[trigger] s[j] == '`' by {
            assert(s.subrange(at, at + line.len())[j - at] == line[j - at]);
        }
        if i + n == s.len() {
            assert(s[i + n - 1] == '\n');
        }
        assert forall|j: int| i <= j < i + n implies #[trigger] message[j] == '`' by {
            assert(message[j] == s[j]);
        }
        lemma_longest(message, i, n);
    }
}

/// A line that starts with the fence around a message has the fence for its longest
/// run of backticks.
pub proof fn lemma_fence_around(message: Seq<char>, tail: Seq<char>)
    requires
        tail.len() == 0 || tail == seq!['m', 'd'],
    ensures
        longest_backticks(fence_around(message) + tail) == fence_around(message).len(),
        fence_around(message).len() >= 5,
        fence_around(message).len() > longest_backticks(message),
        chomped(fence_around(message) + tail) == fence_around(message) + tail,
        lacks(fence_around(message) + tail, '\n'),
        !blank(fence_around(message) + tail),
        !header_line(trimmed(fence_around(message) + tail)),
{
    let f = fence_around(message);
    let s = f + tail;
    let n = f.len() as int;
    assert(s[0] == '`');
    assert(s.last() == '`' || s.last() == 'd');
    lemma_trimmed_same(s);
    lemma_longest(s, 0, n);
    let i = lemma_run_stands(s);
    let r = longest_backticks(s);
    if r > n {
        assert(s[i + r - 1] == '`');
        assert(i + r - 1 >= n);
    }
}

/// Lines without backticks leave a code block open, or closed.
proof fn lemma_open_through(ls: Seq<Seq<char>>, i: int, j: int)
    requires
        0 <= i <= j <= ls.len(),
        forall|k: int| i <= k < j ==> longest_backticks(#[trigger] ls[k]) == 0,
    ensures
        open_at(ls, j) == open_at(ls, i),
    decreases j - i,
{
    if i < j {
        lemma_open_through(ls, i, j - 1);
        lemma_open_nonneg(ls, i);
        assert(longest_backticks(ls[j - 1]) == 0);
    }
}

/// Lines that all stay are kept behind those kept above them.
proof fn lemma_kept_concat(a: Seq<Seq<char>>, b: Seq<Seq<char>>, i: int)
    requires
        0 <= i <= a.len() + b.len(),
        forall|j: int| a.len() <= j < a.len() + b.len() ==> #[trigger] stays(a + b, j),
    ensures
        i <= a.len() ==> kept(a + b, i) == kept(a, i),
        i >= a.len() ==> kept(a + b, i) == kept(a, a.len() as int) + b.take(i - a.len()),
    decreases i,
{
    let ls = a + b;
    if i > 0 {
        lemma_kept_concat(a, b, i - 1);
        if i <= a.len() {
            assert(ls[i - 1] == a[i - 1]);
            lemma_open_prefix(ls, a, i - 1);
        } else {
            assert(stays(ls, i - 1));
            assert(ls[i - 1] == b[i - 1 - a.len()]);
            assert(b.take(i - a.len()) =~= b.take(i - 1 - a.len()).push(b[i - 1 - a.len()]));
            assert(kept(a, a.len() as int) + b.take(i - a.len()) =~= (kept(a, a.len() as int)
                + b.take(i - 1 - a.len())).push(b[i - 1 - a.len()]));
        }
    }
    if i == a.len() {
        assert(b.take(0) =~= Seq::empty());
        assert(kept(a, i) + Seq::<Seq<char>>::empty() =~= kept(a, i));
    }
}

/// A text that ends in a tag holds a tag.
proof fn lemma_tag_at_end(x: Seq<char>, tag: Seq<char>)
    requires
        has_tag(tag),
    ensures
        has_tag(x + tag),
    decreases x.len(),
{
    if x.len() == 0 {
        assert(x + tag =~= tag);
    } else {
        lemma_tag_at_end(x.skip(1), tag);
        assert((x + tag).skip(1) =~= x.skip(1) + tag);
    }
}

/// A message's tag is one line.
pub proof fn lemma_tag_line(id: int, second: int, sender: Option<Seq<char>>, reply_to: Option<i32>)
    requires
        0 <= id <= i32::MAX,
        sender is Some ==> lacks(sender->0, '<') && lacks(sender->0, '\n'),
    ensures
        ({
            let tag = message_tag(id, second, sender, false, reply_to);
            lacks(tag, '\n') && tag.len() > 0 && tag.last() == '>' && has_tag(tag)
        }),
{
    law_tag_reads_back(id, second, sender, reply_to);
    let tag = message_tag(id, second, sender, false, reply_to);
    assert(seq![id].len() == 1);
    if !has_tag(tag) {
        lemma_untagged(tag);
    }
    reveal_strlit("<!-- ");
    reveal_strlit("msg:");
    reveal_strlit(" ts:");
    reveal_strlit(" reply_to:");
    reveal_strlit(" ");
    reveal_strlit(" -->");
    lemma_numeral_lacks(id, '\n');
    lemma_numeral_lacks(second, '\n');
    if reply_to is Some {
        lemma_numeral_lacks(reply_to->0 as int, '\n');
    }
    let from = match sender {
        Some(s) => " "@ + s,
        None => Seq::empty(),
    };
    let kind: Seq<char> = Seq::empty();
    let reply = labelled(" reply_to:"@, reply_to);
    assert(lacks(reply, '\n'));
    assert(lacks(from, '\n'));
    let a = "<!-- "@ + kind + "msg:"@ + numeral(id);
    assert(lacks(a, '\n'));
    let b = a + " ts:"@ + numeral(second);
    assert(lacks(b, '\n'));
    let c = b + reply + from;
    assert(lacks(c, '\n'));
    assert(tag == c + " -->"@);
    assert(lacks(tag, '\n'));
    assert(tag[tag.len() - 1] == " -->"@[3]);
}

/// What stands above a message ends its line, and holds neither backticks nor tags.
pub proof fn lemma_gap_lacks(gap: Gap, c: char)
    requires
        gap matches Gap::Day(d) ==> d.valid(),
        c == '`' || c == '<',
    ensures
        gap_text(gap).len() == 0 || gap_text(gap).last() == '\n',
        forall|l: int|
            0 <= l < lines(gap_text(gap)).len() ==> lacks(#[trigger] lines(gap_text(gap))[l], c),
{
    let g = gap_text(gap);
    reveal_strlit("\n");
    reveal_strlit("\n## ");
    reveal_strlit("\n\n");
    match gap {
        Gap::Day(d) => {
            let m = month_text(d.month as int);
            law_month_names(d.month as int);
            assert forall|i: int| 0 <= i < m.len() implies #[trigger] m[i] != c by {
                assert(ascii_letter(m[i]));
            }
            let day = padded(d.day as int, 2);
            lemma_digits_lack(d.day as int, 2, c);
            let year = year_text(d.year as int);
            if d.year < 0 {
                lemma_digits_lack(-(d.year as int), 3, c);
            } else {
                lemma_digits_lack(d.year as int, 4, c);
            }
            assert(lacks(year, c));
            let a = m + seq![' '] + day + seq![',', ' '];
            assert(lacks(a, c));
            assert(lacks(date_text(d), c));
        },
        _ => {},
    }
    assert(lacks(g, c));
    assert forall|l: int| 0 <= l < lines(g).len() implies lacks(#[trigger] lines(g)[l], c) by {
        let line = lines(g)[l];
        lemma_line_occurs(g, l);
        let at = choose|at: int| occurs_at(g, at, line);
        assert forall|i: int| 0 <= i < line.len() implies #[trigger] line[i] != c by {
            assert(g.subrange(at, at + line.len())[i] == g[at + i]);
        }
    }
}

proof fn lemma_digits_lack(n: int, width: int, c: char)
    requires
        0 <= n,
        !ascii_digit(c),
    ensures
        lacks(padded(n, width), c),
{
    let d = decimal(n);
    lemma_decimal(n);
    assert forall|i: int| 0 <= i < d.len() implies #[trigger] d[i] != c by {
        assert(ascii_digit(d[i]));
    }
}

/// A message in a code block stands between a line that opens the block and a
/// fence on a line of its own, with its tag on the line below.
pub proof fn law_wrapped_lines(message: Seq<char>, tag: Seq<char>)
    requires
        lacks(tag, '\n'),
        tag.len() > 0,
        tag.last() == '>',
    ensures
        lines(wrapped(message, Some(tag)) + newline()) == seq![
            fence_around(message) + seq!['m', 'd'],
        ] + lines(message + newline()) + seq![fence_around(message)] + seq![tag],
{
    reveal_strlit("md\n");
    reveal_strlit("\n");
    let f = fence_around(message);
    let top = f + seq!['m', 'd'];
    lemma_fence_around(message, seq!['m', 'd']);
    lemma_fence_around(message, Seq::empty());
    assert(f + Seq::<char>::empty() =~= f);
    let t = tag + newline();
    let ft = (f + newline()) + t;
    let mft = (message + newline()) + ft;
    assert(wrapped(message, Some(tag)) + newline() =~= (top + newline()) + mft);
    lemma_one_line(top);
    lemma_one_line(f);
    lemma_one_line(tag);
    lemma_lines_concat(top + newline(), mft);
    lemma_lines_concat(message + newline(), ft);
    lemma_lines_concat(f + newline(), t);
    let m = lines(message + newline());
    assert(seq![top] + (m + (seq![f] + seq![tag])) =~= seq![top] + m + seq![f] + seq![tag]);
}

/// The lines of a message in a code block: the block is open over all of them, and
/// closed behind the fence.
proof fn lemma_wrapped_open(all: Seq<Seq<char>>, h: int, message: Seq<char>, tag: Seq<char>)
    requires
        0 <= h <= all.len(),
        open_at(all, h) == 0,
        all.skip(h) == seq![fence_around(message) + seq!['m', 'd']] + lines(message + newline())
            + seq![fence_around(message)] + seq![tag],
    ensures
        forall|k: int|
            h < k < all.len() - 1 ==> #[trigger] open_at(all, k) == fence_around(message).len(),
        open_at(all, all.len() - 1) == 0,
        all.len() == h + lines(message + newline()).len() + 3,
{
    let b = all.skip(h);
    let m = lines(message + newline());
    let n = fence_around(message).len() as int;
    lemma_fence_around(message, seq!['m', 'd']);
    lemma_fence_around(message, Seq::empty());
    assert(fence_around(message) + Seq::<char>::empty() =~= fence_around(message));
    let opened = seq![fence_around(message) + seq!['m', 'd']] + m;
    assert(b == opened + seq![fence_around(message)] + seq![tag]);
    assert(b.len() == m.len() + 3);
    assert(b.len() == all.len() - h);
    assert(all[h] == b[0]);
    assert forall|k: int| h < k < all.len() - 1 implies #[trigger] open_at(all, k) == n by {
        lemma_block_goes_on(all, h, message, tag, k);
    }
    let e = h + 1 + m.len();
    assert(all[e] == b[m.len() as int + 1]);
    assert(open_at(all, e) == n);
}

proof fn lemma_block_goes_on(
    all: Seq<Seq<char>>,
    h: int,
    message: Seq<char>,
    tag: Seq<char>,
    k: int,
)
    requires
        0 <= h < k < all.len() - 1,
        open_at(all, h) == 0,
        all.skip(h) == seq![fence_around(message) + seq!['m', 'd']] + lines(message + newline())
            + seq![fence_around(message)] + seq![tag],
    ensures
        open_at(all, k) == fence_around(message).len(),
    decreases k,
{
    let b = all.skip(h);
    let m = lines(message + newline());
    lemma_fence_around(message, seq!['m', 'd']);
    let opened = seq![fence_around(message) + seq!['m', 'd']] + m;
    assert(b == opened + seq![fence_around(message)] + seq![tag]);
    assert(b.len() == m.len() + 3);
    assert(b.len() == all.len() - h);
    if k == h + 1 {
        assert(all[h] == b[0]);
    } else {
        lemma_block_goes_on(all, h, message, tag, k - 1);
        assert(all[k - 1] == b[k - 1 - h]);
        assert(b[k - 1 - h] == m[k - 2 - h]);
        lemma_message_lines(message, k - 2 - h);
    }
}

/// A message that stands in no code block is one line with its tag.
pub proof fn lemma_tagged_line(message: Seq<char>, tag: Seq<char>, gap: Gap)
    requires
        !needs_wrapping(message),
        lacks(tag, '\n'),
        tag.len() > 0,
        tag.last() == '>',
        has_tag(tag),
    ensures
        ({
            let one = match gap {
                Gap::Dot => ". "@ + tagged(message, Some(tag)),
                _ => tagged(message, Some(tag)),
            };
            lines(one + newline()) == seq![one] && has_tag(one)
        }),
{
    reveal_strlit(" ");
    reveal_strlit(". ");
    let one = match gap {
        Gap::Dot => ". "@ + tagged(message, Some(tag)),
        _ => tagged(message, Some(tag)),
    };
    let x = match gap {
        Gap::Dot => ". "@ + message + " "@,
        _ => message + " "@,
    };
    assert(one =~= x + tag);
    lemma_tag_at_end(x, tag);
    assert(lacks(message, '\n')) by {
        assert forall|i: int| 0 <= i < message.len() implies #[trigger] message[i] != '\n' by {
            assert(message.contains(message[i]));
        }
    }
    assert(lacks(x, '\n'));
    assert(lacks(one, '\n'));
    assert(one.last() == tag.last());
    lemma_one_line(one);
}

/// Lines that stand in a code block, or are neither blank nor date headers, are not
/// squeezed.
proof fn lemma_squeezed_concat(f: Seq<Seq<char>>, base: int, n: int)
    requires
        0 <= base <= n <= f.len(),
        forall|k: int|
            base <= k < f.len() ==> #[trigger] open_at(f, k) > 0 || (!blank(f[k]) && !header_line(
                trimmed(f[k]),
            )),
    ensures
        squeezed(f, n) == squeezed(f, base) + f.subrange(base, n),
    decreases n - base,
{
    if base < n {
        lemma_squeezed_concat(f, base, n - 1);
        lemma_open_nonneg(f, n - 1);
        assert(open_at(f, n - 1) > 0 || (!blank(f[n - 1]) && !header_line(trimmed(f[n - 1]))));
        assert(f.subrange(base, n) =~= f.subrange(base, n - 1).push(f[n - 1]));
        assert(squeezed(f, base) + f.subrange(base, n) =~= (squeezed(f, base) + f.subrange(
            base,
            n - 1,
        )).push(f[n - 1]));
    } else {
        assert(f.subrange(base, n) =~= Seq::empty());
        assert(squeezed(f, base) + Seq::<Seq<char>>::empty() =~= squeezed(f, base));
    }
}

/// A line with a tag is neither blank nor a date header.
pub proof fn lemma_tagged_is_no_header(line: Seq<char>)
    requires
        has_tag(line),
    ensures
        !blank(line),
        !header_line(trimmed(line)),
{
    if blank(line) {
        lemma_blank_line(line);
    }
    if header_line(trimmed(line)) {
        lemma_header_no_tags(line);
    }
}

/// The lines of a message that all stay come whole out of a clean-up.
proof fn lemma_comes_out_whole(a: Seq<Seq<char>>, b: Seq<Seq<char>>)
    requires
        b.len() > 0,
        has_tag(b.last()),
        forall|k: int| a.len() <= k < a.len() + b.len() ==> #[trigger] stays(a + b, k),
        ({
            let f = kept(a, a.len() as int) + b;
            forall|k: int|
                f.len() - b.len() <= k < f.len() ==> #[trigger] open_at(f, k) > 0 || (!blank(f[k])
                    && !header_line(trimmed(f[k])))
        }),
    ensures
        ends_with(cleaned(a + b), b),
{
    let all = a + b;
    let base = kept(a, a.len() as int).len() as int;
    lemma_kept_concat(a, b, all.len() as int);
    assert(b.take(b.len() as int) =~= b);
    let f = kept(all, all.len() as int);
    lemma_squeezed_concat(f, base, f.len() as int);
    assert(f.subrange(base, f.len() as int) =~= b);
    lemma_tagged_is_no_header(b.last());
    let g = squeezed(f, f.len() as int);
    assert(g.last() == b.last());
    assert(cleaned(all) == g);
    assert(g.skip(g.len() - b.len()) =~= b);
}

/// The lines end with the given ones.
pub open spec fn ends_with(ls: Seq<Seq<char>>, b: Seq<Seq<char>>) -> bool {
    b.len() <= ls.len() && ls.skip(ls.len() - b.len()) == b
}

/// A message that is appended to a file comes whole out of a clean-up: its lines, its
/// fences and its tag stand at the end, as they were written. Where the message
/// stands in a code block, none is open above it. Its tag is that of a message that
/// was not forwarded, and its sender's name is one line that opens no tag.
pub proof fn law_appended_message_is_kept(
    content: Seq<char>,
    message: Seq<char>,
    id: int,
    second: int,
    sender: Option<Seq<char>>,
    reply_to: Option<i32>,
    gap: Gap,
)
    requires
        content.len() == 0 || content.last() == '\n',
        needs_wrapping(message) ==> open_at(lines(content), lines(content).len() as int) == 0,
        0 <= id <= i32::MAX,
        sender is Some ==> lacks(sender->0, '<') && lacks(sender->0, '\n'),
        gap matches Gap::Day(d) ==> d.valid(),
    ensures
        ({
            let tag = Some(message_tag(id, second, sender, false, reply_to));
            ends_with(
                cleaned(lines(content + appended(message, tag, gap))),
                lines(body_of(message, tag, gap) + newline()),
            )
        }),
{
    reveal_strlit("\n");
    reveal_strlit(" ");
    reveal_strlit(". ");
    assert("\n"@ =~= newline());
    let tag = message_tag(id, second, sender, false, reply_to);
    let new = appended(message, Some(tag), gap);
    let ls = lines(content);
    lemma_tag_line(id, second, sender, reply_to);
    lemma_gap_lacks(gap, '`');
    lemma_lines_concat(content, new);
    let g = lines(gap_text(gap));
    let body = body_of(message, Some(tag), gap);
    assert(new =~= gap_text(gap) + (body + newline()));
    lemma_lines_concat(gap_text(gap), body + newline());
    let b = lines(body + newline());
    let a = ls + g;
    let all = a + b;
    assert(all =~= ls + (g + b));
    lemma_open_prefix(ls, a, ls.len() as int);
    assert forall|k: int| ls.len() <= k < a.len() implies longest_backticks(#[trigger] a[k])
        == 0 by {
        assert(a[k] == g[k - ls.len()]);
        lemma_no_run(a[k]);
    }
    lemma_open_through(a, ls.len() as int, a.len() as int);
    lemma_open_prefix(a, all, a.len() as int);
    lemma_kept_stays(a, a.len() as int);
    let k = kept(a, a.len() as int);
    let f = k + b;
    lemma_open_prefix(k, f, k.len() as int);
    if needs_wrapping(message) {
        law_wrapped_lines(message, tag);
        assert(all.skip(a.len() as int) =~= b);
        assert(f.skip(k.len() as int) =~= b);
        lemma_wrapped_whole(all, a.len() as int, message, tag);
        lemma_wrapped_whole(f, k.len() as int, message, tag);
        assert(b.last() == tag);
    } else {
        lemma_tagged_line(message, tag, gap);
        lemma_tagged_is_no_header(b[0]);
        assert forall|x: int| a.len() <= x < all.len() implies #[trigger] stays(all, x) by {
            assert(all[x] == b[0]);
        }
        assert forall|x: int| k.len() <= x < f.len() implies #[trigger] open_at(f, x) > 0 || (
        !blank(f[x]) && !header_line(trimmed(f[x]))) by {
            assert(f[x] == b[0]);
        }
    }
    lemma_comes_out_whole(a, b);
}

/// The lines of a message in a code block all stay, and none is squeezed.
proof fn lemma_wrapped_whole(all: Seq<Seq<char>>, h: int, message: Seq<char>, tag: Seq<char>)
    requires
        0 <= h <= all.len(),
        open_at(all, h) == 0,
        has_tag(tag),
        all.skip(h) == seq![fence_around(message) + seq!['m', 'd']] + lines(message + newline())
            + seq![fence_around(message)] + seq![tag],
    ensures
        forall|k: int| h <= k < all.len() ==> #[trigger] stays(all, k),
        forall|k: int|
            h <= k < all.len() ==> #[trigger] open_at(all, k) > 0 || (!blank(all[k])
                && !header_line(trimmed(all[k]))),
{
    let b = all.skip(h);
    lemma_wrapped_open(all, h, message, tag);
    lemma_fence_around(message, seq!['m', 'd']);
    lemma_tagged_is_no_header(tag);
    assert(all[h] == b[0]);
    assert(all[all.len() - 1] == b.last());
    assert forall|k: int| h <= k < all.len() implies #[trigger] stays(all, k) by {
        if h < k < all.len() - 1 {
            assert(open_at(all, k) == fence_around(message).len());
        }
    }
    assert forall|k: int| h <= k < all.len() implies #[trigger] open_at(all, k) > 0 || (!blank(
        all[k],
    ) && !header_line(trimmed(all[k]))) by {
        if h < k < all.len() - 1 {
            assert(open_at(all, k) == fence_around(message).len());
        }
    }
}

/// The fence around a message stands nowhere in it, and is at least five long.
pub proof fn law_fence_stands_alone(message: Seq<char>)
    ensures
        fence_around(message).len() >= 5,
        !occurs(message, fence_around(message)),
{
    let f = fence_around(message);
    if occurs(message, f) {
        let i = choose|i: int| occurs_at(message, i, f);
        let n = f.len() as int;
        assert(message.subrange(i, i + n) == f);
        assert forall|k: int| i <= k < i + n implies #[trigger] message[k] == '`' by {
            assert(message.subrange(i, i + n)[k - i] == f[k - i]);
        }
        lemma_longest(message, i, n);
    }
}

} // verus!
