//! Taking out of a file what no message tag stands for.
use vstd::prelude::*;

use crate::header::{day_width, header_line, is_header_line, lemma_header_no_tags};
use crate::order::{close_text, closed_text, lemma_closed_lines_chomped, lemma_closed_text_ids};
use crate::server::{longest_backticks, longest_run};
use crate::tag::{
    has_tag, holds_tag, ids_of_lines, lemma_has_tag_last, lemma_no_tags, lemma_tag_ids_of_lines,
    lemma_untagged, tag_ids,
};
use crate::text::{
    all_chomped, blank, chomped, copied, from_chars, is_blank, lacks, lemma_lines_are_lines,
    lemma_trimmed_chars, lemma_trimmed_push, lines, split_lines, texts, to_chars, trim, trimmed,
};
use crate::unicode::{ascii_letter, digit, whitespace};

verus! {

/// The backticks that close the code block which is open behind a line, where
/// `open` close the one that is open before it; zero where none is. A line with five
/// backticks in a row opens a block, and one with at least as many as opened it
/// closes it.
pub open spec fn block_after(open: int, line: Seq<char>) -> int {
    let run = longest_backticks(line);
    if open > 0 {
        if run >= open {
            0
        } else {
            open
        }
    } else if run >= 5 {
        run
    } else {
        0
    }
}

/// The backticks that close the code block which is open before the line `i`, or
/// zero where none is.
pub open spec fn open_at(ls: Seq<Seq<char>>, i: int) -> int
    decreases i,
{
    if i <= 0 {
        0
    } else {
        block_after(open_at(ls, i - 1), ls[i - 1])
    }
}

/// The line stays where no code block is open: it opens one, it is blank, a date
/// header, or holds a tag.
pub open spec fn stays_outside(line: Seq<char>) -> bool {
    longest_backticks(line) >= 5 || blank(line) || header_line(trimmed(line)) || has_tag(line)
}

/// The line stays: it stands in a code block, or would stay outside.
pub open spec fn stays(ls: Seq<Seq<char>>, i: int) -> bool {
    open_at(ls, i) > 0 || stays_outside(ls[i])
}

/// Those of the first `i` lines that stay.
pub open spec fn kept(ls: Seq<Seq<char>>, i: int) -> Seq<Seq<char>>
    decreases i,
{
    if i <= 0 {
        Seq::empty()
    } else if stays(ls, i - 1) {
        kept(ls, i - 1).push(ls[i - 1])
    } else {
        kept(ls, i - 1)
    }
}

/// From the line `i` on there is a line that is neither blank nor a date header
/// before the next date header.
pub open spec fn has_content(ls: Seq<Seq<char>>, i: int) -> bool
    decreases ls.len() - i,
{
    if i >= ls.len() {
        false
    } else if blank(ls[i]) {
        has_content(ls, i + 1)
    } else {
        !header_line(trimmed(ls[i]))
    }
}

/// The line `i` is a date header with nothing under it. Lines in a code block are
/// no headers.
pub open spec fn bare_header(ls: Seq<Seq<char>>, i: int) -> bool {
    open_at(ls, i) == 0 && header_line(trimmed(ls[i])) && !has_content(ls, i + 1)
}

/// The first `i` lines without bare date headers and without blank lines at the
/// start or after another blank line. Those in code blocks stand as they are.
pub open spec fn squeezed(ls: Seq<Seq<char>>, i: int) -> Seq<Seq<char>>
    decreases i,
{
    if i <= 0 {
        Seq::empty()
    } else {
        let before = squeezed(ls, i - 1);
        let line = ls[i - 1];
        if open_at(ls, i - 1) > 0 {
            before.push(line)
        } else if blank(line) {
            if before.len() == 0 || blank(before.last()) {
                before
            } else {
                before.push(line)
            }
        } else if bare_header(ls, i - 1) {
            before
        } else {
            before.push(line)
        }
    }
}

/// The lines without blank ones at the end, but for those in a code block.
pub open spec fn without_blank_tail(ls: Seq<Seq<char>>) -> Seq<Seq<char>>
    decreases ls.len(),
{
    if ls.len() > 0 && blank(ls.last()) && open_at(ls, ls.len() - 1) == 0 {
        without_blank_tail(ls.drop_last())
    } else {
        ls
    }
}

/// The lines of a file once it is cleaned up.
pub open spec fn cleaned(ls: Seq<Seq<char>>) -> Seq<Seq<char>> {
    let f = kept(ls, ls.len() as int);
    without_blank_tail(squeezed(f, f.len() as int))
}

/// The lines of a file that are left, as a text.
pub open spec fn cleaned_text(content: Seq<char>) -> Seq<char> {
    closed_text(cleaned(lines(content)))
}

/// Some line of the file is taken out.
pub open spec fn has_litter(content: Seq<char>) -> bool {
    cleaned(lines(content)).len() < lines(content).len()
}

/// The file once it is cleaned up. One from which no line is taken out is left as it
/// is.
pub open spec fn cleaned_up(content: Seq<char>) -> Seq<char> {
    if has_litter(content) {
        cleaned_text(content)
    } else {
        content
    }
}

// ---------------------------------------------------------------------------
// Cleaning up
// ---------------------------------------------------------------------------

/// The backticks that close the code block which is open behind a line.
fn next_block(open: usize, line: &[char]) -> (r: usize)
    ensures
        r == block_after(open as int, line@),
{
    let run = longest_run(line);
    if open > 0 {
        if run >= open {
            0
        } else {
            open
        }
    } else if run >= 5 {
        run
    } else {
        0
    }
}

/// Keeps the lines that stay.
fn keep_lines(ls: &Vec<Vec<char>>) -> (r: Vec<Vec<char>>)
    ensures
        texts(r@) == kept(texts(ls@), ls.len() as int),
{
    let ghost all = texts(ls@);
    let mut out: Vec<Vec<char>> = Vec::new();
    let mut open: usize = 0;
    let mut i: usize = 0;
    assert(texts(out@) =~= Seq::empty());
    while i < ls.len()
        invariant
            i <= ls.len(),
            all == texts(ls@),
            open == open_at(all, i as int),
            texts(out@) == kept(all, i as int),
        decreases ls.len() - i,
    {
        let line = ls[i].as_slice();
        let stay = open > 0 || longest_run(line) >= 5 || is_blank(line) || is_header_line(trim(line))
            || holds_tag(line);
        open = next_block(open, line);
        assert(stay == stays(all, i as int));
        if stay {
            let ghost before = texts(out@);
            out.push(copied(line));
            assert(texts(out@) =~= before.push(all[i as int]));
        }
        i += 1;
    }
    out
}

/// Whether a line that is neither blank nor a date header comes before the next
/// date header, from the line `from` on.
fn content_follows(ls: &Vec<Vec<char>>, from: usize) -> (r: bool)
    requires
        from <= ls.len(),
    ensures
        r == has_content(texts(ls@), from as int),
{
    let mut i: usize = from;
    while i < ls.len()
        invariant
            i <= ls.len(),
            has_content(texts(ls@), from as int) == has_content(texts(ls@), i as int),
        decreases ls.len() - i,
    {
        let line = ls[i].as_slice();
        if !is_blank(line) {
            return !is_header_line(trim(line));
        }
        i += 1;
    }
    false
}

/// Takes out bare date headers and superfluous blank lines.
fn squeeze_lines(ls: &Vec<Vec<char>>) -> (r: Vec<Vec<char>>)
    ensures
        texts(r@) == squeezed(texts(ls@), ls.len() as int),
{
    let ghost all = texts(ls@);
    let mut out: Vec<Vec<char>> = Vec::new();
    let mut open: usize = 0;
    let mut i: usize = 0;
    assert(texts(out@) =~= Seq::empty());
    while i < ls.len()
        invariant
            i <= ls.len(),
            all == texts(ls@),
            open == open_at(all, i as int),
            texts(out@) == squeezed(all, i as int),
        decreases ls.len() - i,
    {
        let line = ls[i].as_slice();
        let ghost before = texts(out@);
        let keep = if open > 0 {
            true
        } else if is_blank(line) {
            out.len() > 0 && !is_blank(out[out.len() - 1].as_slice())
        } else {
            !(is_header_line(trim(line)) && !content_follows(ls, i + 1))
        };
        open = next_block(open, line);
        proof {
            if before.len() > 0 {
                assert(before.last() == out[out.len() - 1]@);
            }
        }
        if keep {
            out.push(copied(line));
            assert(texts(out@) =~= before.push(all[i as int]));
        }
        i += 1;
    }
    out
}

/// Drops blank lines at the end.
fn drop_blank_tail(out: &mut Vec<Vec<char>>)
    ensures
        texts(final(out)@) == without_blank_tail(texts(old(out)@)),
{
    let ghost start = texts(out@);
    while out.len() > 0 && ends_in_blank(out)
        invariant
            without_blank_tail(start) == without_blank_tail(texts(out@)),
        decreases out.len(),
    {
        let ghost before = texts(out@);
        out.pop();
        assert(texts(out@) =~= before.drop_last());
    }
    proof {
        if out.len() > 0 {
            assert(texts(out@).last() == out[out.len() - 1]@);
        }
    }
}

/// Whether the last line is blank and stands in no code block.
fn ends_in_blank(ls: &Vec<Vec<char>>) -> (r: bool)
    requires
        ls.len() > 0,
    ensures
        r == (blank(texts(ls@).last()) && open_at(texts(ls@), ls.len() - 1) == 0),
{
    let ghost all = texts(ls@);
    assert(all.last() == ls[ls.len() - 1]@);
    if !is_blank(ls[ls.len() - 1].as_slice()) {
        return false;
    }
    let mut open: usize = 0;
    let mut i: usize = 0;
    while i < ls.len() - 1
        invariant
            0 < ls.len(),
            i <= ls.len() - 1,
            all == texts(ls@),
            open == open_at(all, i as int),
        decreases ls.len() - i,
    {
        open = next_block(open, ls[i].as_slice());
        i += 1;
    }
    open == 0
}

/// What a file with this content is to hold once it is cleaned up, where some line
/// of it is taken out.
pub fn cleanup_chars(content: &[char]) -> (r: Option<Vec<char>>)
    ensures
        match r {
            Some(new) => new@ == cleaned_text(content@) && cleaned(lines(content@)).len() < lines(
                content@,
            ).len(),
            None => cleaned(lines(content@)).len() == lines(content@).len(),
        },
{
    let ls = split_lines(content);
    let f = keep_lines(&ls);
    assert(texts(ls@).len() == ls.len());
    let mut out = squeeze_lines(&f);
    assert(texts(f@).len() == f.len());
    drop_blank_tail(&mut out);
    assert(texts(out@) == cleaned(lines(content@)));
    assert(texts(out@).len() == out.len());
    proof {
        lemma_cleaned_len(lines(content@));
    }
    if out.len() < ls.len() {
        Some(close_text(&out))
    } else {
        None
    }
}

/// What a file with this content is to hold once it is cleaned up, where some line
/// of it is taken out.
///
/// Lines of messages without a tag go, and so do date headers with nothing under
/// them; of several blank lines in a row one is left. Lines in code blocks stand as
/// they are.
pub fn cleanup_tagless_messages(content: &str) -> (r: Option<String>)
    ensures
        match r {
            Some(new) => new@ == cleaned_text(content@) && cleaned(lines(content@)).len() < lines(
                content@,
            ).len(),
            None => cleaned(lines(content@)).len() == lines(content@).len(),
        },
{
    match cleanup_chars(to_chars(content).as_slice()) {
        Some(out) => Some(from_chars(out.as_slice())),
        None => None,
    }
}

// ---------------------------------------------------------------------------
// Laws
// ---------------------------------------------------------------------------

/// A line without backticks has no run of them.
pub proof fn lemma_no_run(line: Seq<char>)
    requires
        lacks(line, '`'),
    ensures
        longest_backticks(line) == 0,
    decreases line.len(),
{
    if line.len() > 0 {
        let front = line.drop_last();
        assert forall|i: int| 0 <= i < front.len() implies #[trigger] front[i] != '`' by {
            assert(front[i] == line[i]);
        }
        lemma_no_run(front);
        assert(line[line.len() - 1] != '`');
    }
}

/// A blank line holds no tags and no backticks.
pub proof fn lemma_blank_line(line: Seq<char>)
    requires
        blank(line),
    ensures
        tag_ids(line) == Seq::<int>::empty(),
        !has_tag(line),
        longest_backticks(line) == 0,
{
    assert forall|i: int| 0 <= i < line.len() implies #[trigger] line[i] != '<' && line[i]
        != '`' by {
        lemma_trimmed_chars(line, i);
    }
    lemma_no_tags(line);
    lemma_no_run(line);
}

/// A date header holds no tags and no backticks.
pub proof fn lemma_header_no_fence(line: Seq<char>)
    requires
        header_line(trimmed(line)),
    ensures
        longest_backticks(line) == 0,
{
    let s = trimmed(line);
    let w = day_width(s);
    assert forall|j: int| 0 <= j < s.len() implies #[trigger] s[j] != '`' by {
        if 3 <= j < 6 {
            assert(ascii_letter(s[j]));
        } else if 7 <= j < 7 + w {
            assert(digit(s[j]));
        } else if 9 + w <= j {
            assert(digit(s[j]));
        }
    }
    assert forall|i: int| 0 <= i < line.len() implies #[trigger] line[i] != '`' by {
        lemma_trimmed_chars(line, i);
        if !whitespace(line[i]) {
            let j = choose|j: int| 0 <= j < s.len() && s[j] == line[i];
            assert(s[j] != '`');
        }
    }
    lemma_no_run(line);
}

proof fn lemma_kept_ids(ls: Seq<Seq<char>>, i: int)
    requires
        0 <= i <= ls.len(),
    ensures
        ids_of_lines(kept(ls, i)) == ids_of_lines(ls.take(i)),
    decreases i,
{
    if i > 0 {
        lemma_kept_ids(ls, i - 1);
        assert(ls.take(i).drop_last() =~= ls.take(i - 1));
        if stays(ls, i - 1) {
            assert(kept(ls, i).drop_last() =~= kept(ls, i - 1));
        } else {
            lemma_untagged(ls[i - 1]);
            assert(ids_of_lines(ls.take(i - 1)) + Seq::<int>::empty() =~= ids_of_lines(
                ls.take(i - 1),
            ));
        }
    } else {
        assert(ls.take(0) =~= Seq::empty());
    }
}

proof fn lemma_squeezed_ids(ls: Seq<Seq<char>>, i: int)
    requires
        0 <= i <= ls.len(),
    ensures
        ids_of_lines(squeezed(ls, i)) == ids_of_lines(ls.take(i)),
    decreases i,
{
    if i > 0 {
        lemma_squeezed_ids(ls, i - 1);
        let before = squeezed(ls, i - 1);
        let line = ls[i - 1];
        assert(ls.take(i).drop_last() =~= ls.take(i - 1));
        assert(before.push(line).drop_last() =~= before);
        assert(ids_of_lines(before) + Seq::<int>::empty() =~= ids_of_lines(before));
        if open_at(ls, i - 1) == 0 {
            if blank(line) {
                lemma_blank_line(line);
            } else if bare_header(ls, i - 1) {
                lemma_header_no_tags(line);
            }
        }
    } else {
        assert(ls.take(0) =~= Seq::empty());
    }
}

proof fn lemma_blank_tail_ids(ls: Seq<Seq<char>>)
    ensures
        ids_of_lines(without_blank_tail(ls)) == ids_of_lines(ls),
    decreases ls.len(),
{
    if ls.len() > 0 && blank(ls.last()) && open_at(ls, ls.len() - 1) == 0 {
        lemma_blank_tail_ids(ls.drop_last());
        lemma_blank_line(ls.last());
        assert(ids_of_lines(ls.drop_last()) + Seq::<int>::empty() =~= ids_of_lines(ls.drop_last()));
    }
}

/// Cleaning up leaves all tags in place: the text has the same ids in the same order.
pub proof fn law_cleanup_keeps_tags(content: Seq<char>)
    ensures
        tag_ids(cleaned_up(content)) == tag_ids(content),
{
    let ls = lines(content);
    let f = kept(ls, ls.len() as int);
    lemma_tag_ids_of_lines(content);
    lemma_closed_text_ids(cleaned(ls));
    lemma_kept_ids(ls, ls.len() as int);
    lemma_squeezed_ids(f, f.len() as int);
    lemma_blank_tail_ids(squeezed(f, f.len() as int));
    assert(ls.take(ls.len() as int) =~= ls);
    assert(f.take(f.len() as int) =~= f);
}

/// Whether a code block is open at a line depends on the lines above it.
pub proof fn lemma_open_prefix(a: Seq<Seq<char>>, b: Seq<Seq<char>>, i: int)
    requires
        0 <= i <= a.len(),
        i <= b.len(),
        forall|j: int| 0 <= j < i ==> a[j] == b[j],
    ensures
        open_at(a, i) == open_at(b, i),
    decreases i,
{
    if i > 0 {
        lemma_open_prefix(a, b, i - 1);
    }
}

/// Adding a line that stays keeps all lines staying.
proof fn lemma_stays_push(a: Seq<Seq<char>>, line: Seq<char>)
    requires
        forall|j: int| 0 <= j < a.len() ==> #[trigger] stays(a, j),
        open_at(a, a.len() as int) > 0 || stays_outside(line),
    ensures
        forall|j: int| 0 <= j < a.push(line).len() ==> #[trigger] stays(a.push(line), j),
        open_at(a.push(line), (a.len() + 1) as int) == block_after(
            open_at(a, a.len() as int),
            line,
        ),
{
    let b = a.push(line);
    lemma_open_prefix(a, b, a.len() as int);
    assert forall|j: int| 0 <= j < b.len() implies #[trigger] stays(b, j) by {
        lemma_open_prefix(a, b, j);
        if j < a.len() {
            assert(stays(a, j));
        }
    }
}

/// All lines that were kept stay, and the code blocks are open as they were.
pub proof fn lemma_kept_stays(ls: Seq<Seq<char>>, i: int)
    requires
        0 <= i <= ls.len(),
    ensures
        forall|j: int| 0 <= j < kept(ls, i).len() ==> #[trigger] stays(kept(ls, i), j),
        open_at(kept(ls, i), kept(ls, i).len() as int) == open_at(ls, i),
    decreases i,
{
    if i > 0 {
        lemma_kept_stays(ls, i - 1);
        lemma_open_nonneg(ls, i - 1);
        if stays(ls, i - 1) {
            lemma_stays_push(kept(ls, i - 1), ls[i - 1]);
        }
    }
}

/// No run of backticks closes less than nothing.
pub proof fn lemma_open_nonneg(ls: Seq<Seq<char>>, i: int)
    ensures
        open_at(ls, i) == 0 || open_at(ls, i) >= 5,
    decreases i,
{
    if i > 0 {
        lemma_open_nonneg(ls, i - 1);
    }
}

/// Squeezing leaves lines that stay, and the code blocks open as they were.
pub proof fn lemma_squeezed_stays(ls: Seq<Seq<char>>, i: int)
    requires
        0 <= i <= ls.len(),
        forall|j: int| 0 <= j < ls.len() ==> #[trigger] stays(ls, j),
    ensures
        forall|j: int| 0 <= j < squeezed(ls, i).len() ==> #[trigger] stays(squeezed(ls, i), j),
        open_at(squeezed(ls, i), squeezed(ls, i).len() as int) == open_at(ls, i),
    decreases i,
{
    if i > 0 {
        lemma_squeezed_stays(ls, i - 1);
        lemma_open_nonneg(ls, i - 1);
        let line = ls[i - 1];
        assert(stays(ls, i - 1));
        lemma_stays_push(squeezed(ls, i - 1), line);
        if blank(line) {
            lemma_blank_line(line);
        } else if bare_header(ls, i - 1) {
            lemma_header_no_fence(line);
        }
    }
}

/// What was squeezed first is the start of what is squeezed in all.
pub proof fn lemma_squeezed_prefix(ls: Seq<Seq<char>>, i: int, n: int)
    requires
        0 <= i <= n <= ls.len(),
    ensures
        squeezed(ls, i).len() <= squeezed(ls, n).len(),
        squeezed(ls, i) == squeezed(ls, n).take(squeezed(ls, i).len() as int),
    decreases n - i,
{
    if i < n {
        lemma_squeezed_prefix(ls, i, n - 1);
        assert(squeezed(ls, n).take(squeezed(ls, i).len() as int) =~= squeezed(ls, n - 1).take(
            squeezed(ls, i).len() as int,
        ));
    } else {
        assert(squeezed(ls, n).take(squeezed(ls, n).len() as int) =~= squeezed(ls, n));
    }
}

/// Each squeezed line is a line that is no bare header, in the same code block.
proof fn lemma_squeezed_from(ls: Seq<Seq<char>>, n: int, i: int) -> (p: int)
    requires
        0 <= n <= ls.len(),
        0 <= i < squeezed(ls, n).len(),
    ensures
        0 <= p < n,
        squeezed(ls, p).len() == i,
        squeezed(ls, p + 1).len() == i + 1,
        squeezed(ls, n)[i] == ls[p],
        blank(ls[p]) || !bare_header(ls, p),
        open_at(ls, p) == 0 && blank(ls[p]) ==> i > 0 && !blank(squeezed(ls, n)[i - 1]),
    decreases n,
{
    lemma_open_nonneg(ls, n - 1);
    if i < squeezed(ls, n - 1).len() {
        let p = lemma_squeezed_from(ls, n - 1, i);
        assert(squeezed(ls, n)[i] == squeezed(ls, n - 1)[i]);
        if i > 0 {
            assert(squeezed(ls, n)[i - 1] == squeezed(ls, n - 1)[i - 1]);
        }
        p
    } else {
        n - 1
    }
}

/// Where there is content in the lines, there is content in the squeezed lines.
proof fn lemma_squeezed_content(ls: Seq<Seq<char>>, p: int)
    requires
        0 <= p <= ls.len(),
        open_at(ls, p) == 0,
        has_content(ls, p),
    ensures
        has_content(squeezed(ls, ls.len() as int), squeezed(ls, p).len() as int),
    decreases ls.len() - p,
{
    let g = squeezed(ls, ls.len() as int);
    lemma_squeezed_prefix(ls, p + 1, ls.len() as int);
    if squeezed(ls, p + 1).len() > squeezed(ls, p).len() {
        assert(g[squeezed(ls, p).len() as int] == squeezed(ls, p + 1).last());
    }
    if blank(ls[p]) {
        lemma_blank_line(ls[p]);
        lemma_squeezed_content(ls, p + 1);
    }
}

/// Content is not lost with blank lines at the end.
proof fn lemma_tail_content(ls: Seq<Seq<char>>, i: int)
    requires
        0 <= i <= ls.len(),
        has_content(ls, i),
    ensures
        has_content(without_blank_tail(ls), i),
    decreases ls.len(),
{
    if ls.len() > 0 && blank(ls.last()) && open_at(ls, ls.len() - 1) == 0 {
        let front = ls.drop_last();
        lemma_content_front(ls, i);
        lemma_tail_content(front, i);
    }
}

proof fn lemma_content_front(ls: Seq<Seq<char>>, i: int)
    requires
        0 <= i <= ls.len(),
        ls.len() > 0,
        blank(ls.last()),
        has_content(ls, i),
    ensures
        i <= ls.len() - 1,
        has_content(ls.drop_last(), i),
    decreases ls.len() - i,
{
    if i == ls.len() - 1 {
        assert(!has_content(ls, i + 1));
    } else if blank(ls[i]) {
        lemma_content_front(ls, i + 1);
    }
}

proof fn lemma_blank_tail(ls: Seq<Seq<char>>)
    ensures
        without_blank_tail(ls).len() <= ls.len(),
        without_blank_tail(ls) == ls.take(without_blank_tail(ls).len() as int),
        without_blank_tail(without_blank_tail(ls)) == without_blank_tail(ls),
    decreases ls.len(),
{
    if ls.len() > 0 && blank(ls.last()) && open_at(ls, ls.len() - 1) == 0 {
        lemma_blank_tail(ls.drop_last());
        let n = without_blank_tail(ls).len() as int;
        assert(ls.drop_last().take(n) =~= ls.take(n));
    } else {
        assert(ls.take(ls.len() as int) =~= ls);
    }
}

proof fn lemma_all_kept(ls: Seq<Seq<char>>, i: int)
    requires
        0 <= i <= ls.len(),
        forall|j: int| 0 <= j < ls.len() ==> #[trigger] stays(ls, j),
    ensures
        kept(ls, i) == ls.take(i),
    decreases i,
{
    if i > 0 {
        lemma_all_kept(ls, i - 1);
        assert(stays(ls, i - 1));
        assert(ls.take(i) =~= ls.take(i - 1).push(ls[i - 1]));
    } else {
        assert(ls.take(0) =~= Seq::empty());
    }
}

/// The line neither is a bare date header nor a superfluous blank line.
pub open spec fn is_tight(ls: Seq<Seq<char>>, i: int) -> bool {
    open_at(ls, i) > 0 || (if blank(ls[i]) {
        i > 0 && !blank(ls[i - 1])
    } else {
        !bare_header(ls, i)
    })
}

proof fn lemma_all_squeezed(ls: Seq<Seq<char>>, i: int)
    requires
        0 <= i <= ls.len(),
        forall|j: int| 0 <= j < ls.len() ==> #[trigger] is_tight(ls, j),
    ensures
        squeezed(ls, i) == ls.take(i),
    decreases i,
{
    if i > 0 {
        lemma_all_squeezed(ls, i - 1);
        assert(is_tight(ls, i - 1));
        assert(ls.take(i) =~= ls.take(i - 1).push(ls[i - 1]));
        if i > 1 {
            assert(ls.take(i - 1).last() == ls[i - 2]);
        }
    } else {
        assert(ls.take(0) =~= Seq::empty());
    }
}

/// Nothing is taken out of such lines: all of them stay, none is superfluous, and none
/// at the end is blank.
pub open spec fn is_clean(ls: Seq<Seq<char>>) -> bool {
    &&& forall|j: int| 0 <= j < ls.len() ==> #[trigger] stays(ls, j)
    &&& forall|j: int| 0 <= j < ls.len() ==> #[trigger] is_tight(ls, j)
    &&& ls.len() > 0 ==> !blank(ls.last()) || open_at(ls, ls.len() - 1) > 0
}

pub proof fn lemma_clean_stays(ls: Seq<Seq<char>>)
    requires
        is_clean(ls),
    ensures
        cleaned(ls) == ls,
{
    lemma_all_kept(ls, ls.len() as int);
    assert(ls.take(ls.len() as int) =~= ls);
    lemma_all_squeezed(ls, ls.len() as int);
}

pub proof fn lemma_cleaned_is_clean(ls: Seq<Seq<char>>)
    ensures
        is_clean(cleaned(ls)),
{
    let f = kept(ls, ls.len() as int);
    let n = f.len() as int;
    let g = squeezed(f, n);
    let c = cleaned(ls);
    lemma_kept_stays(ls, ls.len() as int);
    lemma_squeezed_stays(f, n);
    lemma_blank_tail(g);
    assert forall|j: int| 0 <= j < c.len() implies #[trigger] stays(c, j) by {
        lemma_open_prefix(c, g, j);
        assert(stays(g, j));
        assert(c[j] == g[j]);
    }
    assert forall|i: int| 0 <= i < c.len() implies #[trigger] is_tight(c, i) by {
        lemma_open_prefix(c, g, i);
        lemma_open_nonneg(c, i);
        assert(c[i] == g[i]);
        let p = lemma_squeezed_from(f, n, i);
        lemma_squeezed_stays(f, p);
        lemma_squeezed_prefix(f, p, n);
        lemma_open_prefix(squeezed(f, p), g, i);
        if i > 0 {
            assert(c[i - 1] == g[i - 1]);
        }
        if open_at(c, i) == 0 && !blank(c[i]) && header_line(trimmed(c[i])) {
            lemma_header_no_fence(f[p]);
            lemma_squeezed_content(f, p + 1);
            lemma_tail_content(g, i + 1);
        }
    }
    if c.len() > 0 && blank(c.last()) {
        lemma_open_nonneg(c, c.len() - 1);
        if open_at(c, c.len() - 1) == 0 {
            assert(without_blank_tail(c) == without_blank_tail(c.drop_last()));
            lemma_blank_tail(c.drop_last());
            assert(false);
        }
    }
}

/// Cleaning up the lines of a file once more takes out nothing.
pub proof fn law_cleaned_lines_settle(ls: Seq<Seq<char>>)
    ensures
        cleaned(cleaned(ls)) == cleaned(ls),
{
    lemma_cleaned_is_clean(ls);
    lemma_clean_stays(cleaned(ls));
}

/// A carriage return at the end of a line makes no difference.
proof fn lemma_chomped_line(line: Seq<char>)
    ensures
        longest_backticks(chomped(line)) == longest_backticks(line),
        trimmed(chomped(line)) == trimmed(line),
        has_tag(chomped(line)) == has_tag(line),
{
    if line.len() > 0 && line.last() == '\r' {
        let t = line.drop_last();
        assert(line =~= t.push('\r'));
        lemma_trimmed_push(t, '\r');
        reveal_strlit("<!-- msg:");
        lemma_has_tag_last(t, '\r');
        lemma_longest_nonneg(t);
    }
}

proof fn lemma_longest_nonneg(s: Seq<char>)
    ensures
        longest_backticks(s) >= 0,
    decreases s.len(),
{
    if s.len() > 0 {
        lemma_longest_nonneg(s.drop_last());
    }
}

proof fn lemma_chomped_open(ls: Seq<Seq<char>>, i: int)
    requires
        0 <= i <= ls.len(),
    ensures
        open_at(all_chomped(ls), i) == open_at(ls, i),
    decreases i,
{
    if i > 0 {
        lemma_chomped_open(ls, i - 1);
        lemma_chomped_line(ls[i - 1]);
    }
}

proof fn lemma_chomped_content(ls: Seq<Seq<char>>, i: int)
    requires
        0 <= i <= ls.len(),
    ensures
        has_content(all_chomped(ls), i) == has_content(ls, i),
    decreases ls.len() - i,
{
    if i < ls.len() {
        lemma_chomped_line(ls[i]);
        lemma_chomped_content(ls, i + 1);
    }
}

/// Nothing is taken out of clean lines for want of carriage returns.
proof fn lemma_chomped_clean(ls: Seq<Seq<char>>)
    requires
        is_clean(ls),
    ensures
        is_clean(all_chomped(ls)),
{
    let d = all_chomped(ls);
    assert forall|j: int| 0 <= j < d.len() implies #[trigger] stays(d, j) by {
        lemma_chomped_open(ls, j);
        lemma_chomped_line(ls[j]);
        assert(stays(ls, j));
    }
    assert forall|j: int| 0 <= j < d.len() implies #[trigger] is_tight(d, j) by {
        lemma_chomped_open(ls, j);
        lemma_chomped_line(ls[j]);
        lemma_chomped_content(ls, j + 1);
        if j > 0 {
            lemma_chomped_line(ls[j - 1]);
        }
        assert(is_tight(ls, j));
    }
    if d.len() > 0 {
        lemma_chomped_open(ls, d.len() - 1);
        lemma_chomped_line(ls.last());
    }
}

/// Cleaning up a file once more changes nothing.
pub proof fn law_cleanup_settles(content: Seq<char>)
    ensures
        cleaned_up(cleaned_up(content)) == cleaned_up(content),
{
    let ls = lines(content);
    let c = cleaned(ls);
    lemma_cleaned_is_clean(ls);
    assert forall|i: int| 0 <= i < c.len() implies lacks(#[trigger] c[i], '\n') by {
        lemma_cleaned_from(ls, i);
        let k = choose|k: int| 0 <= k < ls.len() && ls[k] == c[i];
        lemma_lines_are_lines(content, k);
    }
    if c.len() == 1 && c[0].len() == 0 {
        assert(blank(c.last()));
        assert(open_at(c, 0) == 0);
    }
    lemma_closed_lines_chomped(c);
    lemma_chomped_clean(c);
    lemma_clean_stays(all_chomped(c));
}

/// No line is made by cleaning up.
proof fn lemma_cleaned_len(ls: Seq<Seq<char>>)
    ensures
        cleaned(ls).len() <= ls.len(),
{
    let f = kept(ls, ls.len() as int);
    lemma_kept_len(ls, ls.len() as int);
    lemma_squeezed_len(f, f.len() as int);
    lemma_blank_tail(squeezed(f, f.len() as int));
}

proof fn lemma_kept_len(ls: Seq<Seq<char>>, i: int)
    requires
        0 <= i,
    ensures
        kept(ls, i).len() <= i,
    decreases i,
{
    if i > 0 {
        lemma_kept_len(ls, i - 1);
    }
}

proof fn lemma_squeezed_len(ls: Seq<Seq<char>>, i: int)
    requires
        0 <= i,
    ensures
        squeezed(ls, i).len() <= i,
    decreases i,
{
    if i > 0 {
        lemma_squeezed_len(ls, i - 1);
    }
}

/// Each line of a cleaned file is one of its lines.
pub proof fn lemma_cleaned_from(ls: Seq<Seq<char>>, i: int)
    requires
        0 <= i < cleaned(ls).len(),
    ensures
        exists|k: int| 0 <= k < ls.len() && ls[k] == cleaned(ls)[i],
{
    let f = kept(ls, ls.len() as int);
    let g = squeezed(f, f.len() as int);
    lemma_blank_tail(g);
    let p = lemma_squeezed_from(f, f.len() as int, i);
    lemma_kept_from(ls, ls.len() as int, p);
}

pub proof fn lemma_kept_from(ls: Seq<Seq<char>>, n: int, i: int)
    requires
        0 <= n <= ls.len(),
        0 <= i < kept(ls, n).len(),
    ensures
        exists|k: int| 0 <= k < ls.len() && ls[k] == kept(ls, n)[i],
    decreases n,
{
    if i < kept(ls, n - 1).len() {
        lemma_kept_from(ls, n - 1, i);
        assert(kept(ls, n)[i] == kept(ls, n - 1)[i]);
    } else {
        assert(ls[n - 1] == kept(ls, n)[i]);
    }
}

} // verus!
