//! What tidying up leaves of a topic file.
use vstd::prelude::*;

use crate::calendar::{month_text, valid_date};
use crate::cleanup::{
    bare_header, cleaned, cleaned_up, has_content, is_tight, kept, lemma_clean_stays,
    lemma_cleaned_from, lemma_cleaned_is_clean, lemma_kept_from, lemma_open_nonneg,
    lemma_open_prefix, lemma_squeezed_prefix, open_at, squeezed, stays, without_blank_tail,
};
use crate::decimal::{all_digits, lemma_decimal_len, lemma_padded, padded, signed_value};
use crate::durable::{
    law_wrapped_lines, lemma_fence_around, lemma_message_lines, lemma_tag_line,
    lemma_tagged_is_no_header,
};
use crate::fetch::Fetched;
use crate::header::{
    DateHeader, backfilled, backfilled_lines, header_date, header_line, header_of, headers,
    law_month_names, undated_line,
};
use crate::merge::merged;
use crate::order::{
    Block, Part, block_lines, blocks, by_id, closed_text, closing_line, header_lines, inserted,
    law_by_id_sorts, lemma_by_id_from, lemma_none_unseen, ordered_lines, parts, pure_fence,
    reordered, section_lines, seen, sorted, under, without_empty_tail,
};
use crate::pulled::{after_pull, with_years};
use crate::reordering::{
    all_messages, as_parts, is_message, lemma_all_unseen, lemma_blocks_first, lemma_closing_is,
    lemma_header_first, lemma_last_block_line, lemma_message_first, lemma_parts_behind,
    lemma_parts_shift, lemma_under_earlier, lemma_under_from, put_under,
};
use crate::server::{fence_around, law_tag_reads_back, longest_backticks, message_tag, wrapped};
use crate::tag::{first_id, has_tag, lemma_digit_run, lemma_tag_of, opener, tag_starts};
use crate::text::{
    blank, entry_lines, joined, lacks, lemma_joined_lines, lemma_trimmed_same, lines, newline,
    starts, trimmed,
};
use crate::unicode::{alphabetic, ascii_digit, ascii_letter, digit};

verus! {

// ---------------------------------------------------------------------------
// Cleaning up
// ---------------------------------------------------------------------------

proof fn lemma_kept_tagged(ls: Seq<Seq<char>>, i: int)
    requires
        0 <= i <= ls.len(),
    ensures
        kept(ls, i).filter(|line: Seq<char>| has_tag(line)) == ls.take(i).filter(
            |line: Seq<char>| has_tag(line),
        ),
    decreases i,
{
    reveal(Seq::filter);
    if i > 0 {
        lemma_kept_tagged(ls, i - 1);
        assert(ls.take(i).drop_last() =~= ls.take(i - 1));
        assert(ls.take(i).last() == ls[i - 1]);
        let before = kept(ls, i - 1);
        if stays(ls, i - 1) {
            assert(before.push(ls[i - 1]).drop_last() =~= before);
        }
    } else {
        assert(ls.take(0) =~= Seq::empty());
    }
}

proof fn lemma_squeezed_tagged(ls: Seq<Seq<char>>, i: int)
    requires
        0 <= i <= ls.len(),
    ensures
        squeezed(ls, i).filter(|line: Seq<char>| has_tag(line)) == ls.take(i).filter(
            |line: Seq<char>| has_tag(line),
        ),
    decreases i,
{
    reveal(Seq::filter);
    if i > 0 {
        lemma_squeezed_tagged(ls, i - 1);
        assert(ls.take(i).drop_last() =~= ls.take(i - 1));
        assert(ls.take(i).last() == ls[i - 1]);
        let before = squeezed(ls, i - 1);
        let line = ls[i - 1];
        if has_tag(line) {
            lemma_tagged_is_no_header(line);
        }
        assert(before.push(line).drop_last() =~= before);
    } else {
        assert(ls.take(0) =~= Seq::empty());
    }
}

proof fn lemma_tail_tagged(ls: Seq<Seq<char>>)
    ensures
        without_blank_tail(ls).filter(|line: Seq<char>| has_tag(line)) == ls.filter(
            |line: Seq<char>| has_tag(line),
        ),
    decreases ls.len(),
{
    reveal(Seq::filter);
    if ls.len() > 0 && blank(ls.last()) && open_at(ls, ls.len() - 1) == 0 {
        lemma_tail_tagged(ls.drop_last());
        if has_tag(ls.last()) {
            lemma_tagged_is_no_header(ls.last());
        }
    }
}

/// Cleaning up keeps every line with a tag, as it is and in its order.
pub proof fn law_tagged_lines_stay(ls: Seq<Seq<char>>)
    ensures
        cleaned(ls).filter(|line: Seq<char>| has_tag(line)) == ls.filter(
            |line: Seq<char>| has_tag(line),
        ),
{
    let f = kept(ls, ls.len() as int);
    lemma_kept_tagged(ls, ls.len() as int);
    lemma_squeezed_tagged(f, f.len() as int);
    lemma_tail_tagged(squeezed(f, f.len() as int));
    assert(ls.take(ls.len() as int) =~= ls);
    assert(f.take(f.len() as int) =~= f);
}

/// No line opens a code block: none has five backticks in a row.
pub open spec fn without_blocks(ls: Seq<Seq<char>>) -> bool {
    forall|i: int| 0 <= i < ls.len() ==> longest_backticks(#[trigger] ls[i]) < 5
}

proof fn lemma_none_open(ls: Seq<Seq<char>>, i: int)
    requires
        0 <= i <= ls.len(),
        without_blocks(ls),
    ensures
        open_at(ls, i) == 0,
    decreases i,
{
    if i > 0 {
        lemma_none_open(ls, i - 1);
        assert(longest_backticks(ls[i - 1]) < 5);
    }
}

/// What a clean-up leaves of a file without code blocks: lines that are blank, date
/// headers or tagged. None of the first, the last and two neighbouring lines are blank,
/// and a date header is followed by a tagged line, with at most a blank one between.
pub proof fn law_what_a_clean_file_holds(ls: Seq<Seq<char>>, i: int)
    requires
        without_blocks(ls),
        0 <= i < cleaned(ls).len(),
    ensures
        ({
            let c = cleaned(ls);
            &&& blank(c[i]) || header_line(trimmed(c[i])) || has_tag(c[i])
            &&& blank(c[i]) ==> 0 < i < c.len() - 1 && !blank(c[i - 1]) && !blank(c[i + 1])
            &&& header_line(trimmed(c[i])) ==> (i + 1 < c.len() && has_tag(c[i + 1])) || (i + 2
                < c.len() && blank(c[i + 1]) && has_tag(c[i + 2]))
        }),
{
    let c = cleaned(ls);
    lemma_cleaned_is_clean(ls);
    assert forall|j: int| 0 <= j < c.len() implies longest_backticks(#[trigger] c[j]) < 5 by {
        lemma_cleaned_from(ls, j);
        let k = choose|k: int| 0 <= k < ls.len() && ls[k] == c[j];
        assert(longest_backticks(ls[k]) < 5);
    }
    lemma_none_open(c, i);
    lemma_none_open(c, c.len() - 1);
    assert(stays(c, i));
    assert(is_tight(c, i));
    if i + 1 < c.len() {
        lemma_none_open(c, i + 1);
        assert(stays(c, i + 1));
        assert(is_tight(c, i + 1));
    }
    if i + 2 < c.len() {
        lemma_none_open(c, i + 2);
        assert(stays(c, i + 2));
        assert(is_tight(c, i + 2));
    }
    if header_line(trimmed(c[i])) {
        assert(!blank(c[i]));
        assert(has_content(c, i + 1));
        assert(i + 1 < c.len());
        if blank(c[i + 1]) {
            assert(has_content(c, i + 2));
            assert(i + 2 < c.len());
            assert(!blank(c[i + 2]));
        }
    }
}

/// A file without code blocks whose lines are all blank, date headers or tagged, and in
/// which no blank line comes first, last or behind another, and each date header has a
/// tagged line right below, or below one blank line, is left as it is.
pub proof fn law_clean_files_stay(ls: Seq<Seq<char>>)
    requires
        without_blocks(ls),
        forall|i: int|
            0 <= i < ls.len() ==> blank(#[trigger] ls[i]) || header_line(trimmed(ls[i])) || has_tag(
                ls[i],
            ),
        forall|i: int|
            0 <= i < ls.len() && blank(#[trigger] ls[i]) ==> 0 < i < ls.len() - 1 && !blank(
                ls[i - 1],
            ),
        forall|i: int|
            0 <= i < ls.len() && header_line(trimmed(#[trigger] ls[i])) ==> (i + 1 < ls.len()
                && has_tag(ls[i + 1])) || (i + 2 < ls.len() && blank(ls[i + 1]) && has_tag(
                ls[i + 2],
            )),
    ensures
        cleaned(ls) == ls,
{
    assert forall|j: int| 0 <= j < ls.len() implies #[trigger] stays(ls, j) by {
        assert(blank(ls[j]) || header_line(trimmed(ls[j])) || has_tag(ls[j]));
    }
    assert forall|j: int| 0 <= j < ls.len() implies #[trigger] is_tight(ls, j) by {
        lemma_none_open(ls, j);
        if header_line(trimmed(ls[j])) {
            if j + 1 < ls.len() && has_tag(ls[j + 1]) {
                lemma_tagged_is_no_header(ls[j + 1]);
            } else {
                lemma_tagged_is_no_header(ls[j + 2]);
                assert(has_content(ls, j + 2));
            }
            assert(has_content(ls, j + 1));
        }
    }
    if ls.len() > 0 {
        assert(blank(ls[ls.len() - 1]) ==> 0 < ls.len() - 1 < ls.len() - 1);
    }
    lemma_clean_stays(ls);
}

proof fn lemma_kept_prefix(ls: Seq<Seq<char>>, i: int, n: int)
    requires
        0 <= i <= n <= ls.len(),
    ensures
        kept(ls, i).len() <= kept(ls, n).len(),
        kept(ls, n).take(kept(ls, i).len() as int) == kept(ls, i),
    decreases n - i,
{
    if i < n {
        lemma_kept_prefix(ls, i, n - 1);
        let k = kept(ls, i).len() as int;
        assert(kept(ls, n).take(k) =~= kept(ls, n - 1).take(k));
    } else {
        assert(kept(ls, n).take(kept(ls, n).len() as int) =~= kept(ls, n));
    }
}

/// A date header with a tagged line right below it stays, and so does that line, in a
/// file without code blocks.
pub proof fn law_days_with_messages_stay(ls: Seq<Seq<char>>, i: int)
    requires
        without_blocks(ls),
        0 <= i < ls.len() - 1,
        header_line(trimmed(ls[i])),
        has_tag(ls[i + 1]),
    ensures
        cleaned(ls).contains(ls[i]),
        cleaned(ls).contains(ls[i + 1]),
{
    let n = ls.len() as int;
    let f = kept(ls, n);
    let k = kept(ls, i).len() as int;
    lemma_none_open(ls, i);
    lemma_none_open(ls, i + 1);
    assert(stays(ls, i) && stays(ls, i + 1));
    let two = kept(ls, i + 2);
    assert(kept(ls, i + 1) == kept(ls, i).push(ls[i]));
    assert(two == kept(ls, i + 1).push(ls[i + 1]));
    lemma_kept_prefix(ls, i + 2, n);
    assert(f[k] == f.take(two.len() as int)[k]);
    assert(f[k + 1] == f.take(two.len() as int)[k + 1]);
    lemma_tagged_is_no_header(ls[i + 1]);
    assert forall|j: int| 0 <= j < f.len() implies longest_backticks(#[trigger] f[j]) < 5 by {
        lemma_kept_from(ls, n, j);
        let x = choose|x: int| 0 <= x < ls.len() && ls[x] == f[j];
        assert(longest_backticks(ls[x]) < 5);
    }
    lemma_none_open(f, k);
    lemma_none_open(f, k + 1);
    assert(has_content(f, k + 1));
    let m = f.len() as int;
    let g = squeezed(f, m);
    assert(!blank(f[k]));
    lemma_squeezed_holds(f, k);
    lemma_squeezed_holds(f, k + 1);
    lemma_tail_holds(g, f[k]);
    lemma_tail_holds(g, f[k + 1]);
}

proof fn lemma_squeezed_holds(f: Seq<Seq<char>>, k: int)
    requires
        0 <= k < f.len(),
        !blank(f[k]),
        !bare_header(f, k),
    ensures
        squeezed(f, f.len() as int).contains(f[k]),
{
    let before = squeezed(f, k);
    let upto = squeezed(f, k + 1);
    assert(upto == before.push(f[k]));
    lemma_squeezed_prefix(f, k + 1, f.len() as int);
    let g = squeezed(f, f.len() as int);
    assert(g[before.len() as int] == upto[before.len() as int]);
}

proof fn lemma_tail_holds(g: Seq<Seq<char>>, line: Seq<char>)
    requires
        g.contains(line),
        !blank(line),
    ensures
        without_blank_tail(g).contains(line),
    decreases g.len(),
{
    if g.len() > 0 && blank(g.last()) && open_at(g, g.len() - 1) == 0 {
        let j = choose|j: int| 0 <= j < g.len() && g[j] == line;
        assert(g.drop_last()[j] == line);
        lemma_tail_holds(g.drop_last(), line);
    }
}

// ---------------------------------------------------------------------------
// Order
// ---------------------------------------------------------------------------

/// A line that is no date header, has no tag with an id and opens no code block belongs
/// to no message, and is left out when a file is put in order.
pub proof fn law_other_lines_are_left_out(x: Seq<char>, rest: Seq<Seq<char>>)
    requires
        !header_line(trimmed(x)),
        first_id(x) is None,
        longest_backticks(x) < 5,
    ensures
        parts(seq![x] + rest, 0) == parts(rest, 0),
        ordered_lines(parts(seq![x] + rest, 0)) == ordered_lines(parts(rest, 0)),
{
    assert((seq![x] + rest)[0] == x);
    lemma_parts_shift(seq![x], rest, 0);
}

/// A date header and a line with a tag are parts of their own.
pub proof fn law_headers_and_lines_are_parts(h: Seq<char>, x: Seq<char>, rest: Seq<Seq<char>>)
    requires
        header_line(trimmed(h)),
        first_id(x) is Some,
    ensures
        parts(seq![h] + rest, 0) == seq![Part::Header(h)] + parts(rest, 0),
        parts(seq![x] + rest, 0) == seq![Part::Message(first_id(x)->0, seq![x])] + parts(rest, 0),
        parts(Seq::empty(), 0) == Seq::<Part>::empty(),
{
    lemma_header_first(h, rest);
    if !has_tag(x) {
        lemma_no_first_id(x);
    }
    lemma_tagged_is_no_header(x);
    assert(seq![x].last() == x);
    lemma_message_first(first_id(x)->0, seq![x], rest);
}

proof fn lemma_no_first_id(x: Seq<char>)
    requires
        !has_tag(x),
    ensures
        first_id(x) is None,
    decreases x.len(),
{
    if x.len() > 0 {
        lemma_no_first_id(x.skip(1));
    }
}

/// Messages without date headers are put in the order of their ids.
pub proof fn law_messages_are_sorted(bs: Seq<Block>)
    requires
        all_messages(bs),
    ensures
        ordered_lines(parts(block_lines(bs), 0)) == block_lines(by_id(put_under(bs, 0))),
{
    let none = Seq::<Seq<char>>::empty();
    lemma_blocks_first(bs, none);
    assert(block_lines(bs) + none =~= block_lines(bs));
    assert(parts(none, 0) =~= Seq::empty());
    let q = as_parts(bs);
    assert(q + parts(none, 0) =~= q);
    let start = Seq::<Part>::empty();
    lemma_parts_behind(start, bs);
    assert(start + q =~= q);
    let all = put_under(bs, 0);
    assert(blocks(start) + all =~= all);
    let sorted_blocks = by_id(all);
    lemma_all_unseen(sorted_blocks, all);
    assert(section_lines(header_lines(q), all, 0) + block_lines(sorted_blocks)
        =~= block_lines(sorted_blocks));
    if bs.len() > 0 {
        lemma_sorted_messages(all, bs);
        law_by_id_sorts(all);
        assert(sorted_blocks.len() == all.len()) by {
            sorted_blocks.to_multiset_ensures();
            all.to_multiset_ensures();
        }
        lemma_last_block_line(sorted_blocks);
    } else {
        assert(all =~= Seq::empty());
        assert(block_lines(sorted_blocks) =~= none);
    }
}

proof fn lemma_sorted_messages(all: Seq<Block>, bs: Seq<Block>)
    requires
        all_messages(bs),
        all.len() == bs.len(),
        forall|i: int|
            0 <= i < bs.len() ==> (#[trigger] all[i]).id == bs[i].id && all[i].lines == bs[i].lines,
    ensures
        all_messages(by_id(all)),
{
    let s = by_id(all);
    assert forall|i: int| 0 <= i < s.len() implies is_message((#[trigger] s[i]).id, s[i].lines) by {
        lemma_by_id_from(all, i);
        let x = choose|x: int| 0 <= x < all.len() && all[x] == s[i];
        assert(all[x].id == bs[x].id);
        assert(is_message(bs[x].id, bs[x].lines));
    }
}

/// The messages of a day are put in the order of their ids, under the header of the day.
#[verifier::spinoff_prover]
#[verifier::rlimit(40)]
pub proof fn law_a_day_is_sorted(h: Seq<char>, bs: Seq<Block>)
    requires
        header_line(trimmed(h)),
        all_messages(bs),
        bs.len() > 0,
    ensures
        ordered_lines(parts(seq![h] + block_lines(bs), 0)) == seq![h] + block_lines(
            by_id(put_under(bs, 1)),
        ),
{
    let none = Seq::<Seq<char>>::empty();
    lemma_header_first(h, block_lines(bs));
    lemma_blocks_first(bs, none);
    assert(block_lines(bs) + none =~= block_lines(bs));
    assert(parts(none, 0) =~= Seq::empty());
    let start = seq![Part::Header(h)];
    let q = start + as_parts(bs);
    assert(start + (as_parts(bs) + parts(none, 0)) =~= q);
    assert(start.drop_last() =~= Seq::empty());
    assert(start.last() == Part::Header(h));
    assert(header_lines(start.drop_last()).len() == 0);
    assert(blocks(start.drop_last()).len() == 0);
    assert(header_lines(start) =~= seq![h]);
    lemma_parts_behind(start, bs);
    let all = put_under(bs, 1);
    assert(blocks(start) + all =~= all);
    let s = by_id(all);
    lemma_sorted_messages(all, bs);
    law_by_id_sorts(all);
    s.to_multiset_ensures();
    all.to_multiset_ensures();
    assert forall|i: int| 0 <= i < s.len() implies all.contains(#[trigger] s[i]) by {
        lemma_by_id_from(all, i);
        let x = choose|x: int| 0 <= x < all.len() && all[x] == s[i];
        assert(all[x] == s[i]);
    }
    lemma_under_all(s, all, 1);
    assert(under(s, all, 1) == s);
    let headers = seq![h];
    let e = seq![Seq::<char>::empty()];
    let sections = section_lines(headers, all, 1);
    assert(section_lines(headers, all, 0) =~= none);
    assert(sections =~= none.push(h) + block_lines(s) + e);
    assert forall|i: int| 0 <= i < s.len() implies seen(all, (#[trigger] s[i]).id, 1) by {
        lemma_by_id_from(all, i);
        let x = choose|x: int| 0 <= x < all.len() && all[x] == s[i];
        assert(all[x].section == 1);
    }
    lemma_none_unseen(s, all, 1);
    let x = seq![h] + block_lines(s);
    lemma_last_block_line(s);
    assert(sections + block_lines(Seq::<Block>::empty()) =~= x.push(Seq::empty()));
    assert(x.push(Seq::empty()).drop_last() =~= x);
    assert(x.last() == block_lines(s).last());
    assert(without_empty_tail(x.push(Seq::empty())) == without_empty_tail(x));
}

/// Blocks of the first header are all under it.
proof fn lemma_under_all(s: Seq<Block>, all: Seq<Block>, n: int)
    requires
        forall|i: int| 0 <= i < all.len() ==> (#[trigger] all[i]).section == 1,
        forall|i: int| 0 <= i < s.len() ==> all.contains(#[trigger] s[i]),
        n == 1,
    ensures
        under(s, all, n) == s,
    decreases s.len(),
{
    if s.len() > 0 {
        let front = s.drop_last();
        assert forall|i: int| 0 <= i < front.len() implies all.contains(#[trigger] front[i]) by {
            assert(front[i] == s[i]);
        }
        lemma_under_all(front, all, n);
        let last = s[s.len() - 1];
        assert(all.contains(last));
        let x = choose|x: int| 0 <= x < all.len() && all[x] == last;
        assert(all[x].section == 1);
        assert(front.push(last) =~= s);
    }
}

/// A block under this header is put among those under it.
proof fn lemma_under_inserted(bs: Seq<Block>, b: Block, all: Seq<Block>, k: int)
    requires
        sorted(bs),
        b.section == k,
        !seen(all, b.id, k - 1),
    ensures
        under(inserted(bs, b), all, k) == inserted(under(bs, all, k), b),
    decreases bs.len(),
{
    let u = under(bs, all, k);
    if bs.len() > 0 && bs.last().id > b.id {
        let front = bs.drop_last();
        assert(sorted(front)) by {
            assert forall|i: int, j: int| 0 <= i < j < front.len() implies (#[trigger] front[i]).id
                <= (#[trigger] front[j]).id by {
                assert(front[i] == bs[i] && front[j] == bs[j]);
            }
        }
        lemma_under_inserted(front, b, all, k);
        assert(inserted(bs, b).drop_last() =~= inserted(front, b));
        if bs.last().section == k && !seen(all, bs.last().id, k - 1) {
            assert(u.drop_last() =~= under(front, all, k));
        }
    } else {
        assert(inserted(bs, b).drop_last() =~= bs);
        if u.len() > 0 {
            lemma_under_from(bs, all, k);
            assert(bs.contains(u[u.len() - 1]));
            let x = choose|x: int| 0 <= x < bs.len() && bs[x] == u[u.len() - 1];
            assert(bs[x].id <= bs[bs.len() - 1].id);
        }
    }
}

/// The blocks of the last header are those under it, by their ids.
proof fn lemma_under_of_last(a: Seq<Block>, b: Seq<Block>, k: int, t: int)
    requires
        0 <= t <= b.len(),
        forall|i: int| 0 <= i < a.len() ==> (#[trigger] a[i]).section < k,
        forall|i: int|
            0 <= i < b.len() ==> (#[trigger] b[i]).section == k && !seen(a + b, b[i].id, k - 1),
    ensures
        under(by_id(a + b.take(t)), a + b, k) == by_id(b.take(t)),
    decreases t,
{
    if t == 0 {
        assert(a + b.take(0) =~= a);
        assert(b.take(0) =~= Seq::empty());
        let s = by_id(a);
        lemma_under_from(s, a + b, k);
        let u = under(s, a + b, k);
        if u.len() > 0 {
            assert(s.contains(u[0]));
            let j = choose|j: int| 0 <= j < s.len() && s[j] == u[0];
            lemma_by_id_from(a, j);
            let x = choose|x: int| 0 <= x < a.len() && a[x] == s[j];
            assert(a[x].section < k);
        }
        assert(u =~= by_id(b.take(0)));
    } else {
        lemma_under_of_last(a, b, k, t - 1);
        assert((a + b.take(t)).drop_last() =~= a + b.take(t - 1));
        assert((a + b.take(t)).last() == b[t - 1]);
        assert(b.take(t).drop_last() =~= b.take(t - 1));
        assert(b.take(t).last() == b[t - 1]);
        law_by_id_sorts(a + b.take(t - 1));
        assert(!seen(a + b, b[t - 1].id, k - 1));
        lemma_under_inserted(by_id(a + b.take(t - 1)), b[t - 1], a + b, k);
    }
}

/// Two days stay two days, in their order, each sorted by itself, with an empty line
/// between them.
#[verifier::spinoff_prover]
#[verifier::rlimit(40)]
pub proof fn law_days_are_sorted_apart(
    h1: Seq<char>,
    b1: Seq<Block>,
    h2: Seq<char>,
    b2: Seq<Block>,
)
    requires
        header_line(trimmed(h1)),
        header_line(trimmed(h2)),
        all_messages(b1),
        all_messages(b2),
        b1.len() > 0,
        b2.len() > 0,
        forall|i: int, j: int|
            0 <= i < b1.len() && 0 <= j < b2.len() ==> (#[trigger] b1[i]).id != (#[trigger] b2[j]).id,
    ensures
        ordered_lines(
            parts(seq![h1] + block_lines(b1) + (seq![h2] + block_lines(b2)), 0),
        ) == seq![h1] + block_lines(by_id(put_under(b1, 1))) + seq![Seq::<char>::empty()] + (seq![
            h2,
        ] + block_lines(by_id(put_under(b2, 2)))),
{
    let none = Seq::<Seq<char>>::empty();
    let rest = seq![h2] + block_lines(b2);
    let start = seq![Part::Header(h1)];
    let file = seq![h1] + block_lines(b1) + rest;
    assert(file =~= seq![h1] + (block_lines(b1) + rest));
    lemma_header_first(h1, block_lines(b1) + rest);
    lemma_blocks_first(b1, rest);
    lemma_header_first(h2, block_lines(b2));
    lemma_blocks_first(b2, none);
    assert(block_lines(b2) + none =~= block_lines(b2));
    assert(parts(none, 0) =~= Seq::empty());
    let day1 = start + as_parts(b1);
    let upto = day1.push(Part::Header(h2));
    let q = upto + as_parts(b2);
    assert(start + (as_parts(b1) + (seq![Part::Header(h2)] + (as_parts(b2) + parts(none, 0))))
        =~= q);
    assert(start.drop_last() =~= Seq::empty());
    assert(start.last() == Part::Header(h1));
    assert(header_lines(start.drop_last()).len() == 0);
    assert(blocks(start.drop_last()).len() == 0);
    assert(header_lines(start) =~= seq![h1]);
    lemma_parts_behind(start, b1);
    assert(upto.drop_last() =~= day1);
    assert(header_lines(upto) =~= seq![h1, h2]);
    lemma_parts_behind(upto, b2);
    let a = put_under(b1, 1);
    let b = put_under(b2, 2);
    let all = a + b;
    assert(blocks(start) + a =~= a);
    assert(blocks(q) =~= all);
    let headers = seq![h1, h2];
    let s = by_id(all);
    // The first day.
    lemma_under_earlier(a, b, 1, b.len() as int);
    assert(b.take(b.len() as int) =~= b);
    let s1 = by_id(a);
    law_by_id_sorts(a);
    s1.to_multiset_ensures();
    a.to_multiset_ensures();
    assert forall|i: int| 0 <= i < s1.len() implies a.contains(#[trigger] s1[i]) by {
        lemma_by_id_from(a, i);
        let x = choose|x: int| 0 <= x < a.len() && a[x] == s1[i];
        assert(a[x] == s1[i]);
    }
    lemma_under_all(s1, a, 1);
    // The second day.
    assert forall|i: int| 0 <= i < b.len() implies (#[trigger] b[i]).section == 2 && !seen(
        all,
        b[i].id,
        1,
    ) by {
        if seen(all, b[i].id, 1) {
            let j = choose|j: int|
                0 <= j < all.len() && 1 <= (#[trigger] all[j]).section <= 1 && all[j].id == b[i].id;
            if j < a.len() {
                assert(all[j] == a[j]);
                assert(b1[j].id != b2[i].id);
            } else {
                assert(all[j] == b[j - a.len()]);
            }
        }
    }
    lemma_under_of_last(a, b, 2, b.len() as int);
    let s2 = by_id(b);
    law_by_id_sorts(b);
    s2.to_multiset_ensures();
    b.to_multiset_ensures();
    assert(under(s, all, 1) == s1);
    assert(under(s, all, 2) == s2);
    let e = seq![Seq::<char>::empty()];
    assert(section_lines(headers, all, 0) =~= none);
    let one = section_lines(headers, all, 1);
    assert(one =~= seq![h1] + block_lines(s1) + e);
    let two = section_lines(headers, all, 2);
    assert(two =~= one.push(h2) + block_lines(s2) + e);
    assert forall|i: int| 0 <= i < s.len() implies seen(all, (#[trigger] s[i]).id, 2) by {
        lemma_by_id_from(all, i);
        let x = choose|x: int| 0 <= x < all.len() && all[x] == s[i];
        assert(1 <= all[x].section <= 2) by {
            if x < a.len() {
                assert(all[x] == a[x]);
            } else {
                assert(all[x] == b[x - a.len()]);
            }
        }
    }
    lemma_none_unseen(s, all, 2);
    lemma_sorted_messages(b, b2);
    lemma_last_block_line(s2);
    let x = one.push(h2) + block_lines(s2);
    assert(two + block_lines(Seq::<Block>::empty()) =~= x.push(Seq::empty()));
    assert(x.push(Seq::empty()).drop_last() =~= x);
    assert(x.last() == block_lines(s2).last());
    assert(without_empty_tail(x.push(Seq::empty())) == without_empty_tail(x));
    assert(x =~= seq![h1] + block_lines(s1) + e + (seq![h2] + block_lines(s2)));
}

// ---------------------------------------------------------------------------
// Texts and headers
// ---------------------------------------------------------------------------

/// Lines become a text by putting each on a line of its own.
pub proof fn law_lines_become_texts(ls: Seq<Seq<char>>)
    ensures
        ls.len() == 0 ==> closed_text(ls).len() == 0,
        ls.len() > 1 || (ls.len() == 1 && ls[0].len() > 0) ==> closed_text(ls) == entry_lines(ls),
        entry_lines(Seq::empty()) == Seq::<char>::empty(),
        forall|line: Seq<char>| #[trigger]
            entry_lines(ls.push(line)) == entry_lines(ls) + line + seq!['\n'],
{
    if ls.len() > 0 {
        lemma_joined_lines(ls);
        if joined(ls, newline()).len() == 0 && ls.len() > 1 {
            assert(joined(ls, newline()) == joined(ls.drop_last(), newline()) + newline()
                + ls.last());
        }
    }
    assert forall|line: Seq<char>| #[trigger] entry_lines(ls.push(line)) == entry_lines(ls) + line
        + seq!['\n'] by {
        assert(ls.push(line).drop_last() =~= ls);
    }
}

/// A file of which a clean-up takes no line is left to the last character. Of any other
/// the lines that are left become the file.
pub proof fn law_only_litter_is_cleaned(content: Seq<char>)
    ensures
        cleaned(lines(content)).len() == lines(content).len() ==> cleaned_up(content) == content,
        cleaned(lines(content)).len() < lines(content).len() ==> cleaned_up(content) == closed_text(
            cleaned(lines(content)),
        ),
{
}

/// A file in order is made of its ordered lines.
pub proof fn law_ordered_files(content: Seq<char>)
    ensures
        reordered(content) == closed_text(ordered_lines(parts(lines(content), 0))),
{
}

/// Date headers: two hashes, a space, three letters, a space, one digit or two, and
/// nothing more or a comma, a space and four digits.
#[verifier::spinoff_prover]
#[verifier::rlimit(40)]
pub proof fn law_what_headers_are(
    m: (char, char, char),
    d: (char, char),
    y: (char, char, char, char),
    s: Seq<char>,
)
    ensures
        ({
            let letters = ascii_letter(m.0) && ascii_letter(m.1) && ascii_letter(m.2);
            let year = digit(y.0) && digit(y.1) && digit(y.2) && digit(y.3);
            let head = seq!['#', '#', ' ', m.0, m.1, m.2, ' ', d.0];
            let tail = seq![',', ' ', y.0, y.1, y.2, y.3];
            &&& header_line(head) <==> letters && digit(d.0)
            &&& header_line(head.push(d.1)) <==> letters && digit(d.0) && digit(d.1)
            &&& header_line(head + tail) <==> letters && digit(d.0) && year
            &&& header_line(head.push(d.1) + tail) <==> letters && digit(d.0) && digit(d.1) && year
        }),
        header_line(s) ==> s[0] == '#' && s[1] == '#' && s[2] == ' ' && s[6] == ' ' && (s.len() == 8
            || s.len() == 9 || s.len() == 14 || s.len() == 15),
{
    let head = seq!['#', '#', ' ', m.0, m.1, m.2, ' ', d.0];
    let tail = seq![',', ' ', y.0, y.1, y.2, y.3];
    let a = head;
    let b = head.push(d.1);
    let c = head + tail;
    let e = b + tail;
    assert(a[3] == m.0 && a[4] == m.1 && a[5] == m.2 && a[7] == d.0);
    assert(b[3] == m.0 && b[4] == m.1 && b[5] == m.2 && b[7] == d.0 && b[8] == d.1);
    assert(c[3] == m.0 && c[4] == m.1 && c[5] == m.2 && c[7] == d.0);
    assert(c[8] == ',' && c[9] == ' ' && c[10] == y.0 && c[11] == y.1 && c[12] == y.2 && c[13]
        == y.3);
    assert(e[3] == m.0 && e[4] == m.1 && e[5] == m.2 && e[7] == d.0 && e[8] == d.1);
    assert(e[9] == ',' && e[10] == ' ' && e[11] == y.0 && e[12] == y.1 && e[13] == y.2 && e[14]
        == y.3);
}

/// A header without a year says its month and its day.
pub proof fn law_undated_headers(month: int, day: int)
    requires
        1 <= month <= 12,
        0 <= day <= 99,
    ensures
        ({
            let s = "## "@ + month_text(month) + " "@ + padded(day, 2);
            &&& header_of(s) == Some(
                DateHeader { month: month as i8, day: day as i8, year: None },
            )
            &&& undated_line(s)
        }),
{
    reveal_strlit("## ");
    reveal_strlit(" ");
    let name = month_text(month);
    let d = padded(day, 2);
    let s = "## "@ + name + " "@ + d;
    law_month_names(month);
    lemma_decimal_len(day);
    lemma_padded(day, 2);
    assert(s.len() == 9);
    assert(s.subrange(3, 6) =~= name);
    assert(s.subrange(7, 9) =~= d);
    assert forall|i: int| 3 <= i < 6 implies ascii_letter(#[trigger] s[i]) by {
        assert(s[i] == name[i - 3]);
    }
    assert forall|i: int| 7 <= i < 9 implies digit(#[trigger] s[i]) by {
        assert(s[i] == d[i - 7]);
        assert(ascii_digit(d[i - 7]));
    }
    assert(s[0] == '#' && s[1] == '#' && s[2] == ' ' && s[6] == ' ');
    assert(header_line(s));
    assert(digit(s[8]));
    lemma_trimmed_same(s);
    assert(ascii_digit(d[0]));
    assert(s.subrange(0, 3) =~= "## "@);
    assert(!s.contains(',')) by {
        if s.contains(',') {
            let i = choose|i: int| 0 <= i < s.len() && s[i] == ',';
            if 3 <= i < 6 {
                assert(ascii_letter(s[i]));
            } else if 7 <= i < 9 {
                assert(digit(s[i]));
            }
        }
    }
    assert forall|i: int| 3 <= i < 6 && i < s.len() implies alphabetic(#[trigger] s[i]) by {
        assert(ascii_letter(s[i]));
    }
}

/// The years are filled in of a file with any header that leaves its year out, and of no
/// other. A file without headers stays as it is.
pub proof fn law_years_are_filled_in(content: Seq<char>, current: int, l: int)
    ensures
        0 <= l < lines(content).len() && undated_line(lines(content)[l]) ==> with_years(
            content,
            current,
        ) == backfilled(content, current),
        (forall|k: int| 0 <= k < lines(content).len() ==> !undated_line(#[trigger] lines(content)[k]))
            ==> with_years(content, current) == content,
        headers(lines(content)).len() == 0 ==> backfilled(content, current) == content,
        headers(lines(content)).len() > 0 ==> backfilled(content, current) == joined(
            backfilled_lines(lines(content), current),
            seq!['\n'],
        ),
{
}

/// A pull leaves a file alone in which there is nothing to fill in, to merge and to clean
/// up. What it merges stands in the file, which is then cleaned up.
pub proof fn law_what_a_pull_does(content: Seq<char>, ms: Seq<Fetched>, current: int)
    ensures
        with_years(content, current) == content && cleaned_up(content) == content ==> after_pull(
            content,
            Seq::empty(),
            current,
        ) == content,
        ms.len() > 0 ==> after_pull(content, ms, current) == cleaned_up(
            merged(with_years(content, current), ms, current),
        ),
        ms.len() == 0 ==> after_pull(content, ms, current) == cleaned_up(
            with_years(content, current),
        ),
{
}

/// A message in a code block is one message of a file in order, with its fences and its
/// tag, whatever follows it.
#[verifier::spinoff_prover]
#[verifier::rlimit(40)]
pub proof fn law_code_blocks_are_messages(
    message: Seq<char>,
    id: int,
    second: int,
    sender: Option<Seq<char>>,
    rest: Seq<Seq<char>>,
)
    requires
        0 <= id <= i32::MAX,
        sender is Some ==> lacks(sender->0, '<') && lacks(sender->0, '\n'),
    ensures
        ({
            let tag = message_tag(id, second, sender, false, None);
            let b = lines(wrapped(message, Some(tag)) + seq!['\n']);
            parts(b + rest, 0) == seq![Part::Message(id, b)] + parts(rest, 0)
        }),
{
    let tag = message_tag(id, second, sender, false, None);
    let b = lines(wrapped(message, Some(tag)) + newline());
    lemma_tag_line(id, second, sender, None);
    law_tag_reads_back(id, second, sender, None);
    law_wrapped_lines(message, tag);
    let f = fence_around(message);
    let top = f + seq!['m', 'd'];
    let m = lines(message + newline());
    let n = f.len() as int;
    lemma_fence_around(message, seq!['m', 'd']);
    lemma_fence_around(message, Seq::empty());
    assert(f + Seq::<char>::empty() =~= f);
    let opened = seq![top] + m;
    assert(b == opened + seq![f] + seq![tag]);
    let e = m.len() as int + 1;
    assert(b.len() == e + 2);
    assert(b[0] == top);
    assert(b[e] == f);
    assert(b.last() == tag);
    assert forall|k: int| 1 <= k < e implies longest_backticks(#[trigger] b[k]) < n by {
        assert(b[k] == m[k - 1]);
        lemma_message_lines(message, k - 1);
    }
    lemma_closing_is(b, 1, n, e);
    assert(lacks(top, '<')) by {
        assert forall|i: int| 0 <= i < top.len() implies #[trigger] top[i] != '<' by {}
    }
    lemma_no_first_id_in(top);
    lemma_trimmed_same(f);
    assert(pure_fence(f));
    assert(trimmed(top).len() > 0);
    lemma_message_first(id, b, rest);
    assert(newline() == seq!['\n']);
}

proof fn lemma_no_first_id_in(x: Seq<char>)
    requires
        lacks(x, '<'),
    ensures
        first_id(x) is None,
    decreases x.len(),
{
    reveal_strlit("<!-- msg:");
    if x.len() > 0 {
        if tag_starts(x) {
            assert(x.subrange(0, 9)[0] == x[0]);
        }
        assert forall|i: int| 0 <= i < x.skip(1).len() implies #[trigger] x.skip(1)[i] != '<' by {
            assert(x.skip(1)[i] == x[i + 1]);
        }
        lemma_no_first_id_in(x.skip(1));
    }
}

/// Every date header without a year is taken for one that leaves it out.
pub proof fn law_short_headers_leave_out_the_year(line: Seq<char>)
    requires
        header_line(trimmed(line)),
        trimmed(line).len() < 14,
    ensures
        undated_line(line),
{
    reveal_strlit("## ");
    let s = trimmed(line);
    assert(s.subrange(0, 3) =~= "## "@);
    assert(!s.contains(',')) by {
        if s.contains(',') {
            let i = choose|i: int| 0 <= i < s.len() && s[i] == ',';
            if 3 <= i < 6 {
                assert(ascii_letter(s[i]));
            } else if 7 <= i < s.len() {
                assert(digit(s[i]));
            }
        }
    }
    assert forall|i: int| 3 <= i < 6 && i < s.len() implies alphabetic(#[trigger] s[i]) by {
        assert(ascii_letter(s[i]));
    }
}

/// A day without messages is left out when a file is put in order.
#[verifier::spinoff_prover]
#[verifier::rlimit(40)]
pub proof fn law_empty_days_are_left_out(h1: Seq<char>, h2: Seq<char>, bs: Seq<Block>)
    requires
        header_line(trimmed(h1)),
        header_line(trimmed(h2)),
        all_messages(bs),
        bs.len() > 0,
    ensures
        ordered_lines(parts(seq![h1] + (seq![h2] + block_lines(bs)), 0)) == seq![h2] + block_lines(
            by_id(put_under(bs, 2)),
        ),
{
    let none = Seq::<Seq<char>>::empty();
    let rest = seq![h2] + block_lines(bs);
    lemma_header_first(h1, rest);
    lemma_header_first(h2, block_lines(bs));
    lemma_blocks_first(bs, none);
    assert(block_lines(bs) + none =~= block_lines(bs));
    assert(parts(none, 0) =~= Seq::empty());
    let start = seq![Part::Header(h1), Part::Header(h2)];
    let q = start + as_parts(bs);
    assert(seq![Part::Header(h1)] + (seq![Part::Header(h2)] + (as_parts(bs) + parts(none, 0)))
        =~= q);
    let one = start.drop_last();
    assert(one =~= seq![Part::Header(h1)]);
    assert(start.last() == Part::Header(h2));
    assert(one.drop_last() =~= Seq::empty());
    assert(one.last() == Part::Header(h1));
    assert(header_lines(one.drop_last()).len() == 0);
    assert(blocks(one.drop_last()).len() == 0);
    assert(header_lines(one) =~= seq![h1]);
    assert(blocks(one).len() == 0);
    assert(header_lines(start) =~= seq![h1, h2]);
    assert(blocks(start).len() == 0);
    lemma_parts_behind(start, bs);
    let all = put_under(bs, 2);
    assert(blocks(start) + all =~= all);
    let s = by_id(all);
    lemma_sorted_messages(all, bs);
    law_by_id_sorts(all);
    s.to_multiset_ensures();
    all.to_multiset_ensures();
    let empty = Seq::<Block>::empty();
    assert(empty + all =~= all);
    assert(all.take(all.len() as int) =~= all);
    assert forall|i: int| 0 <= i < all.len() implies (#[trigger] all[i]).section == 2 && !seen(
        empty + all,
        all[i].id,
        1,
    ) by {
        if seen(all, all[i].id, 1) {
            let j = choose|j: int|
                0 <= j < all.len() && 1 <= (#[trigger] all[j]).section <= 1 && all[j].id
                    == all[i].id;
        }
    }
    lemma_under_of_last(empty, all, 2, all.len() as int);
    assert(under(s, all, 2) == s);
    lemma_under_from(s, all, 1);
    let u = under(s, all, 1);
    if u.len() > 0 {
        assert(s.contains(u[0]));
        let j = choose|j: int| 0 <= j < s.len() && s[j] == u[0];
        lemma_by_id_from(all, j);
        let x = choose|x: int| 0 <= x < all.len() && all[x] == s[j];
        assert(all[x].section == 2);
    }
    let headers = seq![h1, h2];
    let e = seq![Seq::<char>::empty()];
    assert(section_lines(headers, all, 0) =~= none);
    assert(section_lines(headers, all, 1) =~= none);
    let sections = section_lines(headers, all, 2);
    assert(sections =~= none.push(h2) + block_lines(s) + e);
    assert forall|i: int| 0 <= i < s.len() implies seen(all, (#[trigger] s[i]).id, 2) by {
        lemma_by_id_from(all, i);
        let x = choose|x: int| 0 <= x < all.len() && all[x] == s[i];
        assert(all[x].section == 2);
    }
    lemma_none_unseen(s, all, 2);
    let x = seq![h2] + block_lines(s);
    lemma_last_block_line(s);
    assert(sections + block_lines(Seq::<Block>::empty()) =~= x.push(Seq::empty()));
    assert(x.push(Seq::empty()).drop_last() =~= x);
    assert(x.last() == block_lines(s).last());
    assert(without_empty_tail(x.push(Seq::empty())) == without_empty_tail(x));
}

// ---------------------------------------------------------------------------
// Code blocks
// ---------------------------------------------------------------------------

/// A line with five backticks in a row or more opens a code block, and one with at least
/// as many as opened it closes it. Other lines leave it open, or closed.
pub proof fn law_code_blocks_open_and_close(ls: Seq<Seq<char>>, line: Seq<char>)
    ensures
        ({
            let n = ls.len() as int;
            let open = open_at(ls, n);
            let run = longest_backticks(line);
            let after = open_at(ls.push(line), n + 1);
            &&& open == 0 && run >= 5 ==> after == run
            &&& open == 0 && run < 5 ==> after == 0
            &&& open > 0 && run >= open ==> after == 0
            &&& open > 0 && run < open ==> after == open
        }),
        open_at(Seq::empty(), 0) == 0,
{
    lemma_open_prefix(ls, ls.push(line), ls.len() as int);
    lemma_open_nonneg(ls, ls.len() as int);
}

/// A code block is a message where the tag stands on the line that closes it, too. One
/// without a tag is left out, and what follows is read as if it were not there. One that
/// is not closed takes the rest of the file with it.
#[verifier::spinoff_prover]
#[verifier::rlimit(40)]
pub proof fn law_other_code_blocks(
    top: Seq<char>,
    m: Seq<Seq<char>>,
    x: Seq<char>,
    y: Seq<char>,
    rest: Seq<Seq<char>>,
)
    requires
        trimmed(top).len() > 0,
        !header_line(trimmed(top)),
        first_id(top) is None,
        longest_backticks(top) >= 5,
        forall|k: int|
            0 <= k < m.len() ==> longest_backticks(#[trigger] m[k]) < longest_backticks(top),
    ensures
        longest_backticks(x) >= longest_backticks(top) && !pure_fence(x) && first_id(x) is Some
            ==> parts(seq![top] + m + seq![x] + rest, 0) == seq![
            Part::Message(first_id(x)->0, seq![top] + m + seq![x]),
        ] + parts(rest, 0),
        longest_backticks(x) >= longest_backticks(top) && !pure_fence(x) && first_id(x) is None
            ==> parts(seq![top] + m + seq![x] + rest, 0) == parts(rest, 0),
        longest_backticks(x) >= longest_backticks(top) && pure_fence(x) && first_id(y) is None
            ==> parts(seq![top] + m + seq![x] + (seq![y] + rest), 0) == parts(seq![y] + rest, 0),
        parts(seq![top] + m, 0) == Seq::<Part>::empty(),
{
    let n = longest_backticks(top);
    let e = m.len() as int + 1;
    let b = seq![top] + m + seq![x];
    assert(b[0] == top);
    assert(b[e] == x);
    assert forall|k: int| 1 <= k < e implies longest_backticks(#[trigger] b[k]) < n by {
        assert(b[k] == m[k - 1]);
    }
    let all = b + rest;
    assert(all[0] == top);
    assert(all[e] == x);
    assert forall|k: int| 1 <= k < e implies longest_backticks(#[trigger] all[k]) < n by {
        assert(all[k] == b[k]);
    }
    if longest_backticks(x) >= n {
        lemma_closing_is(b, 1, n, e);
        lemma_closing_is(all, 1, n, e);
        lemma_parts_shift(b, rest, 0);
        if !pure_fence(x) && first_id(x) is Some {
            assert(b.last() == x);
            lemma_message_first(first_id(x)->0, b, rest);
        }
        let more = seq![y] + rest;
        let far = b + more;
        assert(far[0] == top);
        assert(far[e] == x);
        assert(far[e + 1] == y);
        assert forall|k: int| 1 <= k < e implies longest_backticks(#[trigger] far[k]) < n by {
            assert(far[k] == b[k]);
        }
        lemma_closing_is(far, 1, n, e);
        lemma_parts_shift(b, more, 0);
    }
    let open = seq![top] + m;
    assert(open[0] == top);
    assert forall|k: int| 1 <= k < open.len() implies longest_backticks(#[trigger] open[k]) < n by {
        assert(open[k] == m[k - 1]);
    }
    lemma_never_closed(open, 1, n);
}

proof fn lemma_never_closed(ls: Seq<Seq<char>>, i: int, n: int)
    requires
        0 <= i <= ls.len(),
        forall|k: int| i <= k < ls.len() ==> longest_backticks(#[trigger] ls[k]) < n,
    ensures
        closing_line(ls, i, n) == ls.len(),
    decreases ls.len() - i,
{
    if i < ls.len() {
        lemma_never_closed(ls, i + 1, n);
    }
}

/// The date of a header is the one it names, and there is such a date.
pub proof fn law_dates_of_headers(line: Seq<char>)
    ensures
        header_date(line) matches Some(d) ==> d.valid() && header_line(trimmed(line)) && (header_of(
            line,
        ) matches Some(h) && h.month == d.month && h.day == d.day && (h.year is Some ==> h.year
            == Some(d.year))),
        trimmed(line).len() < 14 ==> header_date(line) is None,
        header_of(line) is None ==> header_date(line) is None,
        header_of(line) matches Some(h) ==> h.year is Some && !valid_date(
            h.year->0 as int,
            h.month as int,
            h.day as int,
        ) ==> header_date(line) is None,
{
}

/// A line may leave out a year where it starts with two hashes and a space, goes on with
/// up to three letters, and has no comma.
pub proof fn law_what_may_leave_out_a_year(line: Seq<char>)
    ensures
        undated_line(line) <==> ({
            let s = trimmed(line);
            &&& s.len() > 3
            &&& s[0] == '#' && s[1] == '#' && s[2] == ' '
            &&& alphabetic(s[3])
            &&& s.len() > 4 ==> alphabetic(s[4])
            &&& s.len() > 5 ==> alphabetic(s[5])
            &&& lacks(s, ',')
        }),
{
    reveal_strlit("## ");
    let s = trimmed(line);
    if s.len() > 3 {
        if s[0] == '#' && s[1] == '#' && s[2] == ' ' {
            assert(s.subrange(0, 3) =~= "## "@);
        }
        if starts(s, "## "@) {
            assert(s.subrange(0, 3)[0] == s[0] && s.subrange(0, 3)[1] == s[1] && s.subrange(0, 3)[2]
                == s[2]);
        }
    }
    if !s.contains(',') {
        assert forall|i: int| 0 <= i < s.len() implies #[trigger] s[i] != ',' by {
            assert(s.contains(s[i]));
        }
    }
}

// ---------------------------------------------------------------------------
// Tags and texts
// ---------------------------------------------------------------------------

/// A text holds a tag where `<!-- msg:` and a digit stand in it.
pub proof fn law_what_opens_a_tag(s: Seq<char>)
    ensures
        has_tag(s) <==> exists|i: int|
            0 <= i <= s.len() - 10 && #[trigger] s.subrange(i, i + 9) == "<!-- msg:"@ && digit(
                s[i + 9],
            ),
    decreases s.len(),
{
    reveal_strlit("<!-- msg:");
    if s.len() > 0 {
        let t = s.skip(1);
        law_what_opens_a_tag(t);
        lemma_digit_run(s.skip(9));
        if tag_starts(s) {
            let at: int = 0;
            assert(s.subrange(at, at + 9) == "<!-- msg:"@);
            assert(s.skip(9)[0] == s[9]);
        } else if has_tag(t) {
            let i = choose|i: int|
                0 <= i <= t.len() - 10 && #[trigger] t.subrange(i, i + 9) == "<!-- msg:"@ && digit(
                    t[i + 9],
                );
            assert(s.subrange(i + 1, i + 1 + 9) =~= t.subrange(i, i + 9));
        }
        if exists|i: int|
            0 <= i <= s.len() - 10 && #[trigger] s.subrange(i, i + 9) == "<!-- msg:"@ && digit(
                s[i + 9],
            ) {
            let i = choose|i: int|
                0 <= i <= s.len() - 10 && #[trigger] s.subrange(i, i + 9) == "<!-- msg:"@ && digit(
                    s[i + 9],
                );
            if i == 0 {
                assert(s.skip(9)[0] == s[9]);
                assert(tag_starts(s));
            } else {
                assert(t.subrange(i - 1, i - 1 + 9) =~= s.subrange(i, i + 9));
                assert(t[i - 1 + 9] == s[i + 9]);
            }
        }
    }
}

/// The id of the first tag is what all its digits stand for.
pub proof fn law_first_ids(x: Seq<char>, digits: Seq<char>, rest: Seq<char>)
    requires
        !has_tag(x + "<!-- msg:"@),
        digits.len() > 0,
        all_digits(digits),
        rest.len() > 0 ==> !digit(rest[0]),
    ensures
        first_id(x + "<!-- msg:"@ + digits + rest) == signed_value(
            digits,
            i32::MIN as int,
            i32::MAX as int,
        ),
    decreases x.len(),
{
    reveal_strlit("<!-- msg:");
    let s = x + "<!-- msg:"@ + digits + rest;
    if x.len() == 0 {
        assert(s =~= opener() + digits + rest);
        lemma_tag_of(digits, rest);
    } else {
        let y = x.skip(1);
        let short = x + "<!-- msg:"@;
        assert(short.skip(1) =~= y + "<!-- msg:"@);
        law_first_ids(y, digits, rest);
        assert(s.skip(1) =~= y + "<!-- msg:"@ + digits + rest);
        if tag_starts(s) {
            lemma_digit_run(s.skip(9));
            assert(s.subrange(0, 9) == "<!-- msg:"@);
            assert(s.skip(9)[0] == s[9]);
            assert(short.subrange(0, 9) =~= s.subrange(0, 9)) by {
                assert(short.len() >= 10);
            }
            assert(short[9] == s[9]);
            law_what_opens_a_tag(short);
            let at: int = 0;
            assert(short.subrange(at, at + 9) == "<!-- msg:"@ && digit(short[at + 9]));
        }
    }
}

/// Parts are joined by putting a separator between each two.
pub proof fn law_joining(parts: Seq<Seq<char>>, part: Seq<char>, sep: Seq<char>)
    ensures
        joined(Seq::empty(), sep) == Seq::<char>::empty(),
        parts.len() == 0 ==> joined(parts.push(part), sep) == part,
        parts.len() > 0 ==> joined(parts.push(part), sep) == joined(parts, sep) + sep + part,
{
    assert(parts.push(part).drop_last() =~= parts);
}

} // verus!
