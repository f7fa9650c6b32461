//! Putting a file in order a second time changes nothing.
use vstd::prelude::*;

use crate::header::header_line;
use crate::order::{
    Block, Part, block_lines, blocks, by_id, closing_line, header_lines, inserted, law_by_id_sorts,
    lemma_by_id_from, lemma_closed_lines, lemma_closing_line, lemma_none_unseen, ordered_lines,
    parts, pure_fence, reordered, section_lines, seen, sorted, under, unseen, without_empty_tail,
};
use crate::server::longest_backticks;
use crate::tag::first_id;
use crate::text::{chomped, is_entry, lacks, lemma_lines_are_lines, lines, trimmed};

verus! {

// ---------------------------------------------------------------------------
// Messages by themselves
// ---------------------------------------------------------------------------

/// The lines are one message with that id: a line with its tag, or a code block
/// whose last line has the tag.
pub open spec fn is_message(id: int, b: Seq<Seq<char>>) -> bool {
    let n = longest_backticks(b[0]);
    let e = closing_line(b, 1, n);
    &&& b.len() > 0
    &&& trimmed(b[0]).len() > 0
    &&& !header_line(trimmed(b[0]))
    &&& first_id(b.last()) == Some(id)
    &&& b.len() > 1 || first_id(b[0]) is None ==> first_id(b[0]) is None && n >= 5 && e < b.len()
        && b.len() == (if pure_fence(b[e]) {
        e + 2
    } else {
        e + 1
    })
}

/// A header is one, and a message is one.
pub open spec fn is_whole(p: Part) -> bool {
    match p {
        Part::Header(line) => header_line(trimmed(line)),
        Part::Message(id, b) => is_message(id, b),
    }
}

pub proof fn lemma_closing_is(ls: Seq<Seq<char>>, i: int, n: int, e: int)
    requires
        i <= e < ls.len(),
        forall|k: int| i <= k < e ==> longest_backticks(#[trigger] ls[k]) < n,
        longest_backticks(ls[e]) >= n,
    ensures
        closing_line(ls, i, n) == e,
    decreases e - i,
{
    if i < e {
        assert(longest_backticks(ls[i]) < n);
        lemma_closing_is(ls, i + 1, n, e);
    }
}

/// A code block with its tag is a message by itself.
proof fn lemma_block_is_message(ls: Seq<Seq<char>>, i: int, to: int)
    requires
        0 <= i < ls.len(),
        trimmed(ls[i]).len() > 0,
        !header_line(trimmed(ls[i])),
        first_id(ls[i]) is None,
        longest_backticks(ls[i]) >= 5,
        ({
            let e = closing_line(ls, i + 1, longest_backticks(ls[i]));
            e < ls.len() && i < e && to <= ls.len() && to == (if pure_fence(ls[e]) {
                e + 2
            } else {
                e + 1
            })
        }),
        first_id(ls[to - 1]) is Some,
    ensures
        is_message(first_id(ls[to - 1])->0, ls.subrange(i, to)),
{
    let n = longest_backticks(ls[i]);
    let e = closing_line(ls, i + 1, n);
    let b = ls.subrange(i, to);
    lemma_closing_line(ls, i + 1, n);
    assert forall|k: int| 1 <= k < e - i implies longest_backticks(#[trigger] b[k]) < n by {
        assert(b[k] == ls[i + k]);
    }
    assert(b[e - i] == ls[e]);
    lemma_closing_is(b, 1, n, e - i);
    assert(b.last() == ls[to - 1]);
    assert(b[0] == ls[i]);
}

/// What is read of a file is whole.
proof fn lemma_parts_whole(ls: Seq<Seq<char>>, i: int)
    requires
        0 <= i,
    ensures
        forall|j: int| 0 <= j < parts(ls, i).len() ==> is_whole(#[trigger] parts(ls, i)[j]),
    decreases ls.len() - i,
{
    if i < ls.len() {
        let n = longest_backticks(ls[i]);
        lemma_closing_line(ls, i + 1, n);
        let e = closing_line(ls, i + 1, n);
        lemma_parts_whole(ls, i + 1);
        let s = trimmed(ls[i]);
        let id = first_id(ls[i]);
        if s.len() > 0 && !header_line(s) {
            if id is Some {
                let p = Part::Message(id->0, seq![ls[i]]);
                assert(seq![ls[i]].last() == ls[i]);
                assert(is_whole(p));
                lemma_whole_first(p, parts(ls, i + 1));
            } else if n >= 5 && e < ls.len() {
                lemma_parts_whole(ls, e + 1);
                if pure_fence(ls[e]) {
                    if e + 1 < ls.len() && first_id(ls[e + 1]) is Some {
                        lemma_parts_whole(ls, e + 2);
                        lemma_block_is_message(ls, i, e + 2);
                        let p = Part::Message(first_id(ls[e + 1])->0, ls.subrange(i, e + 2));
                        lemma_whole_first(p, parts(ls, e + 2));
                    }
                } else if first_id(ls[e]) is Some {
                    lemma_block_is_message(ls, i, e + 1);
                    let p = Part::Message(first_id(ls[e])->0, ls.subrange(i, e + 1));
                    lemma_whole_first(p, parts(ls, e + 1));
                }
            }
        } else if s.len() > 0 {
            lemma_whole_first(Part::Header(ls[i]), parts(ls, i + 1));
        }
    }
}

proof fn lemma_whole_first(p: Part, ps: Seq<Part>)
    requires
        is_whole(p),
        forall|j: int| 0 <= j < ps.len() ==> is_whole(#[trigger] ps[j]),
    ensures
        forall|j: int| 0 <= j < (seq![p] + ps).len() ==> is_whole(#[trigger] (seq![p] + ps)[j]),
{
    assert forall|j: int| 0 <= j < (seq![p] + ps).len() implies is_whole(
        #[trigger] (seq![p] + ps)[j],
    ) by {
        if j > 0 {
            assert((seq![p] + ps)[j] == ps[j - 1]);
        }
    }
}

proof fn lemma_closing_shift(a: Seq<Seq<char>>, b: Seq<Seq<char>>, j: int, n: int)
    requires
        0 <= j,
    ensures
        closing_line(a + b, a.len() + j, n) == a.len() + closing_line(b, j, n),
    decreases b.len() - j,
{
    if j < b.len() {
        assert((a + b)[a.len() + j] == b[j]);
        lemma_closing_shift(a, b, j + 1, n);
    }
}

/// What is read of lines does not depend on the lines above them.
pub proof fn lemma_parts_shift(a: Seq<Seq<char>>, b: Seq<Seq<char>>, j: int)
    requires
        0 <= j,
    ensures
        parts(a + b, a.len() + j) == parts(b, j),
    decreases b.len() - j,
{
    if j < b.len() {
        let all = a + b;
        let h = a.len() as int;
        assert(all[h + j] == b[j]);
        let n = longest_backticks(b[j]);
        lemma_closing_line(b, j + 1, n);
        lemma_closing_shift(a, b, j + 1, n);
        let e = closing_line(b, j + 1, n);
        lemma_parts_shift(a, b, j + 1);
        if e < b.len() {
            assert(all[h + e] == b[e]);
            lemma_parts_shift(a, b, e + 1);
            assert(all.subrange(h + j, h + e + 1) =~= b.subrange(j, e + 1));
            if e + 1 < b.len() {
                assert(all[h + e + 1] == b[e + 1]);
                lemma_parts_shift(a, b, e + 2);
                assert(all.subrange(h + j, h + e + 2) =~= b.subrange(j, e + 2));
            }
        }
    }
}

/// A message in front of other lines is read as that message.
pub proof fn lemma_message_first(id: int, b: Seq<Seq<char>>, rest: Seq<Seq<char>>)
    requires
        is_message(id, b),
    ensures
        parts(b + rest, 0) == seq![Part::Message(id, b)] + parts(rest, 0),
{
    let all = b + rest;
    let n = longest_backticks(b[0]);
    assert(all[0] == b[0]);
    lemma_parts_shift(b, rest, 0);
    assert(parts(all, b.len() as int) == parts(rest, 0));
    if first_id(b[0]) is Some {
        assert(b.len() == 1);
        assert(seq![all[0]] =~= b);
    } else {
        let e = closing_line(b, 1, n);
        lemma_closing_line(b, 1, n);
        assert forall|k: int| 1 <= k < e implies longest_backticks(#[trigger] all[k]) < n by {
            assert(all[k] == b[k]);
        }
        assert(all[e] == b[e]);
        lemma_closing_is(all, 1, n, e);
        assert(all[b.len() - 1] == b.last());
        assert(all.subrange(0, b.len() as int) =~= b);
    }
}

// ---------------------------------------------------------------------------
// Blocks
// ---------------------------------------------------------------------------

/// All blocks are messages.
pub open spec fn all_messages(bs: Seq<Block>) -> bool {
    forall|j: int| 0 <= j < bs.len() ==> is_message((#[trigger] bs[j]).id, bs[j].lines)
}

/// The blocks as parts of a file.
pub open spec fn as_parts(bs: Seq<Block>) -> Seq<Part> {
    bs.map_values(|b: Block| Part::Message(b.id, b.lines))
}

pub proof fn lemma_blocks_first(bs: Seq<Block>, rest: Seq<Seq<char>>)
    requires
        all_messages(bs),
    ensures
        parts(block_lines(bs) + rest, 0) == as_parts(bs) + parts(rest, 0),
    decreases bs.len(),
{
    if bs.len() == 0 {
        assert(block_lines(bs) + rest =~= rest);
        assert(as_parts(bs) + parts(rest, 0) =~= parts(rest, 0));
    } else {
        let front = bs.drop_last();
        let b = bs.last();
        assert(all_messages(front)) by {
            assert forall|j: int| 0 <= j < front.len() implies is_message(
                (#[trigger] front[j]).id,
                front[j].lines,
            ) by {
                assert(front[j] == bs[j]);
            }
        }
        assert(is_message(bs[bs.len() - 1].id, bs[bs.len() - 1].lines));
        lemma_blocks_first(front, b.lines + rest);
        lemma_message_first(b.id, b.lines, rest);
        assert(block_lines(bs) + rest =~= block_lines(front) + (b.lines + rest));
        assert(as_parts(bs) + parts(rest, 0) =~= as_parts(front) + (seq![
            Part::Message(b.id, b.lines),
        ] + parts(rest, 0)));
    }
}

/// The parts of the first `k` sections.
pub open spec fn section_parts(headers: Seq<Seq<char>>, all: Seq<Block>, k: int) -> Seq<Part>
    decreases k,
{
    if k <= 0 {
        Seq::empty()
    } else {
        let mine = under(by_id(all), all, k);
        let rest = section_parts(headers, all, k - 1);
        if mine.len() == 0 {
            rest
        } else {
            rest.push(Part::Header(headers[k - 1])) + as_parts(mine)
        }
    }
}

/// What stands under a header is there, under that header, and not under an earlier
/// one.
pub proof fn lemma_under_from(bs: Seq<Block>, all: Seq<Block>, k: int)
    ensures
        forall|i: int|
            0 <= i < under(bs, all, k).len() ==> bs.contains(#[trigger] under(bs, all, k)[i])
                && under(bs, all, k)[i].section == k && !seen(
                all,
                under(bs, all, k)[i].id,
                k - 1,
            ),
        sorted(bs) ==> sorted(under(bs, all, k)),
    decreases bs.len(),
{
    if bs.len() > 0 {
        let front = bs.drop_last();
        lemma_under_from(front, all, k);
        let u = under(bs, all, k);
        let v = under(front, all, k);
        assert(bs =~= front.push(bs.last()));
        assert forall|i: int| 0 <= i < u.len() implies bs.contains(#[trigger] u[i]) && u[i].section
            == k && !seen(all, u[i].id, k - 1) by {
            if i < v.len() {
                assert(u[i] == v[i]);
                assert(front.contains(v[i]));
                let j = choose|j: int| 0 <= j < front.len() && front[j] == v[i];
                assert(bs[j] == v[i]);
            } else {
                assert(bs[bs.len() - 1] == u[i]);
            }
        }
        if sorted(bs) {
            assert(sorted(front)) by {
                assert forall|i: int, j: int| 0 <= i < j < front.len() implies (
                #[trigger] front[i]).id <= (#[trigger] front[j]).id by {
                    assert(front[i] == bs[i] && front[j] == bs[j]);
                }
            }
            assert forall|i: int, j: int| 0 <= i < j < u.len() implies (#[trigger] u[i]).id <= (
            #[trigger] u[j]).id by {
                assert(u[i] == v[i]);
                if j < v.len() {
                    assert(u[j] == v[j]);
                } else {
                    assert(front.contains(v[i]));
                    let x = choose|x: int| 0 <= x < front.len() && front[x] == v[i];
                    assert(bs[x] == v[i]);
                    assert(bs[bs.len() - 1] == u[j]);
                }
            }
        }
    }
}

/// What stands under no header is there.
proof fn lemma_unseen_from(bs: Seq<Block>, all: Seq<Block>, k: int)
    ensures
        forall|i: int|
            0 <= i < unseen(bs, all, k).len() ==> bs.contains(#[trigger] unseen(bs, all, k)[i]),
        sorted(bs) ==> sorted(unseen(bs, all, k)),
    decreases bs.len(),
{
    if bs.len() > 0 {
        let front = bs.drop_last();
        lemma_unseen_from(front, all, k);
        let u = unseen(bs, all, k);
        let v = unseen(front, all, k);
        assert forall|i: int| 0 <= i < u.len() implies bs.contains(#[trigger] u[i]) by {
            if i < v.len() {
                assert(u[i] == v[i]);
                assert(front.contains(v[i]));
                let j = choose|j: int| 0 <= j < front.len() && front[j] == v[i];
                assert(bs[j] == v[i]);
            } else {
                assert(bs[bs.len() - 1] == u[i]);
            }
        }
        if sorted(bs) {
            assert(sorted(front)) by {
                assert forall|i: int, j: int| 0 <= i < j < front.len() implies (
                #[trigger] front[i]).id <= (#[trigger] front[j]).id by {
                    assert(front[i] == bs[i] && front[j] == bs[j]);
                }
            }
            assert forall|i: int, j: int| 0 <= i < j < u.len() implies (#[trigger] u[i]).id <= (
            #[trigger] u[j]).id by {
                assert(u[i] == v[i]);
                if j < v.len() {
                    assert(u[j] == v[j]);
                } else {
                    assert(front.contains(v[i]));
                    let x = choose|x: int| 0 <= x < front.len() && front[x] == v[i];
                    assert(bs[x] == v[i]);
                    assert(bs[bs.len() - 1] == u[j]);
                }
            }
        }
    }
}

/// The blocks of whole parts are messages.
proof fn lemma_blocks_whole(ps: Seq<Part>)
    requires
        forall|j: int| 0 <= j < ps.len() ==> is_whole(#[trigger] ps[j]),
    ensures
        all_messages(blocks(ps)),
        forall|i: int|
            0 <= i < header_lines(ps).len() ==> header_line(trimmed(#[trigger] header_lines(ps)[i])),
    decreases ps.len(),
{
    if ps.len() > 0 {
        let front = ps.drop_last();
        assert forall|j: int| 0 <= j < front.len() implies is_whole(#[trigger] front[j]) by {
            assert(front[j] == ps[j]);
        }
        lemma_blocks_whole(front);
        assert(is_whole(ps[ps.len() - 1]));
        match ps.last() {
            Part::Header(line) => {
                assert forall|i: int| 0 <= i < header_lines(ps).len() implies header_line(
                    trimmed(#[trigger] header_lines(ps)[i]),
                ) by {
                    if i < header_lines(front).len() {
                        assert(header_lines(ps)[i] == header_lines(front)[i]);
                    }
                }
            },
            Part::Message(id, b) => {
                assert forall|i: int| 0 <= i < blocks(ps).len() implies is_message(
                    (#[trigger] blocks(ps)[i]).id,
                    blocks(ps)[i].lines,
                ) by {
                    if i < blocks(front).len() {
                        assert(blocks(ps)[i] == blocks(front)[i]);
                    }
                }
            },
        }
    }
}

/// Blocks under a header are messages.
proof fn lemma_under_messages(all: Seq<Block>, k: int)
    requires
        all_messages(all),
    ensures
        all_messages(under(by_id(all), all, k)),
{
    let u = under(by_id(all), all, k);
    lemma_under_from(by_id(all), all, k);
    assert forall|i: int| 0 <= i < u.len() implies is_message((#[trigger] u[i]).id, u[i].lines) by {
        assert(by_id(all).contains(u[i]));
        let j = choose|j: int| 0 <= j < by_id(all).len() && by_id(all)[j] == u[i];
        lemma_by_id_from(all, j);
        let x = choose|x: int| 0 <= x < all.len() && all[x] == by_id(all)[j];
        assert(is_message(all[x].id, all[x].lines));
    }
}

/// The last line of blocks has a tag.
pub proof fn lemma_last_block_line(bs: Seq<Block>)
    requires
        all_messages(bs),
        bs.len() > 0,
    ensures
        block_lines(bs).len() > 0,
        block_lines(bs).last().len() > 0,
{
    let b = bs[bs.len() - 1];
    assert(is_message(b.id, b.lines));
    assert(block_lines(bs).last() == b.lines.last());
}

/// A header in front of other lines is read as that header.
pub proof fn lemma_header_first(h: Seq<char>, rest: Seq<Seq<char>>)
    requires
        header_line(trimmed(h)),
    ensures
        parts(seq![h] + rest, 0) == seq![Part::Header(h)] + parts(rest, 0),
{
    assert((seq![h] + rest)[0] == h);
    lemma_parts_shift(seq![h], rest, 0);
}

/// What is read of sections.
proof fn lemma_sections_first(
    headers: Seq<Seq<char>>,
    all: Seq<Block>,
    k: int,
    rest: Seq<Seq<char>>,
)
    requires
        0 <= k <= headers.len(),
        forall|i: int| 0 <= i < headers.len() ==> header_line(trimmed(#[trigger] headers[i])),
        all_messages(all),
    ensures
        parts(section_lines(headers, all, k) + rest, 0) == section_parts(headers, all, k) + parts(
            rest,
            0,
        ),
    decreases k,
{
    let sl = section_lines(headers, all, k);
    let sp = section_parts(headers, all, k);
    if k == 0 {
        assert(sl + rest =~= rest);
        assert(sp + parts(rest, 0) =~= parts(rest, 0));
    } else {
        let mine = under(by_id(all), all, k);
        if mine.len() == 0 {
            lemma_sections_first(headers, all, k - 1, rest);
        } else {
            let h = headers[k - 1];
            let e = seq![Seq::<char>::empty()];
            let tail = block_lines(mine) + (e + rest);
            let before = section_lines(headers, all, k - 1);
            lemma_sections_first(headers, all, k - 1, seq![h] + tail);
            assert(header_line(trimmed(headers[k - 1])));
            lemma_header_first(h, tail);
            lemma_under_messages(all, k);
            lemma_blocks_first(mine, e + rest);
            lemma_parts_shift(e, rest, 0);
            assert((e + rest)[0].len() == 0);
            assert(parts(e + rest, 0) == parts(rest, 0));
            assert(sl + rest =~= before + (seq![h] + tail));
            assert(sp + parts(rest, 0) =~= section_parts(headers, all, k - 1) + (seq![
                Part::Header(h),
            ] + (as_parts(mine) + parts(rest, 0))));
        }
    }
}

/// What is read of sections without the empty lines at the end.
proof fn lemma_sections_read(headers: Seq<Seq<char>>, all: Seq<Block>, k: int)
    requires
        0 <= k <= headers.len(),
        forall|i: int| 0 <= i < headers.len() ==> header_line(trimmed(#[trigger] headers[i])),
        all_messages(all),
    ensures
        parts(without_empty_tail(section_lines(headers, all, k)), 0) == section_parts(
            headers,
            all,
            k,
        ),
    decreases k,
{
    if k > 0 {
        let mine = under(by_id(all), all, k);
        if mine.len() == 0 {
            lemma_sections_read(headers, all, k - 1);
        } else {
            let h = headers[k - 1];
            let before = section_lines(headers, all, k - 1);
            let x = before.push(h) + block_lines(mine);
            assert(section_lines(headers, all, k).drop_last() =~= x);
            lemma_under_messages(all, k);
            lemma_last_block_line(mine);
            assert(x.last() == block_lines(mine).last());
            assert(without_empty_tail(section_lines(headers, all, k)) == without_empty_tail(x));
            assert(without_empty_tail(x) == x);
            let none = Seq::<Seq<char>>::empty();
            assert(x =~= before + (seq![h] + (block_lines(mine) + none)));
            lemma_sections_first(headers, all, k - 1, seq![h] + (block_lines(mine) + none));
            assert(header_line(trimmed(headers[k - 1])));
            lemma_header_first(h, block_lines(mine) + none);
            lemma_blocks_first(mine, none);
            assert(parts(none, 0) =~= Seq::empty());
            assert(section_parts(headers, all, k) =~= section_parts(headers, all, k - 1) + (seq![
                Part::Header(h),
            ] + (as_parts(mine) + parts(none, 0))));
        }
    }
}

// ---------------------------------------------------------------------------
// The second time
// ---------------------------------------------------------------------------

/// The blocks under the given header.
pub open spec fn put_under(bs: Seq<Block>, section: int) -> Seq<Block> {
    bs.map_values(|b: Block| (Block { section, id: b.id, lines: b.lines }))
}

/// Messages behind other parts stand under the last header.
pub proof fn lemma_parts_behind(ps: Seq<Part>, bs: Seq<Block>)
    ensures
        header_lines(ps + as_parts(bs)) == header_lines(ps),
        blocks(ps + as_parts(bs)) == blocks(ps) + put_under(bs, header_lines(ps).len() as int),
    decreases bs.len(),
{
    let n = header_lines(ps).len() as int;
    let all = ps + as_parts(bs);
    if bs.len() == 0 {
        assert(all =~= ps);
        assert(blocks(ps) + put_under(bs, n) =~= blocks(ps));
    } else {
        let front = bs.drop_last();
        lemma_parts_behind(ps, front);
        assert(all.drop_last() =~= ps + as_parts(front));
        assert(all.last() == Part::Message(bs.last().id, bs.last().lines));
        assert(blocks(ps) + put_under(bs, n) =~= (blocks(ps) + put_under(front, n)).push(
            Block { section: n, id: bs.last().id, lines: bs.last().lines },
        ));
    }
}

proof fn lemma_lines_under(bs: Seq<Block>, section: int)
    ensures
        block_lines(put_under(bs, section)) == block_lines(bs),
    decreases bs.len(),
{
    if bs.len() > 0 {
        lemma_lines_under(bs.drop_last(), section);
        assert(put_under(bs, section).drop_last() =~= put_under(bs.drop_last(), section));
    }
}

/// A block under another header is not among those under this one.
proof fn lemma_under_inserted_other(bs: Seq<Block>, b: Block, all: Seq<Block>, k: int)
    requires
        b.section != k,
    ensures
        under(inserted(bs, b), all, k) == under(bs, all, k),
    decreases bs.len(),
{
    if bs.len() > 0 && bs.last().id > b.id {
        lemma_under_inserted_other(bs.drop_last(), b, all, k);
        assert(inserted(bs, b).drop_last() =~= inserted(bs.drop_last(), b));
    } else {
        assert(inserted(bs, b).drop_last() =~= bs);
    }
}

/// A block under this header with the largest id there comes last.
proof fn lemma_under_inserted_last(bs: Seq<Block>, b: Block, all: Seq<Block>, k: int)
    requires
        b.section == k,
        !seen(all, b.id, k - 1),
        forall|i: int| 0 <= i < bs.len() && (#[trigger] bs[i]).section == k ==> bs[i].id <= b.id,
    ensures
        under(inserted(bs, b), all, k) == under(bs, all, k).push(b),
    decreases bs.len(),
{
    if bs.len() > 0 && bs.last().id > b.id {
        let front = bs.drop_last();
        assert(bs[bs.len() - 1].section != k);
        assert forall|i: int| 0 <= i < front.len() && (#[trigger] front[i]).section
            == k implies front[i].id <= b.id by {
            assert(front[i] == bs[i]);
        }
        lemma_under_inserted_last(front, b, all, k);
        assert(inserted(bs, b).drop_last() =~= inserted(front, b));
    } else {
        assert(inserted(bs, b).drop_last() =~= bs);
    }
}

proof fn lemma_under_same(bs: Seq<Block>, a: Seq<Block>, b: Seq<Block>, k: int)
    requires
        forall|id: int| #[trigger] seen(a, id, k - 1) == seen(b, id, k - 1),
    ensures
        under(bs, a, k) == under(bs, b, k),
    decreases bs.len(),
{
    if bs.len() > 0 {
        lemma_under_same(bs.drop_last(), a, b, k);
        assert(seen(a, bs.last().id, k - 1) == seen(b, bs.last().id, k - 1));
    }
}

/// Blocks under later headers count for nothing under the first `k` headers.
proof fn lemma_seen_earlier(a: Seq<Block>, b: Seq<Block>, k: int)
    requires
        forall|i: int| 0 <= i < b.len() ==> (#[trigger] b[i]).section > k,
    ensures
        forall|id: int| #[trigger] seen(a + b, id, k) == seen(a, id, k),
{
    assert forall|id: int| #[trigger] seen(a + b, id, k) == seen(a, id, k) by {
        let all = a + b;
        if seen(all, id, k) {
            let j = choose|j: int|
                0 <= j < all.len() && 1 <= (#[trigger] all[j]).section <= k && all[j].id == id;
            if j >= a.len() {
                assert(all[j] == b[j - a.len()]);
            }
            assert(a[j] == all[j]);
        }
        if seen(a, id, k) {
            let j = choose|j: int|
                0 <= j < a.len() && 1 <= (#[trigger] a[j]).section <= k && a[j].id == id;
            assert(all[j] == a[j]);
        }
    }
}

/// Blocks under later headers leave those under this one as they are.
pub proof fn lemma_under_earlier(a: Seq<Block>, b: Seq<Block>, k: int, t: int)
    requires
        0 <= t <= b.len(),
        forall|i: int| 0 <= i < b.len() ==> (#[trigger] b[i]).section > k,
    ensures
        under(by_id(a + b.take(t)), a + b, k) == under(by_id(a), a, k),
    decreases t,
{
    if t == 0 {
        assert(a + b.take(0) =~= a);
        lemma_seen_earlier(a, b, k - 1);
        lemma_under_same(by_id(a), a + b, a, k);
    } else {
        lemma_under_earlier(a, b, k, t - 1);
        assert((a + b.take(t)).drop_last() =~= a + b.take(t - 1));
        assert((a + b.take(t)).last() == b[t - 1]);
        lemma_under_inserted_other(by_id(a + b.take(t - 1)), b[t - 1], a + b, k);
    }
}

/// Sorted blocks under a new header stay as they are.
proof fn lemma_under_last(a: Seq<Block>, b: Seq<Block>, k: int, t: int)
    requires
        0 <= t <= b.len(),
        forall|i: int| 0 <= i < a.len() ==> (#[trigger] a[i]).section < k,
        forall|i: int|
            0 <= i < b.len() ==> (#[trigger] b[i]).section == k && !seen(a + b, b[i].id, k - 1),
        sorted(b),
    ensures
        under(by_id(a + b.take(t)), a + b, k) == b.take(t),
    decreases t,
{
    if t == 0 {
        assert(a + b.take(0) =~= a);
        let s = by_id(a);
        lemma_under_from(s, a + b, k);
        let u = under(s, a + b, k);
        if u.len() > 0 {
            assert(s.contains(u[0]));
            let j = choose|j: int| 0 <= j < s.len() && s[j] == u[0];
            lemma_by_id_from(a, j);
            let x = choose|x: int| 0 <= x < a.len() && a[x] == s[j];
            assert(a[x].section < k);
        }
        assert(u =~= b.take(0));
    } else {
        lemma_under_last(a, b, k, t - 1);
        let before = a + b.take(t - 1);
        let last = b[t - 1];
        assert((a + b.take(t)).drop_last() =~= before);
        assert((a + b.take(t)).last() == last);
        let s = by_id(before);
        assert forall|i: int| 0 <= i < s.len() && (#[trigger] s[i]).section == k implies s[i].id
            <= last.id by {
            lemma_by_id_from(before, i);
            let x = choose|x: int| 0 <= x < before.len() && before[x] == s[i];
            if x < a.len() {
                assert(before[x] == a[x]);
            } else {
                assert(before[x] == b[x - a.len()]);
            }
        }
        lemma_under_inserted_last(s, last, a + b, k);
        assert(b.take(t) =~= b.take(t - 1).push(last));
    }
}

/// Blocks under later headers leave the earlier sections as they are.
proof fn lemma_earlier_sections(
    headers: Seq<Seq<char>>,
    h: Seq<char>,
    a: Seq<Block>,
    b: Seq<Block>,
    k: int,
)
    requires
        0 <= k <= headers.len(),
        forall|i: int| 0 <= i < b.len() ==> (#[trigger] b[i]).section > headers.len(),
    ensures
        section_lines(headers.push(h), a + b, k) == section_lines(headers, a, k),
    decreases k,
{
    if k > 0 {
        lemma_earlier_sections(headers, h, a, b, k - 1);
        lemma_under_earlier(a, b, k, b.len() as int);
        assert(b.take(b.len() as int) =~= b);
        assert(headers.push(h)[k - 1] == headers[k - 1]);
    }
}

/// The sections that were written are written again.
proof fn lemma_sections_again(headers: Seq<Seq<char>>, all: Seq<Block>, k: int)
    requires
        0 <= k <= headers.len(),
    ensures
        ({
            let q = section_parts(headers, all, k);
            let h = header_lines(q);
            let a = blocks(q);
            &&& section_lines(h, a, h.len() as int) == section_lines(headers, all, k)
            &&& forall|j: int|
                0 <= j < a.len() ==> 1 <= (#[trigger] a[j]).section <= h.len() && seen(
                    all,
                    a[j].id,
                    k,
                )
        }),
    decreases k,
{
    if k > 0 {
        lemma_sections_again(headers, all, k - 1);
        let mine = under(by_id(all), all, k);
        let q0 = section_parts(headers, all, k - 1);
        let h0 = header_lines(q0);
        let a = blocks(q0);
        if mine.len() == 0 {
            assert forall|j: int| 0 <= j < a.len() implies seen(all, (#[trigger] a[j]).id, k) by {
                lemma_seen_more(all, a[j].id, k);
            }
        } else {
            let line = headers[k - 1];
            let q1 = q0.push(Part::Header(line));
            assert(q1.drop_last() =~= q0);
            let n = h0.len() as int + 1;
            let h = h0.push(line);
            lemma_parts_behind(q1, mine);
            let b = put_under(mine, n);
            law_by_id_sorts(all);
            lemma_under_from(by_id(all), all, k);
            assert(sorted(b)) by {
                assert forall|i: int, j: int| 0 <= i < j < b.len() implies (#[trigger] b[i]).id <= (
                #[trigger] b[j]).id by {
                    assert(mine[i].id <= mine[j].id);
                }
            }
            lemma_seen_earlier(a, b, n - 1);
            assert forall|i: int| 0 <= i < b.len() implies (#[trigger] b[i]).section == n && !seen(
                a + b,
                b[i].id,
                n - 1,
            ) by {
                assert(!seen(all, mine[i].id, k - 1));
                if seen(a + b, b[i].id, n - 1) {
                    assert(seen(a, b[i].id, n - 1));
                    let j = choose|j: int|
                        0 <= j < a.len() && 1 <= (#[trigger] a[j]).section <= n - 1 && a[j].id
                            == b[i].id;
                    assert(seen(all, a[j].id, k - 1));
                }
            }
            lemma_under_last(a, b, n, b.len() as int);
            assert(b.take(b.len() as int) =~= b);
            lemma_earlier_sections(h0, line, a, b, n - 1);
            lemma_lines_under(mine, n);
            assert(h[n - 1] == line);
            assert(section_lines(h, a + b, n) == section_lines(headers, all, k));
            let c = a + b;
            assert forall|j: int| 0 <= j < c.len() implies 1 <= (#[trigger] c[j]).section <= n
                && seen(all, c[j].id, k) by {
                if j < a.len() {
                    assert(c[j] == a[j]);
                    lemma_seen_more(all, a[j].id, k);
                } else {
                    let m = mine[j - a.len()];
                    assert(c[j] == b[j - a.len()]);
                    assert(by_id(all).contains(m));
                    let x = choose|x: int| 0 <= x < by_id(all).len() && by_id(all)[x] == m;
                    lemma_by_id_from(all, x);
                    let y = choose|y: int| 0 <= y < all.len() && all[y] == by_id(all)[x];
                    assert(all[y].section == k && all[y].id == m.id);
                }
            }
        }
    }
}

proof fn lemma_seen_more(all: Seq<Block>, id: int, k: int)
    requires
        seen(all, id, k - 1),
    ensures
        seen(all, id, k),
{
    let j = choose|j: int|
        0 <= j < all.len() && 1 <= (#[trigger] all[j]).section <= k - 1 && all[j].id == id;
    assert(1 <= all[j].section <= k);
}

/// Sorted blocks are left in their order.
proof fn lemma_sorted_stays(bs: Seq<Block>)
    requires
        sorted(bs),
    ensures
        by_id(bs) == bs,
    decreases bs.len(),
{
    if bs.len() > 0 {
        let front = bs.drop_last();
        assert(sorted(front)) by {
            assert forall|i: int, j: int| 0 <= i < j < front.len() implies (#[trigger] front[i]).id
                <= (#[trigger] front[j]).id by {
                assert(front[i] == bs[i] && front[j] == bs[j]);
            }
        }
        lemma_sorted_stays(front);
        if front.len() > 0 {
            assert(bs[bs.len() - 2].id <= bs[bs.len() - 1].id);
        }
        assert(front.push(bs.last()) =~= bs);
    }
}

/// Without headers nothing was seen.
pub proof fn lemma_all_unseen(bs: Seq<Block>, all: Seq<Block>)
    ensures
        unseen(bs, all, 0) == bs,
    decreases bs.len(),
{
    if bs.len() > 0 {
        lemma_all_unseen(bs.drop_last(), all);
        assert(bs.drop_last().push(bs.last()) =~= bs);
    }
}

/// No message above the first header of a file with messages under headers is left
/// for the end: each one's id stands under a header too.
pub open spec fn none_left_over(ps: Seq<Part>) -> bool {
    let headers = header_lines(ps);
    let all = blocks(ps);
    let n = headers.len() as int;
    section_lines(headers, all, n).len() == 0 || unseen(by_id(all), all, n).len() == 0
}

/// Lines in order stay as they are, where no message was left over for the end.
pub proof fn law_ordered_lines_settle(ls: Seq<Seq<char>>)
    requires
        none_left_over(parts(ls, 0)),
    ensures
        ordered_lines(parts(ordered_lines(parts(ls, 0)), 0)) == ordered_lines(parts(ls, 0)),
{
    let ps = parts(ls, 0);
    let headers = header_lines(ps);
    let all = blocks(ps);
    let n = headers.len() as int;
    let sections = section_lines(headers, all, n);
    let v = unseen(by_id(all), all, n);
    let out = ordered_lines(ps);
    lemma_parts_whole(ls, 0);
    lemma_blocks_whole(ps);
    if v.len() == 0 {
        assert(sections + block_lines(v) =~= sections);
        lemma_sections_read(headers, all, n);
        lemma_sections_again(headers, all, n);
        let q = section_parts(headers, all, n);
        let a = blocks(q);
        let h = header_lines(q);
        assert(parts(out, 0) == q);
        let s = by_id(a);
        assert forall|i: int| 0 <= i < s.len() implies seen(
            a,
            (#[trigger] s[i]).id,
            h.len() as int,
        ) by {
            lemma_by_id_from(a, i);
            let x = choose|x: int| 0 <= x < a.len() && a[x] == s[i];
            assert(1 <= a[x].section <= h.len());
        }
        lemma_none_unseen(s, a, h.len() as int);
        assert(sections + block_lines(Seq::<Block>::empty()) =~= sections);
    } else {
        assert(sections + block_lines(v) =~= block_lines(v));
        law_by_id_sorts(all);
        lemma_unseen_from(by_id(all), all, n);
        assert forall|i: int| 0 <= i < v.len() implies is_message(
            (#[trigger] v[i]).id,
            v[i].lines,
        ) by {
            assert(by_id(all).contains(v[i]));
            let j = choose|j: int| 0 <= j < by_id(all).len() && by_id(all)[j] == v[i];
            lemma_by_id_from(all, j);
            let x = choose|x: int| 0 <= x < all.len() && all[x] == by_id(all)[j];
            assert(is_message(all[x].id, all[x].lines));
        }
        lemma_last_block_line(v);
        assert(out == block_lines(v));
        let none = Seq::<Seq<char>>::empty();
        lemma_blocks_first(v, none);
        assert(block_lines(v) + none =~= block_lines(v));
        assert(parts(none, 0) =~= Seq::empty());
        let q = as_parts(v);
        assert(q + parts(none, 0) =~= q);
        assert(parts(out, 0) == q);
        let start = Seq::<Part>::empty();
        lemma_parts_behind(start, v);
        assert(start + q =~= q);
        let b = put_under(v, 0);
        assert(blocks(start) + b =~= b);
        assert(sorted(b)) by {
            assert forall|i: int, j: int| 0 <= i < j < b.len() implies (#[trigger] b[i]).id <= (
            #[trigger] b[j]).id by {
                assert(v[i].id <= v[j].id);
            }
        }
        lemma_sorted_stays(b);
        lemma_all_unseen(b, b);
        lemma_lines_under(v, 0);
        assert(section_lines(header_lines(q), b, 0) + block_lines(b) =~= block_lines(b));
    }
}

// ---------------------------------------------------------------------------
// Texts
// ---------------------------------------------------------------------------

/// No line holds a line feed.
spec fn one_liners(ls: Seq<Seq<char>>) -> bool {
    forall|i: int| 0 <= i < ls.len() ==> lacks(#[trigger] ls[i], '\n')
}

spec fn of_one_liners(p: Part) -> bool {
    match p {
        Part::Header(line) => lacks(line, '\n'),
        Part::Message(id, b) => one_liners(b),
    }
}

spec fn blocks_of_one_liners(bs: Seq<Block>) -> bool {
    forall|i: int| 0 <= i < bs.len() ==> one_liners((#[trigger] bs[i]).lines)
}

proof fn lemma_one_liners_first(p: Part, ps: Seq<Part>)
    requires
        of_one_liners(p),
        forall|j: int| 0 <= j < ps.len() ==> of_one_liners(#[trigger] ps[j]),
    ensures
        forall|j: int|
            0 <= j < (seq![p] + ps).len() ==> of_one_liners(#[trigger] (seq![p] + ps)[j]),
{
    assert forall|j: int| 0 <= j < (seq![p] + ps).len() implies of_one_liners(
        #[trigger] (seq![p] + ps)[j],
    ) by {
        if j > 0 {
            assert((seq![p] + ps)[j] == ps[j - 1]);
        }
    }
}

proof fn lemma_one_liners_part(ls: Seq<Seq<char>>, i: int, j: int)
    requires
        0 <= i <= j <= ls.len(),
        one_liners(ls),
    ensures
        one_liners(ls.subrange(i, j)),
{
    let b = ls.subrange(i, j);
    assert forall|k: int| 0 <= k < b.len() implies lacks(#[trigger] b[k], '\n') by {
        assert(b[k] == ls[i + k]);
    }
}

proof fn lemma_parts_one_liners(ls: Seq<Seq<char>>, i: int)
    requires
        0 <= i,
        one_liners(ls),
    ensures
        forall|j: int| 0 <= j < parts(ls, i).len() ==> of_one_liners(#[trigger] parts(ls, i)[j]),
    decreases ls.len() - i,
{
    if i < ls.len() {
        let n = longest_backticks(ls[i]);
        lemma_closing_line(ls, i + 1, n);
        let e = closing_line(ls, i + 1, n);
        lemma_parts_one_liners(ls, i + 1);
        let id = first_id(ls[i]);
        assert(lacks(ls[i], '\n'));
        lemma_one_liners_first(Part::Header(ls[i]), parts(ls, i + 1));
        if id is Some {
            let p = Part::Message(id->0, seq![ls[i]]);
            assert(one_liners(seq![ls[i]]));
            lemma_one_liners_first(p, parts(ls, i + 1));
        } else if e < ls.len() {
            lemma_parts_one_liners(ls, e + 1);
            lemma_one_liners_part(ls, i, e + 1);
            if first_id(ls[e]) is Some {
                let p = Part::Message(first_id(ls[e])->0, ls.subrange(i, e + 1));
                lemma_one_liners_first(p, parts(ls, e + 1));
            }
            if e + 1 < ls.len() && first_id(ls[e + 1]) is Some {
                lemma_parts_one_liners(ls, e + 2);
                lemma_one_liners_part(ls, i, e + 2);
                let p = Part::Message(first_id(ls[e + 1])->0, ls.subrange(i, e + 2));
                lemma_one_liners_first(p, parts(ls, e + 2));
            }
        }
    }
}

proof fn lemma_blocks_one_liners(ps: Seq<Part>)
    requires
        forall|j: int| 0 <= j < ps.len() ==> of_one_liners(#[trigger] ps[j]),
    ensures
        blocks_of_one_liners(blocks(ps)),
        one_liners(header_lines(ps)),
    decreases ps.len(),
{
    if ps.len() > 0 {
        let front = ps.drop_last();
        assert forall|j: int| 0 <= j < front.len() implies of_one_liners(#[trigger] front[j]) by {
            assert(front[j] == ps[j]);
        }
        lemma_blocks_one_liners(front);
        assert(of_one_liners(ps[ps.len() - 1]));
    }
}

proof fn lemma_sorted_one_liners(all: Seq<Block>, bs: Seq<Block>)
    requires
        blocks_of_one_liners(all),
        forall|i: int| 0 <= i < bs.len() ==> by_id(all).contains(#[trigger] bs[i]),
    ensures
        one_liners(block_lines(bs)),
    decreases bs.len(),
{
    if bs.len() > 0 {
        let front = bs.drop_last();
        assert forall|i: int| 0 <= i < front.len() implies by_id(all).contains(
            #[trigger] front[i],
        ) by {
            assert(front[i] == bs[i]);
        }
        lemma_sorted_one_liners(all, front);
        let b = bs[bs.len() - 1];
        assert(by_id(all).contains(b));
        let j = choose|j: int| 0 <= j < by_id(all).len() && by_id(all)[j] == b;
        lemma_by_id_from(all, j);
        let x = choose|x: int| 0 <= x < all.len() && all[x] == by_id(all)[j];
        assert(one_liners(all[x].lines));
    }
}

proof fn lemma_sections_one_liners(headers: Seq<Seq<char>>, all: Seq<Block>, k: int)
    requires
        0 <= k <= headers.len(),
        one_liners(headers),
        blocks_of_one_liners(all),
    ensures
        one_liners(section_lines(headers, all, k)),
    decreases k,
{
    if k > 0 {
        lemma_sections_one_liners(headers, all, k - 1);
        let mine = under(by_id(all), all, k);
        lemma_under_from(by_id(all), all, k);
        lemma_sorted_one_liners(all, mine);
        assert(lacks(headers[k - 1], '\n'));
        let none = Seq::<char>::empty();
        assert(lacks(none, '\n'));
        assert(one_liners(seq![none]));
    }
}

proof fn lemma_empty_tail(ls: Seq<Seq<char>>)
    ensures
        without_empty_tail(ls).len() <= ls.len(),
        without_empty_tail(ls) == ls.take(without_empty_tail(ls).len() as int),
        without_empty_tail(ls).len() > 0 ==> without_empty_tail(ls).last().len() > 0,
    decreases ls.len(),
{
    if ls.len() > 0 && ls.last().len() == 0 {
        lemma_empty_tail(ls.drop_last());
        let n = without_empty_tail(ls).len() as int;
        assert(ls.drop_last().take(n) =~= ls.take(n));
    } else {
        assert(ls.take(ls.len() as int) =~= ls);
    }
}

/// A file in order stays as it is, where no message was left over for the end and no
/// line of it ends in a carriage return.
pub proof fn law_reordering_settles(content: Seq<char>)
    requires
        none_left_over(parts(lines(content), 0)),
        ({
            let out = ordered_lines(parts(lines(content), 0));
            forall|l: int| 0 <= l < out.len() ==> chomped(#[trigger] out[l]) == out[l]
        }),
    ensures
        reordered(reordered(content)) == reordered(content),
{
    let ls = lines(content);
    let ps = parts(ls, 0);
    let headers = header_lines(ps);
    let all = blocks(ps);
    let n = headers.len() as int;
    let v = unseen(by_id(all), all, n);
    let whole = section_lines(headers, all, n) + block_lines(v);
    let out = ordered_lines(ps);
    assert forall|i: int| 0 <= i < ls.len() implies lacks(#[trigger] ls[i], '\n') by {
        lemma_lines_are_lines(content, i);
    }
    lemma_parts_one_liners(ls, 0);
    lemma_blocks_one_liners(ps);
    lemma_sections_one_liners(headers, all, n);
    lemma_unseen_from(by_id(all), all, n);
    lemma_sorted_one_liners(all, v);
    assert(one_liners(whole));
    lemma_empty_tail(whole);
    assert forall|l: int| 0 <= l < out.len() implies is_entry(#[trigger] out[l]) by {
        assert(out[l] == whole[l]);
        assert(chomped(out[l]) == out[l]);
    }
    lemma_closed_lines(out);
    law_ordered_lines_settle(ls);
}

} // verus!
