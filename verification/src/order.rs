//! Putting the messages of a file in the order of their ids.
use vstd::prelude::*;

use crate::header::{header_line, is_header_line, lemma_header_no_tags};
use crate::server::{longest_backticks, longest_run};
use crate::tag::{
    first_id, ids_of_lines, increasing, lemma_ids_of_lines_concat, lemma_ids_of_one,
    lemma_tag_ids_joined, lemma_tag_ids_lines, read_first_id, tag_ids,
};
use crate::text::{
    all_chomped, copied, from_chars, is_entry, join_lines, joined, lacks, lemma_chomped_lines,
    lemma_joined_lines, lines, newline, split_lines, texts, to_chars, trim, trimmed,
};

verus! {

// ---------------------------------------------------------------------------
// The parts of a file
// ---------------------------------------------------------------------------

/// A part of a file: a date header, or a message with its id and its lines.
pub enum Part {
    Header(Seq<char>),
    Message(int, Seq<Seq<char>>),
}

/// A message with the number of date headers that stand above it.
pub struct Block {
    pub section: int,
    pub id: int,
    pub lines: Seq<Seq<char>>,
}

/// The line is a fence and nothing else.
pub open spec fn pure_fence(line: Seq<char>) -> bool {
    let s = trimmed(line);
    s.len() >= 5 && forall|i: int| 0 <= i < s.len() ==> #[trigger] s[i] == '`'
}

/// The first line from `i` on with at least `n` backticks in a row, which closes a
/// code block that `n` opened, or the number of lines.
pub open spec fn closing_line(ls: Seq<Seq<char>>, i: int, n: int) -> int
    decreases ls.len() - i,
{
    if i >= ls.len() || longest_backticks(ls[i]) >= n {
        i
    } else {
        closing_line(ls, i + 1, n)
    }
}

/// The parts of a file from the line `i` on.
///
/// A message is a line with a tag, or a code block whose tag stands on the line
/// after a closing line of backticks alone, or on the closing line itself. A line
/// with five backticks in a row opens a block, and one with as many as opened it
/// closes it. Other lines belong to no part.
pub open spec fn parts(ls: Seq<Seq<char>>, i: int) -> Seq<Part>
    decreases ls.len() - i,
    via parts_decreases
{
    if i >= ls.len() {
        Seq::empty()
    } else {
        let s = trimmed(ls[i]);
        let id = first_id(ls[i]);
        if s.len() == 0 {
            parts(ls, i + 1)
        } else if header_line(s) {
            seq![Part::Header(ls[i])] + parts(ls, i + 1)
        } else if id is Some {
            seq![Part::Message(id->0, seq![ls[i]])] + parts(ls, i + 1)
        } else if longest_backticks(ls[i]) >= 5 {
            let e = closing_line(ls, i + 1, longest_backticks(ls[i]));
            if e >= ls.len() {
                Seq::empty()
            } else if pure_fence(ls[e]) {
                if e + 1 < ls.len() && first_id(ls[e + 1]) is Some {
                    seq![Part::Message(first_id(ls[e + 1])->0, ls.subrange(i, e + 2))] + parts(
                        ls,
                        e + 2,
                    )
                } else {
                    parts(ls, e + 1)
                }
            } else if first_id(ls[e]) is Some {
                seq![Part::Message(first_id(ls[e])->0, ls.subrange(i, e + 1))] + parts(ls, e + 1)
            } else {
                parts(ls, e + 1)
            }
        } else {
            parts(ls, i + 1)
        }
    }
}

#[via_fn]
proof fn parts_decreases(ls: Seq<Seq<char>>, i: int) {
    if i < ls.len() {
        lemma_closing_line(ls, i + 1, longest_backticks(ls[i]));
    }
}

pub proof fn lemma_closing_line(ls: Seq<Seq<char>>, i: int, n: int)
    ensures
        i <= closing_line(ls, i, n),
        i <= ls.len() ==> closing_line(ls, i, n) <= ls.len(),
        closing_line(ls, i, n) < ls.len() ==> longest_backticks(ls[closing_line(ls, i, n)]) >= n,
        forall|k: int| i <= k < closing_line(ls, i, n) ==> longest_backticks(#[trigger] ls[k]) < n,
    decreases ls.len() - i,
{
    if i < ls.len() && longest_backticks(ls[i]) < n {
        lemma_closing_line(ls, i + 1, n);
    }
}

/// The date headers among the parts.
pub open spec fn header_lines(ps: Seq<Part>) -> Seq<Seq<char>>
    decreases ps.len(),
{
    if ps.len() == 0 {
        Seq::empty()
    } else {
        match ps.last() {
            Part::Header(line) => header_lines(ps.drop_last()).push(line),
            Part::Message(id, lines) => header_lines(ps.drop_last()),
        }
    }
}

/// The messages among the parts.
pub open spec fn blocks(ps: Seq<Part>) -> Seq<Block>
    decreases ps.len(),
{
    if ps.len() == 0 {
        Seq::empty()
    } else {
        match ps.last() {
            Part::Header(line) => blocks(ps.drop_last()),
            Part::Message(id, lines) => blocks(ps.drop_last()).push(
                Block { section: header_lines(ps.drop_last()).len() as int, id, lines },
            ),
        }
    }
}

// ---------------------------------------------------------------------------
// The order
// ---------------------------------------------------------------------------

/// The block put behind all blocks with no larger id, in a sequence by ids.
pub open spec fn inserted(bs: Seq<Block>, b: Block) -> Seq<Block>
    decreases bs.len(),
{
    if bs.len() > 0 && bs.last().id > b.id {
        inserted(bs.drop_last(), b).push(bs.last())
    } else {
        bs.push(b)
    }
}

/// The blocks by their ids. Blocks of one id keep their order.
pub open spec fn by_id(bs: Seq<Block>) -> Seq<Block>
    decreases bs.len(),
{
    if bs.len() == 0 {
        Seq::empty()
    } else {
        inserted(by_id(bs.drop_last()), bs.last())
    }
}

/// A block with that id stands under one of the first `k` headers.
pub open spec fn seen(all: Seq<Block>, id: int, k: int) -> bool {
    exists|j: int|
        0 <= j < all.len() && 1 <= (#[trigger] all[j]).section <= k && all[j].id == id
}

/// The blocks among `bs` under the header number `k`, except those whose id
/// stands under an earlier header too.
pub open spec fn under(bs: Seq<Block>, all: Seq<Block>, k: int) -> Seq<Block>
    decreases bs.len(),
{
    if bs.len() == 0 {
        Seq::empty()
    } else if bs.last().section == k && !seen(all, bs.last().id, k - 1) {
        under(bs.drop_last(), all, k).push(bs.last())
    } else {
        under(bs.drop_last(), all, k)
    }
}

/// The blocks among `bs` whose ids stand under none of the first `k` headers.
pub open spec fn unseen(bs: Seq<Block>, all: Seq<Block>, k: int) -> Seq<Block>
    decreases bs.len(),
{
    if bs.len() == 0 {
        Seq::empty()
    } else if !seen(all, bs.last().id, k) {
        unseen(bs.drop_last(), all, k).push(bs.last())
    } else {
        unseen(bs.drop_last(), all, k)
    }
}

/// The lines of the blocks, one block after the other.
pub open spec fn block_lines(bs: Seq<Block>) -> Seq<Seq<char>>
    decreases bs.len(),
{
    if bs.len() == 0 {
        Seq::empty()
    } else {
        block_lines(bs.drop_last()) + bs.last().lines
    }
}

/// The first `k` sections: each header with its blocks by their ids and an empty
/// line. A header without blocks is left out.
pub open spec fn section_lines(headers: Seq<Seq<char>>, all: Seq<Block>, k: int) -> Seq<Seq<char>>
    decreases k,
{
    if k <= 0 {
        Seq::empty()
    } else {
        let mine = under(by_id(all), all, k);
        let rest = section_lines(headers, all, k - 1);
        if mine.len() == 0 {
            rest
        } else {
            rest.push(headers[k - 1]) + block_lines(mine) + seq![Seq::empty()]
        }
    }
}

/// The lines without empty ones at the end.
pub open spec fn without_empty_tail(ls: Seq<Seq<char>>) -> Seq<Seq<char>>
    decreases ls.len(),
{
    if ls.len() > 0 && ls.last().len() == 0 {
        without_empty_tail(ls.drop_last())
    } else {
        ls
    }
}

/// The lines of a file in order: the sections, and behind them the blocks that
/// stand under no header.
pub open spec fn ordered_lines(ps: Seq<Part>) -> Seq<Seq<char>> {
    let headers = header_lines(ps);
    let all = blocks(ps);
    let n = headers.len() as int;
    without_empty_tail(
        section_lines(headers, all, n) + block_lines(unseen(by_id(all), all, n)),
    )
}

/// The lines as a text. Unless it is empty it ends in a line feed.
pub open spec fn closed_text(ls: Seq<Seq<char>>) -> Seq<char> {
    let s = joined(ls, newline());
    if s.len() == 0 {
        s
    } else {
        s + newline()
    }
}

/// A file's content with its messages in order.
pub open spec fn reordered(content: Seq<char>) -> Seq<char> {
    closed_text(ordered_lines(parts(lines(content), 0)))
}

// ---------------------------------------------------------------------------
// Reading the parts
// ---------------------------------------------------------------------------

/// A message block of a file.
struct MessageBlock {
    /// The number of date headers above the block.
    section: usize,
    /// The id in the block's tag.
    id: i32,
    /// The first line of the block.
    from: usize,
    /// The line behind the block.
    to: usize,
}

impl MessageBlock {
    /// The block in a file of these lines.
    spec fn of(self, ls: Seq<Seq<char>>) -> Block {
        Block {
            section: self.section as int,
            id: self.id as int,
            lines: ls.subrange(self.from as int, self.to as int),
        }
    }
}

/// The blocks in a file of these lines.
spec fn blocks_of(ls: Seq<Seq<char>>, v: Seq<MessageBlock>) -> Seq<Block> {
    v.map_values(|b: MessageBlock| b.of(ls))
}

spec fn in_bounds(ls: Seq<Seq<char>>, v: Seq<MessageBlock>) -> bool {
    forall|i: int| 0 <= i < v.len() ==> (#[trigger] v[i]).from <= v[i].to <= ls.len()
}

/// The headers at the given line numbers.
spec fn headers_of(ls: Seq<Seq<char>>, v: Seq<usize>) -> Seq<Seq<char>> {
    v.map_values(|i: usize| ls[i as int])
}

/// Whether a line is a fence and nothing else.
pub fn is_pure_fence(line: &[char]) -> (r: bool)
    ensures
        r == pure_fence(line@),
{
    let s = trim(line);
    if s.len() < 5 {
        return false;
    }
    let mut i: usize = 0;
    while i < s.len()
        invariant
            i <= s.len(),
            s@ == trimmed(line@),
            forall|j: int| 0 <= j < i ==> #[trigger] s@[j] == '`',
        decreases s.len() - i,
    {
        if s[i] != '`' {
            assert(s@[i as int] != '`');
            return false;
        }
        i += 1;
    }
    true
}

/// The first line from `from` on with at least `n` backticks in a row, or the number
/// of lines.
fn find_closing_line(ls: &Vec<Vec<char>>, from: usize, n: usize) -> (r: usize)
    requires
        from <= ls.len(),
    ensures
        from <= r <= ls.len(),
        r == closing_line(texts(ls@), from as int, n as int),
{
    let mut i: usize = from;
    while i < ls.len()
        invariant
            from <= i <= ls.len(),
            closing_line(texts(ls@), from as int, n as int) == closing_line(
                texts(ls@),
                i as int,
                n as int,
            ),
        decreases ls.len() - i,
    {
        if longest_run(ls[i].as_slice()) >= n {
            return i;
        }
        i += 1;
    }
    i
}

/// A step of reading the parts: the part found, if any, and the line to go on from.
struct Step {
    header: bool,
    message: Option<i32>,
    next: usize,
}

impl Step {
    /// What the step found in a file of these lines at line `i`.
    spec fn found(self, ls: Seq<Seq<char>>, i: int) -> Seq<Part> {
        if self.header {
            seq![Part::Header(ls[i])]
        } else {
            match self.message {
                Some(id) => seq![Part::Message(id as int, ls.subrange(i, self.next as int))],
                None => Seq::empty(),
            }
        }
    }
}

/// Reads the part at line `i`.
fn read_part(ls: &Vec<Vec<char>>, i: usize) -> (r: Step)
    requires
        i < ls.len(),
    ensures
        i < r.next <= ls.len(),
        parts(texts(ls@), i as int) == r.found(texts(ls@), i as int) + parts(
            texts(ls@),
            r.next as int,
        ),
{
    let ghost all = texts(ls@);
    let line = ls[i].as_slice();
    let s = trim(line);
    assert(all[i as int] == line@);
    assert(Seq::<Part>::empty() + parts(all, i + 1) =~= parts(all, i + 1));
    if s.len() == 0 {
        return Step { header: false, message: None, next: i + 1 };
    }
    if is_header_line(s) {
        return Step { header: true, message: None, next: i + 1 };
    }
    let tag = read_first_id(line);
    if tag.is_some() {
        assert(all.subrange(i as int, i + 1) =~= seq![all[i as int]]);
        return Step { header: false, message: tag, next: i + 1 };
    }
    let n = longest_run(line);
    if n < 5 {
        return Step { header: false, message: None, next: i + 1 };
    }
    let e = find_closing_line(ls, i + 1, n);
    if e == ls.len() {
        assert(parts(all, e as int) =~= Seq::<Part>::empty());
        assert(Seq::<Part>::empty() + Seq::<Part>::empty() =~= Seq::<Part>::empty());
        return Step { header: false, message: None, next: e };
    }
    assert(Seq::<Part>::empty() + parts(all, e + 1) =~= parts(all, e + 1));
    if is_pure_fence(ls[e].as_slice()) {
        if e + 1 < ls.len() {
            let tag = read_first_id(ls[e + 1].as_slice());
            if tag.is_some() {
                return Step { header: false, message: tag, next: e + 2 };
            }
        }
        Step { header: false, message: None, next: e + 1 }
    } else {
        Step { header: false, message: read_first_id(ls[e].as_slice()), next: e + 1 }
    }
}

/// The headers and the blocks of a file.
fn read_parts(ls: &Vec<Vec<char>>) -> (r: (Vec<usize>, Vec<MessageBlock>))
    ensures
        headers_of(texts(ls@), r.0@) == header_lines(parts(texts(ls@), 0)),
        blocks_of(texts(ls@), r.1@) == blocks(parts(texts(ls@), 0)),
        forall|i: int| 0 <= i < r.0.len() ==> #[trigger] r.0[i] < ls.len(),
        in_bounds(texts(ls@), r.1@),
        r.0.len() <= ls.len(),
{
    let ghost all = texts(ls@);
    let ghost mut done: Seq<Part> = Seq::empty();
    let mut headers: Vec<usize> = Vec::new();
    let mut bs: Vec<MessageBlock> = Vec::new();
    let mut i: usize = 0;
    assert(done + parts(all, 0) =~= parts(all, 0));
    assert(headers_of(all, headers@) =~= header_lines(done));
    assert(blocks_of(all, bs@) =~= blocks(done));
    while i < ls.len()
        invariant
            i <= ls.len(),
            all == texts(ls@),
            done + parts(all, i as int) == parts(all, 0),
            headers_of(all, headers@) == header_lines(done),
            blocks_of(all, bs@) == blocks(done),
            forall|j: int| 0 <= j < headers.len() ==> #[trigger] headers[j] < ls.len(),
            in_bounds(all, bs@),
            headers.len() <= i,
        decreases ls.len() - i,
    {
        let step = read_part(ls, i);
        let ghost before = done;
        proof {
            done = before + step.found(all, i as int);
            assert(before + (step.found(all, i as int) + parts(all, step.next as int)) =~= done
                + parts(all, step.next as int));
        }
        if step.header {
            let ghost hs = headers_of(all, headers@);
            headers.push(i);
            assert(done.drop_last() =~= before);
            assert(headers_of(all, headers@) =~= hs.push(all[i as int]));
        } else {
            match step.message {
                Some(id) => {
                    let ghost old_bs = blocks_of(all, bs@);
                    let b = MessageBlock { section: headers.len(), id, from: i, to: step.next };
                    bs.push(b);
                    assert(done.drop_last() =~= before);
                    assert(blocks_of(all, bs@) =~= old_bs.push(b.of(all)));
                },
                None => {
                    assert(done =~= before);
                },
            }
        }
        i = step.next;
    }
    assert(parts(all, i as int) =~= Seq::empty());
    assert(done + Seq::<Part>::empty() =~= done);
    (headers, bs)
}

// ---------------------------------------------------------------------------
// Writing them in order
// ---------------------------------------------------------------------------

/// The blocks picked by the given indices.
spec fn picked(bs: Seq<Block>, order: Seq<usize>) -> Seq<Block> {
    order.map_values(|i: usize| bs[i as int])
}

spec fn indices(order: Seq<usize>, n: int) -> bool {
    forall|i: int| 0 <= i < order.len() ==> #[trigger] order[i] < n
}

/// Puts the index of a block behind those of all blocks with no larger id.
fn insert_index(order: &mut Vec<usize>, bs: &Vec<MessageBlock>, b: usize, Ghost(ls): Ghost<Seq<Seq<char>>>)
    requires
        b < bs.len(),
        indices(old(order)@, bs.len() as int),
    ensures
        indices(final(order)@, bs.len() as int),
        picked(blocks_of(ls, bs@), final(order)@) == inserted(
            picked(blocks_of(ls, bs@), old(order)@),
            blocks_of(ls, bs@)[b as int],
        ),
{
    let ghost all = blocks_of(ls, bs@);
    let ghost start = order@;
    let mut i: usize = order.len();
    proof {
        let whole = inserted(picked(all, start), all[b as int]);
        assert(start.take(start.len() as int) =~= start);
        assert(picked(all, start.skip(start.len() as int)) =~= Seq::empty());
        assert(whole + Seq::<Block>::empty() =~= whole);
    }
    while i > 0 && bs[order[i - 1]].id > bs[b].id
        invariant
            b < bs.len(),
            i <= order.len(),
            order@ == start,
            all == blocks_of(ls, bs@),
            indices(order@, bs.len() as int),
            inserted(picked(all, start), all[b as int]) == inserted(
                picked(all, start.take(i as int)),
                all[b as int],
            ) + picked(all, start.skip(i as int)),
        decreases i,
    {
        proof {
            let front = picked(all, start.take(i as int));
            let x = all[start[i - 1] as int];
            assert(front.last() == x);
            assert(front.drop_last() =~= picked(all, start.take(i - 1)));
            assert(picked(all, start.skip(i - 1)) =~= seq![x] + picked(all, start.skip(i as int)));
            assert(inserted(front.drop_last(), all[b as int]).push(x) + picked(
                all,
                start.skip(i as int),
            ) =~= inserted(front.drop_last(), all[b as int]) + (seq![x] + picked(
                all,
                start.skip(i as int),
            )));
        }
        i -= 1;
    }
    proof {
        let front = picked(all, start.take(i as int));
        if i > 0 {
            assert(front.last() == all[start[i - 1] as int]);
        }
        assert(inserted(front, all[b as int]) == front.push(all[b as int]));
    }
    order.insert(i, b);
    proof {
        let front = picked(all, start.take(i as int));
        assert(picked(all, order@) =~= front.push(all[b as int]) + picked(
            all,
            start.skip(i as int),
        ));
    }
}

/// The indices of the blocks by their ids.
fn sort_blocks(bs: &Vec<MessageBlock>, Ghost(ls): Ghost<Seq<Seq<char>>>) -> (r: Vec<usize>)
    ensures
        indices(r@, bs.len() as int),
        picked(blocks_of(ls, bs@), r@) == by_id(blocks_of(ls, bs@)),
{
    let ghost all = blocks_of(ls, bs@);
    let mut order: Vec<usize> = Vec::new();
    let mut i: usize = 0;
    assert(picked(all, order@) =~= by_id(all.take(0)));
    while i < bs.len()
        invariant
            i <= bs.len(),
            all == blocks_of(ls, bs@),
            indices(order@, bs.len() as int),
            picked(all, order@) == by_id(all.take(i as int)),
        decreases bs.len() - i,
    {
        insert_index(&mut order, bs, i, Ghost(ls));
        assert(all.take(i + 1).drop_last() =~= all.take(i as int));
        i += 1;
    }
    assert(all.take(all.len() as int) =~= all);
    order
}

/// Whether a block with that id stands under one of the first `k` headers.
fn is_seen(bs: &Vec<MessageBlock>, id: i32, k: usize, Ghost(ls): Ghost<Seq<Seq<char>>>) -> (r: bool)
    ensures
        r == seen(blocks_of(ls, bs@), id as int, k as int),
{
    let ghost all = blocks_of(ls, bs@);
    let mut i: usize = 0;
    while i < bs.len()
        invariant
            i <= bs.len(),
            all == blocks_of(ls, bs@),
            forall|j: int|
                0 <= j < i ==> !(1 <= (#[trigger] all[j]).section <= k && all[j].id == id),
        decreases bs.len() - i,
    {
        if 1 <= bs[i].section && bs[i].section <= k && bs[i].id == id {
            assert(all[i as int].id == id);
            return true;
        }
        i += 1;
    }
    false
}

/// Appends copies of the lines from `from` to `to`.
fn append_lines(out: &mut Vec<Vec<char>>, ls: &Vec<Vec<char>>, from: usize, to: usize)
    requires
        from <= to <= ls.len(),
    ensures
        texts(final(out)@) == texts(old(out)@) + texts(ls@).subrange(from as int, to as int),
{
    let ghost all = texts(ls@);
    let ghost start = texts(out@);
    let mut i: usize = from;
    while i < to
        invariant
            from <= i <= to <= ls.len(),
            all == texts(ls@),
            texts(out@) == start + all.subrange(from as int, i as int),
        decreases to - i,
    {
        let ghost before = texts(out@);
        out.push(copied(ls[i].as_slice()));
        assert(texts(out@) =~= before.push(all[i as int]));
        assert(all.subrange(from as int, i + 1) =~= all.subrange(from as int, i as int).push(
            all[i as int],
        ));
        i += 1;
    }
    assert(all.subrange(from as int, from as int) =~= Seq::empty());
}

/// Appends the section of the header number `k`, unless it holds no blocks.
fn append_section(
    out: &mut Vec<Vec<char>>,
    ls: &Vec<Vec<char>>,
    header: usize,
    bs: &Vec<MessageBlock>,
    order: &Vec<usize>,
    k: usize,
)
    requires
        1 <= k,
        header < ls.len(),
        in_bounds(texts(ls@), bs@),
        indices(order@, bs.len() as int),
    ensures
        ({
            let all = blocks_of(texts(ls@), bs@);
            let mine = under(picked(all, order@), all, k as int);
            texts(final(out)@) == (if mine.len() == 0 {
                texts(old(out)@)
            } else {
                texts(old(out)@).push(texts(ls@)[header as int]) + block_lines(mine) + seq![
                    Seq::empty(),
                ]
            })
        }),
{
    let ghost file = texts(ls@);
    let ghost all = blocks_of(file, bs@);
    let ghost sorted = picked(all, order@);
    let ghost start = texts(out@);
    let mut found = false;
    let mut i: usize = 0;
    while i < order.len()
        invariant
            1 <= k,
            header < ls.len(),
            file == texts(ls@),
            in_bounds(file, bs@),
            indices(order@, bs.len() as int),
            all == blocks_of(file, bs@),
            sorted == picked(all, order@),
            i <= order.len(),
            found == (under(sorted.take(i as int), all, k as int).len() > 0),
            texts(out@) == (if found {
                start.push(file[header as int]) + block_lines(
                    under(sorted.take(i as int), all, k as int),
                )
            } else {
                start
            }),
        decreases order.len() - i,
    {
        let ghost before = under(sorted.take(i as int), all, k as int);
        proof {
            assert(sorted.take(i + 1).drop_last() =~= sorted.take(i as int));
            assert(sorted.take(i + 1).last() == all[order[i as int] as int]);
        }
        let b = order[i];
        if bs[b].section == k && !is_seen(bs, bs[b].id, k - 1, Ghost(file)) {
            if !found {
                out.push(copied(ls[header].as_slice()));
                assert(texts(out@) =~= start.push(file[header as int]));
                assert(block_lines(before) =~= Seq::empty());
                assert(start.push(file[header as int]) + block_lines(before) =~= start.push(
                    file[header as int],
                ));
                found = true;
            }
            let ghost mid = texts(out@);
            append_lines(out, ls, bs[b].from, bs[b].to);
            proof {
                let x = all[b as int];
                assert(before.push(x).drop_last() =~= before);
                assert(mid + x.lines =~= start.push(file[header as int]) + (block_lines(before)
                    + x.lines));
            }
        }
        i += 1;
    }
    assert(sorted.take(sorted.len() as int) =~= sorted);
    if found {
        let ghost mid = texts(out@);
        let empty: Vec<char> = Vec::new();
        out.push(empty);
        assert(empty@ =~= Seq::empty());
        assert(texts(out@) =~= mid + seq![Seq::empty()]);
    }
}

/// Appends the blocks whose ids stand under none of the first `k` headers.
fn append_unseen(
    out: &mut Vec<Vec<char>>,
    ls: &Vec<Vec<char>>,
    bs: &Vec<MessageBlock>,
    order: &Vec<usize>,
    k: usize,
)
    requires
        in_bounds(texts(ls@), bs@),
        indices(order@, bs.len() as int),
    ensures
        ({
            let all = blocks_of(texts(ls@), bs@);
            texts(final(out)@) == texts(old(out)@) + block_lines(
                unseen(picked(all, order@), all, k as int),
            )
        }),
{
    let ghost file = texts(ls@);
    let ghost all = blocks_of(file, bs@);
    let ghost sorted = picked(all, order@);
    let ghost start = texts(out@);
    let mut i: usize = 0;
    assert(start + Seq::<Seq<char>>::empty() =~= start);
    while i < order.len()
        invariant
            file == texts(ls@),
            in_bounds(file, bs@),
            indices(order@, bs.len() as int),
            all == blocks_of(file, bs@),
            sorted == picked(all, order@),
            i <= order.len(),
            texts(out@) == start + block_lines(unseen(sorted.take(i as int), all, k as int)),
        decreases order.len() - i,
    {
        let ghost before = unseen(sorted.take(i as int), all, k as int);
        proof {
            assert(sorted.take(i + 1).drop_last() =~= sorted.take(i as int));
            assert(sorted.take(i + 1).last() == all[order[i as int] as int]);
        }
        let b = order[i];
        if !is_seen(bs, bs[b].id, k, Ghost(file)) {
            append_lines(out, ls, bs[b].from, bs[b].to);
            proof {
                let x = all[b as int];
                assert(before.push(x).drop_last() =~= before);
                assert(start + block_lines(before) + x.lines =~= start + (block_lines(before)
                    + x.lines));
            }
        }
        i += 1;
    }
    assert(sorted.take(sorted.len() as int) =~= sorted);
}

/// Drops empty lines at the end.
fn drop_empty_tail(out: &mut Vec<Vec<char>>)
    ensures
        texts(final(out)@) == without_empty_tail(texts(old(out)@)),
{
    let ghost start = texts(out@);
    while out.len() > 0 && out[out.len() - 1].len() == 0
        invariant
            without_empty_tail(start) == without_empty_tail(texts(out@)),
        decreases out.len(),
    {
        let ghost before = texts(out@);
        out.pop();
        assert(texts(out@) =~= before.drop_last());
    }
    proof {
        if out.len() > 0 {
            assert(texts(out@).last() == out[out.len() - 1]@);
        }
    }
}

/// The lines as a text that ends in a line feed, unless it is empty.
pub fn close_text(ls: &Vec<Vec<char>>) -> (r: Vec<char>)
    ensures
        r@ == closed_text(texts(ls@)),
{
    let mut r = join_lines(ls);
    if r.len() > 0 {
        r.push('\n');
        assert(r@ =~= joined(texts(ls@), newline()) + newline());
    }
    r
}

/// Puts the messages in the order of their ids, each under its own date header.
pub fn reorder_chars(content: &[char]) -> (r: Vec<char>)
    ensures
        r@ == reordered(content@),
{
    let ls = split_lines(content);
    let ghost file = texts(ls@);
    let (headers, bs) = read_parts(&ls);
    let ghost all = blocks_of(file, bs@);
    let ghost hs = headers_of(file, headers@);
    let order = sort_blocks(&bs, Ghost(file));
    let mut out: Vec<Vec<char>> = Vec::new();
    let mut k: usize = 0;
    assert(texts(out@) =~= section_lines(hs, all, 0));
    while k < headers.len()
        invariant
            k <= headers.len() <= ls.len(),
            file == texts(ls@),
            in_bounds(file, bs@),
            indices(order@, bs.len() as int),
            all == blocks_of(file, bs@),
            hs == headers_of(file, headers@),
            forall|j: int| 0 <= j < headers.len() ==> #[trigger] headers[j] < ls.len(),
            picked(all, order@) == by_id(all),
            texts(out@) == section_lines(hs, all, k as int),
        decreases headers.len() - k,
    {
        append_section(&mut out, &ls, headers[k], &bs, &order, k + 1);
        k += 1;
    }
    append_unseen(&mut out, &ls, &bs, &order, k);
    drop_empty_tail(&mut out);
    close_text(&out)
}

/// Puts the messages in the order of their ids, each under its own date header.
pub fn reorder_messages_by_id(content: &str) -> (r: String)
    ensures
        r@ == reordered(content@),
{
    let out = reorder_chars(to_chars(content).as_slice());
    from_chars(out.as_slice())
}

// ---------------------------------------------------------------------------
// Laws
// ---------------------------------------------------------------------------

/// No block comes before one with a smaller id.
pub open spec fn sorted(bs: Seq<Block>) -> bool {
    forall|i: int, j: int| 0 <= i < j < bs.len() ==> (#[trigger] bs[i]).id <= (#[trigger] bs[j]).id
}

proof fn lemma_inserted(bs: Seq<Block>, b: Block)
    ensures
        inserted(bs, b).len() == bs.len() + 1,
        inserted(bs, b).to_multiset() == bs.to_multiset().insert(b),
        sorted(bs) ==> sorted(inserted(bs, b)),
    decreases bs.len(),
{
    if bs.len() > 0 && bs.last().id > b.id {
        let front = bs.drop_last();
        lemma_inserted(front, b);
        let r = inserted(front, b);
        assert(bs =~= front.push(bs.last()));
        front.to_multiset_ensures();
        r.to_multiset_ensures();
        assert(front.to_multiset().insert(b).insert(bs.last()) =~= front.to_multiset().insert(
            bs.last(),
        ).insert(b));
        if sorted(bs) {
            assert forall|i: int| 0 <= i < r.len() implies (#[trigger] r[i]).id <= bs.last().id by {
                lemma_inserted_from(front, b, i);
            }
        }
    } else {
        bs.to_multiset_ensures();
    }
}

/// Each block after an insertion was there before or is the inserted one.
proof fn lemma_inserted_from(bs: Seq<Block>, b: Block, i: int)
    requires
        0 <= i < inserted(bs, b).len(),
    ensures
        inserted(bs, b)[i] == b || exists|j: int|
            0 <= j < bs.len() && bs[j] == inserted(bs, b)[i],
    decreases bs.len(),
{
    if bs.len() > 0 && bs.last().id > b.id {
        if i < inserted(bs.drop_last(), b).len() {
            lemma_inserted_from(bs.drop_last(), b, i);
            if inserted(bs, b)[i] != b {
                let j = choose|j: int|
                    0 <= j < bs.drop_last().len() && bs.drop_last()[j] == inserted(
                        bs.drop_last(),
                        b,
                    )[i];
                assert(bs[j] == inserted(bs, b)[i]);
            }
        } else {
            assert(bs[bs.len() - 1] == inserted(bs, b)[i]);
        }
    } else if i < bs.len() {
        assert(bs[i] == inserted(bs, b)[i]);
    }
}

/// Sorting by ids keeps all blocks and leaves no block before one with a smaller id.
pub proof fn law_by_id_sorts(bs: Seq<Block>)
    ensures
        sorted(by_id(bs)),
        by_id(bs).to_multiset() == bs.to_multiset(),
    decreases bs.len(),
{
    if bs.len() > 0 {
        law_by_id_sorts(bs.drop_last());
        lemma_inserted(by_id(bs.drop_last()), bs.last());
        assert(bs =~= bs.drop_last().push(bs.last()));
        bs.drop_last().to_multiset_ensures();
    } else {
        assert(by_id(bs) =~= bs);
    }
}

/// Sorting keeps the order of blocks with one id.
pub proof fn law_by_id_stable(bs: Seq<Block>, id: int)
    ensures
        with_id(by_id(bs), id) == with_id(bs, id),
    decreases bs.len(),
{
    if bs.len() > 0 {
        law_by_id_stable(bs.drop_last(), id);
        law_by_id_sorts(bs.drop_last());
        lemma_inserted_with_id(by_id(bs.drop_last()), bs.last(), id);
    }
}

/// The blocks with that id.
pub open spec fn with_id(bs: Seq<Block>, id: int) -> Seq<Block>
    decreases bs.len(),
{
    if bs.len() == 0 {
        Seq::empty()
    } else if bs.last().id == id {
        with_id(bs.drop_last(), id).push(bs.last())
    } else {
        with_id(bs.drop_last(), id)
    }
}

proof fn lemma_inserted_with_id(bs: Seq<Block>, b: Block, id: int)
    requires
        sorted(bs),
    ensures
        with_id(inserted(bs, b), id) == (if b.id == id {
            with_id(bs, id).push(b)
        } else {
            with_id(bs, id)
        }),
    decreases bs.len(),
{
    if bs.len() > 0 && bs.last().id > b.id {
        let front = bs.drop_last();
        lemma_inserted_with_id(front, b, id);
        let r = inserted(front, b);
        assert(r.push(bs.last()).drop_last() =~= r);
    } else {
        assert(bs.push(b).drop_last() =~= bs);
    }
}

/// A block that is there stays there under its header, unless its id stands
/// under an earlier header.
proof fn lemma_under_contains(bs: Seq<Block>, all: Seq<Block>, k: int, i: int)
    requires
        0 <= i < bs.len(),
        bs[i].section == k,
        !seen(all, bs[i].id, k - 1),
    ensures
        under(bs, all, k).contains(bs[i]),
    decreases bs.len(),
{
    let front = bs.drop_last();
    if i < bs.len() - 1 {
        lemma_under_contains(front, all, k, i);
        let u = under(front, all, k);
        let j = choose|j: int| 0 <= j < u.len() && u[j] == bs[i];
        assert(under(bs, all, k)[j] == bs[i]);
    } else {
        let u = under(bs, all, k);
        assert(u[u.len() - 1] == bs[i]);
    }
}

proof fn lemma_unseen_contains(bs: Seq<Block>, all: Seq<Block>, k: int, i: int)
    requires
        0 <= i < bs.len(),
        !seen(all, bs[i].id, k),
    ensures
        unseen(bs, all, k).contains(bs[i]),
    decreases bs.len(),
{
    let front = bs.drop_last();
    if i < bs.len() - 1 {
        lemma_unseen_contains(front, all, k, i);
        let u = unseen(front, all, k);
        let j = choose|j: int| 0 <= j < u.len() && u[j] == bs[i];
        assert(unseen(bs, all, k)[j] == bs[i]);
    } else {
        let u = unseen(bs, all, k);
        assert(u[u.len() - 1] == bs[i]);
    }
}

/// A block of a sequence is in the sorted sequence too.
proof fn lemma_by_id_contains(all: Seq<Block>, i: int)
    requires
        0 <= i < all.len(),
    ensures
        by_id(all).contains(all[i]),
{
    law_by_id_sorts(all);
    all.to_multiset_ensures();
    by_id(all).to_multiset_ensures();
    assert(all.contains(all[i]));
    assert(all.to_multiset().count(all[i]) > 0);
}

/// No id is lost: each block's id is that of a block which is written under some
/// header, or the block itself is written behind all headers.
pub proof fn law_no_id_is_lost(all: Seq<Block>, n: int, i: int)
    requires
        0 <= i < all.len(),
        0 <= n,
    ensures
        unseen(by_id(all), all, n).contains(all[i]) || exists|k: int, j: int|
            1 <= k <= n && 0 <= j < under(by_id(all), all, k).len() && (#[trigger] under(
                by_id(all),
                all,
                k,
            )[j]).id == all[i].id,
{
    let id = all[i].id;
    lemma_by_id_contains(all, i);
    let s = by_id(all);
    if !seen(all, id, n) {
        let j = choose|j: int| 0 <= j < s.len() && s[j] == all[i];
        lemma_unseen_contains(s, all, n, j);
    } else {
        lemma_first_seen(all, id, n);
        let j = choose|j: int|
            0 <= j < all.len() && 1 <= (#[trigger] all[j]).section <= n && all[j].id == id && !seen(
                all,
                id,
                all[j].section - 1,
            );
        let k = all[j].section;
        lemma_by_id_contains(all, j);
        let m = choose|m: int| 0 <= m < s.len() && s[m] == all[j];
        lemma_under_contains(s, all, k, m);
        let u = under(s, all, k);
        let x = choose|x: int| 0 <= x < u.len() && u[x] == all[j];
        assert(under(by_id(all), all, k)[x].id == id);
    }
}

/// Where an id stands under some header, it stands under a first one.
proof fn lemma_first_seen(all: Seq<Block>, id: int, n: int)
    requires
        seen(all, id, n),
    ensures
        exists|j: int|
            0 <= j < all.len() && 1 <= (#[trigger] all[j]).section <= n && all[j].id == id && !seen(
                all,
                id,
                all[j].section - 1,
            ),
    decreases n,
{
    let j = choose|j: int|
        0 <= j < all.len() && 1 <= (#[trigger] all[j]).section <= n && all[j].id == id;
    if seen(all, id, all[j].section - 1) {
        lemma_first_seen(all, id, all[j].section - 1);
    }
}

/// Each message holds its own tag and no other.
pub open spec fn one_tag_each(bs: Seq<Block>) -> bool {
    forall|i: int|
        0 <= i < bs.len() ==> ids_of_lines((#[trigger] bs[i]).lines) == seq![bs[i].id]
}

/// Each message stands under a header, messages under one header have ids of
/// their own, and no message under a later header has a smaller id.
pub open spec fn days_in_order(bs: Seq<Block>) -> bool {
    &&& forall|i: int| 0 <= i < bs.len() ==> 1 <= (#[trigger] bs[i]).section
    &&& apart(bs)
    &&& forall|i: int, j: int|
        0 <= i < bs.len() && 0 <= j < bs.len() && (#[trigger] bs[i]).section < (
        #[trigger] bs[j]).section ==> bs[i].id < bs[j].id
}

/// Messages under one header have ids of their own.
pub open spec fn apart(bs: Seq<Block>) -> bool {
    forall|i: int, j: int|
        0 <= i < bs.len() && 0 <= j < bs.len() && i != j && (#[trigger] bs[i]).section == (
        #[trigger] bs[j]).section ==> bs[i].id != bs[j].id
}

proof fn lemma_inserted_apart(bs: Seq<Block>, b: Block)
    requires
        apart(bs.push(b)),
    ensures
        apart(inserted(bs, b)),
    decreases bs.len(),
{
    if bs.len() > 0 && bs.last().id > b.id {
        let front = bs.drop_last();
        let all = bs.push(b);
        let fb = front.push(b);
        assert forall|i: int, j: int|
            0 <= i < fb.len() && 0 <= j < fb.len() && i != j && (#[trigger] fb[i]).section == (
            #[trigger] fb[j]).section implies fb[i].id != fb[j].id by {
            let x = if i < front.len() {
                i
            } else {
                i + 1
            };
            let y = if j < front.len() {
                j
            } else {
                j + 1
            };
            assert(all[x] == fb[i]);
            assert(all[y] == fb[j]);
        }
        lemma_inserted_apart(front, b);
        let r = inserted(front, b);
        let last = bs.last();
        assert forall|i: int| 0 <= i < r.len() && (#[trigger] r[i]).section == last.section implies
            r[i].id != last.id by {
            lemma_inserted_from(front, b, i);
            assert(all[bs.len() - 1] == last);
            if r[i] == b {
                assert(all[bs.len() as int] == b);
            } else {
                let j = choose|j: int| 0 <= j < front.len() && front[j] == r[i];
                assert(all[j] == r[i]);
            }
        }
    }
}

proof fn lemma_by_id_apart(bs: Seq<Block>)
    requires
        apart(bs),
    ensures
        apart(by_id(bs)),
    decreases bs.len(),
{
    if bs.len() > 0 {
        let front = bs.drop_last();
        let s = by_id(front);
        assert(apart(front)) by {
            assert forall|i: int, j: int|
                0 <= i < front.len() && 0 <= j < front.len() && i != j && (
                #[trigger] front[i]).section == (#[trigger] front[j]).section implies front[i].id
                != front[j].id by {
                assert(bs[i] == front[i]);
                assert(bs[j] == front[j]);
            }
        }
        lemma_by_id_apart(front);
        let sb = s.push(bs.last());
        assert forall|i: int| 0 <= i < s.len() && (#[trigger] s[i]).section
            == bs.last().section implies s[i].id != bs.last().id by {
            lemma_by_id_from(front, i);
            let j = choose|j: int| 0 <= j < front.len() && front[j] == s[i];
            assert(bs[j] == s[i]);
            assert(bs[bs.len() - 1] == bs.last());
        }
        assert(apart(sb));
        lemma_inserted_apart(s, bs.last());
    }
}

/// Each sorted block is one of the blocks.
pub proof fn lemma_by_id_from(all: Seq<Block>, i: int)
    requires
        0 <= i < by_id(all).len(),
    ensures
        exists|j: int| 0 <= j < all.len() && all[j] == by_id(all)[i],
{
    law_by_id_sorts(all);
    all.to_multiset_ensures();
    by_id(all).to_multiset_ensures();
    assert(by_id(all).contains(by_id(all)[i]));
    assert(all.to_multiset().count(by_id(all)[i]) > 0);
    assert(all.contains(by_id(all)[i]));
}

/// What is written under a header is there, under that header, by its ids.
proof fn lemma_under(bs: Seq<Block>, all: Seq<Block>, k: int)
    requires
        sorted(bs),
        apart(bs),
    ensures
        forall|i: int|
            0 <= i < under(bs, all, k).len() ==> (#[trigger] under(bs, all, k)[i]).section == k
                && bs.contains(under(bs, all, k)[i]),
        forall|i: int, j: int|
            0 <= i < j < under(bs, all, k).len() ==> (#[trigger] under(bs, all, k)[i]).id < (
            #[trigger] under(bs, all, k)[j]).id,
    decreases bs.len(),
{
    if bs.len() > 0 {
        let front = bs.drop_last();
        assert forall|i: int, j: int|
            0 <= i < front.len() && 0 <= j < front.len() && i != j && (#[trigger] front[i]).section
                == (#[trigger] front[j]).section implies front[i].id != front[j].id by {
            assert(bs[i] == front[i]);
            assert(bs[j] == front[j]);
        }
        lemma_under(front, all, k);
        let u = under(front, all, k);
        let r = under(bs, all, k);
        assert forall|i: int| 0 <= i < u.len() implies bs.contains(#[trigger] u[i]) && (
        bs.last().section == k ==> u[i].id < bs.last().id) by {
            let j = choose|j: int| 0 <= j < front.len() && front[j] == u[i];
            assert(bs[j] == u[i]);
            assert(bs[bs.len() - 1] == bs.last());
        }
        assert(bs.contains(bs.last())) by {
            assert(bs[bs.len() - 1] == bs.last());
        }
        assert forall|i: int| 0 <= i < r.len() implies (#[trigger] r[i]).section == k
            && bs.contains(r[i]) by {
            if i < u.len() {
                assert(r[i] == u[i]);
            }
        }
    }
}

/// The ids on the lines of blocks with one tag each are the blocks' ids.
proof fn lemma_block_lines_ids(bs: Seq<Block>)
    requires
        one_tag_each(bs),
    ensures
        ids_of_lines(block_lines(bs)) == bs.map_values(|b: Block| b.id),
    decreases bs.len(),
{
    if bs.len() > 0 {
        let front = bs.drop_last();
        assert forall|i: int| 0 <= i < front.len() implies ids_of_lines((#[trigger] front[i]).lines)
            == seq![front[i].id] by {
            assert(bs[i] == front[i]);
        }
        lemma_block_lines_ids(front);
        lemma_ids_of_lines_concat(block_lines(front), bs.last().lines);
        assert(bs[bs.len() - 1] == bs.last());
        assert(bs.map_values(|b: Block| b.id) =~= front.map_values(|b: Block| b.id) + seq![
            bs.last().id,
        ]);
    } else {
        assert(bs.map_values(|b: Block| b.id) =~= Seq::empty());
    }
}

proof fn lemma_empty_tail_ids(ls: Seq<Seq<char>>)
    ensures
        ids_of_lines(without_empty_tail(ls)) == ids_of_lines(ls),
    decreases ls.len(),
{
    if ls.len() > 0 && ls.last().len() == 0 {
        lemma_empty_tail_ids(ls.drop_last());
        assert(tag_ids(ls.last()) =~= Seq::empty());
        assert(ids_of_lines(ls.drop_last()) + Seq::<int>::empty() =~= ids_of_lines(ls.drop_last()));
    }
}

/// The id is that of a block under one of the first `k` headers, or under none.
spec fn from_section(id: int, all: Seq<Block>, k: int) -> bool {
    exists|j: int| 0 <= j < all.len() && (#[trigger] all[j]).section <= k && all[j].id == id
}

spec fn from_sections(ids: Seq<int>, all: Seq<Block>, k: int) -> bool {
    forall|i: int| 0 <= i < ids.len() ==> from_section(#[trigger] ids[i], all, k)
}

/// The ids in the first `k` sections grow, and each is that of a block in them.
proof fn lemma_section_ids(headers: Seq<Seq<char>>, all: Seq<Block>, k: int)
    requires
        0 <= k <= headers.len(),
        forall|i: int| 0 <= i < headers.len() ==> header_line(trimmed(#[trigger] headers[i])),
        one_tag_each(all),
        days_in_order(all),
    ensures
        increasing(ids_of_lines(section_lines(headers, all, k))),
        from_sections(ids_of_lines(section_lines(headers, all, k)), all, k),
    decreases k,
{
    if k > 0 {
        lemma_section_ids(headers, all, k - 1);
        let s = by_id(all);
        law_by_id_sorts(all);
        lemma_by_id_apart(all);
        lemma_under(s, all, k);
        let mine = under(s, all, k);
        let rest = section_lines(headers, all, k - 1);
        if mine.len() > 0 {
            let h = headers[k - 1];
            let all_lines = section_lines(headers, all, k);
            lemma_header_no_tags(h);
            lemma_ids_of_one(h);
            lemma_ids_of_one(Seq::empty());
            assert(tag_ids(Seq::empty()) =~= Seq::<int>::empty());
            assert forall|i: int| 0 <= i < mine.len() implies ids_of_lines(
                (#[trigger] mine[i]).lines,
            ) == seq![mine[i].id] && exists|j: int|
                0 <= j < all.len() && (#[trigger] all[j]).section == k && all[j].id
                    == mine[i].id by {
                let m = choose|m: int| 0 <= m < s.len() && s[m] == mine[i];
                lemma_by_id_from(all, m);
                let j = choose|j: int| 0 <= j < all.len() && all[j] == s[m];
                assert(all[j].section == k && all[j].id == mine[i].id);
            }
            lemma_block_lines_ids(mine);
            let new = mine.map_values(|b: Block| b.id);
            lemma_ids_of_lines_concat(rest, seq![h]);
            assert(rest.push(h) =~= rest + seq![h]);
            lemma_ids_of_lines_concat(rest + seq![h], block_lines(mine));
            lemma_ids_of_lines_concat(rest + seq![h] + block_lines(mine), seq![Seq::empty()]);
            let old_ids = ids_of_lines(rest);
            let ids = ids_of_lines(all_lines);
            assert(ids =~= old_ids + new);
            assert forall|i: int| 0 <= i < ids.len() implies from_section(
                #[trigger] ids[i],
                all,
                k,
            ) by {
                if i < old_ids.len() {
                    assert(ids[i] == old_ids[i]);
                    assert(from_section(old_ids[i], all, k - 1));
                    let j = choose|j: int|
                        0 <= j < all.len() && (#[trigger] all[j]).section <= k - 1 && all[j].id
                            == old_ids[i];
                    assert(all[j].section <= k && all[j].id == ids[i]);
                } else {
                    let m = i - old_ids.len();
                    assert(ids[i] == mine[m].id);
                    let j = choose|j: int|
                        0 <= j < all.len() && (#[trigger] all[j]).section == k && all[j].id
                            == mine[m].id;
                    assert(all[j].section <= k && all[j].id == ids[i]);
                }
            }
            assert forall|i: int, j: int| 0 <= i < j < ids.len() implies ids[i] < ids[j] by {
                if j < old_ids.len() {
                    assert(ids[i] == old_ids[i] && ids[j] == old_ids[j]);
                } else if i >= old_ids.len() {
                    assert(ids[i] == mine[i - old_ids.len()].id);
                    assert(ids[j] == mine[j - old_ids.len()].id);
                } else {
                    assert(ids[i] == old_ids[i]);
                    assert(from_section(old_ids[i], all, k - 1));
                    let x = choose|x: int|
                        0 <= x < all.len() && (#[trigger] all[x]).section <= k - 1 && all[x].id
                            == old_ids[i];
                    let m = j - old_ids.len();
                    assert(ids[j] == mine[m].id);
                    let y = choose|y: int|
                        0 <= y < all.len() && (#[trigger] all[y]).section == k && all[y].id
                            == mine[m].id;
                    assert(all[x].section < all[y].section);
                }
            }
        } else {
            let ids = ids_of_lines(rest);
            assert forall|i: int| 0 <= i < ids.len() implies from_section(
                #[trigger] ids[i],
                all,
                k,
            ) by {
                assert(from_section(ids[i], all, k - 1));
                let j = choose|j: int|
                    0 <= j < all.len() && (#[trigger] all[j]).section <= k - 1 && all[j].id
                        == ids[i];
                assert(all[j].section <= k && all[j].id == ids[i]);
            }
        }
    } else {
        assert(ids_of_lines(section_lines(headers, all, k)) =~= Seq::empty());
    }
}

/// No block stands below more headers than there are.
proof fn lemma_sections_bounded(ps: Seq<Part>)
    ensures
        forall|i: int|
            0 <= i < blocks(ps).len() ==> (#[trigger] blocks(ps)[i]).section <= header_lines(
                ps,
            ).len(),
    decreases ps.len(),
{
    if ps.len() > 0 {
        let front = ps.drop_last();
        lemma_sections_bounded(front);
        assert forall|i: int| 0 <= i < blocks(ps).len() implies (#[trigger] blocks(ps)[i]).section
            <= header_lines(ps).len() by {
            if i < blocks(front).len() {
                assert(blocks(ps)[i] == blocks(front)[i]);
            }
        }
    }
}

/// What was read as a header is one.
proof fn lemma_parts_headers(ls: Seq<Seq<char>>, i: int)
    requires
        0 <= i,
    ensures
        forall|j: int|
            0 <= j < parts(ls, i).len() ==> match #[trigger] parts(ls, i)[j] {
                Part::Header(line) => header_line(trimmed(line)),
                Part::Message(id, lines) => true,
            },
    decreases ls.len() - i,
{
    if i < ls.len() {
        let n = longest_backticks(ls[i]);
        lemma_closing_line(ls, i + 1, n);
        let e = closing_line(ls, i + 1, n);
        lemma_parts_headers(ls, i + 1);
        if e < ls.len() {
            lemma_parts_headers(ls, e + 1);
            if e + 1 < ls.len() {
                lemma_parts_headers(ls, e + 2);
            }
        }
    }
}

proof fn lemma_header_lines(ps: Seq<Part>)
    requires
        forall|j: int|
            0 <= j < ps.len() ==> match #[trigger] ps[j] {
                Part::Header(line) => header_line(trimmed(line)),
                Part::Message(id, lines) => true,
            },
    ensures
        forall|i: int|
            0 <= i < header_lines(ps).len() ==> header_line(trimmed(#[trigger] header_lines(ps)[i])),
    decreases ps.len(),
{
    if ps.len() > 0 {
        let front = ps.drop_last();
        assert forall|j: int| 0 <= j < front.len() implies match #[trigger] front[j] {
            Part::Header(line) => header_line(trimmed(line)),
            Part::Message(id, lines) => true,
        } by {
            assert(ps[j] == front[j]);
        }
        lemma_header_lines(front);
        assert(ps[ps.len() - 1] == ps.last());
        assert forall|i: int| 0 <= i < header_lines(ps).len() implies header_line(
            trimmed(#[trigger] header_lines(ps)[i]),
        ) by {
            if i < header_lines(front).len() {
                assert(header_lines(ps)[i] == header_lines(front)[i]);
            }
        }
    }
}

/// Where each message holds one tag, and the days follow each other in the order
/// of the ids, the ids in the reordered text are strictly increasing.
pub proof fn law_reordered_ids_increase(content: Seq<char>)
    requires
        one_tag_each(blocks(parts(lines(content), 0))),
        days_in_order(blocks(parts(lines(content), 0))),
    ensures
        increasing(tag_ids(reordered(content))),
{
    let ps = parts(lines(content), 0);
    let headers = header_lines(ps);
    let all = blocks(ps);
    let n = headers.len() as int;
    lemma_parts_headers(lines(content), 0);
    lemma_header_lines(ps);
    lemma_section_ids(headers, all, n);
    lemma_sections_bounded(ps);
    assert(unseen(by_id(all), all, n) =~= Seq::empty()) by {
        let s = by_id(all);
        assert forall|i: int| 0 <= i < s.len() implies seen(all, (#[trigger] s[i]).id, n) by {
            lemma_by_id_from(all, i);
            let j = choose|j: int| 0 <= j < all.len() && all[j] == s[i];
            assert(1 <= all[j].section <= n && all[j].id == s[i].id);
        }
        lemma_none_unseen(s, all, n);
    }
    let whole = section_lines(headers, all, n) + block_lines(unseen(by_id(all), all, n));
    assert(whole =~= section_lines(headers, all, n));
    lemma_empty_tail_ids(whole);
    lemma_closed_text_ids(ordered_lines(ps));
}

/// The lines of a text made of lines are those lines.
pub proof fn lemma_closed_lines(ls: Seq<Seq<char>>)
    requires
        forall|i: int| 0 <= i < ls.len() ==> is_entry(#[trigger] ls[i]),
        ls.len() == 1 ==> ls[0].len() > 0,
    ensures
        lines(closed_text(ls)) == ls,
{
    lemma_closed_lines_chomped(ls);
    assert forall|i: int| 0 <= i < ls.len() implies #[trigger] all_chomped(ls)[i] == ls[i] by {
        assert(is_entry(ls[i]));
    }
    assert(all_chomped(ls) =~= ls);
}

/// The lines of a text made of lines are those lines without the carriage returns at
/// their ends.
pub proof fn lemma_closed_lines_chomped(ls: Seq<Seq<char>>)
    requires
        forall|i: int| 0 <= i < ls.len() ==> lacks(#[trigger] ls[i], '\n'),
        ls.len() == 1 ==> ls[0].len() > 0,
    ensures
        lines(closed_text(ls)) == all_chomped(ls),
{
    if ls.len() > 0 {
        lemma_joined_lines(ls);
        lemma_chomped_lines(ls);
    } else {
        assert(lines(closed_text(ls)) =~= all_chomped(ls));
    }
}

/// The tags of a text made of lines are those of the lines.
pub proof fn lemma_closed_text_ids(ls: Seq<Seq<char>>)
    ensures
        tag_ids(closed_text(ls)) == ids_of_lines(ls),
{
    lemma_tag_ids_joined(ls);
    let s = joined(ls, newline());
    if s.len() > 0 {
        lemma_tag_ids_lines(s, Seq::empty());
        assert(s + newline() + Seq::<char>::empty() =~= s + newline());
        assert(tag_ids(Seq::empty()) =~= Seq::<int>::empty());
        assert(tag_ids(s) + Seq::<int>::empty() =~= tag_ids(s));
    }
}

pub proof fn lemma_none_unseen(bs: Seq<Block>, all: Seq<Block>, n: int)
    requires
        forall|i: int| 0 <= i < bs.len() ==> seen(all, (#[trigger] bs[i]).id, n),
    ensures
        unseen(bs, all, n) == Seq::<Block>::empty(),
    decreases bs.len(),
{
    if bs.len() > 0 {
        let front = bs.drop_last();
        assert forall|i: int| 0 <= i < front.len() implies seen(all, (#[trigger] front[i]).id, n) by {
            assert(bs[i] == front[i]);
        }
        assert(bs[bs.len() - 1] == bs.last());
        lemma_none_unseen(front, all, n);
    }
}

} // verus!
