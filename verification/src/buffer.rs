//! The queue of messages that were accepted and not sent yet. It is kept as a
//! text with an entry on each line, so that it outlives the server.
use vstd::prelude::*;

use crate::decimal::{append_decimal, decimal};
use crate::sync::MessageUpdate;
use crate::text::{
    append_str, chomped, copied, entry_lines, from_chars, is_entry, join_lines, joined,
    lemma_entry_lines, lemma_joined_lines, lemma_lines_are_lines, lemma_lines_concat, lines,
    newline, split_lines, string_texts, texts, to_chars, well_closed,
};

verus! {

/// The queue.
pub struct SendBuffer {
    text: Vec<char>,
}

/// The text of the queue without its first `n` entries.
pub open spec fn popped(text: Seq<char>, n: int) -> Seq<char> {
    let ls = lines(text);
    if n >= ls.len() {
        Seq::empty()
    } else {
        joined(ls.skip(n), newline()) + newline()
    }
}

impl SendBuffer {
    /// The text of the queue.
    pub closed spec fn text(&self) -> Seq<char> {
        self.text@
    }

    /// The queue that a text holds.
    pub fn load(text: &str) -> (r: SendBuffer)
        ensures
            r.text() == text@,
    {
        SendBuffer { text: to_chars(text) }
    }

    /// The text to keep.
    pub fn to_text(&self) -> (r: String)
        ensures
            r@ == self.text(),
    {
        from_chars(self.text.as_slice())
    }

    /// The number of entries.
    pub fn count(&self) -> (r: usize)
        ensures
            r == lines(self.text()).len(),
    {
        let ls = split_lines(self.text.as_slice());
        assert(texts(ls@).len() == ls.len());
        ls.len()
    }

    /// The number of entries as a line of its own.
    pub fn count_text(&self) -> (r: String)
        ensures
            r@ == decimal(lines(self.text()).len() as int) + newline(),
    {
        let mut v: Vec<char> = Vec::new();
        append_decimal(&mut v, self.count() as u128);
        v.push('\n');
        assert(v@ =~= decimal(lines(self.text()).len() as int) + newline());
        from_chars(v.as_slice())
    }

    /// Puts entries behind the others, and says how many there are then.
    pub fn append(&mut self, entries: &Vec<String>) -> (r: usize)
        ensures
            final(self).text() == old(self).text() + entry_lines(string_texts(entries@)),
            r == lines(final(self).text()).len(),
    {
        let ghost all = string_texts(entries@);
        let ghost start = self.text@;
        let mut i: usize = 0;
        assert(start + entry_lines(all.take(0)) =~= start);
        while i < entries.len()
            invariant
                i <= entries.len(),
                all == string_texts(entries@),
                self.text@ == start + entry_lines(all.take(i as int)),
            decreases entries.len() - i,
        {
            let ghost before = entry_lines(all.take(i as int));
            append_str(&mut self.text, entries[i].as_str());
            self.text.push('\n');
            proof {
                assert(all.take(i + 1).drop_last() =~= all.take(i as int));
                assert(all.take(i + 1).last() == entries[i as int]@);
                assert(self.text@ =~= start + (before + entries[i as int]@ + newline()));
            }
            i += 1;
        }
        assert(all.take(all.len() as int) =~= all);
        self.count()
    }

    /// The entries, first come first.
    pub fn snapshot(&self) -> (r: Vec<String>)
        ensures
            string_texts(r@) == lines(self.text()),
    {
        let ls = split_lines(self.text.as_slice());
        let ghost all = texts(ls@);
        let mut r: Vec<String> = Vec::new();
        let mut i: usize = 0;
        while i < ls.len()
            invariant
                i <= ls.len(),
                all == texts(ls@),
                string_texts(r@) == all.take(i as int),
            decreases ls.len() - i,
        {
            let ghost before = string_texts(r@);
            r.push(from_chars(ls[i].as_slice()));
            assert(string_texts(r@) =~= before.push(all[i as int]));
            i += 1;
        }
        assert(all.take(all.len() as int) =~= all);
        r
    }

    /// Drops the first `n` entries, and says how many are left.
    pub fn pop_first(&mut self, n: usize) -> (r: usize)
        ensures
            final(self).text() == popped(old(self).text(), n as int),
            r == lines(final(self).text()).len(),
    {
        let ls = split_lines(self.text.as_slice());
        let ghost all = texts(ls@);
        assert(all.len() == ls.len());
        if n >= ls.len() {
            self.text = Vec::new();
            assert(self.text@ =~= Seq::empty());
            return self.count();
        }
        let mut rest: Vec<Vec<char>> = Vec::new();
        let mut i: usize = n;
        assert(texts(rest@) =~= all.subrange(n as int, n as int));
        while i < ls.len()
            invariant
                n <= i <= ls.len(),
                all == texts(ls@),
                texts(rest@) == all.subrange(n as int, i as int),
            decreases ls.len() - i,
        {
            let ghost before = texts(rest@);
            rest.push(copied(ls[i].as_slice()));
            assert(texts(rest@) =~= before.push(all[i as int]));
            assert(all.subrange(n as int, i + 1) =~= all.subrange(n as int, i as int).push(
                all[i as int],
            ));
            i += 1;
        }
        assert(texts(rest@) =~= all.skip(n as int));
        let mut text = join_lines(&rest);
        text.push('\n');
        assert(text@ =~= joined(all.skip(n as int), newline()) + newline());
        self.text = text;
        self.count()
    }
}

/// All updates are messages to send.
pub open spec fn only_creates(us: Seq<MessageUpdate>) -> bool {
    forall|i: int| 0 <= i < us.len() ==> (#[trigger] us[i]) is Create
}

/// Whether the updates go to the queue: messages to send do, and nothing else.
pub fn can_wait(updates: &Vec<MessageUpdate>) -> (r: bool)
    ensures
        r == only_creates(updates@),
{
    let mut i: usize = 0;
    while i < updates.len()
        invariant
            i <= updates.len(),
            forall|j: int| 0 <= j < i ==> (#[trigger] updates[j]) is Create,
        decreases updates.len() - i,
    {
        match &updates[i] {
            MessageUpdate::Create { .. } => {},
            _ => {
                return false;
            },
        }
        i += 1;
    }
    true
}

// ---------------------------------------------------------------------------
// Laws
// ---------------------------------------------------------------------------

/// Entries that are put into the queue stand behind those that were there.
pub proof fn law_appended_entries(text: Seq<char>, entries: Seq<Seq<char>>)
    requires
        well_closed(text),
        forall|i: int| 0 <= i < entries.len() ==> is_entry(#[trigger] entries[i]),
    ensures
        lines(text + entry_lines(entries)) == lines(text) + entries,
        well_closed(text + entry_lines(entries)),
{
    lemma_entry_lines(entries);
    lemma_lines_concat(text, entry_lines(entries));
    let s = text + entry_lines(entries);
    if entry_lines(entries).len() > 0 {
        assert(s.last() == entry_lines(entries).last());
    } else {
        assert(s =~= text);
    }
}

/// Dropping entries takes them from the front and leaves the others in order.
/// Entries that end in a carriage return are left out of account.
pub proof fn law_popped_entries(text: Seq<char>, n: int)
    requires
        0 <= n,
        forall|i: int|
            0 <= i < lines(text).len() ==> chomped(#[trigger] lines(text)[i]) == lines(text)[i],
    ensures
        lines(popped(text, n)) == (if n < lines(text).len() {
            lines(text).skip(n)
        } else {
            Seq::empty()
        }),
        well_closed(popped(text, n)),
{
    let ls = lines(text);
    if n < ls.len() {
        let rest = ls.skip(n);
        lemma_joined_lines(rest);
        assert forall|i: int| 0 <= i < rest.len() implies is_entry(#[trigger] rest[i]) by {
            assert(rest[i] == ls[n + i]);
            lemma_lines_are_lines(text, n + i);
        }
        lemma_entry_lines(rest);
    } else {
        assert(lines(popped(text, n)) =~= Seq::empty());
    }
}

/// Taking out what was drained leaves the rest of the queue and, behind it, what
/// was put in meanwhile.
pub proof fn law_appends_outlive_a_drain(text: Seq<char>, entries: Seq<Seq<char>>, n: int)
    requires
        well_closed(text),
        0 <= n <= lines(text).len(),
        forall|i: int|
            0 <= i < lines(text).len() ==> chomped(#[trigger] lines(text)[i]) == lines(text)[i],
        forall|i: int| 0 <= i < entries.len() ==> is_entry(#[trigger] entries[i]),
    ensures
        lines(popped(text + entry_lines(entries), n)) == lines(text).skip(n) + entries,
{
    let all = text + entry_lines(entries);
    law_appended_entries(text, entries);
    assert forall|i: int| 0 <= i < lines(all).len() implies chomped(#[trigger] lines(all)[i])
        == lines(all)[i] by {
        if i < lines(text).len() {
            assert(lines(all)[i] == lines(text)[i]);
        } else {
            assert(lines(all)[i] == entries[i - lines(text).len()]);
        }
    }
    law_popped_entries(all, n);
    assert(lines(popped(all, n)) =~= lines(text).skip(n) + entries);
}

} // verus!
