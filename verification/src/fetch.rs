//! Fetching the messages of a topic page by page.
use vstd::prelude::*;

use crate::sort::{law_sorting, put, stable, stable_sort};
use crate::text::to_chars;

verus! {

/// A message that was fetched.
#[derive(Clone, Debug)]
pub struct FetchedMessage {
    pub id: i32,
    /// The second since 1970 at which the message was sent.
    pub date: i32,
    pub text: String,
    /// The message holds a photo.
    pub photo: bool,
    /// The message was sent by the user who is signed in.
    pub is_outgoing: bool,
}

/// What a fetched message says.
pub struct Fetched {
    pub id: int,
    pub date: int,
    pub text: Seq<char>,
    pub photo: bool,
    pub outgoing: bool,
}

impl View for FetchedMessage {
    type V = Fetched;

    open spec fn view(&self) -> Fetched {
        Fetched {
            id: self.id as int,
            date: self.date as int,
            text: self.text@,
            photo: self.photo,
            outgoing: self.is_outgoing,
        }
    }
}

/// What the messages say.
pub open spec fn fetched(v: Seq<FetchedMessage>) -> Seq<Fetched> {
    v.map_values(|m: FetchedMessage| m@)
}

/// An entry of a page of messages.
pub enum PageEntry {
    /// A message, and whether it holds media of any kind.
    Message(FetchedMessage, bool),
    /// A service message or an empty one.
    Service,
}

/// The messages of a page: those that hold a text or media.
pub open spec fn messages_of(page: Seq<PageEntry>) -> Seq<Fetched>
    decreases page.len(),
{
    if page.len() == 0 {
        Seq::empty()
    } else {
        let before = messages_of(page.drop_last());
        match page.last() {
            PageEntry::Message(m, media) => if m.text@.len() == 0 && !media {
                before
            } else {
                before.push(m@)
            },
            PageEntry::Service => before,
        }
    }
}

/// The smallest id of the messages; that of no messages is no id.
pub open spec fn least_id(ms: Seq<Fetched>) -> Option<int>
    decreases ms.len(),
{
    if ms.len() == 0 {
        None
    } else {
        match least_id(ms.drop_last()) {
            None => Some(ms.last().id),
            Some(least) => if ms.last().id < least {
                Some(ms.last().id)
            } else {
                Some(least)
            },
        }
    }
}

/// The number of messages to ask for at a time.
pub const PAGE: usize = 100;

/// What a page leads to: the messages that were fetched, the id below which to go on, and
/// whether there is another page to ask for.
pub open spec fn absorbed(
    seen: Seq<Fetched>,
    offset: int,
    page: Option<Vec<PageEntry>>,
    limit: int,
    new_seen: Seq<Fetched>,
    new_offset: int,
    more: bool,
) -> bool {
    match page {
        None => new_seen == seen && new_offset == offset && !more,
        Some(entries) => {
            let all = seen + messages_of(entries@);
            &&& new_seen == all
            &&& new_offset == (match least_id(all) {
                Some(least) if entries.len() > 0 => least,
                _ => offset,
            })
            &&& more == (entries.len() >= PAGE && all.len() < limit && (match least_id(all) {
                Some(least) => least != offset,
                None => false,
            }))
        },
    }
}

/// The messages of a topic as far as they were fetched.
pub struct TopicFetch {
    messages: Vec<FetchedMessage>,
    offset_id: i32,
}

impl TopicFetch {
    /// The messages that were fetched.
    pub closed spec fn seen(&self) -> Seq<Fetched> {
        fetched(self.messages@)
    }

    /// The id below which to go on.
    pub closed spec fn offset(&self) -> int {
        self.offset_id as int
    }

    /// Nothing was fetched.
    pub fn new() -> (r: TopicFetch)
        ensures
            r.seen() == Seq::<Fetched>::empty(),
            r.offset() == 0,
    {
        let r = TopicFetch { messages: Vec::new(), offset_id: 0 };
        assert(r.seen() =~= Seq::empty());
        r
    }

    /// The id below which to go on.
    pub fn offset_id(&self) -> (r: i32)
        ensures
            r == self.offset(),
    {
        self.offset_id
    }

    /// Takes in a page, and says whether there is another one to ask for. A page
    /// that is missing or empty ends the fetching. So does one that is not full,
    /// one that brings no smaller id, and one with which the limit is reached.
    pub fn absorb(&mut self, page: Option<Vec<PageEntry>>, limit: usize) -> (more: bool)
        ensures
            absorbed(
                old(self).seen(),
                old(self).offset(),
                page,
                limit as int,
                final(self).seen(),
                final(self).offset(),
                more,
            ),
    {
        let entries = match page {
            None => {
                return false;
            },
            Some(entries) => entries,
        };
        let count = entries.len();
        if count == 0 {
            assert(self.seen() + messages_of(entries@) =~= self.seen());
            return false;
        }
        let ghost all = entries@;
        let ghost start = self.seen();
        assert(start + messages_of(all.take(0)) =~= start);
        for entry in it: entries
            invariant
                it.seq() == all,
                self.seen() == start + messages_of(all.take(it.index() as int)),
                self.offset() == old(self).offset(),
        {
            let ghost before = self.seen();
            proof {
                assert(all.take(it.index() + 1).drop_last() =~= all.take(it.index() as int));
                assert(all.take(it.index() + 1).last() == entry);
            }
            match entry {
                PageEntry::Message(m, media) => {
                    let empty = to_chars(m.text.as_str()).len() == 0;
                    if !(empty && !media) {
                        self.messages.push(m);
                        assert(self.seen() =~= before.push(m@));
                        assert(start + messages_of(all.take(it.index() as int)).push(m@) =~= before
                            .push(m@));
                    }
                },
                PageEntry::Service => {},
            }
        }
        assert(all.take(all.len() as int) =~= all);
        let least = self.least();
        match least {
            None => false,
            Some(least) => {
                if least == self.offset_id {
                    return false;
                }
                self.offset_id = least;
                self.messages.len() < limit && count >= PAGE
            },
        }
    }

    /// The smallest id that was fetched.
    fn least(&self) -> (r: Option<i32>)
        ensures
            match r {
                Some(id) => least_id(self.seen()) == Some(id as int),
                None => least_id(self.seen()) is None,
            },
    {
        let ghost all = self.seen();
        let mut r: Option<i32> = None;
        let mut i: usize = 0;
        while i < self.messages.len()
            invariant
                i <= self.messages.len(),
                all == fetched(self.messages@),
                match r {
                    Some(id) => least_id(all.take(i as int)) == Some(id as int),
                    None => least_id(all.take(i as int)) is None,
                },
            decreases self.messages.len() - i,
        {
            assert(all.take(i + 1).drop_last() =~= all.take(i as int));
            let id = self.messages[i].id;
            r = match r {
                None => Some(id),
                Some(least) => if id < least {
                    Some(id)
                } else {
                    Some(least)
                },
            };
            i += 1;
        }
        assert(all.take(all.len() as int) =~= all);
        r
    }

    /// The messages by their dates, oldest first: the last ones up to the limit.
    pub fn finish(self, limit: usize) -> (r: Vec<FetchedMessage>)
        ensures
            fetched(r@) == most_recent(self.seen(), limit as int),
    {
        let ghost all = self.messages@;
        let mut keyed: Vec<(i64, FetchedMessage)> = Vec::new();
        for m in it: self.messages
            invariant
                it.seq() == all,
                keyed@ == dated(all.take(it.index() as int)),
        {
            keyed.push((m.date as i64, m));
            assert(keyed@ =~= dated(all.take(it.index() + 1)));
        }
        assert(all.take(all.len() as int) =~= all);
        let sorted = stable_sort(keyed);
        let n = sorted.len();
        let skip: usize = if n > limit {
            n - limit
        } else {
            0
        };
        let ghost whole = sorted@;
        let mut r: Vec<FetchedMessage> = Vec::new();
        let mut i: usize = 0;
        for pair in it: sorted
            invariant
                it.seq() == whole,
                i == it.index(),
                n == whole.len(),
                skip <= n,
                r@ == whole.take(it.index() as int).skip(
                    if skip < it.index() {
                        skip as int
                    } else {
                        it.index() as int
                    },
                ).map_values(|p: (i64, FetchedMessage)| p.1),
        {
            if i >= skip {
                r.push(pair.1);
            }
            i += 1;
            assert(r@ =~= whole.take(it.index() + 1).skip(
                if skip < it.index() + 1 {
                    skip as int
                } else {
                    it.index() + 1
                },
            ).map_values(|p: (i64, FetchedMessage)| p.1));
        }
        proof {
            lemma_by_date(all);
            let s = by_date(fetched(all));
            assert(s.len() == n);
            assert(fetched(r@) =~= s.skip(skip as int));
        }
        r
    }
}

/// The messages with their dates.
pub open spec fn dated(ms: Seq<FetchedMessage>) -> Seq<(i64, FetchedMessage)> {
    ms.map_values(|m: FetchedMessage| (m.date as i64, m))
}

/// The message put behind all messages that are no younger.
pub open spec fn put_by_date(ms: Seq<Fetched>, m: Fetched) -> Seq<Fetched>
    decreases ms.len(),
{
    if ms.len() > 0 && ms.last().date > m.date {
        put_by_date(ms.drop_last(), m).push(ms.last())
    } else {
        ms.push(m)
    }
}

/// The messages by their dates, oldest first. Messages of one second keep their
/// order.
pub open spec fn by_date(ms: Seq<Fetched>) -> Seq<Fetched>
    decreases ms.len(),
{
    if ms.len() == 0 {
        Seq::empty()
    } else {
        put_by_date(by_date(ms.drop_last()), ms.last())
    }
}

/// The last messages by their dates, up to the limit.
pub open spec fn most_recent(ms: Seq<Fetched>, limit: int) -> Seq<Fetched> {
    let s = by_date(ms);
    if s.len() > limit {
        s.skip(s.len() - limit)
    } else {
        s
    }
}

spec fn undated(s: Seq<(i64, FetchedMessage)>) -> Seq<Fetched> {
    s.map_values(|p: (i64, FetchedMessage)| p.1@)
}

spec fn keyed_by_date(s: Seq<(i64, FetchedMessage)>) -> bool {
    forall|i: int| 0 <= i < s.len() ==> (#[trigger] s[i]).0 == s[i].1.date
}

proof fn lemma_put_by_date(s: Seq<(i64, FetchedMessage)>, item: (i64, FetchedMessage))
    requires
        keyed_by_date(s),
        item.0 == item.1.date,
    ensures
        keyed_by_date(put(s, item)),
        undated(put(s, item)) == put_by_date(undated(s), item.1@),
    decreases s.len(),
{
    if s.len() > 0 {
        assert(s[s.len() - 1].0 == s[s.len() - 1].1.date);
        assert(undated(s).last().date == s.last().0);
    }
    if s.len() > 0 && s.last().0 > item.0 {
        let front = s.drop_last();
        assert(keyed_by_date(front));
        lemma_put_by_date(front, item);
        assert(undated(front) =~= undated(s).drop_last());
        assert(undated(put(s, item)) =~= undated(put(front, item)).push(s.last().1@));
    } else {
        assert(undated(s.push(item)) =~= undated(s).push(item.1@));
    }
}

proof fn lemma_by_date(ms: Seq<FetchedMessage>)
    ensures
        keyed_by_date(stable(dated(ms))),
        undated(stable(dated(ms))) == by_date(fetched(ms)),
        stable(dated(ms)).len() == ms.len(),
    decreases ms.len(),
{
    law_sorting(dated(ms));
    if ms.len() > 0 {
        let front = ms.drop_last();
        lemma_by_date(front);
        assert(dated(ms).drop_last() =~= dated(front));
        assert(fetched(ms).drop_last() =~= fetched(front));
        lemma_put_by_date(stable(dated(front)), dated(ms).last());
    } else {
        assert(undated(stable(dated(ms))) =~= by_date(fetched(ms)));
    }
}

// ---------------------------------------------------------------------------
// Laws
// ---------------------------------------------------------------------------

/// What is brought in is oldest first, at most the limit, and of all messages
/// none that is left out is younger than one that is brought in.
pub proof fn law_most_recent(ms: Seq<Fetched>, limit: int)
    requires
        0 <= limit,
    ensures
        most_recent(ms, limit).len() == (if ms.len() > limit {
            limit
        } else {
            ms.len() as int
        }),
        forall|i: int, j: int|
            0 <= i < j < most_recent(ms, limit).len() ==> (#[trigger] most_recent(
                ms,
                limit,
            )[i]).date <= (#[trigger] most_recent(ms, limit)[j]).date,
        by_date(ms).to_multiset() == ms.to_multiset(),
        ms.len() > limit ==> forall|i: int, j: int|
            0 <= i < ms.len() - limit && 0 <= j < limit ==> (#[trigger] by_date(ms)[i]).date <= (
            #[trigger] most_recent(ms, limit)[j]).date,
{
    lemma_by_date_sorts(ms);
}

proof fn lemma_put_sorts(ms: Seq<Fetched>, m: Fetched)
    requires
        forall|i: int, j: int|
            0 <= i < j < ms.len() ==> (#[trigger] ms[i]).date <= (#[trigger] ms[j]).date,
    ensures
        put_by_date(ms, m).len() == ms.len() + 1,
        put_by_date(ms, m).to_multiset() == ms.to_multiset().insert(m),
        forall|i: int, j: int|
            0 <= i < j < put_by_date(ms, m).len() ==> (#[trigger] put_by_date(ms, m)[i]).date <= (
            #[trigger] put_by_date(ms, m)[j]).date,
    decreases ms.len(),
{
    if ms.len() > 0 && ms.last().date > m.date {
        let front = ms.drop_last();
        lemma_put_sorts(front, m);
        let r = put_by_date(front, m);
        assert(ms =~= front.push(ms.last()));
        front.to_multiset_ensures();
        r.to_multiset_ensures();
        assert(front.to_multiset().insert(m).insert(ms.last()) =~= front.to_multiset().insert(
            ms.last(),
        ).insert(m));
        assert forall|i: int| 0 <= i < r.len() implies (#[trigger] r[i]).date <= ms.last().date by {
            assert(r.contains(r[i]));
            assert(r.to_multiset().count(r[i]) > 0);
            if r[i] != m {
                assert(front.to_multiset().count(r[i]) > 0);
                assert(front.contains(r[i]));
                let j = choose|j: int| 0 <= j < front.len() && front[j] == r[i];
                assert(ms[j] == r[i]);
                assert(ms[ms.len() - 1] == ms.last());
            }
        }
    } else {
        ms.to_multiset_ensures();
    }
}

proof fn lemma_by_date_sorts(ms: Seq<Fetched>)
    ensures
        by_date(ms).len() == ms.len(),
        by_date(ms).to_multiset() == ms.to_multiset(),
        forall|i: int, j: int|
            0 <= i < j < by_date(ms).len() ==> (#[trigger] by_date(ms)[i]).date <= (
            #[trigger] by_date(ms)[j]).date,
    decreases ms.len(),
{
    if ms.len() > 0 {
        lemma_by_date_sorts(ms.drop_last());
        lemma_put_sorts(by_date(ms.drop_last()), ms.last());
        assert(ms =~= ms.drop_last().push(ms.last()));
        ms.drop_last().to_multiset_ensures();
    } else {
        assert(by_date(ms) =~= ms);
    }
}

/// Where a page moves the id below which to go on, it moves it down: the pages come
/// to an end.
pub proof fn law_paging_goes_down(seen: Seq<Fetched>, page: Seq<Fetched>)
    requires
        seen.len() > 0,
        least_id(seen + page) != least_id(seen),
    ensures
        least_id(seen) is Some && least_id(seen + page) is Some,
        least_id(seen + page)->0 < least_id(seen)->0,
{
    lemma_least_of_more(seen, page);
}

proof fn lemma_least_of_more(seen: Seq<Fetched>, page: Seq<Fetched>)
    requires
        seen.len() > 0,
    ensures
        least_id(seen) is Some && least_id(seen + page) is Some,
        least_id(seen + page)->0 <= least_id(seen)->0,
    decreases page.len(),
{
    if page.len() == 0 {
        assert(seen + page =~= seen);
    } else {
        lemma_least_of_more(seen, page.drop_last());
        assert((seen + page).drop_last() =~= seen + page.drop_last());
    }
}

} // verus!
