//! Bringing messages into topic files from the updates that a bot receives.
use vstd::prelude::*;

use crate::calendar::{SECOND, Timestamp, YEAR_ZERO, rfc3339_instant, rfc3339_text, second_in_range};
use crate::config::{
    GroupMetadata, TopicsMetadata, holds_id, law_topic_name_is_kept, numbered, own_name,
    topic_label, topic_renamed, topics_of,
};
use crate::decimal::{
    append_decimal, append_numeral, decimal, lemma_decimal, lemma_unsigned_round_trip, numeral,
    parse_u64, unsigned_value,
};
use crate::destination::{extract_group_id, group_of, param_texts};
use crate::pull::{sanitize_topic_name, sanitized};
use crate::server::{appended, format_message_append_with_sender, gap, optional_text};
use crate::sort::{law_sorting, stable, stable_sort};
use crate::sync::lemma_push_contains;
use crate::text::{
    append_str, comes_before, from_chars, lemma_first_index_is, lemma_text_before,
    lemma_text_before_total, lemma_text_order, lemma_trimmed_end, split, split_on, text_before,
    texts, to_chars, trim_end, trimmed_end,
};
use crate::unicode::ascii_digit;

verus! {

// ---------------------------------------------------------------------------
// Updates
// ---------------------------------------------------------------------------

/// A size of a photo.
#[derive(Clone, Debug)]
pub struct PhotoSize {
    pub file_id: String,
    pub width: u32,
    pub height: u32,
}

/// A message in an update.
#[derive(Clone, Debug)]
pub struct TelegramMessage {
    pub date: i64,
    pub chat_id: i64,
    pub text: Option<String>,
    pub caption: Option<String>,
    pub photo: Option<Vec<PhotoSize>>,
    pub message_thread_id: Option<i64>,
    /// The name of the topic that the message says was created.
    pub topic_created: Option<String>,
    /// The message says that a topic was edited, and may say its new name.
    pub topic_edited: Option<TopicEdit>,
}

/// What a message says of an edited topic.
#[derive(Clone, Debug)]
pub struct TopicEdit {
    pub name: Option<String>,
}

/// An update.
#[derive(Clone, Debug)]
pub struct TelegramUpdate {
    pub update_id: i64,
    pub message: Option<TelegramMessage>,
    pub channel_post: Option<TelegramMessage>,
}

/// The most updates to ask for at a time.
pub const MAX_MESSAGES_PER_FETCH: i64 = 1000;

/// The message of an update: a message, or else a post to a channel.
pub open spec fn message_in(u: TelegramUpdate) -> Option<TelegramMessage> {
    match u.message {
        Some(m) => Some(m),
        None => u.channel_post,
    }
}

fn message_of(u: &TelegramUpdate) -> (r: Option<&TelegramMessage>)
    ensures
        match message_in(*u) {
            Some(m) => r is Some && *r->0 == m,
            None => r is None,
        },
{
    match &u.message {
        Some(m) => Some(m),
        None => match &u.channel_post {
            Some(m) => Some(m),
            None => None,
        },
    }
}

/// The topic that an update belongs to: its thread, or the general topic 1, of its
/// group, where that is one of the given ones.
pub open spec fn topic_of(u: TelegramUpdate, groups: Seq<u64>) -> Option<(u64, u64)> {
    match message_in(u) {
        None => None,
        Some(m) => match group_of(m.chat_id as int) {
            None => None,
            Some(g) => if groups.contains(g as u64) {
                Some(
                    (g as u64, (match m.message_thread_id {
                        Some(t) => t as u64,
                        None => 1u64,
                    })),
                )
            } else {
                None
            },
        },
    }
}

/// The topic that an update belongs to.
pub fn route_update(u: &TelegramUpdate, groups: &Vec<u64>) -> (r: Option<(u64, u64)>)
    ensures
        r == topic_of(*u, groups@),
{
    match message_of(u) {
        None => None,
        Some(m) => match extract_group_id(m.chat_id) {
            None => None,
            Some(g) => {
                if !holds_id(groups, g) {
                    return None;
                }
                let topic: u64 = match m.message_thread_id {
                    Some(t) => t as u64,
                    None => 1,
                };
                Some((g, topic))
            },
        },
    }
}

/// The places of the updates that belong to a topic.
pub open spec fn routed(us: Seq<TelegramUpdate>, groups: Seq<u64>, topic: (u64, u64)) -> Seq<int>
    decreases us.len(),
{
    if us.len() == 0 {
        Seq::empty()
    } else {
        let before = routed(us.drop_last(), groups, topic);
        if topic_of(us.last(), groups) == Some(topic) {
            before.push(us.len() - 1)
        } else {
            before
        }
    }
}

/// The places as numbers.
pub open spec fn indices(v: Seq<usize>) -> Seq<int> {
    v.map_values(|i: usize| i as int)
}

/// The updates of a topic.
pub struct TopicUpdates {
    pub group_id: u64,
    pub topic_id: u64,
    /// The places of its updates.
    pub updates: Vec<usize>,
}

/// The topics of the updates, each once, in the order of their first updates.
pub open spec fn topics_seen(us: Seq<TelegramUpdate>, groups: Seq<u64>) -> Seq<(u64, u64)>
    decreases us.len(),
{
    if us.len() == 0 {
        Seq::empty()
    } else {
        let before = topics_seen(us.drop_last(), groups);
        match topic_of(us.last(), groups) {
            Some(t) => if before.contains(t) {
                before
            } else {
                before.push(t)
            },
            None => before,
        }
    }
}

/// The topics of groups of updates.
pub open spec fn group_topics(v: Seq<TopicUpdates>) -> Seq<(u64, u64)> {
    v.map_values(|t: TopicUpdates| (t.group_id, t.topic_id))
}

/// The place of a topic among the groups of updates.
fn find_topic(v: &Vec<TopicUpdates>, topic: (u64, u64)) -> (r: Option<usize>)
    ensures
        match r {
            Some(i) => i < v.len() && group_topics(v@)[i as int] == topic,
            None => !group_topics(v@).contains(topic),
        },
{
    let ghost all = group_topics(v@);
    let mut i: usize = 0;
    while i < v.len()
        invariant
            i <= v.len(),
            all == group_topics(v@),
            forall|j: int| 0 <= j < i ==> all[j] != topic,
        decreases v.len() - i,
    {
        if v[i].group_id == topic.0 && v[i].topic_id == topic.1 {
            return Some(i);
        }
        i += 1;
    }
    None
}

/// The topics of the updates with their updates.
pub open spec fn are_routed(
    v: Seq<TopicUpdates>,
    us: Seq<TelegramUpdate>,
    groups: Seq<u64>,
) -> bool {
    &&& group_topics(v) == topics_seen(us, groups)
    &&& forall|i: int|
        0 <= i < v.len() ==> indices((#[trigger] v[i]).updates@) == routed(
            us,
            groups,
            (v[i].group_id, v[i].topic_id),
        )
}

pub proof fn lemma_topics_seen(us: Seq<TelegramUpdate>, groups: Seq<u64>, topic: (u64, u64))
    ensures
        topics_seen(us, groups).contains(topic) <==> routed(us, groups, topic).len() > 0,
        topics_seen(us, groups).no_duplicates(),
    decreases us.len(),
{
    if us.len() > 0 {
        let front = us.drop_last();
        lemma_topics_seen(front, groups, topic);
        match topic_of(us.last(), groups) {
            Some(t) => {
                lemma_topics_seen(front, groups, t);
                lemma_push_contains(topics_seen(front, groups), t, topic);
            },
            None => {},
        }
    }
}

/// Puts the updates together by their topics.
pub fn group_updates(us: &Vec<TelegramUpdate>, groups: &Vec<u64>) -> (r: Vec<TopicUpdates>)
    ensures
        are_routed(r@, us@, groups@),
{
    let mut r: Vec<TopicUpdates> = Vec::new();
    let mut i: usize = 0;
    assert(group_topics(r@) =~= Seq::empty());
    while i < us.len()
        invariant
            i <= us.len(),
            are_routed(r@, us@.take(i as int), groups@),
        decreases us.len() - i,
    {
        let ghost part = us@.take(i + 1);
        let ghost front = us@.take(i as int);
        let ghost before = r@;
        assert(part.drop_last() =~= front);
        assert(part.last() == us@[i as int]);
        match route_update(&us[i], groups) {
            Some(topic) => {
                proof {
                    lemma_topics_seen(front, groups@, topic);
                }
                match find_topic(&r, topic) {
                    Some(k) => {
                        assert(group_topics(before)[k as int] == topic);
                        assert(group_topics(before).contains(topic));
                        let ghost old_places = indices(r@[k as int].updates@);
                        r[k].updates.push(i);
                        let ghost found = r@[k as int];
                        assert(indices(found.updates@) =~= old_places.push(i as int));
                        proof {
                            assert(r@ =~= before.update(k as int, found));
                            assert(group_topics(r@) =~= group_topics(before));
                            assert forall|j: int| 0 <= j < r.len() implies indices(
                                (#[trigger] r@[j]).updates@,
                            ) == routed(part, groups@, (r@[j].group_id, r@[j].topic_id)) by {
                                if j == k {
                                } else {
                                    assert(r@[j] == before[j]);
                                    let t = (before[j].group_id, before[j].topic_id);
                                    assert(group_topics(before)[j] == t);
                                    lemma_topics_seen(front, groups@, t);
                                    assert(t != topic);
                                }
                            }
                        }
                    },
                    None => {
                        let mut updates: Vec<usize> = Vec::new();
                        updates.push(i);
                        assert(routed(front, groups@, topic).len() == 0);
                        assert(indices(updates@) =~= routed(part, groups@, topic));
                        r.push(TopicUpdates { group_id: topic.0, topic_id: topic.1, updates });
                        proof {
                            assert(group_topics(r@) =~= group_topics(before).push(topic));
                            assert forall|j: int| 0 <= j < r.len() implies indices(
                                (#[trigger] r@[j]).updates@,
                            ) == routed(part, groups@, (r@[j].group_id, r@[j].topic_id)) by {
                                if j < before.len() {
                                    assert(r@[j] == before[j]);
                                    let t = (before[j].group_id, before[j].topic_id);
                                    assert(group_topics(before)[j] == t);
                                    if t == topic {
                                        assert(group_topics(before).contains(topic));
                                    }
                                }
                            }
                        }
                    },
                }
            },
            None => {},
        }
        i += 1;
    }
    assert(us@.take(us@.len() as int) =~= us@);
    r
}

// ---------------------------------------------------------------------------
// Names of topics
// ---------------------------------------------------------------------------

/// What a message does to the name of its topic.
pub enum NameChange {
    /// The topic is called so from now on.
    Rename(Seq<char>),
    /// The topic is registered, unless it is known.
    Register,
    /// Nothing: the topic was edited and keeps its name.
    Keep,
}

/// What a message does to the name of its topic.
pub open spec fn name_change(m: TelegramMessage) -> NameChange {
    match m.topic_created {
        Some(name) => NameChange::Rename(sanitized(name@)),
        None => match m.topic_edited {
            Some(edit) => match edit.name {
                Some(name) => NameChange::Rename(sanitized(name@)),
                None => NameChange::Keep,
            },
            None => NameChange::Register,
        },
    }
}

/// The names after a message was taken into account.
pub open spec fn names_after(
    old_groups: Map<u64, GroupMetadata>,
    groups: Map<u64, GroupMetadata>,
    m: TelegramMessage,
    topic: (u64, u64),
) -> bool {
    match name_change(m) {
        NameChange::Rename(name) => topic_renamed(old_groups, groups, topic.0, topic.1, name),
        NameChange::Register => if topics_of(old_groups, topic.0).contains_key(topic.1) {
            groups == old_groups
        } else {
            topic_renamed(
                old_groups,
                groups,
                topic.0,
                topic.1,
                numbered("topic_"@, topic.1),
            )
        },
        NameChange::Keep => groups == old_groups,
    }
}

/// Takes a message of a topic into account for the topic's name.
pub fn note_topic_name(metadata: &mut TopicsMetadata, m: &TelegramMessage, topic: (u64, u64))
    ensures
        names_after(old(metadata).groups@, final(metadata).groups@, *m, topic),
{
    match &m.topic_created {
        Some(name) => {
            metadata.set_topic_name(topic.0, topic.1, sanitize_topic_name(name.as_str()));
        },
        None => match &m.topic_edited {
            Some(edit) => match &edit.name {
                Some(name) => {
                    metadata.set_topic_name(topic.0, topic.1, sanitize_topic_name(name.as_str()));
                },
                None => {},
            },
            None => {
                metadata.ensure_topic(topic.0, topic.1);
            },
        },
    }
}

/// The name of a topic after updates were taken into account.
pub open spec fn label_after(
    us: Seq<TelegramUpdate>,
    groups: Seq<u64>,
    start: Seq<char>,
    topic: (u64, u64),
) -> Seq<char>
    decreases us.len(),
{
    if us.len() == 0 {
        start
    } else {
        let before = label_after(us.drop_last(), groups, start, topic);
        if topic_of(us.last(), groups) == Some(topic) {
            match name_change(message_in(us.last())->0) {
                NameChange::Rename(name) => name,
                _ => before,
            }
        } else {
            before
        }
    }
}

/// One of the updates of a topic names or registers it.
pub open spec fn registered(us: Seq<TelegramUpdate>, groups: Seq<u64>, topic: (u64, u64)) -> bool
    decreases us.len(),
{
    us.len() > 0 && (registered(us.drop_last(), groups, topic) || (topic_of(us.last(), groups)
        == Some(topic) && name_change(message_in(us.last())->0) !is Keep))
}

/// The update names or registers a topic of the group.
pub open spec fn registers_in(u: TelegramUpdate, groups: Seq<u64>, group: u64) -> bool {
    match topic_of(u, groups) {
        Some(topic) => topic.0 == group && name_change(message_in(u)->0) !is Keep,
        None => false,
    }
}

/// One of the updates names or registers a topic of the group.
pub open spec fn group_registered(us: Seq<TelegramUpdate>, groups: Seq<u64>, group: u64) -> bool {
    exists|t: u64| registered(us, groups, (group, t))
}

proof fn lemma_group_registered(us: Seq<TelegramUpdate>, groups: Seq<u64>, group: u64)
    requires
        us.len() > 0,
    ensures
        group_registered(us, groups, group) <==> group_registered(us.drop_last(), groups, group)
            || registers_in(us.last(), groups, group),
{
    let front = us.drop_last();
    if group_registered(us, groups, group) {
        let t = choose|t: u64| registered(us, groups, (group, t));
        if !registered(front, groups, (group, t)) {
            assert(topic_of(us.last(), groups) == Some((group, t)));
        }
    }
    if group_registered(front, groups, group) {
        let t = choose|t: u64| registered(front, groups, (group, t));
        assert(registered(us, groups, (group, t)));
    }
    if registers_in(us.last(), groups, group) {
        let t = (topic_of(us.last(), groups)->0).1;
        assert(registered(us, groups, (group, t)));
    }
}

/// Takes updates into account for the names of topics.
pub fn note_topic_names(metadata: &mut TopicsMetadata, us: &Vec<TelegramUpdate>, groups: &Vec<u64>)
    ensures
        forall|g: u64, t: u64| #[trigger]
            topic_label(final(metadata).groups@, g, t) == label_after(
                us@,
                groups@,
                topic_label(old(metadata).groups@, g, t),
                (g, t),
            ),
        forall|g: u64| #[trigger]
            own_name(final(metadata).groups@, g) == own_name(old(metadata).groups@, g),
        forall|g: u64, t: u64| #[trigger]
            topics_of(final(metadata).groups@, g).contains_key(t) <==> topics_of(
                old(metadata).groups@,
                g,
            ).contains_key(t) || registered(us@, groups@, (g, t)),
        forall|g: u64| #[trigger]
            final(metadata).groups@.contains_key(g) <==> old(metadata).groups@.contains_key(g)
                || group_registered(us@, groups@, g),
{
    let ghost start = metadata.groups@;
    let mut i: usize = 0;
    while i < us.len()
        invariant
            i <= us.len(),
            forall|g: u64, t: u64| #[trigger]
                topic_label(metadata.groups@, g, t) == label_after(
                    us@.take(i as int),
                    groups@,
                    topic_label(start, g, t),
                    (g, t),
                ),
            forall|g: u64| #[trigger] own_name(metadata.groups@, g) == own_name(start, g),
            forall|g: u64| #[trigger]
                metadata.groups@.contains_key(g) <==> start.contains_key(g) || group_registered(
                    us@.take(i as int),
                    groups@,
                    g,
                ),
            forall|g: u64, t: u64| #[trigger]
                topics_of(metadata.groups@, g).contains_key(t) <==> topics_of(
                    start,
                    g,
                ).contains_key(t) || registered(us@.take(i as int), groups@, (g, t)),
        decreases us.len() - i,
    {
        let ghost before = metadata.groups@;
        proof {
            assert(us@.take(i + 1).drop_last() =~= us@.take(i as int));
            assert(us@.take(i + 1).last() == us@[i as int]);
            assert forall|g: u64| #[trigger]
                group_registered(us@.take(i + 1), groups@, g) <==> group_registered(
                    us@.take(i as int),
                    groups@,
                    g,
                ) || registers_in(us@[i as int], groups@, g) by {
                lemma_group_registered(us@.take(i + 1), groups@, g);
            }
        }
        match route_update(&us[i], groups) {
            Some(topic) => match message_of(&us[i]) {
                Some(m) => {
                    note_topic_name(metadata, m, topic);
                    proof {
                        lemma_names_after(before, metadata.groups@, *m, topic);
                    }
                },
                None => {},
            },
            None => {},
        }
        i += 1;
    }
    assert(us@.take(us@.len() as int) =~= us@);
}

proof fn lemma_names_after(
    old_groups: Map<u64, GroupMetadata>,
    groups: Map<u64, GroupMetadata>,
    m: TelegramMessage,
    topic: (u64, u64),
)
    requires
        names_after(old_groups, groups, m, topic),
    ensures
        forall|g: u64, t: u64| #[trigger]
            topic_label(groups, g, t) == (if (g, t) == topic && name_change(m) is Rename {
                name_change(m)->Rename_0
            } else {
                topic_label(old_groups, g, t)
            }),
        forall|g: u64| #[trigger] own_name(groups, g) == own_name(old_groups, g),
        forall|g: u64| #[trigger]
            groups.contains_key(g) <==> old_groups.contains_key(g) || (g == topic.0 && name_change(m)
                !is Keep),
        forall|g: u64, t: u64| #[trigger]
            topics_of(groups, g).contains_key(t) <==> topics_of(old_groups, g).contains_key(t) || ((
            g,
            t,
        ) == topic && name_change(m) !is Keep),
{
    match name_change(m) {
        NameChange::Rename(name) => {
            law_topic_name_is_kept(old_groups, groups, topic.0, topic.1, name);
        },
        NameChange::Register => {
            if !topics_of(old_groups, topic.0).contains_key(topic.1) {
                law_topic_name_is_kept(
                    old_groups,
                    groups,
                    topic.0,
                    topic.1,
                    numbered("topic_"@, topic.1),
                );
            }
        },
        NameChange::Keep => {},
    }
}

// ---------------------------------------------------------------------------
// What was synced
// ---------------------------------------------------------------------------

/// A topic.
#[derive(Clone, Copy, Debug, Eq, PartialEq, Structural)]
pub struct TopicDestination {
    pub group_id: u64,
    pub topic_id: u64,
}

/// The topic's ids with a slash between them.
pub open spec fn topic_key(group: u64, topic: u64) -> Seq<char> {
    decimal(group as int) + seq!['/'] + decimal(topic as int)
}

/// The topic that a key names.
pub open spec fn topic_keyed(key: Seq<char>) -> Option<(u64, u64)> {
    let parts = split(key, '/');
    if parts.len() < 2 {
        None
    } else {
        match (
            unsigned_value(parts[0], u64::MAX as int),
            unsigned_value(parts[1], u64::MAX as int),
        ) {
            (Some(g), Some(t)) => Some((g as u64, t as u64)),
            _ => None,
        }
    }
}

impl TopicDestination {
    /// The topic's ids with a slash between them.
    pub fn key(&self) -> (r: String)
        ensures
            r@ == topic_key(self.group_id, self.topic_id),
    {
        let mut v: Vec<char> = Vec::new();
        append_decimal(&mut v, self.group_id as u128);
        assert(v@ =~= decimal(self.group_id as int));
        v.push('/');
        assert(v@ =~= decimal(self.group_id as int) + seq!['/']);
        append_decimal(&mut v, self.topic_id as u128);
        from_chars(v.as_slice())
    }

    /// The topic that a key names.
    pub fn from_key(key: &str) -> (r: Option<TopicDestination>)
        ensures
            match r {
                Some(t) => topic_keyed(key@) == Some((t.group_id, t.topic_id)),
                None => topic_keyed(key@) is None,
            },
    {
        let parts = split_on(to_chars(key).as_slice(), '/');
        let ghost all = texts(parts@);
        assert(all.len() == parts.len());
        if parts.len() < 2 {
            return None;
        }
        match (parse_u64(parts[0].as_slice()), parse_u64(parts[1].as_slice())) {
            (Some(group_id), Some(topic_id)) => Some(TopicDestination { group_id, topic_id }),
            _ => None,
        }
    }
}

/// The last update of a topic that was synced.
#[derive(Clone, Copy, Debug, Eq, PartialEq, Structural)]
pub struct TopicStamp {
    pub topic: TopicDestination,
    pub update_id: i64,
}

/// The last updates that were synced. No topic stands twice.
#[derive(Clone, Debug)]
pub struct SyncTimestamps {
    pub topics: Vec<TopicStamp>,
}

/// No topic stands twice.
pub open spec fn stamps_valid(v: Seq<TopicStamp>) -> bool {
    forall|i: int, j: int|
        0 <= i < j < v.len() ==> (#[trigger] v[i]).topic != (#[trigger] v[j]).topic
}

/// The last update of a topic that was synced, or zero.
pub open spec fn stamp_of(v: Seq<TopicStamp>, topic: TopicDestination) -> int
    decreases v.len(),
{
    if v.len() == 0 {
        0
    } else if v.last().topic == topic {
        v.last().update_id as int
    } else {
        stamp_of(v.drop_last(), topic)
    }
}

/// The topic has a last update that was synced.
pub open spec fn has_stamp(v: Seq<TopicStamp>, topic: TopicDestination) -> bool {
    exists|i: int| 0 <= i < v.len() && (#[trigger] v[i]).topic == topic
}

/// The smallest of the last updates.
pub open spec fn least_stamp(v: Seq<TopicStamp>) -> Option<int>
    decreases v.len(),
{
    if v.len() == 0 {
        None
    } else {
        match least_stamp(v.drop_last()) {
            None => Some(v.last().update_id as int),
            Some(least) => if (v.last().update_id as int) < least {
                Some(v.last().update_id as int)
            } else {
                Some(least)
            },
        }
    }
}

/// The update to ask for first: the one after the smallest of the last ones.
pub open spec fn first_offset(v: Seq<TopicStamp>) -> int {
    match least_stamp(v) {
        Some(least) => least + 1,
        None => 0,
    }
}

impl Default for SyncTimestamps {
    fn default() -> (r: Self)
        ensures
            r.topics.len() == 0,
    {
        SyncTimestamps { topics: Vec::new() }
    }
}

impl SyncTimestamps {
    pub open spec fn valid(&self) -> bool {
        stamps_valid(self.topics@)
    }

    /// The update to ask for first: the one after the smallest of the last ones.
    pub fn next_offset(&self) -> (r: i64)
        requires
            least_stamp(self.topics@) matches Some(least) ==> least < i64::MAX,
        ensures
            r == first_offset(self.topics@),
    {
        let mut least: Option<i64> = None;
        let mut i: usize = 0;
        while i < self.topics.len()
            invariant
                i <= self.topics.len(),
                match least {
                    Some(l) => least_stamp(self.topics@.take(i as int)) == Some(l as int),
                    None => least_stamp(self.topics@.take(i as int)) is None,
                },
            decreases self.topics.len() - i,
        {
            assert(self.topics@.take(i + 1).drop_last() =~= self.topics@.take(i as int));
            let id = self.topics[i].update_id;
            least = match least {
                None => Some(id),
                Some(l) => if id < l {
                    Some(id)
                } else {
                    Some(l)
                },
            };
            i += 1;
        }
        assert(self.topics@.take(self.topics@.len() as int) =~= self.topics@);
        match least {
            Some(l) => l + 1,
            None => 0,
        }
    }

    /// The last update of a topic that was synced, or zero.
    pub fn last_synced(&self, topic: TopicDestination) -> (r: i64)
        ensures
            r == stamp_of(self.topics@, topic),
    {
        let mut r: i64 = 0;
        let mut i: usize = 0;
        while i < self.topics.len()
            invariant
                i <= self.topics.len(),
                r == stamp_of(self.topics@.take(i as int), topic),
            decreases self.topics.len() - i,
        {
            assert(self.topics@.take(i + 1).drop_last() =~= self.topics@.take(i as int));
            if self.topics[i].topic == topic {
                r = self.topics[i].update_id;
            }
            i += 1;
        }
        assert(self.topics@.take(self.topics@.len() as int) =~= self.topics@);
        r
    }

    /// Records the last update of a topic that was synced.
    pub fn record(&mut self, topic: TopicDestination, update_id: i64)
        requires
            old(self).valid(),
        ensures
            final(self).valid(),
            forall|t: TopicDestination| #[trigger]
                stamp_of(final(self).topics@, t) == (if t == topic {
                    update_id as int
                } else {
                    stamp_of(old(self).topics@, t)
                }),
            forall|t: TopicDestination| #[trigger]
                has_stamp(final(self).topics@, t) <==> has_stamp(old(self).topics@, t) || t
                    == topic,
    {
        let ghost start = self.topics@;
        let mut i: usize = 0;
        while i < self.topics.len()
            invariant
                i <= self.topics.len(),
                self.topics@ == start,
                start == old(self).topics@,
                stamps_valid(start),
                forall|j: int| 0 <= j < i ==> (#[trigger] start[j]).topic != topic,
            decreases self.topics.len() - i,
        {
            if self.topics[i].topic == topic {
                self.topics.set(i, TopicStamp { topic, update_id });
                proof {
                    let new = self.topics@;
                    assert forall|a: int, b: int| 0 <= a < b < new.len() implies (
                    #[trigger] new[a]).topic != (#[trigger] new[b]).topic by {
                        assert(start[a].topic == new[a].topic && start[b].topic == new[b].topic);
                    }
                    assert forall|t: TopicDestination| #[trigger]
                        stamp_of(new, t) == (if t == topic {
                            update_id as int
                        } else {
                            stamp_of(start, t)
                        }) by {
                        lemma_stamp_set(start, i as int, update_id, t);
                    }
                    assert(new.len() == start.len());
                    assert forall|t: TopicDestination| #[trigger]
                        has_stamp(new, t) <==> has_stamp(start, t) || t == topic by {
                        assert(new[i as int].topic == topic && start[i as int].topic == topic);
                        if has_stamp(new, t) {
                            let k = choose|k: int| 0 <= k < new.len() && new[k].topic == t;
                            assert(start[k].topic == t);
                        }
                        if has_stamp(start, t) {
                            let k = choose|k: int| 0 <= k < start.len() && start[k].topic == t;
                            assert(new[k].topic == t);
                        }
                    }
                }
                return;
            }
            i += 1;
        }
        self.topics.push(TopicStamp { topic, update_id });
        proof {
            let new = self.topics@;
            assert(new.drop_last() =~= start);
            assert forall|t: TopicDestination| #[trigger]
                has_stamp(new, t) <==> has_stamp(start, t) || t == topic by {
                assert(new[new.len() - 1].topic == topic);
                if has_stamp(new, t) && t != topic {
                    let k = choose|k: int| 0 <= k < new.len() && new[k].topic == t;
                    assert(start[k].topic == t);
                }
                if has_stamp(start, t) {
                    let k = choose|k: int| 0 <= k < start.len() && start[k].topic == t;
                    assert(new[k].topic == t);
                }
            }
        }
    }
}

proof fn lemma_stamp_set(v: Seq<TopicStamp>, i: int, update_id: i64, t: TopicDestination)
    requires
        0 <= i < v.len(),
        stamps_valid(v),
    ensures
        stamp_of(v.update(i, TopicStamp { topic: v[i].topic, update_id }), t) == (if t
            == v[i].topic {
            update_id as int
        } else {
            stamp_of(v, t)
        }),
    decreases v.len(),
{
    let new = v.update(i, TopicStamp { topic: v[i].topic, update_id });
    if i == v.len() - 1 {
        assert(new.drop_last() =~= v.drop_last());
    } else {
        let front = v.drop_last();
        assert forall|a: int, b: int| 0 <= a < b < front.len() implies (#[trigger] front[a]).topic
            != (#[trigger] front[b]).topic by {
            assert(v[a] == front[a] && v[b] == front[b]);
        }
        lemma_stamp_set(front, i, update_id, t);
        assert(new.drop_last() =~= front.update(i, TopicStamp { topic: v[i].topic, update_id }));
        assert(v[i].topic != v[v.len() - 1].topic);
    }
}

// ---------------------------------------------------------------------------
// Fetching
// ---------------------------------------------------------------------------

/// The parameters to ask for updates with.
pub open spec fn batch_params(offset: int, limit: int) -> Seq<(Seq<char>, Seq<char>)> {
    if offset > 0 {
        seq![
            ("limit"@, numeral(limit)),
            ("timeout"@, "0"@),
            ("offset"@, numeral(offset)),
        ]
    } else {
        seq![("limit"@, numeral(limit)), ("timeout"@, "0"@)]
    }
}

/// The parameters to ask for updates with.
pub fn update_params(offset: i64, limit: i64) -> (r: Vec<(&'static str, String)>)
    ensures
        param_texts(r@) == batch_params(offset as int, limit as int),
{
    let mut r: Vec<(&'static str, String)> = Vec::new();
    r.push(("limit", numeral_string(limit)));
    r.push(("timeout", from_chars(to_chars("0").as_slice())));
    if offset > 0 {
        r.push(("offset", numeral_string(offset)));
        assert(param_texts(r@) =~= seq![
            ("limit"@, numeral(limit as int)),
            ("timeout"@, "0"@),
            ("offset"@, numeral(offset as int)),
        ]);
    } else {
        assert(param_texts(r@) =~= seq![("limit"@, numeral(limit as int)), ("timeout"@, "0"@)]);
    }
    r
}

/// The numeral of an integer.
fn numeral_string(n: i64) -> (r: String)
    ensures
        r@ == numeral(n as int),
{
    let mut v: Vec<char> = Vec::new();
    append_numeral(&mut v, n as i128);
    assert(v@ =~= numeral(n as int));
    from_chars(v.as_slice())
}

/// The update to ask for after a batch, where there may be more: the one after its
/// last, unless the batch was not full.
pub open spec fn next_batch(batch: Seq<TelegramUpdate>) -> Option<i64> {
    if batch.len() >= MAX_MESSAGES_PER_FETCH {
        Some((batch[batch.len() - 1].update_id + 1) as i64)
    } else {
        None
    }
}

/// The update to ask for after a batch, where there may be more: the one after its
/// last, unless the batch was not full.
pub fn offset_after_batch(batch: &Vec<TelegramUpdate>) -> (r: Option<i64>)
    requires
        batch.len() > 0 ==> batch[batch.len() - 1].update_id < i64::MAX,
    ensures
        r == next_batch(batch@),
{
    if batch.len() >= MAX_MESSAGES_PER_FETCH as usize {
        Some(batch[batch.len() - 1].update_id + 1)
    } else {
        None
    }
}

// ---------------------------------------------------------------------------
// New messages
// ---------------------------------------------------------------------------

/// The updates behind the last one that was synced, with their places.
pub open spec fn behind(items: Seq<(i64, usize)>, last_synced: int) -> Seq<(i64, usize)>
    decreases items.len(),
{
    if items.len() == 0 {
        Seq::empty()
    } else if items.last().0 > last_synced {
        behind(items.drop_last(), last_synced).push(items.last())
    } else {
        behind(items.drop_last(), last_synced)
    }
}

/// The new updates of a topic: those behind the last one that was synced, and of
/// too many the last ones by their ids.
pub open spec fn new_updates(items: Seq<(i64, usize)>, last_synced: int, limit: int) -> Seq<
    (i64, usize),
> {
    let fresh = behind(items, last_synced);
    if fresh.len() > limit {
        stable(fresh).skip(fresh.len() - limit)
    } else {
        fresh
    }
}

/// The new updates of a topic.
pub fn select_new(items: &Vec<(i64, usize)>, last_synced: i64, limit: usize) -> (r: Vec<
    (i64, usize),
>)
    ensures
        r@ == new_updates(items@, last_synced as int, limit as int),
{
    let mut fresh: Vec<(i64, usize)> = Vec::new();
    let mut i: usize = 0;
    while i < items.len()
        invariant
            i <= items.len(),
            fresh@ == behind(items@.take(i as int), last_synced as int),
        decreases items.len() - i,
    {
        assert(items@.take(i + 1).drop_last() =~= items@.take(i as int));
        if items[i].0 > last_synced {
            fresh.push((items[i].0, items[i].1));
        }
        i += 1;
    }
    assert(items@.take(items@.len() as int) =~= items@);
    let n = fresh.len();
    if n > limit {
        proof {
            law_sorting(fresh@);
        }
        let mut sorted = stable_sort(fresh);
        let r = sorted.split_off(n - limit);
        assert(r@ =~= stable(behind(items@, last_synced as int)).skip(n - limit));
        r
    } else {
        fresh
    }
}

/// The largest id of the updates.
pub open spec fn newest(items: Seq<(i64, usize)>) -> Option<int>
    decreases items.len(),
{
    if items.len() == 0 {
        None
    } else {
        match newest(items.drop_last()) {
            None => Some(items.last().0 as int),
            Some(m) => if items.last().0 as int > m {
                Some(items.last().0 as int)
            } else {
                Some(m)
            },
        }
    }
}

/// The largest id of the updates.
pub fn newest_update(items: &Vec<(i64, usize)>) -> (r: Option<i64>)
    ensures
        match r {
            Some(id) => newest(items@) == Some(id as int),
            None => newest(items@) is None,
        },
{
    let mut r: Option<i64> = None;
    let mut i: usize = 0;
    while i < items.len()
        invariant
            i <= items.len(),
            match r {
                Some(id) => newest(items@.take(i as int)) == Some(id as int),
                None => newest(items@.take(i as int)) is None,
            },
        decreases items.len() - i,
    {
        assert(items@.take(i + 1).drop_last() =~= items@.take(i as int));
        let id = items[i].0;
        r = match r {
            None => Some(id),
            Some(m) => if id > m {
                Some(id)
            } else {
                Some(m)
            },
        };
        i += 1;
    }
    assert(items@.take(items@.len() as int) =~= items@);
    r
}

/// What is to be written to the file of a topic.
pub struct TopicWork {
    pub topic: TopicDestination,
    /// The places of the new updates, in the order in which they are written.
    pub updates: Vec<usize>,
    /// The largest id of the new updates.
    pub newest: Option<i64>,
}

/// The ids of the updates of a topic, with their places.
pub open spec fn topic_items(
    us: Seq<TelegramUpdate>,
    groups: Seq<u64>,
    topic: TopicDestination,
) -> Seq<(i64, usize)> {
    let places = routed(us, groups, (topic.group_id, topic.topic_id));
    Seq::new(places.len(), |k: int| (us[places[k]].update_id, places[k] as usize))
}

/// The date of the message of an update.
pub open spec fn date_in(u: TelegramUpdate) -> i64 {
    match message_in(u) {
        Some(m) => m.date,
        None => 0,
    }
}

/// The dates of the messages of the updates, with their places.
pub open spec fn dated(us: Seq<TelegramUpdate>, items: Seq<(i64, usize)>) -> Seq<(i64, usize)> {
    items.map_values(|item: (i64, usize)| (date_in(us[item.1 as int]), item.1))
}

/// The places.
pub open spec fn places(items: Seq<(i64, usize)>) -> Seq<usize> {
    items.map_values(|item: (i64, usize)| item.1)
}

/// The work holds the new updates of its topic by their dates, and the largest of
/// their ids.
pub open spec fn is_work(
    w: TopicWork,
    us: Seq<TelegramUpdate>,
    groups: Seq<u64>,
    stamps: Seq<TopicStamp>,
    limit: int,
) -> bool {
    let fresh = new_updates(topic_items(us, groups, w.topic), stamp_of(stamps, w.topic), limit);
    &&& w.updates@ == places(stable(dated(us, fresh)))
    &&& match w.newest {
        Some(id) => newest(fresh) == Some(id as int),
        None => newest(fresh) is None,
    }
}

/// The topics of the work.
pub open spec fn work_topics(v: Seq<TopicWork>) -> Seq<TopicDestination> {
    v.map_values(|w: TopicWork| w.topic)
}

/// The topic has an update behind the last one that was synced.
pub open spec fn is_behind(
    topic: TopicDestination,
    us: Seq<TelegramUpdate>,
    groups: Seq<u64>,
    stamps: Seq<TopicStamp>,
) -> bool {
    behind(topic_items(us, groups, topic), stamp_of(stamps, topic)).len() > 0
}

/// The key of a topic.
pub open spec fn key_of(topic: TopicDestination) -> Seq<char> {
    topic_key(topic.group_id, topic.topic_id)
}

/// The topics come in the order of their keys, which are compared as texts.
pub open spec fn in_key_order(v: Seq<TopicDestination>) -> bool {
    forall|i: int, j: int|
        0 <= i < j < v.len() ==> text_before(key_of(#[trigger] v[i]), key_of(#[trigger] v[j]))
}

/// A topic is put in where the keys from there on come after its own.
proof fn lemma_put_by_key(v: Seq<TopicDestination>, p: int, topic: TopicDestination)
    requires
        in_key_order(v),
        0 <= p <= v.len(),
        forall|j: int| 0 <= j < p ==> text_before(key_of(#[trigger] v[j]), key_of(topic)),
        p < v.len() ==> !text_before(key_of(v[p]), key_of(topic)),
        !v.contains(topic),
    ensures
        in_key_order(v.insert(p, topic)),
        forall|t: TopicDestination| #[trigger]
            v.insert(p, topic).contains(t) <==> v.contains(t) || t == topic,
{
    let w = v.insert(p, topic);
    assert forall|j: int| p <= j < v.len() implies text_before(
        key_of(topic),
        key_of(#[trigger] v[j]),
    ) by {
        let a = key_of(v[p]);
        let b = key_of(v[j]);
        let k = key_of(topic);
        law_topic_key_reads_back(topic.group_id, topic.topic_id);
        law_topic_key_reads_back(v[j].group_id, v[j].topic_id);
        if k == b {
            assert(v[j] == topic);
            assert(v.contains(v[j]));
        }
        if p < j {
            assert(text_before(a, b));
            lemma_text_before(a, b);
            lemma_text_order(k, a, b);
        }
        lemma_text_before_total(k, b);
    }
    assert forall|i: int, j: int| 0 <= i < j < w.len() implies text_before(
        key_of(#[trigger] w[i]),
        key_of(#[trigger] w[j]),
    ) by {
        if j < p {
            assert(w[i] == v[i] && w[j] == v[j]);
        } else if j == p {
            assert(w[i] == v[i]);
        } else if i < p {
            assert(w[i] == v[i] && w[j] == v[j - 1]);
        } else if i == p {
            assert(w[j] == v[j - 1]);
        } else {
            assert(w[i] == v[i - 1] && w[j] == v[j - 1]);
        }
    }
    assert forall|t: TopicDestination| #[trigger] w.contains(t) <==> v.contains(t) || t == topic by {
        assert(w[p] == topic);
        if w.contains(t) && t != topic {
            let i = choose|i: int| 0 <= i < w.len() && w[i] == t;
            assert(t == (if i < p {
                v[i]
            } else {
                v[i - 1]
            }));
        }
        if v.contains(t) {
            let i = choose|i: int| 0 <= i < v.len() && v[i] == t;
            assert(t == (if i < p {
                w[i]
            } else {
                w[i + 1]
            }));
        }
    }
}

/// The place of the first work whose topic does not come before the given one.
fn place_by_key(work: &Vec<TopicWork>, topic: TopicDestination) -> (r: usize)
    ensures
        r <= work.len(),
        forall|j: int|
            0 <= j < r ==> text_before(key_of((#[trigger] work[j]).topic), key_of(topic)),
        r < work.len() ==> !text_before(key_of(work[r as int].topic), key_of(topic)),
{
    let key = to_chars(topic.key().as_str());
    let mut i: usize = 0;
    while i < work.len()
        invariant
            i <= work.len(),
            key@ == key_of(topic),
            forall|j: int|
                0 <= j < i ==> text_before(key_of((#[trigger] work[j]).topic), key_of(topic)),
        decreases work.len() - i,
    {
        let other = to_chars(work[i].topic.key().as_str());
        if !comes_before(other.as_slice(), key.as_slice()) {
            return i;
        }
        i += 1;
    }
    i
}

/// The places of a routed topic are places of updates.
pub proof fn lemma_routed_bounds(us: Seq<TelegramUpdate>, groups: Seq<u64>, topic: (u64, u64))
    ensures
        forall|k: int|
            0 <= k < routed(us, groups, topic).len() ==> 0 <= #[trigger] routed(
                us,
                groups,
                topic,
            )[k] < us.len(),
    decreases us.len(),
{
    if us.len() > 0 {
        let before = routed(us.drop_last(), groups, topic);
        let r = routed(us, groups, topic);
        lemma_routed_bounds(us.drop_last(), groups, topic);
        assert forall|k: int| 0 <= k < r.len() implies 0 <= #[trigger] r[k] < us.len() by {
            if k < before.len() {
                assert(r[k] == before[k]);
            }
        }
    }
}

/// The new updates are among the updates.
pub proof fn lemma_new_updates(items: Seq<(i64, usize)>, last_synced: int, limit: int)
    requires
        limit >= 0,
    ensures
        forall|k: int|
            0 <= k < new_updates(items, last_synced, limit).len() ==> items.contains(
                #[trigger] new_updates(items, last_synced, limit)[k],
            ),
{
    let fresh = behind(items, last_synced);
    lemma_behind(items, last_synced);
    if fresh.len() > limit {
        law_sorting(fresh);
        let sorted = stable(fresh);
        let r = new_updates(items, last_synced, limit);
        assert forall|k: int| 0 <= k < r.len() implies items.contains(#[trigger] r[k]) by {
            assert(r[k] == sorted[k + fresh.len() - limit]);
            lemma_same_items(sorted, fresh, r[k]);
        }
    } else {
        let r = new_updates(items, last_synced, limit);
        assert forall|k: int| 0 <= k < r.len() implies items.contains(#[trigger] r[k]) by {
            assert(fresh.contains(fresh[k]));
        }
    }
}

proof fn lemma_same_items(a: Seq<(i64, usize)>, b: Seq<(i64, usize)>, item: (i64, usize))
    requires
        a.to_multiset() == b.to_multiset(),
        a.contains(item),
    ensures
        b.contains(item),
{
    a.to_multiset_ensures();
    b.to_multiset_ensures();
    assert(a.to_multiset().count(item) > 0);
}

pub proof fn lemma_behind(items: Seq<(i64, usize)>, last_synced: int)
    ensures
        forall|item: (i64, usize)| #[trigger]
            behind(items, last_synced).contains(item) <==> items.contains(item) && item.0
                > last_synced,
    decreases items.len(),
{
    if items.len() > 0 {
        let front = items.drop_last();
        lemma_behind(front, last_synced);
        assert(items =~= front.push(items.last()));
        assert forall|item: (i64, usize)| #[trigger]
            behind(items, last_synced).contains(item) <==> items.contains(item) && item.0
                > last_synced by {
            lemma_push_contains(front, items.last(), item);
            lemma_push_contains(behind(front, last_synced), items.last(), item);
        }
    }
}

/// The work for one topic, whose updates stand at the given places.
fn work_for(
    us: &Vec<TelegramUpdate>,
    updates: &Vec<usize>,
    topic: TopicDestination,
    last_synced: i64,
    limit: usize,
    Ghost(groups): Ghost<Seq<u64>>,
) -> (r: Option<(Vec<usize>, Option<i64>)>)
    requires
        indices(updates@) == routed(us@, groups, (topic.group_id, topic.topic_id)),
    ensures
        r is Some <==> behind(topic_items(us@, groups, topic), last_synced as int).len() > 0,
        r matches Some(w) ==> {
            let fresh = new_updates(
                topic_items(us@, groups, topic),
                last_synced as int,
                limit as int,
            );
            &&& w.0@ == places(stable(dated(us@, fresh)))
            &&& match w.1 {
                Some(id) => newest(fresh) == Some(id as int),
                None => newest(fresh) is None,
            }
        },
{
    let ghost at = routed(us@, groups, (topic.group_id, topic.topic_id));
    proof {
        lemma_routed_bounds(us@, groups, (topic.group_id, topic.topic_id));
    }
    let mut items: Vec<(i64, usize)> = Vec::new();
    let mut i: usize = 0;
    while i < updates.len()
        invariant
            i <= updates.len(),
            indices(updates@) == at,
            forall|k: int| 0 <= k < at.len() ==> 0 <= #[trigger] at[k] < us.len(),
            items@ == Seq::new(i as nat, |k: int| (us@[at[k]].update_id, at[k] as usize)),
        decreases updates.len() - i,
    {
        assert(indices(updates@)[i as int] == updates@[i as int]);
        assert(at[i as int] == updates@[i as int]);
        items.push((us[updates[i]].update_id, updates[i]));
        i += 1;
        assert(items@ =~= Seq::new(i as nat, |k: int| (us@[at[k]].update_id, at[k] as usize)));
    }
    assert(items@ =~= topic_items(us@, groups, topic));
    if !any_behind(&items, last_synced) {
        return None;
    }
    let chosen = select_new(&items, last_synced, limit);
    proof {
        lemma_new_updates(items@, last_synced as int, limit as int);
    }
    let newest_id = newest_update(&chosen);
    let mut dates: Vec<(i64, usize)> = Vec::new();
    let mut j: usize = 0;
    assert(dated(us@, chosen@).take(0) =~= Seq::empty());
    while j < chosen.len()
        invariant
            j <= chosen.len(),
            items@ == topic_items(us@, groups, topic),
            at == routed(us@, groups, (topic.group_id, topic.topic_id)),
            forall|k: int| 0 <= k < at.len() ==> 0 <= #[trigger] at[k] < us.len(),
            forall|k: int| 0 <= k < chosen.len() ==> items@.contains(#[trigger] chosen@[k]),
            dates@ == dated(us@, chosen@).take(j as int),
        decreases chosen.len() - j,
    {
        let place = chosen[j].1;
        proof {
            assert(items@.contains(chosen@[j as int]));
            let k = choose|k: int| 0 <= k < items.len() && items@[k] == chosen@[j as int];
            assert(0 <= at[k] < us.len());
            assert(items@[k].1 == at[k]);
        }
        let date: i64 = match message_of(&us[place]) {
            Some(m) => m.date,
            None => 0,
        };
        dates.push((date, place));
        j += 1;
        assert(dates@ =~= dated(us@, chosen@).take(j as int));
    }
    assert(dates@ =~= dated(us@, chosen@));
    let ordered = stable_sort(dates);
    let mut out: Vec<usize> = Vec::new();
    let mut k: usize = 0;
    while k < ordered.len()
        invariant
            k <= ordered.len(),
            out@ == places(ordered@).take(k as int),
        decreases ordered.len() - k,
    {
        out.push(ordered[k].1);
        k += 1;
        assert(out@ =~= places(ordered@).take(k as int));
    }
    assert(out@ =~= places(ordered@));
    Some((out, newest_id))
}

/// Some update is behind the last one that was synced.
fn any_behind(items: &Vec<(i64, usize)>, last_synced: i64) -> (r: bool)
    ensures
        r == (behind(items@, last_synced as int).len() > 0),
{
    let mut i: usize = 0;
    while i < items.len()
        invariant
            i <= items.len(),
            behind(items@.take(i as int), last_synced as int).len() == 0,
        decreases items.len() - i,
    {
        assert(items@.take(i + 1).drop_last() =~= items@.take(i as int));
        if items[i].0 > last_synced {
            proof {
                lemma_behind(items@, last_synced as int);
                assert(items@.contains(items@[i as int]));
                assert(behind(items@, last_synced as int).contains(items@[i as int]));
            }
            return true;
        }
        i += 1;
    }
    assert(items@.take(items@.len() as int) =~= items@);
    false
}

/// What is to be written of the updates: for each topic with an update behind the
/// last one that was synced its new updates, at most `limit` of them. The topics come
/// in the order of their keys.
pub fn plan_backfill(
    stamps: &SyncTimestamps,
    us: &Vec<TelegramUpdate>,
    groups: &Vec<u64>,
    limit: usize,
) -> (r: Vec<TopicWork>)
    ensures
        in_key_order(work_topics(r@)),
        forall|t: TopicDestination| #[trigger]
            work_topics(r@).contains(t) <==> is_behind(t, us@, groups@, stamps.topics@),
        forall|i: int|
            0 <= i < r.len() ==> is_work(
                #[trigger] r[i],
                us@,
                groups@,
                stamps.topics@,
                limit as int,
            ),
{
    let grouped = group_updates(us, groups);
    let ghost topics = topics_seen(us@, groups@);
    let mut r: Vec<TopicWork> = Vec::new();
    let mut i: usize = 0;
    while i < grouped.len()
        invariant
            i <= grouped.len(),
            are_routed(grouped@, us@, groups@),
            topics == topics_seen(us@, groups@),
            in_key_order(work_topics(r@)),
            forall|t: TopicDestination| #[trigger]
                work_topics(r@).contains(t) <==> topics.take(i as int).contains(
                    (t.group_id, t.topic_id),
                ) && is_behind(t, us@, groups@, stamps.topics@),
            forall|i: int|
                0 <= i < r.len() ==> is_work(
                    #[trigger] r[i],
                    us@,
                    groups@,
                    stamps.topics@,
                    limit as int,
                ),
        decreases grouped.len() - i,
    {
        let topic = TopicDestination {
            group_id: grouped[i].group_id,
            topic_id: grouped[i].topic_id,
        };
        let ghost before = r@;
        let ghost front = topics.take(i as int);
        proof {
            lemma_topics_seen(us@, groups@, (0, 0));
            assert(group_topics(grouped@)[i as int] == (topic.group_id, topic.topic_id));
            assert(topics.take(i + 1) =~= front.push(topics[i as int]));
            assert forall|t: TopicDestination| #[trigger]
                topics.take(i + 1).contains((t.group_id, t.topic_id)) <==> front.contains(
                    (t.group_id, t.topic_id),
                ) || t == topic by {
                lemma_push_contains(front, topics[i as int], (t.group_id, t.topic_id));
            }
            assert(!front.contains((topic.group_id, topic.topic_id))) by {
                if front.contains((topic.group_id, topic.topic_id)) {
                    let k = choose|k: int|
                        0 <= k < front.len() && front[k] == (topic.group_id, topic.topic_id);
                    assert(topics[k] == topics[i as int]);
                }
            }
            assert(!work_topics(before).contains(topic));
        }
        match work_for(
            us,
            &grouped[i].updates,
            topic,
            stamps.last_synced(topic),
            limit,
            Ghost(groups@),
        ) {
            Some((updates, newest)) => {
                let place = place_by_key(&r, topic);
                let work = TopicWork { topic, updates, newest };
                r.insert(place, work);
                proof {
                    lemma_put_by_key(work_topics(before), place as int, topic);
                    assert(work_topics(r@) =~= work_topics(before).insert(place as int, topic));
                    assert forall|j: int| 0 <= j < r.len() implies is_work(
                        #[trigger] r[j],
                        us@,
                        groups@,
                        stamps.topics@,
                        limit as int,
                    ) by {
                        if j < place {
                            assert(r[j] == before[j]);
                        } else if j > place {
                            assert(r[j] == before[j - 1]);
                        }
                    }
                }
            },
            None => {},
        }
        i += 1;
    }
    proof {
        assert(topics.take(topics.len() as int) =~= topics);
        assert forall|t: TopicDestination| #[trigger]
            work_topics(r@).contains(t) <==> is_behind(t, us@, groups@, stamps.topics@) by {
            lemma_topics_seen(us@, groups@, (t.group_id, t.topic_id));
            assert(behind(topic_items(us@, groups@, t), stamp_of(stamps.topics@, t)).len() > 0
                ==> topic_items(us@, groups@, t).len() > 0);
        }
    }
    r
}

/// The last update of a topic that was synced, after the work was done.
pub open spec fn stamp_after(work: Seq<TopicWork>, start: int, topic: TopicDestination) -> int
    decreases work.len(),
{
    if work.len() == 0 {
        start
    } else if work.last().topic == topic && work.last().newest is Some {
        work.last().newest->0 as int
    } else {
        stamp_after(work.drop_last(), start, topic)
    }
}

/// Some of the work is on the topic and has a newest update.
pub open spec fn is_worked_on(work: Seq<TopicWork>, topic: TopicDestination) -> bool {
    exists|i: int|
        0 <= i < work.len() && (#[trigger] work[i]).topic == topic && work[i].newest is Some
}

/// Records that the work was done.
pub fn record_work(stamps: &mut SyncTimestamps, work: &Vec<TopicWork>)
    requires
        old(stamps).valid(),
    ensures
        final(stamps).valid(),
        forall|t: TopicDestination| #[trigger]
            stamp_of(final(stamps).topics@, t) == stamp_after(
                work@,
                stamp_of(old(stamps).topics@, t),
                t,
            ),
        forall|t: TopicDestination| #[trigger]
            has_stamp(final(stamps).topics@, t) <==> has_stamp(old(stamps).topics@, t)
                || is_worked_on(work@, t),
{
    let ghost start = stamps.topics@;
    let mut i: usize = 0;
    while i < work.len()
        invariant
            i <= work.len(),
            stamps.valid(),
            forall|t: TopicDestination| #[trigger]
                stamp_of(stamps.topics@, t) == stamp_after(
                    work@.take(i as int),
                    stamp_of(start, t),
                    t,
                ),
            forall|t: TopicDestination| #[trigger]
                has_stamp(stamps.topics@, t) <==> has_stamp(start, t) || is_worked_on(
                    work@.take(i as int),
                    t,
                ),
        decreases work.len() - i,
    {
        assert(work@.take(i + 1).drop_last() =~= work@.take(i as int));
        assert forall|t: TopicDestination| #[trigger]
            is_worked_on(work@.take(i + 1), t) <==> is_worked_on(work@.take(i as int), t) || (
        work@[i as int].topic == t && work@[i as int].newest is Some) by {
            let a = work@.take(i as int);
            let b = work@.take(i + 1);
            assert(b[i as int] == work@[i as int]);
            if is_worked_on(b, t) {
                let k = choose|k: int|
                    0 <= k < b.len() && (#[trigger] b[k]).topic == t && b[k].newest is Some;
                assert(k < i ==> a[k] == b[k]);
            }
            if is_worked_on(a, t) {
                let k = choose|k: int|
                    0 <= k < a.len() && (#[trigger] a[k]).topic == t && a[k].newest is Some;
                assert(b[k] == a[k]);
            }
        }
        match work[i].newest {
            Some(id) => stamps.record(work[i].topic, id),
            None => {},
        }
        i += 1;
    }
    assert(work@.take(work@.len() as int) =~= work@);
}

// ---------------------------------------------------------------------------
// Merging
// ---------------------------------------------------------------------------

/// A file's content up to one character behind its last text.
pub open spec fn cut_behind(content: Seq<char>) -> Seq<char> {
    let n = trimmed_end(content).len() as int;
    if n < content.len() {
        content.take(n + 1)
    } else {
        content
    }
}

/// What became of the photo of a message.
pub enum PhotoOutcome {
    /// It was saved as this file.
    Saved(String),
    /// It could not be fetched.
    Failed,
}

/// What is written of a message: its text, or its image and then its caption.
pub open spec fn written_content(m: TelegramMessage, outcome: PhotoOutcome) -> Option<Seq<char>> {
    match m.photo {
        Some(sizes) => if sizes.len() == 0 {
            None
        } else {
            match outcome {
                PhotoOutcome::Saved(path) => {
                    let image = "![]("@ + path@ + ")"@;
                    match m.caption {
                        Some(c) => Some(image + "\n"@ + c@),
                        None => Some(image),
                    }
                },
                PhotoOutcome::Failed => match m.caption {
                    Some(c) => Some("[image failed to download]\n"@ + c@),
                    None => None,
                },
            }
        },
        None => match m.text {
            Some(t) => Some(t@),
            None => None,
        },
    }
}

/// What is written of a message.
pub fn message_content(m: &TelegramMessage, outcome: &PhotoOutcome) -> (r: Option<String>)
    ensures
        match r {
            Some(s) => written_content(*m, *outcome) == Some(s@),
            None => written_content(*m, *outcome) is None,
        },
{
    match &m.photo {
        Some(sizes) => {
            if sizes.len() == 0 {
                return None;
            }
            match outcome {
                PhotoOutcome::Saved(path) => {
                    let mut v = to_chars("![](");
                    append_str(&mut v, path.as_str());
                    append_str(&mut v, ")");
                    match &m.caption {
                        Some(c) => {
                            append_str(&mut v, "\n");
                            append_str(&mut v, c.as_str());
                        },
                        None => {},
                    }
                    Some(from_chars(v.as_slice()))
                },
                PhotoOutcome::Failed => match &m.caption {
                    Some(c) => {
                        let mut v = to_chars("[image failed to download]\n");
                        append_str(&mut v, c.as_str());
                        Some(from_chars(v.as_slice()))
                    },
                    None => None,
                },
            }
        },
        None => match &m.text {
            Some(t) => Some(t.clone()),
            None => None,
        },
    }
}

/// The area of a photo.
pub open spec fn area(p: PhotoSize) -> int {
    p.width * p.height
}

/// The size is the last of the largest.
pub open spec fn is_largest(sizes: Seq<PhotoSize>, k: int) -> bool {
    0 <= k < sizes.len() && forall|i: int|
        0 <= i < sizes.len() ==> area(#[trigger] sizes[i]) <= area(sizes[k]) && (i > k ==> area(
            sizes[i],
        ) < area(sizes[k]))
}

/// The last of the largest sizes of a photo.
pub fn largest_photo(sizes: &Vec<PhotoSize>) -> (r: Option<usize>)
    ensures
        match r {
            Some(k) => is_largest(sizes@, k as int),
            None => sizes.len() == 0,
        },
{
    if sizes.len() == 0 {
        return None;
    }
    let mut best: usize = 0;
    let mut i: usize = 1;
    while i < sizes.len()
        invariant
            1 <= i <= sizes.len(),
            best < i,
            forall|j: int|
                0 <= j < i ==> area(#[trigger] sizes[j]) <= area(sizes[best as int]) && (j > best
                    ==> area(sizes[j]) < area(sizes[best as int])),
        decreases sizes.len() - i,
    {
        proof {
            lemma_area(sizes[i as int]);
            lemma_area(sizes[best as int]);
        }
        let a: u64 = sizes[i].width as u64 * sizes[i].height as u64;
        let b: u64 = sizes[best].width as u64 * sizes[best].height as u64;
        if a >= b {
            best = i;
        }
        i += 1;
    }
    Some(best)
}

proof fn lemma_area(p: PhotoSize)
    ensures
        0 <= area(p) <= u64::MAX,
{
    assert(0 <= p.width * p.height <= 0xffff_ffff * 0xffff_ffff) by (nonlinear_arith)
        requires
            p.width <= 0xffff_ffff,
            p.height <= 0xffff_ffff,
    ;
}

/// The file that an image of a topic is saved as, below the data directory.
pub open spec fn image_path(
    group: u64,
    topic: u64,
    timestamp: int,
    ext: Option<Seq<char>>,
) -> Seq<char> {
    "images/"@ + decimal(group as int) + "_"@ + decimal(topic as int) + "_"@ + numeral(timestamp)
        + "."@ + (match ext {
        Some(e) => e,
        None => "jpg"@,
    })
}

/// The file that an image of a topic is saved as, below the data directory.
pub fn image_file(group_id: u64, topic_id: u64, timestamp: i64, ext: Option<&str>) -> (r: String)
    ensures
        r@ == image_path(group_id, topic_id, timestamp as int, optional_text(ext)),
{
    let mut v = to_chars("images/");
    append_decimal(&mut v, group_id as u128);
    append_str(&mut v, "_");
    append_decimal(&mut v, topic_id as u128);
    append_str(&mut v, "_");
    append_numeral(&mut v, timestamp as i128);
    append_str(&mut v, ".");
    match ext {
        Some(e) => append_str(&mut v, e),
        None => append_str(&mut v, "jpg"),
    }
    from_chars(v.as_slice())
}

/// The time of a message, or the given one where its second is out of range.
pub open spec fn message_time(date: int, now: Timestamp) -> Timestamp {
    if second_in_range(date) {
        Timestamp { nanos: (date * SECOND) as i128 }
    } else {
        now
    }
}

/// A message without a tag is written behind the text, under the gap since the last
/// write.
pub open spec fn is_written(
    text: Seq<char>,
    last: Option<Timestamp>,
    content: Seq<char>,
    date: int,
    now: Timestamp,
    new_text: Seq<char>,
    new_last: Option<Timestamp>,
) -> bool {
    let time = message_time(date, now);
    new_text == text + appended(content, None, gap(last, time)) && new_last == Some(time)
}

/// A topic's file that messages are written to.
pub struct FileMerge {
    text: Vec<char>,
    last_write: Option<Timestamp>,
}

impl FileMerge {
    /// The file's content.
    pub closed spec fn text(&self) -> Seq<char> {
        self.text@
    }

    /// The time of the last write.
    pub closed spec fn last(&self) -> Option<Timestamp> {
        self.last_write
    }

    /// The time of the last write can be shown as a date.
    pub open spec fn valid(&self) -> bool {
        self.last() is Some ==> self.last()->0.valid()
    }

    /// A file with this content. The note of its last change says when it was last
    /// written to.
    pub fn open(content: &str, last_changed: Option<&str>) -> (r: FileMerge)
        ensures
            r.text() == cut_behind(content@),
            r.last() == (match last_changed {
                Some(note) => rfc3339_instant(note@),
                None => None,
            }),
            r.valid(),
    {
        let last_write = match last_changed {
            Some(note) => Timestamp::from_rfc3339(note),
            None => None,
        };
        let chars = to_chars(content);
        let n = trim_end(chars.as_slice()).len();
        let mut text = chars;
        proof {
            lemma_trimmed_end(content@);
        }
        if n < text.len() {
            text.truncate(n + 1);
            assert(text@ =~= content@.take(n + 1));
        }
        FileMerge { text, last_write }
    }

    /// Writes a message that was sent at this second; one that is out of range
    /// counts as sent now.
    pub fn write(&mut self, content: &str, date: i64, now: Timestamp)
        requires
            old(self).valid(),
            now.valid(),
        ensures
            final(self).valid(),
            is_written(
                old(self).text(),
                old(self).last(),
                content@,
                date as int,
                now,
                final(self).text(),
                final(self).last(),
            ),
    {
        let time = match Timestamp::from_second(date) {
            Some(t) => t,
            None => now,
        };
        let formatted = format_message_append_with_sender(
            content,
            self.last_write,
            time,
            None,
            None,
        );
        append_str(&mut self.text, formatted.as_str());
        self.last_write = Some(time);
    }

    /// The file's content.
    pub fn content(&self) -> (r: String)
        ensures
            r@ == self.text(),
    {
        from_chars(self.text.as_slice())
    }

    /// The note of the file's last change. From the year 0 on it says when the file
    /// was last written to.
    pub fn last_changed(&self) -> (r: Option<String>)
        requires
            self.valid(),
        ensures
            match self.last() {
                Some(t) => r is Some && r->0@ == rfc3339_text(
                    t.nanos as int / SECOND as int,
                    t.nanos as int % SECOND as int,
                ) && (t.nanos >= YEAR_ZERO * SECOND ==> rfc3339_instant(r->0@) == Some(t)),
                None => r is None,
            },
    {
        match self.last_write {
            Some(t) => Some(t.to_rfc3339()),
            None => None,
        }
    }
}

// ---------------------------------------------------------------------------
// Laws
// ---------------------------------------------------------------------------

/// The key of a topic names that topic.
pub proof fn law_topic_key_reads_back(group: u64, topic: u64)
    ensures
        topic_keyed(topic_key(group, topic)) == Some((group, topic)),
{
    let g = decimal(group as int);
    let t = decimal(topic as int);
    let s = topic_key(group, topic);
    lemma_decimal(group as int);
    lemma_decimal(topic as int);
    lemma_unsigned_round_trip(group as int, u64::MAX as int);
    lemma_unsigned_round_trip(topic as int, u64::MAX as int);
    assert forall|j: int| 0 <= j < g.len() implies s[j] != '/' by {
        assert(ascii_digit(g[j]));
    }
    assert forall|j: int| 0 <= j < t.len() implies t[j] != '/' by {
        assert(ascii_digit(t[j]));
    }
    lemma_first_index_is(s, '/', g.len() as int);
    lemma_first_index_is(t, '/', t.len() as int);
    assert(s.take(g.len() as int) =~= g);
    assert(s.skip(g.len() as int + 1) =~= t);
    assert(split(t, '/') =~= seq![t]);
    assert(split(s, '/') =~= seq![g, t]);
}

/// Every update that belongs to a topic is among the updates of that topic, and
/// each topic stands once.
pub proof fn law_updates_are_grouped(
    v: Seq<TopicUpdates>,
    us: Seq<TelegramUpdate>,
    groups: Seq<u64>,
    i: int,
)
    requires
        are_routed(v, us, groups),
        0 <= i < us.len(),
        topic_of(us[i], groups) is Some,
    ensures
        group_topics(v).no_duplicates(),
        exists|k: int|
            0 <= k < v.len() && group_topics(v)[k] == topic_of(us[i], groups)->0 && indices(
                (#[trigger] v[k]).updates@,
            ).contains(i),
{
    let topic = topic_of(us[i], groups)->0;
    lemma_routed(us, groups, topic, i);
    lemma_topics_seen(us, groups, topic);
    assert(group_topics(v).contains(topic));
    let k = choose|k: int| 0 <= k < group_topics(v).len() && group_topics(v)[k] == topic;
    assert(indices(v[k].updates@).contains(i));
}

proof fn lemma_routed(us: Seq<TelegramUpdate>, groups: Seq<u64>, topic: (u64, u64), i: int)
    requires
        0 <= i < us.len(),
        topic_of(us[i], groups) == Some(topic),
    ensures
        routed(us, groups, topic).contains(i),
        routed(us, groups, topic).len() > 0,
    decreases us.len(),
{
    let front = us.drop_last();
    let before = routed(front, groups, topic);
    if i < us.len() - 1 {
        lemma_routed(front, groups, topic, i);
        lemma_push_contains(before, us.len() - 1, i);
    } else {
        lemma_push_contains(before, us.len() - 1, i);
    }
}

proof fn lemma_newest(items: Seq<(i64, usize)>)
    ensures
        newest(items) is Some <==> items.len() > 0,
        forall|item: (i64, usize)| #[trigger]
            items.contains(item) ==> newest(items) is Some && item.0 <= newest(items)->0,
    decreases items.len(),
{
    if items.len() > 0 {
        let front = items.drop_last();
        lemma_newest(front);
        assert(items =~= front.push(items.last()));
        assert forall|item: (i64, usize)| #[trigger] items.contains(item) implies newest(items)
            is Some && item.0 <= newest(items)->0 by {
            lemma_push_contains(front, items.last(), item);
        }
    }
}

/// Once the new updates of a topic are recorded, none of its updates is behind the
/// last one that was synced.
pub proof fn law_backfill_is_done(items: Seq<(i64, usize)>, last_synced: int, limit: int)
    requires
        limit > 0,
        behind(items, last_synced).len() > 0,
    ensures
        newest(new_updates(items, last_synced, limit)) is Some,
        behind(items, newest(new_updates(items, last_synced, limit))->0).len() == 0,
{
    let fresh = behind(items, last_synced);
    let chosen = new_updates(items, last_synced, limit);
    law_sorting(fresh);
    lemma_newest(chosen);
    let top = newest(chosen)->0;
    assert(chosen.len() > 0);
    lemma_behind(items, last_synced);
    lemma_behind(items, top);
    let rest = behind(items, top);
    if rest.len() > 0 {
        let item = rest[0];
        assert(rest.contains(item));
        assert(items.contains(item));
        assert(top > last_synced) by {
            lemma_new_updates_behind(items, last_synced, limit);
            assert(chosen.contains(chosen[0]));
        }
        assert(fresh.contains(item));
        if fresh.len() > limit {
            let sorted = stable(fresh);
            lemma_same_items(fresh, sorted, item);
            let k = choose|k: int| 0 <= k < sorted.len() && sorted[k] == item;
            let last = sorted[sorted.len() - 1];
            assert(chosen[chosen.len() - 1] == last);
            assert(chosen.contains(last));
            assert(k < sorted.len() - 1 ==> sorted[k].0 <= last.0);
        }
    }
}

pub proof fn lemma_new_updates_behind(items: Seq<(i64, usize)>, last_synced: int, limit: int)
    requires
        limit > 0,
    ensures
        forall|k: int|
            0 <= k < new_updates(items, last_synced, limit).len() ==> (#[trigger] new_updates(
                items,
                last_synced,
                limit,
            )[k]).0 > last_synced,
{
    let fresh = behind(items, last_synced);
    let r = new_updates(items, last_synced, limit);
    law_sorting(fresh);
    lemma_behind(items, last_synced);
    assert forall|k: int| 0 <= k < r.len() implies (#[trigger] r[k]).0 > last_synced by {
        if fresh.len() > limit {
            let sorted = stable(fresh);
            assert(r[k] == sorted[k + fresh.len() - limit]);
            lemma_same_items(sorted, fresh, r[k]);
        }
        assert(fresh.contains(r[k]));
    }
}

} // verus!
