//! Settings, and the names of groups and topics.
use std::collections::BTreeMap;

use vstd::prelude::*;

use crate::decimal::{append_decimal, decimal};
use crate::destination::{TelegramDestination, target_id};
use crate::text::{from_chars, same, to_chars};

verus! {

broadcast use vstd::std_specs::btree::group_btree_axioms;

// ---------------------------------------------------------------------------
// Names of groups and topics
// ---------------------------------------------------------------------------

/// What is known of the topics of forum groups.
#[derive(Clone, Debug)]
pub struct TopicsMetadata {
    /// The groups by their ids.
    pub groups: BTreeMap<u64, GroupMetadata>,
}

/// What is known of a forum group.
#[derive(Clone, Debug)]
pub struct GroupMetadata {
    /// The name of the group, where it has one.
    pub name: Option<String>,
    /// The names of the topics by their ids.
    pub topics: BTreeMap<u64, String>,
}

impl Default for GroupMetadata {
    fn default() -> (r: Self)
        ensures
            r.name is None,
            r.topics@ == Map::<u64, String>::empty(),
    {
        GroupMetadata { name: None, topics: BTreeMap::new() }
    }
}

impl Default for TopicsMetadata {
    fn default() -> (r: Self)
        ensures
            r.groups@ == Map::<u64, GroupMetadata>::empty(),
    {
        TopicsMetadata { groups: BTreeMap::new() }
    }
}

/// The name that a group or topic has by its number.
pub open spec fn numbered(label: Seq<char>, id: u64) -> Seq<char> {
    label + decimal(id as int)
}

/// The name of a group: its own, or one by its number.
pub open spec fn group_label(groups: Map<u64, GroupMetadata>, group: u64) -> Seq<char> {
    if groups.contains_key(group) && groups[group].name is Some {
        groups[group].name->0@
    } else {
        numbered("group_"@, group)
    }
}

/// The topics of a group that have names.
pub open spec fn topics_of(groups: Map<u64, GroupMetadata>, group: u64) -> Map<u64, String> {
    if groups.contains_key(group) {
        groups[group].topics@
    } else {
        Map::empty()
    }
}

/// The name of a topic: its own, or one by its number.
pub open spec fn topic_label(groups: Map<u64, GroupMetadata>, group: u64, topic: u64) -> Seq<char> {
    if topics_of(groups, group).contains_key(topic) {
        topics_of(groups, group)[topic]@
    } else {
        numbered("topic_"@, topic)
    }
}

/// The group's own name.
pub open spec fn own_name(groups: Map<u64, GroupMetadata>, group: u64) -> Option<String> {
    if groups.contains_key(group) {
        groups[group].name
    } else {
        None
    }
}

/// Only the entry of the one group changed, and it is there.
pub open spec fn only_group_changed(
    old_groups: Map<u64, GroupMetadata>,
    groups: Map<u64, GroupMetadata>,
    group: u64,
) -> bool {
    groups.contains_key(group) && groups == old_groups.insert(group, groups[group])
}

/// The group got a name, and nothing else changed.
pub open spec fn group_renamed(
    old_groups: Map<u64, GroupMetadata>,
    groups: Map<u64, GroupMetadata>,
    group: u64,
    name: Seq<char>,
) -> bool {
    &&& only_group_changed(old_groups, groups, group)
    &&& groups[group].name is Some
    &&& groups[group].name->0@ == name
    &&& topics_of(groups, group) == topics_of(old_groups, group)
}

/// The topic got a name, and nothing else changed.
pub open spec fn topic_renamed(
    old_groups: Map<u64, GroupMetadata>,
    groups: Map<u64, GroupMetadata>,
    group: u64,
    topic: u64,
    name: Seq<char>,
) -> bool {
    &&& only_group_changed(old_groups, groups, group)
    &&& own_name(groups, group) == own_name(old_groups, group)
    &&& topics_of(groups, group).contains_key(topic)
    &&& topics_of(groups, group)[topic]@ == name
    &&& topics_of(groups, group) == topics_of(old_groups, group).insert(
        topic,
        topics_of(groups, group)[topic],
    )
}

/// A label and the digits of an id.
pub fn numbered_name(label: &str, id: u64) -> (r: String)
    ensures
        r@ == numbered(label@, id),
{
    let mut v = to_chars(label);
    append_decimal(&mut v, id as u128);
    from_chars(v.as_slice())
}

impl TopicsMetadata {
    /// The name to show for a group.
    pub fn group_name(&self, group_id: u64) -> (r: String)
        ensures
            r@ == group_label(self.groups@, group_id),
    {
        match self.groups.get(&group_id) {
            Some(g) => match &g.name {
                Some(name) => name.clone(),
                None => numbered_name("group_", group_id),
            },
            None => numbered_name("group_", group_id),
        }
    }

    /// The name to show for a topic.
    pub fn topic_name(&self, group_id: u64, topic_id: u64) -> (r: String)
        ensures
            r@ == topic_label(self.groups@, group_id, topic_id),
    {
        match self.groups.get(&group_id) {
            Some(g) => match g.topics.get(&topic_id) {
                Some(name) => name.clone(),
                None => numbered_name("topic_", topic_id),
            },
            None => numbered_name("topic_", topic_id),
        }
    }

    /// Takes out the entry of a group, or makes a new one.
    fn take_group(&mut self, group_id: u64) -> (r: GroupMetadata)
        ensures
            final(self).groups@ == old(self).groups@.remove(group_id),
            r.name == own_name(old(self).groups@, group_id),
            r.topics@ == topics_of(old(self).groups@, group_id),
    {
        match self.groups.remove(&group_id) {
            Some(g) => g,
            None => {
                proof {
                    assert(self.groups@ =~= old(self).groups@.remove(group_id));
                }
                GroupMetadata::default()
            },
        }
    }

    /// Puts the entry of a group back.
    fn put_group(&mut self, group_id: u64, group: GroupMetadata)
        ensures
            final(self).groups@ == old(self).groups@.insert(group_id, group),
    {
        self.groups.insert(group_id, group);
    }

    /// Gives a group a name.
    pub fn set_group_name(&mut self, group_id: u64, name: String)
        ensures
            group_renamed(old(self).groups@, final(self).groups@, group_id, name@),
    {
        let mut g = self.take_group(group_id);
        g.name = Some(name);
        self.put_group(group_id, g);
        assert(self.groups@ =~= old(self).groups@.insert(group_id, g));
    }

    /// Gives a topic a name.
    pub fn set_topic_name(&mut self, group_id: u64, topic_id: u64, name: String)
        ensures
            topic_renamed(old(self).groups@, final(self).groups@, group_id, topic_id, name@),
    {
        let mut g = self.take_group(group_id);
        g.topics.insert(topic_id, name);
        self.put_group(group_id, g);
        assert(self.groups@ =~= old(self).groups@.insert(group_id, g));
    }

    /// Registers a topic under a name by its number, unless it has a name.
    pub fn ensure_topic(&mut self, group_id: u64, topic_id: u64)
        ensures
            if topics_of(old(self).groups@, group_id).contains_key(topic_id) {
                final(self).groups@ == old(self).groups@
            } else {
                topic_renamed(
                    old(self).groups@,
                    final(self).groups@,
                    group_id,
                    topic_id,
                    numbered("topic_"@, topic_id),
                )
            },
    {
        let known = match self.groups.get(&group_id) {
            Some(g) => g.topics.contains_key(&topic_id),
            None => false,
        };
        if !known {
            self.set_topic_name(group_id, topic_id, numbered_name("topic_", topic_id));
        }
    }
}

// ---------------------------------------------------------------------------
// Settings
// ---------------------------------------------------------------------------

/// A span of time.
#[derive(Clone, Copy, Debug, Eq, PartialEq, Structural)]
pub struct Timeframe {
    pub seconds: u64,
}

/// The settings of the program.
#[derive(Clone, Debug)]
pub struct AppConfig {
    /// The port of the server on this machine.
    pub localhost_port: u16,
    /// The most messages to fetch for a topic at a time.
    pub max_messages_per_chat: usize,
    /// How far back to look for open tasks.
    pub pull_todos_over: Option<Timeframe>,
    /// Destinations by their names. No name stands twice.
    pub groups: Vec<(String, TelegramDestination)>,
    /// The time between two pulls.
    pub pull_interval: Option<Timeframe>,
    /// The time between two looks at the alerts channel.
    pub alerts_interval: Option<Timeframe>,
    /// The channel whose unread messages are shown as notifications.
    pub alerts_channel: Option<TelegramDestination>,
    /// The most messages to print without asking.
    pub print_confirm_threshold: Option<usize>,
    /// The id of the Telegram API.
    pub api_id: Option<i32>,
    /// The hash of the Telegram API.
    pub api_hash: Option<String>,
    /// The phone number to sign in with.
    pub phone: Option<String>,
    /// The name that the session file is called by.
    pub username: Option<String>,
}

/// The groups that the destinations name by numbers, each once, in the order of
/// their first destinations.
pub open spec fn group_ids_of(groups: Seq<(String, TelegramDestination)>) -> Seq<u64>
    decreases groups.len(),
{
    if groups.len() == 0 {
        Seq::empty()
    } else {
        let before = group_ids_of(groups.drop_last());
        match target_id(groups.last().1@) {
            Some(id) => if before.contains(id) {
                before
            } else {
                before.push(id)
            },
            None => before,
        }
    }
}

/// Whether the id is among the given ones.
pub fn holds_id(ids: &Vec<u64>, id: u64) -> (r: bool)
    ensures
        r == ids@.contains(id),
{
    let mut i: usize = 0;
    while i < ids.len()
        invariant
            i <= ids.len(),
            forall|j: int| 0 <= j < i ==> ids@[j] != id,
        decreases ids.len() - i,
    {
        if ids[i] == id {
            assert(ids@[i as int] == id);
            return true;
        }
        i += 1;
    }
    false
}

impl AppConfig {
    /// How far back to look for open tasks: a week, unless set.
    pub fn pull_todos_over(&self) -> (r: Timeframe)
        ensures
            r == (match self.pull_todos_over {
                Some(t) => t,
                None => Timeframe { seconds: 604800 },
            }),
    {
        match self.pull_todos_over {
            Some(t) => t,
            None => Timeframe { seconds: 604800 },
        }
    }

    /// The time between two pulls: a minute, unless set.
    pub fn pull_interval(&self) -> (r: Timeframe)
        ensures
            r == (match self.pull_interval {
                Some(t) => t,
                None => Timeframe { seconds: 60 },
            }),
    {
        match self.pull_interval {
            Some(t) => t,
            None => Timeframe { seconds: 60 },
        }
    }

    /// The time between two looks at the alerts channel: a minute, unless set.
    pub fn alerts_interval(&self) -> (r: Timeframe)
        ensures
            r == (match self.alerts_interval {
                Some(t) => t,
                None => Timeframe { seconds: 60 },
            }),
    {
        match self.alerts_interval {
            Some(t) => t,
            None => Timeframe { seconds: 60 },
        }
    }

    /// The most messages to print without asking: sixty-four, unless set.
    pub fn print_confirm_threshold(&self) -> (r: usize)
        ensures
            r == (match self.print_confirm_threshold {
                Some(n) => n,
                None => 64,
            }),
    {
        match self.print_confirm_threshold {
            Some(n) => n,
            None => 64,
        }
    }

    /// The ids of all groups that the destinations name by numbers, each once.
    pub fn forum_group_ids(&self) -> (r: Vec<u64>)
        ensures
            r@ == group_ids_of(self.groups@),
    {
        let mut r: Vec<u64> = Vec::new();
        let mut i: usize = 0;
        while i < self.groups.len()
            invariant
                i <= self.groups.len(),
                r@ == group_ids_of(self.groups@.take(i as int)),
            decreases self.groups.len() - i,
        {
            assert(self.groups@.take(i + 1).drop_last() =~= self.groups@.take(i as int));
            match self.groups[i].1.group_id() {
                Some(id) => {
                    if !holds_id(&r, id) {
                        r.push(id);
                    }
                },
                None => {},
            }
            i += 1;
        }
        assert(self.groups@.take(self.groups.len() as int) =~= self.groups@);
        r
    }

    /// The destination of that name.
    pub fn resolve_group(&self, name: &str) -> (r: Option<&TelegramDestination>)
        ensures
            match r {
                Some(d) => exists|i: int|
                    0 <= i < self.groups.len() && #[trigger] self.groups[i].0@ == name@ && *d
                        == self.groups[i].1 && forall|j: int|
                        0 <= j < i ==> self.groups[j].0@ != name@,
                None => forall|i: int|
                    0 <= i < self.groups.len() ==> (#[trigger] self.groups[i]).0@ != name@,
            },
    {
        let wanted = to_chars(name);
        let mut i: usize = 0;
        while i < self.groups.len()
            invariant
                i <= self.groups.len(),
                wanted@ == name@,
                forall|j: int| 0 <= j < i ==> (#[trigger] self.groups[j]).0@ != name@,
            decreases self.groups.len() - i,
        {
            if same(to_chars(self.groups[i].0.as_str()).as_slice(), wanted.as_slice()) {
                assert(self.groups[i as int].0@ == name@);
                return Some(&self.groups[i].1);
            }
            i += 1;
        }
        None
    }
}

// ---------------------------------------------------------------------------
// Laws
// ---------------------------------------------------------------------------

/// A group that got a name is called by it, and every other group and every topic
/// is called as before.
pub proof fn law_group_name_is_kept(
    old_groups: Map<u64, GroupMetadata>,
    groups: Map<u64, GroupMetadata>,
    group: u64,
    name: Seq<char>,
)
    requires
        group_renamed(old_groups, groups, group, name),
    ensures
        group_label(groups, group) == name,
        forall|g: u64| g != group ==> #[trigger] group_label(groups, g) == group_label(old_groups, g),
        forall|g: u64, t: u64| #[trigger]
            topic_label(groups, g, t) == topic_label(old_groups, g, t),
{
}

/// A topic that got a name is called by it, and every other topic and every group
/// is called as before.
pub proof fn law_topic_name_is_kept(
    old_groups: Map<u64, GroupMetadata>,
    groups: Map<u64, GroupMetadata>,
    group: u64,
    topic: u64,
    name: Seq<char>,
)
    requires
        topic_renamed(old_groups, groups, group, topic, name),
    ensures
        topic_label(groups, group, topic) == name,
        forall|g: u64, t: u64|
            g != group || t != topic ==> #[trigger] topic_label(groups, g, t) == topic_label(
                old_groups,
                g,
                t,
            ),
        forall|g: u64| #[trigger] group_label(groups, g) == group_label(old_groups, g),
        forall|g: u64| #[trigger] own_name(groups, g) == own_name(old_groups, g),
        forall|g: u64| #[trigger]
            groups.contains_key(g) <==> old_groups.contains_key(g) || g == group,
        forall|g: u64, t: u64| #[trigger]
            topics_of(groups, g).contains_key(t) <==> topics_of(old_groups, g).contains_key(t) || (g
                == group && t == topic),
{
    assert forall|g: u64| #[trigger] group_label(groups, g) == group_label(old_groups, g) by {
        if g == group {
            assert(own_name(groups, g) == own_name(old_groups, g));
        }
    }
}

/// Each group stands once among the group ids, and it is that of a destination.
pub proof fn law_group_ids(groups: Seq<(String, TelegramDestination)>)
    ensures
        group_ids_of(groups).no_duplicates(),
        forall|id: u64| #[trigger]
            group_ids_of(groups).contains(id) <==> exists|i: int|
                0 <= i < groups.len() && target_id((#[trigger] groups[i]).1@) == Some(id),
    decreases groups.len(),
{
    if groups.len() > 0 {
        let front = groups.drop_last();
        law_group_ids(front);
        let before = group_ids_of(front);
        let ids = group_ids_of(groups);
        let last = target_id(groups.last().1@);
        assert forall|id: u64| #[trigger] ids.contains(id) <==> exists|i: int|
            0 <= i < groups.len() && target_id((#[trigger] groups[i]).1@) == Some(id) by {
            if ids.contains(id) {
                if before.contains(id) {
                    let i = choose|i: int|
                        0 <= i < front.len() && target_id((#[trigger] front[i]).1@) == Some(id);
                    assert(groups[i] == front[i]);
                } else {
                    let k = choose|k: int| 0 <= k < ids.len() && ids[k] == id;
                    if k < before.len() {
                        assert(before[k] == id);
                    }
                    assert(groups[groups.len() - 1] == groups.last());
                }
            }
            if exists|i: int|
                0 <= i < groups.len() && target_id((#[trigger] groups[i]).1@) == Some(id) {
                let i = choose|i: int|
                    0 <= i < groups.len() && target_id((#[trigger] groups[i]).1@) == Some(id);
                if i < front.len() {
                    assert(front[i] == groups[i]);
                    assert(before.contains(id));
                    let k = choose|k: int| 0 <= k < before.len() && before[k] == id;
                    assert(ids[k] == id);
                } else if !before.contains(id) {
                    assert(ids.last() == id);
                    assert(ids[ids.len() - 1] == id);
                }
            }
        }
    }
}

/// The groups come in the order of the destinations that name them first.
pub proof fn law_order_of_group_ids(
    groups: Seq<(String, TelegramDestination)>,
    entry: (String, TelegramDestination),
)
    ensures
        group_ids_of(Seq::empty()) == Seq::<u64>::empty(),
        target_id(entry.1@) matches Some(id) ==> group_ids_of(groups.push(entry)) == (
        if group_ids_of(groups).contains(id) {
            group_ids_of(groups)
        } else {
            group_ids_of(groups).push(id)
        }),
        target_id(entry.1@) is None ==> group_ids_of(groups.push(entry)) == group_ids_of(groups),
{
    assert(groups.push(entry).drop_last() =~= groups);
}

} // verus!
