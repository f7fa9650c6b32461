//! Finding topics by their names.
use vstd::prelude::*;

use crate::config::{GroupMetadata, TopicsMetadata, group_label, topic_label};
use crate::decimal::{append_decimal, decimal};
use crate::pull::{keys_in_order, sorted_keys, topic_filepath};
use crate::sync::lemma_push_contains;
use crate::text::{
    append_str, contains, contains_str, from_chars, join_lines, joined, lines, newline, occurs,
    same, split_lines, string_texts, texts, to_chars, trim, trimmed,
};
use crate::unicode::lowercase;

verus! {

broadcast use vstd::std_specs::btree::group_btree_axioms;

/// The topic has a name.
pub open spec fn is_known(groups: Map<u64, GroupMetadata>, group: u64, topic: u64) -> bool {
    groups.contains_key(group) && groups[group].topics@.contains_key(topic)
}

/// The one topic comes before the other: its group does, or it does in its group.
pub open spec fn earlier(a: (u64, u64), b: (u64, u64)) -> bool {
    a.0 < b.0 || (a.0 == b.0 && a.1 < b.1)
}

/// Each topic comes before the next.
pub open spec fn in_topic_order(v: Seq<(u64, u64)>) -> bool {
    forall|i: int, j: int| 0 <= i < j < v.len() ==> earlier(#[trigger] v[i], #[trigger] v[j])
}

/// Puts a topic in its place, unless it is there.
fn put_topic(v: &mut Vec<(u64, u64)>, topic: (u64, u64))
    requires
        in_topic_order(old(v)@),
    ensures
        in_topic_order(final(v)@),
        forall|t: (u64, u64)| #[trigger]
            final(v)@.contains(t) <==> old(v)@.contains(t) || t == topic,
{
    let ghost start = v@;
    let mut i: usize = 0;
    while i < v.len() && (v[i].0 < topic.0 || (v[i].0 == topic.0 && v[i].1 < topic.1))
        invariant
            i <= v.len(),
            v@ == start,
            forall|j: int| 0 <= j < i ==> earlier(#[trigger] start[j], topic),
        decreases v.len() - i,
    {
        i += 1;
    }
    if i < v.len() && v[i].0 == topic.0 && v[i].1 == topic.1 {
        assert(start[i as int] == topic);
        return;
    }
    v.insert(i, topic);
    proof {
        assert forall|a: int, b: int| 0 <= a < b < v.len() implies earlier(
            #[trigger] v@[a],
            #[trigger] v@[b],
        ) by {
            let x = if a < i {
                start[a]
            } else if a == i {
                topic
            } else {
                start[a - 1]
            };
            let y = if b < i {
                start[b]
            } else if b == i {
                topic
            } else {
                start[b - 1]
            };
            assert(v@[a] == x && v@[b] == y);
            if a == i {
                assert(earlier(topic, start[i as int]));
                assert(b - 1 > i ==> earlier(start[i as int], start[b - 1]));
            }
        }
        assert forall|t: (u64, u64)| #[trigger] v@.contains(t) <==> start.contains(t) || t
            == topic by {
            if v@.contains(t) {
                let x = choose|x: int| 0 <= x < v@.len() && v@[x] == t;
                if x < i {
                    assert(start[x] == t);
                } else if x > i {
                    assert(start[x - 1] == t);
                }
            }
            if start.contains(t) {
                let x = choose|x: int| 0 <= x < start.len() && start[x] == t;
                if x < i {
                    assert(v@[x] == t);
                } else {
                    assert(v@[x + 1] == t);
                }
            }
            if t == topic {
                assert(v@[i as int] == t);
            }
        }
    }
}

/// The topics, each once, by their groups and ids.
pub fn distinct_topics(places: &Vec<(u64, u64)>) -> (r: Vec<(u64, u64)>)
    ensures
        in_topic_order(r@),
        forall|t: (u64, u64)| #[trigger] r@.contains(t) <==> places@.contains(t),
{
    let mut r: Vec<(u64, u64)> = Vec::new();
    let mut i: usize = 0;
    while i < places.len()
        invariant
            i <= places.len(),
            in_topic_order(r@),
            forall|t: (u64, u64)| #[trigger]
                r@.contains(t) <==> places@.take(i as int).contains(t),
        decreases places.len() - i,
    {
        let ghost before = r@;
        let ghost front = places@.take(i as int);
        put_topic(&mut r, (places[i].0, places[i].1));
        proof {
            assert(places@.take(i + 1) =~= front.push(places@[i as int]));
            assert forall|t: (u64, u64)| #[trigger] r@.contains(t) <==> places@.take(
                i + 1,
            ).contains(t) by {
                lemma_push_contains(front, places@[i as int], t);
                assert(before.contains(t) <==> front.contains(t));
            }
        }
        i += 1;
    }
    assert(places@.take(places@.len() as int) =~= places@);
    r
}

/// All topics with names, by their groups and ids.
pub open spec fn are_all_topics(v: Seq<(u64, u64)>, groups: Map<u64, GroupMetadata>) -> bool {
    &&& in_topic_order(v)
    &&& forall|g: u64, t: u64| #[trigger] v.contains((g, t)) <==> is_known(groups, g, t)
}

/// All topics with names, by their groups and ids.
pub fn all_topics(metadata: &TopicsMetadata) -> (r: Vec<(u64, u64)>)
    ensures
        are_all_topics(r@, metadata.groups@),
{
    let gs = sorted_keys(&metadata.groups);
    let ghost groups = metadata.groups@;
    let mut r: Vec<(u64, u64)> = Vec::new();
    let mut i: usize = 0;
    while i < gs.len()
        invariant
            i <= gs.len(),
            groups == metadata.groups@,
            keys_in_order(gs@, groups),
            in_topic_order(r@),
            forall|j: int| 0 <= j < r.len() ==> gs@.take(i as int).contains((#[trigger] r@[j]).0),
            forall|g: u64, t: u64| #[trigger]
                r@.contains((g, t)) <==> gs@.take(i as int).contains(g) && is_known(groups, g, t),
        decreases gs.len() - i,
    {
        let g = gs[i];
        let ghost before = r@;
        let ghost front = gs@.take(i as int);
        proof {
            assert(gs@.to_set().contains(gs@[i as int]));
            assert(gs@.take(i + 1) =~= front.push(g));
        }
        match metadata.groups.get(&g) {
            Some(group) => {
                let ts = sorted_keys(&group.topics);
                let mut k: usize = 0;
                while k < ts.len()
                    invariant
                        k <= ts.len(),
                        keys_in_order(ts@, group.topics@),
                        r.len() == before.len() + k,
                        forall|j: int| 0 <= j < before.len() ==> #[trigger] r@[j] == before[j],
                        forall|j: int|
                            before.len() <= j < r.len() ==> #[trigger] r@[j] == (
                                g,
                                ts@[j - before.len()],
                            ),
                    decreases ts.len() - k,
                {
                    r.push((g, ts[k]));
                    k += 1;
                }
                proof {
                    assert forall|a: int, b: int| 0 <= a < b < r.len() implies earlier(
                        #[trigger] r@[a],
                        #[trigger] r@[b],
                    ) by {
                        if a < before.len() && b >= before.len() {
                            assert(front.contains(before[a].0));
                            let x = choose|x: int| 0 <= x < front.len() && front[x] == before[a].0;
                            assert(gs@[x] < gs@[i as int]);
                        }
                    }
                    assert forall|j: int| 0 <= j < r.len() implies gs@.take(i + 1).contains(
                        (#[trigger] r@[j]).0,
                    ) by {
                        lemma_push_contains(front, g, r@[j].0);
                        if j < before.len() {
                            assert(front.contains(before[j].0));
                        }
                    }
                    assert forall|h: u64, t: u64| #[trigger] r@.contains((h, t)) <==> gs@.take(
                        i + 1,
                    ).contains(h) && is_known(groups, h, t) by {
                        lemma_push_contains(front, g, h);
                        assert(before.contains((h, t)) <==> front.contains(h) && is_known(
                            groups,
                            h,
                            t,
                        ));
                        if r@.contains((h, t)) {
                            let j = choose|j: int| 0 <= j < r.len() && r@[j] == (h, t);
                            if j < before.len() {
                                assert(before[j] == (h, t));
                            } else {
                                assert(ts@[j - before.len()] == t);
                                assert(ts@.to_set().contains(t));
                            }
                        }
                        if gs@.take(i + 1).contains(h) && is_known(groups, h, t) {
                            if front.contains(h) {
                                let j = choose|j: int| 0 <= j < before.len() && before[j] == (h, t);
                                assert(r@[j] == (h, t));
                            } else {
                                assert(ts@.to_set().contains(t));
                                let x = choose|x: int| 0 <= x < ts@.len() && ts@[x] == t;
                                assert(r@[before.len() + x] == (h, t));
                            }
                        }
                    }
                }
            },
            None => {
                return r;
            },
        }
        i += 1;
    }
    proof {
        assert(gs@.take(gs@.len() as int) =~= gs@);
        assert forall|g: u64, t: u64| #[trigger] r@.contains((g, t)) <==> is_known(groups, g, t) by {
            if is_known(groups, g, t) {
                assert(gs@.to_set().contains(g));
            }
        }
    }
    r
}

/// The file of a topic, below the data directory.
pub open spec fn source_text(groups: Map<u64, GroupMetadata>, group: u64, topic: u64) -> Seq<char> {
    group_label(groups, group) + "/"@ + topic_label(groups, group, topic) + ".md"@
}

/// The file of a topic, below the data directory.
pub fn source_of(metadata: &TopicsMetadata, group_id: u64, topic_id: u64) -> (r: String)
    ensures
        r@ == source_text(metadata.groups@, group_id, topic_id),
{
    let mut v = to_chars(metadata.group_name(group_id).as_str());
    append_str(&mut v, "/");
    append_str(&mut v, metadata.topic_name(group_id, topic_id).as_str());
    append_str(&mut v, ".md");
    from_chars(v.as_slice())
}

// ---------------------------------------------------------------------------
// From files to topics
// ---------------------------------------------------------------------------

/// The topic is the one in that directory and file.
pub open spec fn is_topic_of(
    groups: Map<u64, GroupMetadata>,
    group: u64,
    topic: u64,
    dir: Seq<char>,
    file: Seq<char>,
) -> bool {
    is_known(groups, group, topic) && group_label(groups, group) == dir && topic_label(
        groups,
        group,
        topic,
    ) + ".md"@ == file
}

/// The topic of a directory and a file: the first one whose names they are.
pub fn resolve_topic_ids_from_path(metadata: &TopicsMetadata, dir: &str, file: &str) -> (r: Option<
    (u64, u64),
>)
    ensures
        match r {
            Some((g, t)) => is_topic_of(metadata.groups@, g, t, dir@, file@) && forall|
                h: u64,
                u: u64,
            | #[trigger]
                is_topic_of(metadata.groups@, h, u, dir@, file@) ==> !earlier((h, u), (g, t)),
            None => forall|g: u64, t: u64| !is_topic_of(metadata.groups@, g, t, dir@, file@),
        },
{
    let all = all_topics(metadata);
    let d = to_chars(dir);
    let f = to_chars(file);
    let ghost groups = metadata.groups@;
    let mut i: usize = 0;
    while i < all.len()
        invariant
            i <= all.len(),
            groups == metadata.groups@,
            d@ == dir@,
            f@ == file@,
            are_all_topics(all@, groups),
            forall|j: int|
                0 <= j < i ==> !is_topic_of(
                    groups,
                    (#[trigger] all@[j]).0,
                    all@[j].1,
                    dir@,
                    file@,
                ),
        decreases all.len() - i,
    {
        let (g, t) = all[i];
        let (own_dir, own_file) = topic_filepath(g, t, metadata);
        proof {
            assert(all@.contains(all@[i as int]));
            assert(all@.contains((g, t)));
        }
        if same(to_chars(own_dir.as_str()).as_slice(), d.as_slice()) && same(
            to_chars(own_file.as_str()).as_slice(),
            f.as_slice(),
        ) {
            proof {
                assert forall|h: u64, u: u64| #[trigger]
                    is_topic_of(groups, h, u, dir@, file@) implies !earlier((h, u), (g, t)) by {
                    assert(all@.contains((h, u)));
                    let j = choose|j: int| 0 <= j < all@.len() && all@[j] == (h, u);
                    if j < i {
                        assert(!is_topic_of(groups, all@[j].0, all@[j].1, dir@, file@));
                    } else if j > i {
                        assert(earlier(all@[i as int], all@[j]));
                    }
                }
            }
            return Some((g, t));
        }
        i += 1;
    }
    proof {
        assert forall|g: u64, t: u64| !is_topic_of(groups, g, t, dir@, file@) by {
            if is_topic_of(groups, g, t, dir@, file@) {
                assert(all@.contains((g, t)));
                let j = choose|j: int| 0 <= j < all@.len() && all@[j] == (g, t);
                assert(!is_topic_of(groups, all@[j].0, all@[j].1, dir@, file@));
            }
        }
    }
    None
}

// ---------------------------------------------------------------------------
// From patterns to topics
// ---------------------------------------------------------------------------

/// The pattern stands in the text, whatever the case of both.
pub open spec fn matches_pattern(text: Seq<char>, pattern: Seq<char>) -> bool {
    occurs(lowercase(text), lowercase(pattern))
}

/// Whether the pattern stands in the text, whatever the case of both.
pub fn is_match(text: &str, pattern: &str) -> (r: bool)
    ensures
        r == matches_pattern(text@, pattern@),
{
    contains(
        to_chars(text.to_lowercase().as_str()).as_slice(),
        to_chars(pattern.to_lowercase().as_str()).as_slice(),
    )
}

/// A topic that matches a pattern.
#[derive(Clone, Debug)]
pub struct TopicMatch {
    pub group_id: u64,
    pub topic_id: u64,
    /// The names of the group and the topic, as they are shown.
    pub display: String,
}

/// The topics of matches.
pub open spec fn match_topics(v: Seq<TopicMatch>) -> Seq<(u64, u64)> {
    v.map_values(|m: TopicMatch| (m.group_id, m.topic_id))
}

/// The name of a topic as it is shown.
pub open spec fn display_name(groups: Map<u64, GroupMetadata>, group: u64, topic: u64) -> Seq<
    char,
> {
    group_label(groups, group) + "/"@ + topic_label(groups, group, topic)
}

/// All topics whose names match a pattern, by their groups and ids.
pub open spec fn are_matches(
    v: Seq<TopicMatch>,
    groups: Map<u64, GroupMetadata>,
    pattern: Seq<char>,
) -> bool {
    &&& in_topic_order(match_topics(v))
    &&& forall|g: u64, t: u64| #[trigger]
        match_topics(v).contains((g, t)) <==> is_known(groups, g, t) && matches_pattern(
            topic_label(groups, g, t),
            pattern,
        )
    &&& forall|i: int|
        0 <= i < v.len() ==> (#[trigger] v[i]).display@ == display_name(
            groups,
            v[i].group_id,
            v[i].topic_id,
        )
}

/// All topics whose names match a pattern, by their groups and ids.
pub fn find_matches(metadata: &TopicsMetadata, pattern: &str) -> (r: Vec<TopicMatch>)
    ensures
        are_matches(r@, metadata.groups@, pattern@),
{
    let all = all_topics(metadata);
    let ghost groups = metadata.groups@;
    let mut r: Vec<TopicMatch> = Vec::new();
    let mut i: usize = 0;
    assert(match_topics(r@) =~= Seq::empty());
    while i < all.len()
        invariant
            i <= all.len(),
            groups == metadata.groups@,
            are_all_topics(all@, groups),
            in_topic_order(match_topics(r@)),
            forall|j: int, k: int|
                0 <= j < r.len() && i <= k < all.len() ==> earlier(
                    #[trigger] match_topics(r@)[j],
                    #[trigger] all@[k],
                ),
            forall|g: u64, t: u64| #[trigger]
                match_topics(r@).contains((g, t)) <==> all@.take(i as int).contains((g, t))
                    && matches_pattern(topic_label(groups, g, t), pattern@),
            forall|j: int|
                0 <= j < r.len() ==> (#[trigger] r@[j]).display@ == display_name(
                    groups,
                    r@[j].group_id,
                    r@[j].topic_id,
                ),
        decreases all.len() - i,
    {
        let (g, t) = all[i];
        let name = metadata.topic_name(g, t);
        let ghost before = match_topics(r@);
        let ghost front = all@.take(i as int);
        let matched = is_match(name.as_str(), pattern);
        if matched {
            let mut v = to_chars(metadata.group_name(g).as_str());
            append_str(&mut v, "/");
            append_str(&mut v, name.as_str());
            r.push(TopicMatch { group_id: g, topic_id: t, display: from_chars(v.as_slice()) });
            assert(match_topics(r@) =~= before.push((g, t)));
        }
        proof {
            assert(all@.take(i + 1) =~= front.push((g, t)));
            assert forall|h: u64, u: u64| #[trigger]
                match_topics(r@).contains((h, u)) <==> all@.take(i + 1).contains((h, u))
                    && matches_pattern(topic_label(groups, h, u), pattern@) by {
                lemma_push_contains(front, (g, t), (h, u));
                lemma_push_contains(before, (g, t), (h, u));
            }
        }
        i += 1;
    }
    assert(all@.take(all@.len() as int) =~= all@);
    r
}

/// Where a message is to be sent.
pub enum SendDestination {
    /// To this topic.
    Topic(u64, u64),
    /// Neither a group nor a pattern was given.
    NoPattern,
    /// No topic matches.
    NotFound,
    /// Several topics match: one of them is to be chosen.
    Choose(Vec<TopicMatch>),
}

/// Where a message is to be sent: to the topic of the given ids, which is the
/// general topic 1 where only a group is given, or to the one that matches a
/// pattern.
pub open spec fn is_destination(
    r: SendDestination,
    group_id: Option<u64>,
    topic_id: Option<u64>,
    pattern: Option<Seq<char>>,
    groups: Map<u64, GroupMetadata>,
) -> bool {
    match group_id {
        Some(g) => r == SendDestination::Topic(
            g,
            (match topic_id {
                Some(t) => t,
                None => 1,
            }),
        ),
        None => match pattern {
            None => r == SendDestination::NoPattern,
            Some(p) => is_found(r, p, groups),
        },
    }
}

/// Where the topics that match a pattern lead.
pub open spec fn is_found(
    r: SendDestination,
    pattern: Seq<char>,
    groups: Map<u64, GroupMetadata>,
) -> bool {
    exists|ms: Seq<TopicMatch>| #[trigger] are_matches(ms, groups, pattern) && is_picked(r, ms)
}

/// The one topic that matches, or all of several.
pub open spec fn is_picked(r: SendDestination, ms: Seq<TopicMatch>) -> bool {
    match r {
        SendDestination::Topic(g, t) => ms.len() == 1 && match_topics(ms) == seq![(g, t)],
        SendDestination::NoPattern => false,
        SendDestination::NotFound => ms.len() == 0,
        SendDestination::Choose(v) => v@ == ms && ms.len() > 1,
    }
}

/// Where a message is to be sent: to the topic of the given ids, which is the
/// general topic 1 where only a group is given, or to the one that matches a
/// pattern.
pub fn resolve_send_destination(
    group_id: Option<u64>,
    topic_id: Option<u64>,
    pattern: Option<&str>,
    metadata: &TopicsMetadata,
) -> (r: SendDestination)
    ensures
        is_destination(
            r,
            group_id,
            topic_id,
            match pattern {
                Some(p) => Some(p@),
                None => None,
            },
            metadata.groups@,
        ),
{
    match group_id {
        Some(g) => {
            let t: u64 = match topic_id {
                Some(t) => t,
                None => 1,
            };
            return SendDestination::Topic(g, t);
        },
        None => {},
    }
    match pattern {
        None => SendDestination::NoPattern,
        Some(p) => {
            let ms = find_matches(metadata, p);
            assert(are_matches(ms@, metadata.groups@, p@));
            let ghost found = ms@;
            let r = if ms.len() == 0 {
                SendDestination::NotFound
            } else if ms.len() == 1 {
                assert(match_topics(ms@) =~= seq![(ms[0].group_id, ms[0].topic_id)]);
                SendDestination::Topic(ms[0].group_id, ms[0].topic_id)
            } else {
                SendDestination::Choose(ms)
            };
            assert(are_matches(found, metadata.groups@, p@) && is_picked(r, found));
            assert(is_found(r, p@, metadata.groups@));
            r
        },
    }
}

/// The topic that was chosen by its names.
pub fn chosen_topic(ms: &Vec<TopicMatch>, chosen: &str) -> (r: Option<(u64, u64)>)
    ensures
        match r {
            Some(topic) => exists|i: int|
                0 <= i < ms.len() && (#[trigger] ms@[i]).display@ == trimmed(chosen@) && topic == (
                    ms@[i].group_id,
                    ms@[i].topic_id,
                ) && forall|j: int| 0 <= j < i ==> (#[trigger] ms@[j]).display@ != trimmed(chosen@),
            None => forall|i: int|
                0 <= i < ms.len() ==> (#[trigger] ms@[i]).display@ != trimmed(chosen@),
        },
{
    let chars = to_chars(chosen);
    let wanted = trim(chars.as_slice());
    let mut i: usize = 0;
    while i < ms.len()
        invariant
            i <= ms.len(),
            wanted@ == trimmed(chosen@),
            forall|j: int| 0 <= j < i ==> (#[trigger] ms@[j]).display@ != trimmed(chosen@),
        decreases ms.len() - i,
    {
        if same(to_chars(ms[i].display.as_str()).as_slice(), wanted) {
            assert(ms@[i as int].display@ == trimmed(chosen@));
            return Some((ms[i].group_id, ms[i].topic_id));
        }
        i += 1;
    }
    None
}

/// The names to choose from, one on each line.
pub fn choices(ms: &Vec<TopicMatch>) -> (r: String)
    ensures
        r@ == joined(ms@.map_values(|m: TopicMatch| m.display@), newline()),
{
    let ghost all = ms@.map_values(|m: TopicMatch| m.display@);
    let mut v: Vec<Vec<char>> = Vec::new();
    let mut i: usize = 0;
    while i < ms.len()
        invariant
            i <= ms.len(),
            all == ms@.map_values(|m: TopicMatch| m.display@),
            texts(v@) == all.take(i as int),
        decreases ms.len() - i,
    {
        let ghost before = texts(v@);
        v.push(to_chars(ms[i].display.as_str()));
        assert(texts(v@) =~= before.push(all[i as int]));
        i += 1;
    }
    assert(all.take(all.len() as int) =~= all);
    from_chars(join_lines(&v).as_slice())
}

// ---------------------------------------------------------------------------
// Files
// ---------------------------------------------------------------------------

/// The path is that of a topic's file: not blank, and not among the images.
pub open spec fn is_topic_path(line: Seq<char>) -> bool {
    trimmed(line).len() > 0 && !occurs(trimmed(line), "/images/"@)
}

/// The paths of topics' files among the lines.
pub open spec fn topic_paths(ls: Seq<Seq<char>>) -> Seq<Seq<char>>
    decreases ls.len(),
{
    if ls.len() == 0 {
        Seq::empty()
    } else if is_topic_path(ls.last()) {
        topic_paths(ls.drop_last()).push(trimmed(ls.last()))
    } else {
        topic_paths(ls.drop_last())
    }
}

/// The paths of topics' files in a list with a path on each line.
pub fn list_topic_paths(listing: &str) -> (r: Vec<String>)
    ensures
        string_texts(r@) == topic_paths(lines(listing@)),
{
    let ls = split_lines(to_chars(listing).as_slice());
    let ghost all = texts(ls@);
    let mut r: Vec<String> = Vec::new();
    let mut i: usize = 0;
    assert(string_texts(r@) =~= Seq::empty());
    while i < ls.len()
        invariant
            i <= ls.len(),
            all == texts(ls@),
            string_texts(r@) == topic_paths(all.take(i as int)),
        decreases ls.len() - i,
    {
        proof {
            assert(all.take(i + 1).drop_last() =~= all.take(i as int));
            assert(all.take(i + 1).last() == ls[i as int]@);
        }
        let path = trim(ls[i].as_slice());
        if path.len() > 0 && !contains_str(path, "/images/") {
            let ghost before = string_texts(r@);
            r.push(from_chars(path));
            assert(string_texts(r@) =~= before.push(path@));
        }
        i += 1;
    }
    assert(all.take(all.len() as int) =~= all);
    r
}

/// Whether a file matches a pattern: its path below the data directory does, or
/// its name without the extension.
pub fn file_matches(relative: &str, stem: &str, pattern: &str) -> (r: bool)
    ensures
        r == (matches_pattern(relative@, pattern@) || matches_pattern(stem@, pattern@)),
{
    is_match(relative, pattern) || is_match(stem, pattern)
}

/// The places of the files that match a pattern, in order. A file is given by its path
/// below the data directory and its name without the extension.
pub open spec fn matching_files(files: Seq<(String, String)>, pattern: Seq<char>) -> Seq<usize>
    decreases files.len(),
{
    if files.len() == 0 {
        Seq::empty()
    } else {
        let before = matching_files(files.drop_last(), pattern);
        let (relative, stem) = files.last();
        if matches_pattern(relative@, pattern) || matches_pattern(stem@, pattern) {
            before.push((files.len() - 1) as usize)
        } else {
            before
        }
    }
}

/// The file to open.
#[derive(Clone, Debug)]
pub enum TopicChoice {
    /// There are no files.
    NoFiles,
    /// No file matches.
    NotFound,
    /// The file at this place.
    One(usize),
    /// One of the files at these places is to be chosen.
    Choose(Vec<usize>),
}

/// The file to open: one of all of them, or the one that matches a pattern.
pub open spec fn is_choice(
    r: TopicChoice,
    files: Seq<(String, String)>,
    pattern: Option<Seq<char>>,
) -> bool {
    match pattern {
        None => match r {
            TopicChoice::NoFiles => files.len() == 0,
            TopicChoice::Choose(v) => files.len() > 0 && v@ == Seq::new(
                files.len(),
                |i: int| i as usize,
            ),
            _ => false,
        },
        Some(p) => {
            let found = matching_files(files, p);
            match r {
                TopicChoice::NoFiles => false,
                TopicChoice::NotFound => found.len() == 0,
                TopicChoice::One(i) => found == seq![i],
                TopicChoice::Choose(v) => found.len() > 1 && v@ == found,
            }
        },
    }
}

/// The file to open: one of all of them, or the one that matches a pattern.
pub fn resolve_topic_path(files: &Vec<(String, String)>, pattern: Option<&str>) -> (r: TopicChoice)
    ensures
        is_choice(
            r,
            files@,
            match pattern {
                Some(p) => Some(p@),
                None => None,
            },
        ),
{
    let mut found: Vec<usize> = Vec::new();
    let mut i: usize = 0;
    match pattern {
        None => {
            if files.len() == 0 {
                return TopicChoice::NoFiles;
            }
            while i < files.len()
                invariant
                    i <= files.len(),
                    found@ == Seq::new(i as nat, |i: int| i as usize),
                decreases files.len() - i,
            {
                found.push(i);
                i += 1;
                assert(found@ =~= Seq::new(i as nat, |i: int| i as usize));
            }
            TopicChoice::Choose(found)
        },
        Some(p) => {
            while i < files.len()
                invariant
                    i <= files.len(),
                    found@ == matching_files(files@.take(i as int), p@),
                decreases files.len() - i,
            {
                proof {
                    assert(files@.take(i + 1).drop_last() =~= files@.take(i as int));
                    assert(files@.take(i + 1).last() == files@[i as int]);
                }
                if file_matches(files[i].0.as_str(), files[i].1.as_str(), p) {
                    found.push(i);
                }
                i += 1;
            }
            assert(files@.take(files@.len() as int) =~= files@);
            if found.len() == 0 {
                TopicChoice::NotFound
            } else if found.len() == 1 {
                assert(found@ =~= seq![found[0]]);
                TopicChoice::One(found[0])
            } else {
                TopicChoice::Choose(found)
            }
        },
    }
}

/// A topic in the list of topics, with a note where it has no file.
pub fn topic_line(name: &str, topic_id: u64, has_file: bool) -> (r: String)
    ensures
        r@ == (if has_file {
            "  "@ + name@ + " ("@ + decimal(topic_id as int) + ")"@
        } else {
            "  "@ + name@ + " ("@ + decimal(topic_id as int) + ")"@ + " [no file]"@
        }),
{
    let mut v = to_chars("  ");
    append_str(&mut v, name);
    append_str(&mut v, " (");
    append_decimal(&mut v, topic_id as u128);
    append_str(&mut v, ")");
    if !has_file {
        append_str(&mut v, " [no file]");
    }
    from_chars(v.as_slice())
}

/// A group in the list of topics.
pub fn group_line(name: &str, group_id: u64) -> (r: String)
    ensures
        r@ == name@ + " ("@ + decimal(group_id as int) + ")"@,
{
    let mut v = to_chars(name);
    append_str(&mut v, " (");
    append_decimal(&mut v, group_id as u128);
    append_str(&mut v, ")");
    from_chars(v.as_slice())
}

// ---------------------------------------------------------------------------
// Laws
// ---------------------------------------------------------------------------

/// The directory and the file of a topic that has a name lead back to it, where no
/// other topic has the same names.
pub proof fn law_topic_file_leads_back(
    groups: Map<u64, GroupMetadata>,
    group: u64,
    topic: u64,
    h: u64,
    u: u64,
)
    requires
        is_known(groups, group, topic),
        forall|a: u64, b: u64|
            is_known(groups, a, b) && #[trigger] topic_label(groups, a, b) == topic_label(
                groups,
                group,
                topic,
            ) && group_label(groups, a) == group_label(groups, group) ==> a == group && b == topic,
        is_topic_of(
            groups,
            h,
            u,
            group_label(groups, group),
            topic_label(groups, group, topic) + ".md"@,
        ),
    ensures
        h == group && u == topic,
        is_topic_of(
            groups,
            group,
            topic,
            group_label(groups, group),
            topic_label(groups, group, topic) + ".md"@,
        ),
{
    let a = topic_label(groups, h, u);
    let b = topic_label(groups, group, topic);
    let e = ".md"@;
    assert((a + e).len() == (b + e).len());
    assert forall|i: int| 0 <= i < a.len() implies a[i] == b[i] by {
        assert((a + e)[i] == (b + e)[i]);
    }
    assert(a =~= b);
}

} // verus!
