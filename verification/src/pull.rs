//! Bringing new messages into topic files.
use std::collections::BTreeMap;

use vstd::prelude::*;
use vstd::slice::slice_subrange;
use vstd::std_specs::btree::increasing_seq;
use vstd::std_specs::cmp::OrdSpec;
use vstd::std_specs::iter::IteratorSpec;

use crate::config::{AppConfig, GroupMetadata, TopicsMetadata, group_label, topic_label};
use crate::destination::{
    MAX_GROUP_ID, extract_group_id, law_chat_id_round_trip, telegram_chat_id, without_leading,
};
use crate::sync::lemma_push_contains;
use crate::tag::{ids, increasing, max_id, read_ids, tag_ids};
use crate::text::{append_str, from_chars, to_chars};
use crate::unicode::{all_ascii, alphanumeric, ascii, ascii_lower, lowercase};

verus! {

broadcast use vstd::std_specs::btree::group_btree_axioms;

// ---------------------------------------------------------------------------
// Names of files
// ---------------------------------------------------------------------------

/// The text without the characters `c` at its end.
pub open spec fn without_trailing(s: Seq<char>, c: char) -> Seq<char>
    decreases s.len(),
{
    if s.len() > 0 && s.last() == c {
        without_trailing(s.drop_last(), c)
    } else {
        s
    }
}

/// The character as it stands in a file name.
pub open spec fn file_char(c: char) -> char {
    if alphanumeric(c) || c == '_' || c == '-' {
        c
    } else {
        '_'
    }
}

/// A topic's name as the name of a file: in lower case, with underscores for
/// what is neither a letter nor a number, but for none at the ends.
pub open spec fn sanitized(name: Seq<char>) -> Seq<char> {
    without_trailing(
        without_leading(lowercase(name).map_values(|c: char| file_char(c)), '_'),
        '_',
    )
}

/// A topic's name as the name of a file.
pub fn sanitize_topic_name(name: &str) -> (r: String)
    ensures
        r@ == sanitized(name@),
{
    let low = to_chars(name.to_lowercase().as_str());
    let ghost mapped = lowercase(name@).map_values(|c: char| file_char(c));
    let mut v: Vec<char> = Vec::new();
    let mut i: usize = 0;
    while i < low.len()
        invariant
            i <= low.len(),
            low@ == lowercase(name@),
            mapped == lowercase(name@).map_values(|c: char| file_char(c)),
            v@ == mapped.take(i as int),
        decreases low.len() - i,
    {
        let c = low[i];
        if c.is_alphanumeric() || c == '_' || c == '-' {
            v.push(c);
        } else {
            v.push('_');
        }
        assert(mapped.take(i + 1) =~= mapped.take(i as int).push(mapped[i as int]));
        i += 1;
    }
    assert(v@ =~= mapped);
    let mut from: usize = 0;
    assert(v@.skip(0) =~= v@);
    while from < v.len() && v[from] == '_'
        invariant
            from <= v.len(),
            without_leading(v@, '_') == without_leading(v@.skip(from as int), '_'),
        decreases v.len() - from,
    {
        assert(v@.skip(from as int).skip(1) =~= v@.skip(from + 1));
        from += 1;
    }
    let ghost led = v@.skip(from as int);
    let mut to: usize = v.len();
    assert(v@.subrange(from as int, to as int) =~= led);
    while to > from && v[to - 1] == '_'
        invariant
            from <= to <= v.len(),
            without_trailing(led, '_') == without_trailing(
                v@.subrange(from as int, to as int),
                '_',
            ),
        decreases to,
    {
        assert(v@.subrange(from as int, to as int).drop_last() =~= v@.subrange(
            from as int,
            to - 1,
        ));
        to -= 1;
    }
    from_chars(slice_subrange(v.as_slice(), from, to))
}

/// The directory and the file of a topic.
pub fn topic_filepath(group_id: u64, topic_id: u64, metadata: &TopicsMetadata) -> (r: (
    String,
    String,
))
    ensures
        r.0@ == group_label(metadata.groups@, group_id),
        r.1@ == topic_label(metadata.groups@, group_id, topic_id) + ".md"@,
{
    let mut file = to_chars(metadata.topic_name(group_id, topic_id).as_str());
    append_str(&mut file, ".md");
    (metadata.group_name(group_id), from_chars(file.as_slice()))
}

/// The keys of a map in their order.
pub open spec fn keys_in_order<V>(keys: Seq<u64>, m: Map<u64, V>) -> bool {
    &&& forall|i: int, j: int| 0 <= i < j < keys.len() ==> keys[i] < keys[j]
    &&& keys.to_set() == m.dom()
}

/// The files of a group's topics, in the order of their ids.
pub open spec fn files_of(files: Seq<String>, topics: Map<u64, String>, keys: Seq<u64>) -> bool {
    &&& files.len() == keys.len()
    &&& forall|i: int|
        0 <= i < files.len() ==> (#[trigger] files[i])@ == topics[keys[i]]@ + ".md"@
}

proof fn lemma_increasing_keys(keys: Seq<u64>)
    requires
        increasing_seq(keys),
    ensures
        forall|i: int, j: int| 0 <= i < j < keys.len() ==> #[trigger] keys[i] < #[trigger] keys[j],
{
    assert forall|i: int, j: int| 0 <= i < j < keys.len() implies #[trigger] keys[i]
        < #[trigger] keys[j] by {
        assert(keys[i].cmp_spec(&keys[j]) is Less);
    }
}

/// The keys of a map in their order.
pub fn sorted_keys<V>(m: &BTreeMap<u64, V>) -> (r: Vec<u64>)
    ensures
        keys_in_order(r@, m@),
{
    let iter = m.iter();
    let ghost full = iter.remaining();
    let ghost keys = full.map_values(|kv: (&u64, &V)| *kv.0);
    let mut r: Vec<u64> = Vec::new();
    for kv in it: iter
        invariant
            it.seq() == full,
            keys == full.map_values(|kv: (&u64, &V)| *kv.0),
            r@ == keys.take(it.index() as int),
    {
        r.push(*kv.0);
        assert(r@ =~= keys.take(it.index() + 1));
    }
    proof {
        assert(r@ =~= keys);
        lemma_increasing_keys(keys);
        assert forall|k: u64| keys.to_set().contains(k) <==> m@.dom().contains(k) by {
            if keys.contains(k) {
                let i = choose|i: int| 0 <= i < keys.len() && keys[i] == k;
                assert(m@.contains_key(*full[i].0));
            }
            if m@.contains_key(k) {
                assert(full.contains((&k, &m@[k])));
                let i = choose|i: int| 0 <= i < full.len() && full[i] == (&k, &m@[k]);
                assert(keys[i] == k);
            }
        }
        assert(keys.to_set() =~= m@.dom());
    }
    r
}

/// The files of the group `g` are those of its topics, in the order of their ids.
pub open spec fn group_files_match(
    files: (String, Vec<String>),
    groups: Map<u64, GroupMetadata>,
    g: u64,
) -> bool {
    &&& files.0@ == group_label(groups, g)
    &&& exists|keys: Seq<u64>|
        #![auto]
        keys_in_order(keys, groups[g].topics@) && files_of(files.1@, groups[g].topics@, keys)
}

/// The files of a group's topics.
fn topic_file_names(topics: &BTreeMap<u64, String>) -> (r: Vec<String>)
    ensures
        exists|keys: Seq<u64>|
            #![auto]
            keys_in_order(keys, topics@) && files_of(r@, topics@, keys),
{
    let keys = sorted_keys(topics);
    let mut r: Vec<String> = Vec::new();
    let mut i: usize = 0;
    while i < keys.len()
        invariant
            i <= keys.len(),
            r.len() == i,
            keys_in_order(keys@, topics@),
            forall|j: int| 0 <= j < i ==> (#[trigger] r[j])@ == topics@[keys[j]]@ + ".md"@,
        decreases keys.len() - i,
    {
        let mut name: Vec<char> = Vec::new();
        proof {
            assert(keys@.to_set().contains(keys@[i as int]));
        }
        match topics.get(&keys[i]) {
            Some(n) => {
                name = to_chars(n.as_str());
            },
            None => {},
        }
        append_str(&mut name, ".md");
        r.push(from_chars(name.as_slice()));
        i += 1;
    }
    assert(files_of(r@, topics@, keys@));
    r
}

/// The directories and files of all topics that are known.
pub fn topic_files(metadata: &TopicsMetadata) -> (r: Vec<(String, Vec<String>)>)
    ensures
        exists|keys: Seq<u64>|
            #![auto]
            keys_in_order(keys, metadata.groups@) && keys.len() == r.len() && forall|i: int|
                0 <= i < keys.len() ==> group_files_match(#[trigger] r[i], metadata.groups@, keys[i]),
{
    let keys = sorted_keys(&metadata.groups);
    let mut r: Vec<(String, Vec<String>)> = Vec::new();
    let mut i: usize = 0;
    while i < keys.len()
        invariant
            i <= keys.len(),
            r.len() == i,
            keys_in_order(keys@, metadata.groups@),
            forall|j: int|
                0 <= j < i ==> group_files_match(#[trigger] r[j], metadata.groups@, keys[j]),
        decreases keys.len() - i,
    {
        proof {
            assert(keys@.to_set().contains(keys@[i as int]));
        }
        let name = metadata.group_name(keys[i]);
        match metadata.groups.get(&keys[i]) {
            Some(g) => {
                let files = topic_file_names(&g.topics);
                r.push((name, files));
                assert(group_files_match(r@[i as int], metadata.groups@, keys[i as int]));
            },
            None => {
                return r;
            },
        }
        i += 1;
    }
    r
}

// ---------------------------------------------------------------------------
// Ids in a file
// ---------------------------------------------------------------------------

/// The highest message id in a file's content, or zero.
pub fn extract_max_message_id_from_content(content: &str) -> (r: i32)
    ensures
        r == max_id(tag_ids(content@)),
{
    let found = read_ids(to_chars(content).as_slice());
    let ghost all = ids(found@);
    let mut max: i32 = 0;
    let mut i: usize = 0;
    while i < found.len()
        invariant
            i <= found.len(),
            all == ids(found@),
            max == max_id(all.take(i as int)),
        decreases found.len() - i,
    {
        assert(all.take(i + 1).drop_last() =~= all.take(i as int));
        if found[i] > max {
            max = found[i];
        }
        i += 1;
    }
    assert(all.take(all.len() as int) =~= all);
    max
}

/// Whether the ids in a file's content are strictly increasing.
pub fn are_message_ids_increasing(content: &str) -> (r: bool)
    ensures
        r == increasing(tag_ids(content@)),
{
    ids_increase(to_chars(content).as_slice())
}

/// Whether the ids in a file's content are strictly increasing.
pub fn ids_increase(content: &[char]) -> (r: bool)
    ensures
        r == increasing(tag_ids(content@)),
{
    let found = read_ids(content);
    let ghost all = ids(found@);
    let mut i: usize = 1;
    while i < found.len()
        invariant
            1 <= i,
            all == ids(found@),
            all == tag_ids(content@),
            forall|j: int, k: int| 0 <= j < k < i && k < all.len() ==> all[j] < all[k],
        decreases found.len() - i,
    {
        if found[i] <= found[i - 1] {
            assert(all[i - 1] >= all[i as int]);
            return false;
        }
        assert forall|j: int, k: int| 0 <= j < k < i + 1 && k < all.len() implies all[j]
            < all[k] by {
            assert(all[i - 1] < all[i as int]);
            if k == i && j < i - 1 {
                assert(all[j] < all[i - 1]);
            }
        }
        i += 1;
    }
    true
}

// ---------------------------------------------------------------------------
// Groups
// ---------------------------------------------------------------------------

/// Whether there is all that it takes to sign in: an id, and a hash and a phone
/// number from the settings or from the environment.
pub fn can_sign_in(config: &AppConfig, env_hash: bool, env_phone: bool) -> (r: bool)
    ensures
        r == (config.api_id is Some && (config.api_hash is Some || env_hash) && (
        config.phone is Some || env_phone)),
{
    config.api_id.is_some() && (config.api_hash.is_some() || env_hash) && (config.phone.is_some()
        || env_phone)
}

/// What a reply about a chat says of it as a forum.
pub enum ForumReply {
    /// The request failed.
    Failed,
    /// The reply names no chat.
    Unknown,
    /// The chat is no forum.
    NoForum,
    /// A forum without a title.
    Untitled,
    /// A forum, with the name for its files.
    Forum(String),
}

/// What a reply about a chat says of it as a forum.
pub fn read_forum_reply(ok: bool, found: bool, is_forum: Option<bool>, title: &Option<String>)
    -> (r: ForumReply)
    ensures
        match r {
            ForumReply::Failed => !ok,
            ForumReply::Unknown => ok && !found,
            ForumReply::NoForum => ok && found && is_forum != Some(true),
            ForumReply::Untitled => ok && found && is_forum == Some(true) && title is None,
            ForumReply::Forum(name) => ok && found && is_forum == Some(true) && title is Some
                && name@ == sanitized(title->0@),
        },
{
    if !ok {
        return ForumReply::Failed;
    }
    if !found {
        return ForumReply::Unknown;
    }
    let forum = match is_forum {
        Some(b) => b,
        None => false,
    };
    if !forum {
        return ForumReply::NoForum;
    }
    match title {
        Some(t) => ForumReply::Forum(sanitize_topic_name(t.as_str())),
        None => ForumReply::Untitled,
    }
}

/// The id by which a group is known among the dialogs: that of its chat without
/// the prefix `-100`, which is its own.
pub fn expected_peer_id(group_id: u64) -> (r: i64)
    requires
        group_id <= MAX_GROUP_ID,
    ensures
        r == group_id,
{
    let chat_id = telegram_chat_id(group_id);
    proof {
        law_chat_id_round_trip(group_id);
    }
    match extract_group_id(chat_id) {
        Some(id) => id as i64,
        None => 0,
    }
}

/// A dialog, as far as it names a channel.
pub enum DialogPeer {
    /// A group. One that is a channel has an id and may have an access hash.
    Group(Option<(i64, Option<i64>)>),
    /// A channel with its id and its access hash.
    Channel(i64, Option<i64>),
    /// A user, or a folder.
    Other,
}

/// The channel id and the access hash to address a dialog by, where it is the one
/// with the expected id and names a channel.
pub fn channel_of_dialog(peer_id: i64, peer: &DialogPeer, expected_id: i64) -> (r: Option<
    (i64, i64),
>)
    ensures
        r == (if peer_id != expected_id {
            None
        } else {
            match *peer {
                DialogPeer::Group(Some((id, hash))) => Some(
                    (id, (match hash {
                        Some(h) => h,
                        None => 0,
                    })),
                ),
                DialogPeer::Channel(id, hash) => Some(
                    (id, (match hash {
                        Some(h) => h,
                        None => 0,
                    })),
                ),
                _ => None,
            }
        }),
{
    if peer_id != expected_id {
        return None;
    }
    match peer {
        DialogPeer::Group(Some((id, hash))) => Some(
            (*id, match hash {
                Some(h) => *h,
                None => 0,
            }),
        ),
        DialogPeer::Channel(id, hash) => Some(
            (*id, match hash {
                Some(h) => *h,
                None => 0,
            }),
        ),
        _ => None,
    }
}

// ---------------------------------------------------------------------------
// Laws
// ---------------------------------------------------------------------------

/// The name of a topic's file holds letters, numbers, hyphens and underscores
/// alone, and has no underscore at either end.
pub proof fn law_sanitized_names(name: Seq<char>)
    ensures
        forall|i: int|
            0 <= i < sanitized(name).len() ==> {
                let c = #[trigger] sanitized(name)[i];
                alphanumeric(c) || c == '_' || c == '-'
            },
        sanitized(name).len() > 0 ==> sanitized(name)[0] != '_' && sanitized(name).last() != '_',
{
    let mapped = lowercase(name).map_values(|c: char| file_char(c));
    lemma_without_leading(mapped, '_');
    lemma_without_trailing(without_leading(mapped, '_'), '_');
}

/// A name that is fit for a file is left as it is: making it fit again changes
/// nothing, for a name in ASCII or one that lower case leaves as it is.
pub proof fn law_sanitized_names_settle(name: Seq<char>)
    requires
        all_ascii(name) || lowercase(sanitized(name)) == sanitized(name),
    ensures
        sanitized(sanitized(name)) == sanitized(name),
{
    let r = sanitized(name);
    if all_ascii(name) {
        let low = lowercase(name);
        let mapped = low.map_values(|c: char| file_char(c));
        let front = without_leading(mapped, '_');
        lemma_without_leading(mapped, '_');
        lemma_without_trailing(front, '_');
        let k = mapped.len() - front.len();
        assert forall|i: int| 0 <= i < r.len() implies ascii(#[trigger] r[i]) && ascii_lower(r[i])
            == r[i] by {
            assert(r[i] == mapped[k + i]);
            assert(low[k + i] == ascii_lower(name[k + i]));
            assert(ascii(name[k + i]));
        }
        assert(r.map_values(|c: char| ascii_lower(c)) =~= r);
    }
    law_sanitized_names(name);
    assert(r.map_values(|c: char| file_char(c)) =~= r);
}

/// No id is above the largest one, which is an id unless it is zero.
pub proof fn law_max_id(ids: Seq<int>)
    ensures
        forall|i: int| 0 <= i < ids.len() ==> #[trigger] ids[i] <= max_id(ids),
        max_id(ids) >= 0,
        max_id(ids) > 0 ==> ids.contains(max_id(ids)),
    decreases ids.len(),
{
    if ids.len() > 0 {
        let front = ids.drop_last();
        law_max_id(front);
        lemma_push_contains(front, ids.last(), max_id(ids));
        assert(ids =~= front.push(ids.last()));
        assert forall|i: int| 0 <= i < ids.len() implies #[trigger] ids[i] <= max_id(ids) by {
            if i < front.len() {
                assert(ids[i] == front[i]);
            }
        }
    }
}

proof fn lemma_without_leading(s: Seq<char>, c: char)
    ensures
        without_leading(s, c).len() <= s.len(),
        without_leading(s, c) == s.skip(s.len() - without_leading(s, c).len()),
        without_leading(s, c).len() > 0 ==> without_leading(s, c)[0] != c,
    decreases s.len(),
{
    if s.len() > 0 && s[0] == c {
        lemma_without_leading(s.skip(1), c);
    }
}

proof fn lemma_without_trailing(s: Seq<char>, c: char)
    ensures
        without_trailing(s, c).len() <= s.len(),
        without_trailing(s, c) == s.take(without_trailing(s, c).len() as int),
        without_trailing(s, c).len() > 0 ==> without_trailing(s, c).last() != c,
    decreases s.len(),
{
    if s.len() > 0 && s.last() == c {
        lemma_without_trailing(s.drop_last(), c);
    }
}

} // verus!
