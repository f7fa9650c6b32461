//! What updates and pages of messages come to.
use vstd::prelude::*;

use crate::backfill::{
    NameChange, PhotoOutcome, PhotoSize, TelegramMessage, TelegramUpdate, TopicDestination,
    TopicStamp, TopicWork, area, batch_params, behind, cut_behind, date_in, first_offset,
    group_registered, has_stamp, image_path, in_key_order, is_behind, is_largest, is_work,
    is_written, key_of, label_after, least_stamp, lemma_behind, lemma_new_updates,
    lemma_new_updates_behind, lemma_routed_bounds, lemma_topics_seen, message_in, message_time,
    name_change, names_after, new_updates, newest, next_batch, registered, routed, stamp_after,
    stamp_of, stamps_valid, topic_items, topic_of, topics_seen, written_content,
};
use crate::calendar::{SECOND, Timestamp, rfc3339_instant, rfc3339_parts};
use crate::config::{AppConfig, GroupMetadata, topic_renamed, topics_of};
use crate::decimal::{decimal, numeral};
use crate::destination::{MAX_GROUP_ID, chat_id_of, law_chat_id_round_trip};
use crate::fetch::{
    Fetched, FetchedMessage, PageEntry, absorbed, by_date, fetched, least_id, messages_of,
    put_by_date,
};
use crate::mtproto::{
    Credentials, DeleteStep, MessageState, MissingCredential, SignInReply, SignInStep, TopicEntry,
    TopicOffset, are_credentials, discovered, gone_count, is_deletion_step, last_title,
    offset_after, setting_or_env, step_after, topics_on,
};
use crate::pull::sanitized;
use crate::server::{AfterSession, SessionEnd, appended, gap, session_step};
use crate::sort::{law_sorting, stable};
use crate::sync::lemma_push_contains;
use crate::text::{text_before, trimmed_end};
use crate::unicode::whitespace;

verus! {

// ---------------------------------------------------------------------------
// Routing
// ---------------------------------------------------------------------------

/// An update belongs to the thread of its message, or to the general topic 1, in the
/// group of its chat. It belongs to none where that group is not among the given ones.
/// A post to a channel counts where there is no message.
pub proof fn law_updates_are_routed(
    u: TelegramUpdate,
    m: TelegramMessage,
    group: u64,
    groups: Seq<u64>,
)
    requires
        u.message == Some(m) || (u.message is None && u.channel_post == Some(m)),
        group <= MAX_GROUP_ID,
        m.chat_id == chat_id_of(group as int),
    ensures
        groups.contains(group) && m.message_thread_id is None ==> topic_of(u, groups) == Some(
            (group, 1u64),
        ),
        groups.contains(group) && (m.message_thread_id matches Some(t) && 0 <= t) ==> topic_of(
            u,
            groups,
        ) == Some((group, m.message_thread_id->0 as u64)),
        !groups.contains(group) ==> topic_of(u, groups) is None,
{
    law_chat_id_round_trip(group);
}

/// An update without a message belongs to no topic.
pub proof fn law_empty_updates_go_nowhere(u: TelegramUpdate, groups: Seq<u64>)
    requires
        u.message is None,
        u.channel_post is None,
    ensures
        topic_of(u, groups) is None,
{
}

/// The updates of a topic are all those that belong to it, in their order.
pub proof fn law_updates_of_a_topic(
    us: Seq<TelegramUpdate>,
    groups: Seq<u64>,
    topic: (u64, u64),
    i: int,
)
    ensures
        routed(us, groups, topic).contains(i) <==> 0 <= i < us.len() && topic_of(us[i], groups)
            == Some(topic),
        forall|a: int, b: int|
            0 <= a < b < routed(us, groups, topic).len() ==> #[trigger] routed(
                us,
                groups,
                topic,
            )[a] < #[trigger] routed(us, groups, topic)[b],
    decreases us.len(),
{
    let r = routed(us, groups, topic);
    if us.len() > 0 {
        let front = us.drop_last();
        let before = routed(front, groups, topic);
        law_updates_of_a_topic(front, groups, topic, i);
        lemma_routed_bounds(front, groups, topic);
        lemma_push_contains(before, us.len() - 1, i);
        if 0 <= i < front.len() {
            assert(front[i] == us[i]);
        }
        assert forall|a: int, b: int| 0 <= a < b < r.len() implies #[trigger] r[a]
            < #[trigger] r[b] by {
            assert(r[a] == before[a]);
            if b < before.len() {
                assert(r[b] == before[b]);
            }
        }
    }
}

/// A message that says that a topic was created or renamed gives it that name, made fit
/// for a file. An edit without a name changes nothing. Any other message only makes the
/// topic known.
pub proof fn law_messages_name_topics(m: TelegramMessage)
    ensures
        m.topic_created matches Some(name) ==> name_change(m) == NameChange::Rename(
            sanitized(name@),
        ),
        m.topic_created is None && m.topic_edited is None ==> name_change(m)
            == NameChange::Register,
        m.topic_created is None && m.topic_edited is Some && m.topic_edited->0.name is None
            ==> name_change(m) == NameChange::Keep,
        m.topic_created is None && m.topic_edited is Some && m.topic_edited->0.name is Some
            ==> name_change(m) == NameChange::Rename(sanitized(m.topic_edited->0.name->0@)),
{
}

/// The name of a topic is the one that its last naming update gives it. Updates of other
/// topics do not count.
pub proof fn law_last_name_counts(
    us: Seq<TelegramUpdate>,
    u: TelegramUpdate,
    groups: Seq<u64>,
    start: Seq<char>,
    topic: (u64, u64),
)
    ensures
        label_after(Seq::empty(), groups, start, topic) == start,
        topic_of(u, groups) != Some(topic) ==> label_after(us.push(u), groups, start, topic)
            == label_after(us, groups, start, topic),
        topic_of(u, groups) == Some(topic) ==> (match name_change(message_in(u)->0) {
            NameChange::Rename(name) => label_after(us.push(u), groups, start, topic) == name,
            _ => label_after(us.push(u), groups, start, topic) == label_after(
                us,
                groups,
                start,
                topic,
            ),
        }),
        registered(us.push(u), groups, topic) <==> registered(us, groups, topic) || (topic_of(
            u,
            groups,
        ) == Some(topic) && name_change(message_in(u)->0) != NameChange::Keep),
        !registered(Seq::empty(), groups, topic),
{
    assert(us.push(u).drop_last() =~= us);
}

// ---------------------------------------------------------------------------
// New updates
// ---------------------------------------------------------------------------

/// The updates behind the last one that was synced are those with larger ids.
pub proof fn law_updates_behind(items: Seq<(i64, usize)>, last_synced: int)
    ensures
        behind(items, last_synced) == items.filter(|item: (i64, usize)| item.0 > last_synced),
    decreases items.len(),
{
    reveal(Seq::filter);
    if items.len() > 0 {
        law_updates_behind(items.drop_last(), last_synced);
    }
}

/// Of too many new updates those with the largest ids are taken, and the others are
/// dropped. Of no more than the limit all are taken.
pub proof fn law_newest_updates_are_taken(items: Seq<(i64, usize)>, last_synced: int, limit: int)
    -> (dropped: Seq<(i64, usize)>)
    requires
        0 <= limit,
    ensures
        behind(items, last_synced).len() <= limit ==> new_updates(items, last_synced, limit)
            == behind(items, last_synced) && dropped.len() == 0,
        behind(items, last_synced).len() > limit ==> new_updates(items, last_synced, limit).len()
            == limit,
        (dropped + new_updates(items, last_synced, limit)).to_multiset() == behind(
            items,
            last_synced,
        ).to_multiset(),
        forall|i: int, j: int|
            0 <= i < dropped.len() && 0 <= j < new_updates(items, last_synced, limit).len() ==> (
            #[trigger] dropped[i]).0 <= (#[trigger] new_updates(items, last_synced, limit)[j]).0,
{
    let fresh = behind(items, last_synced);
    let r = new_updates(items, last_synced, limit);
    if fresh.len() > limit {
        law_sorting(fresh);
        let s = stable(fresh);
        let n = fresh.len() - limit;
        let dropped = s.take(n);
        assert(dropped + r =~= s);
        assert forall|i: int, j: int| 0 <= i < dropped.len() && 0 <= j < r.len() implies (
        #[trigger] dropped[i]).0 <= (#[trigger] r[j]).0 by {
            assert(dropped[i] == s[i] && r[j] == s[n + j]);
        }
        dropped
    } else {
        assert(Seq::<(i64, usize)>::empty() + r =~= r);
        Seq::empty()
    }
}

/// The newest of updates has the largest id.
pub proof fn law_newest_update(items: Seq<(i64, usize)>, item: (i64, usize))
    ensures
        items.len() == 0 ==> newest(items) is None,
        items.contains(item) ==> newest(items) is Some && item.0 <= newest(items)->0,
        newest(items) matches Some(id) ==> exists|i: int|
            0 <= i < items.len() && (#[trigger] items[i]).0 == id,
    decreases items.len(),
{
    if items.len() > 0 {
        let front = items.drop_last();
        law_newest_update(front, item);
        assert(items =~= front.push(items.last()));
        lemma_push_contains(front, items.last(), item);
        let id = newest(items)->0;
        if newest(front) is Some && newest(front)->0 == id {
            let i = choose|i: int| 0 <= i < front.len() && (#[trigger] front[i]).0 == id;
            assert(items[i].0 == id);
        } else {
            assert(items[items.len() - 1].0 == id);
        }
    }
}

/// The work on a topic is on its own updates behind the last one that was synced, by the
/// dates of their messages. It leaves none of them out where there are no more than the
/// limit.
#[verifier::spinoff_prover]
#[verifier::rlimit(40)]
pub proof fn law_work_on_a_topic(
    w: TopicWork,
    us: Seq<TelegramUpdate>,
    groups: Seq<u64>,
    stamps: Seq<TopicStamp>,
    limit: int,
)
    requires
        0 <= limit,
        us.len() <= usize::MAX,
        is_work(w, us, groups, stamps, limit),
    ensures
        ({
            let topic = Some((w.topic.group_id, w.topic.topic_id));
            let last = stamp_of(stamps, w.topic);
            let places = w.updates@;
            let all = behind(topic_items(us, groups, w.topic), last);
            &&& forall|k: int|
                0 <= k < places.len() ==> 0 <= #[trigger] places[k] < us.len() && topic_of(
                    us[places[k] as int],
                    groups,
                ) == topic && us[places[k] as int].update_id > last
            &&& forall|a: int, b: int|
                0 <= a < b < places.len() ==> date_in(us[#[trigger] places[a] as int]) <= date_in(
                    us[#[trigger] places[b] as int],
                )
            &&& all.len() <= limit ==> forall|p: int|
                #![trigger us[p]]
                0 <= p < us.len() && topic_of(us[p], groups) == topic && us[p].update_id > last
                    ==> places.contains(p as usize)
            &&& places.len() == (if all.len() <= limit {
                all.len() as int
            } else {
                limit
            })
            &&& w.newest is Some <==> places.len() > 0
            &&& w.newest matches Some(id) ==> (forall|k: int|
                0 <= k < places.len() ==> us[#[trigger] places[k] as int].update_id <= id)
                && exists|k: int|
                0 <= k < places.len() && us[#[trigger] places[k] as int].update_id == id
        }),
{
    let t = (w.topic.group_id, w.topic.topic_id);
    let last = stamp_of(stamps, w.topic);
    let items = topic_items(us, groups, w.topic);
    let at = routed(us, groups, t);
    let fresh = new_updates(items, last, limit);
    let d = crate::backfill::dated(us, fresh);
    let s = stable(d);
    law_sorting(d);
    let fell = law_newest_updates_are_taken(items, last, limit);
    lemma_new_updates(items, last, limit);
    if limit > 0 {
        lemma_new_updates_behind(items, last, limit);
    }
    lemma_routed_bounds(us, groups, t);
    d.to_multiset_ensures();
    s.to_multiset_ensures();
    let ps = w.updates@;
    assert forall|k: int| 0 <= k < s.len() implies exists|x: int|
        0 <= x < at.len() && (#[trigger] s[k]).1 == at[x] && 0 <= at[x] < us.len()
            && us[at[x]].update_id > last && s[k].0 == date_in(us[at[x]]) by {
        assert(s.contains(s[k]));
        assert(s.to_multiset().count(s[k]) > 0);
        assert(d.contains(s[k]));
        let j = choose|j: int| 0 <= j < d.len() && d[j] == s[k];
        assert(items.contains(fresh[j]));
        assert(fresh.contains(fresh[j]));
        let x = choose|x: int| 0 <= x < items.len() && items[x] == fresh[j];
        assert(0 <= at[x] < us.len());
        assert(items[x] == (us[at[x]].update_id, at[x] as usize));
    }
    assert forall|k: int| 0 <= k < ps.len() implies 0 <= #[trigger] ps[k] < us.len() && topic_of(
        us[ps[k] as int],
        groups,
    ) == Some(t) && us[ps[k] as int].update_id > last by {
        assert(ps[k] == s[k].1);
        let x = choose|x: int|
            0 <= x < at.len() && s[k].1 == at[x] && 0 <= at[x] < us.len() && us[at[x]].update_id
                > last && s[k].0 == date_in(us[at[x]]);
        law_updates_of_a_topic(us, groups, t, at[x]);
        assert(at.contains(at[x]));
    }
    assert forall|a: int, b: int| 0 <= a < b < ps.len() implies date_in(
        us[#[trigger] ps[a] as int],
    ) <= date_in(us[#[trigger] ps[b] as int]) by {
        assert(ps[a] == s[a].1 && ps[b] == s[b].1);
        assert(s[a].0 <= s[b].0);
    }
    assert(fresh.len() == ps.len());
    if ps.len() > 0 {
        assert(fresh.contains(fresh[0]));
        law_newest_update(fresh, fresh[0]);
        let id = newest(fresh)->0;
        assert forall|k: int| 0 <= k < ps.len() implies us[#[trigger] ps[k] as int].update_id
            <= id by {
            assert(ps[k] == s[k].1);
            assert(s.contains(s[k]));
            assert(s.to_multiset().count(s[k]) > 0);
            assert(d.contains(s[k]));
            let j = choose|j: int| 0 <= j < d.len() && d[j] == s[k];
            assert(fresh.contains(fresh[j]));
            law_newest_update(fresh, fresh[j]);
            assert(items.contains(fresh[j]));
            let x = choose|x: int| 0 <= x < items.len() && items[x] == fresh[j];
            assert(items[x] == (us[at[x]].update_id, at[x] as usize));
            assert(0 <= at[x] < us.len());
        }
        let j = choose|j: int| 0 <= j < fresh.len() && (#[trigger] fresh[j]).0 == id;
        assert(d.contains(d[j]));
        assert(d.to_multiset().count(d[j]) > 0);
        assert(s.to_multiset().count(d[j]) > 0);
        assert(s.contains(d[j]));
        let k = choose|k: int| 0 <= k < s.len() && s[k] == d[j];
        assert(ps[k] == fresh[j].1);
        assert(items.contains(fresh[j]));
        let x = choose|x: int| 0 <= x < items.len() && items[x] == fresh[j];
        assert(items[x] == (us[at[x]].update_id, at[x] as usize));
        assert(0 <= at[x] < us.len());
        assert(us[ps[k] as int].update_id == id);
    }
    if behind(items, last).len() <= limit {
        assert forall|p: int|
            #![trigger us[p]]
            0 <= p < us.len() && topic_of(us[p], groups) == Some(t) && us[p].update_id
                > last implies ps.contains(p as usize) by {
            law_updates_of_a_topic(us, groups, t, p);
            let x = choose|x: int| 0 <= x < at.len() && at[x] == p;
            let item = items[x];
            assert(item == (us[p].update_id, p as usize));
            assert(items.contains(item));
            lemma_behind(items, last);
            assert(fresh.contains(item));
            let j = choose|j: int| 0 <= j < fresh.len() && fresh[j] == item;
            assert(d.contains(d[j]));
            assert(d.to_multiset().count(d[j]) > 0);
            assert(s.to_multiset().count(d[j]) > 0);
            assert(s.contains(d[j]));
            let k = choose|k: int| 0 <= k < s.len() && s[k] == d[j];
            assert(ps[k] == p as usize);
        }
    }
}

// ---------------------------------------------------------------------------
// Stamps
// ---------------------------------------------------------------------------

/// A topic that stands among the stamps has its update, and one that does not has zero.
pub proof fn law_stamps_of_topics(v: Seq<TopicStamp>, i: int, topic: TopicDestination)
    requires
        stamps_valid(v),
    ensures
        0 <= i < v.len() ==> stamp_of(v, v[i].topic) == v[i].update_id,
        !has_stamp(v, topic) ==> stamp_of(v, topic) == 0,
    decreases v.len(),
{
    if v.len() > 0 {
        let front = v.drop_last();
        assert(stamps_valid(front)) by {
            assert forall|a: int, b: int| 0 <= a < b < front.len() implies (
            #[trigger] front[a]).topic != (#[trigger] front[b]).topic by {
                assert(front[a] == v[a] && front[b] == v[b]);
            }
        }
        law_stamps_of_topics(front, i, topic);
        if 0 <= i < front.len() {
            assert(front[i] == v[i]);
            assert(v[i].topic != v[v.len() - 1].topic);
        }
        if !has_stamp(v, topic) {
            assert(v[v.len() - 1].topic != topic);
            if has_stamp(front, topic) {
                let k = choose|k: int| 0 <= k < front.len() && (#[trigger] front[k]).topic == topic;
                assert(v[k].topic == topic);
            }
        }
    }
}

/// The smallest stamp is one of them, and none is smaller.
pub proof fn law_least_stamp(v: Seq<TopicStamp>)
    ensures
        v.len() == 0 ==> least_stamp(v) is None,
        v.len() > 0 ==> least_stamp(v) is Some,
        least_stamp(v) matches Some(least) ==> (forall|i: int|
            0 <= i < v.len() ==> least <= (#[trigger] v[i]).update_id) && exists|i: int|
            0 <= i < v.len() && (#[trigger] v[i]).update_id == least,
    decreases v.len(),
{
    if v.len() > 0 {
        let front = v.drop_last();
        law_least_stamp(front);
        let least = least_stamp(v)->0;
        assert forall|i: int| 0 <= i < v.len() implies least <= (#[trigger] v[i]).update_id by {
            if i < front.len() {
                assert(front[i] == v[i]);
            }
        }
        if least_stamp(front) is Some && least_stamp(front)->0 == least {
            let i = choose|i: int| 0 <= i < front.len() && (#[trigger] front[i]).update_id == least;
            assert(v[i].update_id == least);
        } else {
            assert(v[v.len() - 1].update_id == least);
        }
    }
}

/// After work on a topic its stamp is the newest update of the last such work. Other
/// topics keep their stamps, and so does one whose work brought nothing.
pub proof fn law_work_sets_stamps(
    work: Seq<TopicWork>,
    w: TopicWork,
    start: int,
    topic: TopicDestination,
)
    ensures
        stamp_after(Seq::empty(), start, topic) == start,
        w.topic == topic && w.newest is Some ==> stamp_after(work.push(w), start, topic)
            == w.newest->0,
        w.topic != topic || w.newest is None ==> stamp_after(work.push(w), start, topic)
            == stamp_after(work, start, topic),
{
    assert(work.push(w).drop_last() =~= work);
}

// ---------------------------------------------------------------------------
// Writing updates
// ---------------------------------------------------------------------------

/// What is written of a message: its whole text; or its image, and its whole caption
/// below; or a note of an image that could not be fetched, and the caption.
pub proof fn law_what_is_written(m: TelegramMessage, path: String)
    ensures
        m.photo is None && m.text is Some ==> written_content(m, PhotoOutcome::Failed) == Some(
            m.text->0@,
        ) && written_content(m, PhotoOutcome::Saved(path)) == Some(m.text->0@),
        m.photo is None && m.text is None ==> written_content(m, PhotoOutcome::Saved(path)) is None,
        m.photo is Some && m.photo->0.len() > 0 && m.caption is Some ==> written_content(
            m,
            PhotoOutcome::Saved(path),
        ) == Some("![]("@ + path@ + ")\n"@ + m.caption->0@),
        m.photo is Some && m.photo->0.len() > 0 && m.caption is None ==> written_content(
            m,
            PhotoOutcome::Saved(path),
        ) == Some("![]("@ + path@ + ")"@),
        m.photo is Some && m.photo->0.len() > 0 && m.caption is Some ==> written_content(
            m,
            PhotoOutcome::Failed,
        ) == Some("[image failed to download]\n"@ + m.caption->0@),
        m.photo is Some && m.photo->0.len() > 0 && m.caption is None ==> written_content(
            m,
            PhotoOutcome::Failed,
        ) is None,
        m.photo is Some && m.photo->0.len() == 0 ==> written_content(m, PhotoOutcome::Saved(path))
            is None,
{
    reveal_strlit(")");
    reveal_strlit("\n");
    reveal_strlit(")\n");
    if m.caption is Some {
        assert("![]("@ + path@ + ")"@ + "\n"@ + m.caption->0@ =~= "![]("@ + path@ + ")\n"@
            + m.caption->0@);
    }
}

/// An image is saved under the numbers of its group, its topic and its time.
pub proof fn law_image_files(group: u64, topic: u64, timestamp: int, ext: Seq<char>)
    ensures
        image_path(group, topic, timestamp, Some(ext)) == "images/"@ + decimal(group as int)
            + "_"@ + decimal(topic as int) + "_"@ + numeral(timestamp) + "."@ + ext,
        image_path(group, topic, timestamp, None) == "images/"@ + decimal(group as int) + "_"@
            + decimal(topic as int) + "_"@ + numeral(timestamp) + ".jpg"@,
{
    reveal_strlit(".");
    reveal_strlit("jpg");
    reveal_strlit(".jpg");
    assert(image_path(group, topic, timestamp, None) =~= "images/"@ + decimal(group as int) + "_"@
        + decimal(topic as int) + "_"@ + numeral(timestamp) + ".jpg"@);
}

/// A file is cut behind its text, where one more character stays. A message is of its
/// second, where an instant may have it.
pub proof fn law_cuts_and_times(text: Seq<char>, c: char, tail: Seq<char>, date: int, now: Timestamp)
    requires
        text.len() > 0,
        !whitespace(text.last()),
        whitespace(c),
        forall|i: int| 0 <= i < tail.len() ==> whitespace(#[trigger] tail[i]),
    ensures
        cut_behind(text) == text,
        cut_behind(text + seq![c] + tail) == text + seq![c],
        -377705023201 <= date <= 253402207200 ==> message_time(date, now).nanos == date
            * 1_000_000_000,
        date < -377705023201 || date > 253402207200 ==> message_time(date, now) == now,
{
    let s = text + seq![c] + tail;
    lemma_trimmed_tail(text, seq![c] + tail);
    assert(s =~= text + (seq![c] + tail));
    assert(s.take(text.len() as int + 1) =~= text + seq![c]);
}

proof fn lemma_trimmed_tail(text: Seq<char>, tail: Seq<char>)
    requires
        text.len() > 0,
        !whitespace(text.last()),
        forall|i: int| 0 <= i < tail.len() ==> whitespace(#[trigger] tail[i]),
    ensures
        trimmed_end(text + tail) == text,
    decreases tail.len(),
{
    if tail.len() == 0 {
        assert(text + tail =~= text);
    } else {
        let front = tail.drop_last();
        assert forall|i: int| 0 <= i < front.len() implies whitespace(#[trigger] front[i]) by {
            assert(front[i] == tail[i]);
        }
        lemma_trimmed_tail(text, front);
        assert((text + tail).drop_last() =~= text + front);
        assert((text + tail).last() == tail[tail.len() - 1]);
    }
}

// ---------------------------------------------------------------------------
// Pages of messages
// ---------------------------------------------------------------------------

/// A fetched message is what it says: nothing of its text is left out.
pub proof fn law_fetched_messages(v: Seq<FetchedMessage>, m: FetchedMessage)
    ensures
        fetched(v.push(m)) == fetched(v).push(
            Fetched {
                id: m.id as int,
                date: m.date as int,
                text: m.text@,
                photo: m.photo,
                outgoing: m.is_outgoing,
            },
        ),
{
    assert(fetched(v.push(m)) =~= fetched(v).push(m@));
}

/// The messages of a page are those with a text or with media, in their order.
pub proof fn law_messages_of_a_page(page: Seq<PageEntry>, m: FetchedMessage, media: bool)
    ensures
        messages_of(Seq::empty()) == Seq::<Fetched>::empty(),
        messages_of(page.push(PageEntry::Service)) == messages_of(page),
        m.text@.len() > 0 || media ==> messages_of(page.push(PageEntry::Message(m, media)))
            == messages_of(page).push(m@),
        m.text@.len() == 0 && !media ==> messages_of(page.push(PageEntry::Message(m, media)))
            == messages_of(page),
{
    assert(page.push(PageEntry::Service).drop_last() =~= page);
    assert(page.push(PageEntry::Message(m, media)).drop_last() =~= page);
}

/// The least id is that of a message, and no message has a smaller one.
pub proof fn law_least_id(ms: Seq<Fetched>)
    ensures
        ms.len() == 0 ==> least_id(ms) is None,
        ms.len() > 0 ==> least_id(ms) is Some,
        least_id(ms) matches Some(least) ==> (forall|i: int|
            0 <= i < ms.len() ==> least <= (#[trigger] ms[i]).id) && exists|i: int|
            0 <= i < ms.len() && (#[trigger] ms[i]).id == least,
    decreases ms.len(),
{
    if ms.len() > 0 {
        let front = ms.drop_last();
        law_least_id(front);
        let least = least_id(ms)->0;
        assert forall|i: int| 0 <= i < ms.len() implies least <= (#[trigger] ms[i]).id by {
            if i < front.len() {
                assert(front[i] == ms[i]);
            }
        }
        if least_id(front) is Some && least_id(front)->0 == least {
            let i = choose|i: int| 0 <= i < front.len() && (#[trigger] front[i]).id == least;
            assert(ms[i].id == least);
        } else {
            assert(ms[ms.len() - 1].id == least);
        }
    }
}

proof fn lemma_put_by_date_second(ms: Seq<Fetched>, m: Fetched, date: int)
    ensures
        put_by_date(ms, m).filter(|x: Fetched| x.date == date) == (if m.date == date {
            ms.filter(|x: Fetched| x.date == date).push(m)
        } else {
            ms.filter(|x: Fetched| x.date == date)
        }),
    decreases ms.len(),
{
    reveal(Seq::filter);
    if ms.len() > 0 && ms.last().date > m.date {
        lemma_put_by_date_second(ms.drop_last(), m, date);
        assert(put_by_date(ms, m).drop_last() =~= put_by_date(ms.drop_last(), m));
    } else {
        assert(ms.push(m).drop_last() =~= ms);
    }
}

/// Messages of one second keep the order in which they came.
pub proof fn law_messages_of_a_second(ms: Seq<Fetched>, date: int)
    ensures
        by_date(ms).filter(|x: Fetched| x.date == date) == ms.filter(|x: Fetched| x.date == date),
    decreases ms.len(),
{
    reveal(Seq::filter);
    if ms.len() > 0 {
        law_messages_of_a_second(ms.drop_last(), date);
        lemma_put_by_date_second(by_date(ms.drop_last()), ms.last(), date);
    }
}

// ---------------------------------------------------------------------------
// Topics, credentials and deletions
// ---------------------------------------------------------------------------

/// The topics of a page are those that were not deleted, with their titles. The next
/// page starts behind the last entry; a deleted one moves only the topic.
pub proof fn law_topics_of_a_page(
    page: Seq<TopicEntry>,
    id: i32,
    title: String,
    date: i32,
    top_message: i32,
    offset: TopicOffset,
)
    ensures
        topics_on(Seq::empty()) == Seq::<(i32, Seq<char>)>::empty(),
        ({
            let entry = TopicEntry::Topic { id, title, date, top_message };
            &&& topics_on(page.push(entry)) == topics_on(page).push((id, title@))
            &&& offset_after(page.push(entry), offset) == TopicOffset {
                date,
                id: top_message,
                topic: id,
            }
        }),
        topics_on(page.push(TopicEntry::Deleted { id })) == topics_on(page),
        offset_after(page.push(TopicEntry::Deleted { id }), offset) == (TopicOffset {
            date: offset.date,
            id: offset.id,
            topic: id,
        }),
        offset_after(Seq::empty(), offset) == offset,
{
    let entry = TopicEntry::Topic { id, title, date, top_message };
    assert(page.push(entry).drop_last() =~= page);
    assert(page.push(TopicEntry::Deleted { id }).drop_last() =~= page);
}

/// The title of a topic is the last that was found for it.
pub proof fn law_last_title_counts(ts: Seq<(i32, Seq<char>)>, id: i32, title: Seq<char>, topic: u64)
    requires
        0 <= id,
    ensures
        last_title(Seq::empty(), topic) is None,
        id == topic ==> last_title(ts.push((id, title)), topic) == Some(title),
        id != topic ==> last_title(ts.push((id, title)), topic) == last_title(ts, topic),
{
    assert(ts.push((id, title)).drop_last() =~= ts);
}

/// A setting counts before the environment.
pub proof fn law_settings_come_first(setting: String, env: Option<String>, fallback: String)
    ensures
        setting_or_env(Some(setting), env) == Some(setting@),
        setting_or_env(None, Some(fallback)) == Some(fallback@),
        setting_or_env(None, None) is None,
{
}

/// Signing in goes from the question whether one is signed in over the code to the
/// password, and is done at the first that is accepted. A refusal ends it.
pub proof fn law_way_to_sign_in()
    ensures
        step_after(SignInStep::AskAuthorized, SignInReply::Authorized) == SignInStep::Done,
        step_after(SignInStep::AskAuthorized, SignInReply::NotAuthorized)
            == SignInStep::RequestCode,
        step_after(SignInStep::RequestCode, SignInReply::CodeRequested) == SignInStep::SendCode,
        step_after(SignInStep::SendCode, SignInReply::SignedIn) == SignInStep::Done,
        step_after(SignInStep::SendCode, SignInReply::PasswordRequired) == SignInStep::SendPassword,
        step_after(SignInStep::SendPassword, SignInReply::PasswordAccepted) == SignInStep::Done,
        forall|step: SignInStep|
            step != SignInStep::Done ==> #[trigger] step_after(step, SignInReply::Refused)
                == SignInStep::Failed,
{
}

/// The messages that were deleted before are counted.
pub proof fn law_gone_messages_are_counted(v: Seq<MessageState>)
    ensures
        gone_count(v) == v.filter(|s: MessageState| s == MessageState::Gone).len(),
    decreases v.len(),
{
    reveal(Seq::filter);
    if v.len() > 0 {
        law_gone_messages_are_counted(v.drop_last());
    }
}

// ---------------------------------------------------------------------------
// Plans
// ---------------------------------------------------------------------------

/// A topic is behind where one of its updates has a larger id than its stamp.
pub proof fn law_topics_behind(
    topic: TopicDestination,
    us: Seq<TelegramUpdate>,
    groups: Seq<u64>,
    stamps: Seq<TopicStamp>,
)
    requires
        us.len() <= usize::MAX,
    ensures
        is_behind(topic, us, groups, stamps) <==> exists|p: int|
            #![trigger us[p]]
            0 <= p < us.len() && topic_of(us[p], groups) == Some((topic.group_id, topic.topic_id))
                && us[p].update_id > stamp_of(stamps, topic),
{
    let t = (topic.group_id, topic.topic_id);
    let last = stamp_of(stamps, topic);
    let items = topic_items(us, groups, topic);
    let at = routed(us, groups, t);
    let fresh = behind(items, last);
    lemma_behind(items, last);
    lemma_routed_bounds(us, groups, t);
    if is_behind(topic, us, groups, stamps) {
        let item = fresh[0];
        assert(fresh.contains(item));
        assert(items.contains(item));
        let x = choose|x: int| 0 <= x < items.len() && items[x] == item;
        let p = at[x];
        assert(0 <= p < us.len());
        assert(at.contains(p));
        law_updates_of_a_topic(us, groups, t, p);
        assert(us[p].update_id > last);
    }
    if exists|p: int|
        #![trigger us[p]]
        0 <= p < us.len() && topic_of(us[p], groups) == Some(t) && us[p].update_id > last {
        let p = choose|p: int|
            #![trigger us[p]]
            0 <= p < us.len() && topic_of(us[p], groups) == Some(t) && us[p].update_id > last;
        law_updates_of_a_topic(us, groups, t, p);
        let x = choose|x: int| 0 <= x < at.len() && at[x] == p;
        assert(items[x] == (us[p].update_id, p as usize));
        assert(items.contains(items[x]));
        assert(fresh.contains(items[x]));
    }
}

/// Topics come by their keys, which are the numbers of the group and the topic with a
/// slash between them, compared as texts.
pub proof fn law_keys(v: Seq<TopicDestination>, i: int, j: int)
    requires
        in_key_order(v),
        0 <= i < j < v.len(),
    ensures
        text_before(
            decimal(v[i].group_id as int) + "/"@ + decimal(v[i].topic_id as int),
            decimal(v[j].group_id as int) + "/"@ + decimal(v[j].topic_id as int),
        ),
{
    reveal_strlit("/");
    assert("/"@ =~= seq!['/']);
    assert(text_before(key_of(v[i]), key_of(v[j])));
}

/// What a message does to the names: a new name is set and nothing else changes, or a
/// topic that was not known is registered by its number, or nothing changes at all.
pub proof fn law_names_after_a_message(
    old_groups: Map<u64, GroupMetadata>,
    groups: Map<u64, GroupMetadata>,
    m: TelegramMessage,
    topic: (u64, u64),
)
    requires
        names_after(old_groups, groups, m, topic),
    ensures
        name_change(m) matches NameChange::Rename(name) ==> topic_renamed(
            old_groups,
            groups,
            topic.0,
            topic.1,
            name,
        ),
        name_change(m) == NameChange::Keep ==> groups == old_groups,
        name_change(m) == NameChange::Register && topics_of(old_groups, topic.0).contains_key(
            topic.1,
        ) ==> groups == old_groups,
        name_change(m) == NameChange::Register && !topics_of(old_groups, topic.0).contains_key(
            topic.1,
        ) ==> topic_renamed(
            old_groups,
            groups,
            topic.0,
            topic.1,
            "topic_"@ + decimal(topic.1 as int),
        ),
{
}

/// The topics of updates are all that any belongs to, each once.
pub proof fn law_topics_of_updates(us: Seq<TelegramUpdate>, groups: Seq<u64>, topic: (u64, u64))
    ensures
        topics_seen(us, groups).contains(topic) <==> exists|p: int|
            #![trigger us[p]]
            0 <= p < us.len() && topic_of(us[p], groups) == Some(topic),
        topics_seen(us, groups).no_duplicates(),
{
    let at = routed(us, groups, topic);
    lemma_topics_seen(us, groups, topic);
    if at.len() > 0 {
        assert(at.contains(at[0]));
        law_updates_of_a_topic(us, groups, topic, at[0]);
        assert(0 <= at[0] < us.len());
        let p = at[0];
        assert(topic_of(us[p], groups) == Some(topic));
    }
    if exists|p: int|
        #![trigger us[p]]
        0 <= p < us.len() && topic_of(us[p], groups) == Some(topic) {
        let p = choose|p: int|
            #![trigger us[p]]
            0 <= p < us.len() && topic_of(us[p], groups) == Some(topic);
        law_updates_of_a_topic(us, groups, topic, p);
        assert(at.contains(p));
    }
}

/// The group of a topic that is named or registered is too, and no other group.
pub proof fn law_groups_of_updates(us: Seq<TelegramUpdate>, groups: Seq<u64>, group: u64, topic: u64)
    ensures
        registered(us, groups, (group, topic)) ==> group_registered(us, groups, group),
        (forall|t: u64| !registered(us, groups, (group, t))) ==> !group_registered(
            us,
            groups,
            group,
        ),
{
}

/// The area of a photo is its width times its height.
pub proof fn law_areas(p: PhotoSize)
    ensures
        area(p) == p.height * p.width,
{
    assert(p.width * p.height == p.height * p.width) by (nonlinear_arith);
}

/// The text of an instant is read as the instant of its second and its nanoseconds,
/// where that can be shown as a date.
pub proof fn law_instants(s: Seq<char>)
    ensures
        rfc3339_parts(s) is None ==> rfc3339_instant(s) is None,
        rfc3339_parts(s) matches Some(p) ==> ({
            let nanos = p.0 * 1_000_000_000 + p.1;
            0 <= p.1 < 1_000_000_000 && -377705023201 <= p.0 <= 253402207200 ==> rfc3339_instant(s)
                == Some(Timestamp { nanos: nanos as i128 })
        }),
{
    match rfc3339_parts(s) {
        Some((second, nano)) => {
            if 0 <= nano < 1_000_000_000 && -377705023201 <= second <= 253402207200 {
                let t = Timestamp { nanos: (second * SECOND + nano) as i128 };
                assert(t.nanos == second * SECOND + nano);
                assert(t.nanos as int / SECOND as int == second);
            }
        },
        None => {},
    }
}

// ---------------------------------------------------------------------------
// Paging
// ---------------------------------------------------------------------------

/// A page adds its messages behind those that were fetched, and the next one is asked for
/// below the least id. Fetching goes on only after a full page that moved that id, below
/// the limit. Without a page it ends.
pub proof fn law_pages_of_messages(
    seen: Seq<Fetched>,
    offset: int,
    page: Vec<PageEntry>,
    limit: int,
    new_seen: Seq<Fetched>,
    new_offset: int,
    more: bool,
)
    ensures
        absorbed(seen, offset, None, limit, new_seen, new_offset, more) ==> new_seen == seen
            && new_offset == offset && !more,
        absorbed(seen, offset, Some(page), limit, new_seen, new_offset, more) ==> {
            &&& new_seen == seen + messages_of(page@)
            &&& page.len() < 100 ==> !more
            &&& new_seen.len() >= limit ==> !more
            &&& more ==> new_offset != offset && least_id(new_seen) == Some(new_offset)
            &&& page.len() >= 100 && new_seen.len() < limit && new_seen.len() > 0 && least_id(
                new_seen,
            ) != Some(offset) ==> more
            &&& page.len() > 0 && new_seen.len() > 0 ==> least_id(new_seen) == Some(new_offset)
        },
{
    law_least_id(new_seen);
}

/// A page adds its topics behind those that were found. There is another one unless it
/// was empty or all topics were found.
pub proof fn law_pages_of_topics(
    found: Seq<(i32, Seq<char>)>,
    next: TopicOffset,
    page: Seq<TopicEntry>,
    count: i32,
    new_found: Seq<(i32, Seq<char>)>,
    new_next: TopicOffset,
    more: bool,
)
    requires
        discovered(found, next, page, count, new_found, new_next, more),
    ensures
        new_found == found + topics_on(page),
        page.len() == 0 ==> !more,
        count >= 0 && new_found.len() >= count ==> !more,
        page.len() > 0 && (count < 0 || new_found.len() < count) ==> more,
        more ==> new_next == offset_after(page, next),
        !more ==> new_next == next,
{
}

/// Updates are asked for from behind the smallest stamp on, so that none of any topic is
/// left out; without stamps from the start.
pub proof fn law_first_updates(v: Seq<TopicStamp>, i: int)
    ensures
        v.len() == 0 ==> first_offset(v) == 0,
        0 <= i < v.len() ==> first_offset(v) <= v[i].update_id + 1,
        v.len() > 0 ==> exists|k: int|
            0 <= k < v.len() && first_offset(v) == (#[trigger] v[k]).update_id + 1,
{
    law_least_stamp(v);
    if v.len() > 0 {
        let k = choose|k: int| 0 <= k < v.len() && (#[trigger] v[k]).update_id == least_stamp(v)->0;
        assert(first_offset(v) == v[k].update_id + 1);
    }
}

/// After a full batch updates are asked for behind its last one, and after any other
/// none.
pub proof fn law_batches(batch: Seq<TelegramUpdate>)
    requires
        batch.len() > 0 ==> batch.last().update_id < i64::MAX,
    ensures
        batch.len() < 1000 ==> next_batch(batch) is None,
        batch.len() >= 1000 ==> next_batch(batch) is Some && next_batch(batch)->0
            == batch.last().update_id + 1,
{
}

/// The largest photo is no smaller than any other.
pub proof fn law_largest_photos(sizes: Seq<PhotoSize>, k: int, i: int)
    requires
        is_largest(sizes, k),
        0 <= i < sizes.len(),
    ensures
        0 <= k < sizes.len(),
        sizes[i].width * sizes[i].height <= sizes[k].width * sizes[k].height,
        i > k ==> sizes[i].width * sizes[i].height < sizes[k].width * sizes[k].height,
{
    assert(area(sizes[i]) <= area(sizes[k]));
}

/// Nothing is asked for where nothing is to be deleted or all of it was deleted before.
pub proof fn law_deletion_steps(r: DeleteStep, asked: int, already: int)
    requires
        is_deletion_step(r, asked, already),
    ensures
        asked == 0 <==> r is Nothing,
        asked > 0 && already == asked <==> r is AlreadyDone,
        r matches DeleteStep::AlreadyDone(n) ==> n == asked,
        asked > 0 && already != asked <==> r is Delete,
        r matches DeleteStep::Delete(n) ==> n == already,
{
}

/// The server stops after it was shut down. After a failure it pauses and connects again:
/// the next pause is twice as long, up to a minute, or a second after a session of a
/// minute or more.
pub proof fn law_sessions(pause: u64, lasted: u64)
    requires
        pause <= 60,
    ensures
        session_step(SessionEnd::Clean, pause) == AfterSession::Stop,
        pause <= 30 ==> session_step(SessionEnd::NotCreated, pause) == (AfterSession::Reconnect {
            pause,
            next_pause: (2 * pause) as u64,
        }),
        pause > 30 ==> session_step(SessionEnd::NotCreated, pause) == (AfterSession::Reconnect {
            pause,
            next_pause: 60,
        }),
        lasted < 60 ==> session_step(SessionEnd::Failed(lasted), pause) == session_step(
            SessionEnd::NotCreated,
            pause,
        ),
        lasted >= 60 ==> session_step(SessionEnd::Failed(lasted), pause)
            == (AfterSession::Reconnect { pause, next_pause: 1 }),
{
}

/// A message of an update is written whole behind the file, without a tag, and is then
/// the last write.
pub proof fn law_updates_are_written(
    text: Seq<char>,
    last: Option<Timestamp>,
    content: Seq<char>,
    date: int,
    now: Timestamp,
    new_text: Seq<char>,
    new_last: Option<Timestamp>,
)
    requires
        is_written(text, last, content, date, now, new_text, new_last),
        -377705023201 <= date <= 253402207200,
    ensures
        new_last is Some && new_last->0.nanos == date * 1_000_000_000,
        new_text == text + appended(content, None, gap(last, new_last->0)),
{
}

/// Updates are asked for in batches, from an offset on where there is one, without
/// waiting.
pub proof fn law_batch_parameters(offset: int, limit: int)
    ensures
        offset > 0 ==> batch_params(offset, limit) == seq![
            ("limit"@, numeral(limit)),
            ("timeout"@, "0"@),
            ("offset"@, numeral(offset)),
        ],
        offset <= 0 ==> batch_params(offset, limit) == seq![
            ("limit"@, numeral(limit)),
            ("timeout"@, "0"@),
        ],
{
}

/// One signs in with the id, the hash and the phone number of the settings, or with those
/// of the environment in place of the last two. The first that is missing is named.
pub proof fn law_credentials(
    r: Result<Credentials, MissingCredential>,
    config: AppConfig,
    env_hash: Option<String>,
    env_phone: Option<String>,
)
    requires
        are_credentials(r, config, env_hash, env_phone),
    ensures
        config.api_id is None ==> r is Err && r->Err_0 == MissingCredential::ApiId,
        config.api_id is Some && config.api_hash is None && env_hash is None ==> r is Err
            && r->Err_0 == MissingCredential::ApiHash,
        config.api_id is Some && config.api_hash is Some && config.phone is None && env_phone
            is None ==> r is Err && r->Err_0 == MissingCredential::Phone,
        r matches Ok(c) ==> config.api_id == Some(c.api_id) && (config.api_hash is Some
            ==> c.api_hash@ == config.api_hash->0@) && (config.api_hash is None ==> env_hash is Some
            && c.api_hash@ == env_hash->0@) && (config.phone is Some ==> c.phone@
            == config.phone->0@) && (config.phone is None ==> env_phone is Some && c.phone@
            == env_phone->0@),
{
}

/// The date of an update is that of its message, or of its post to a channel.
pub proof fn law_dates_of_updates(u: TelegramUpdate, m: TelegramMessage)
    ensures
        u.message == Some(m) ==> date_in(u) == m.date && message_in(u) == Some(m),
        u.message is None && u.channel_post == Some(m) ==> date_in(u) == m.date && message_in(u)
            == Some(m),
        u.message is None && u.channel_post is None ==> message_in(u) is None,
{
}

} // verus!
