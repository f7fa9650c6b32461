//! What is said of values is all that they hold.
use vstd::prelude::*;

use crate::alerts::alert_texts;
use crate::backfill::{TopicWork, work_topics};
use crate::chat::Address;
use crate::destination::{Name, Target, TelegramDestination, TopLevelId, Username, param_texts};
use crate::last::{RawMessage, raw_ids};
use crate::mtproto::{DiscoveredTopic, titles};
use crate::push::{
    PlannedEdit, PlannedMessage, SentMessage, TopicMessages, sent_places, sent_texts,
    topics_of_messages,
};
use crate::results::{CreateResult, MessageResult};
use crate::server::{ServerResponse, has_version, version_text};
use crate::settle::{TopicDeletions, create_outcomes, deletion_topics, message_outcomes, sent_as};
use crate::sync::{
    MessageSender, MessageUpdate, ParsedMessage, Update, edited_ids, growing, numbered_texts,
    parsed, updates_of,
};
use crate::text::{string_texts, texts};
use crate::todos::{TrackedTodo, tasks};
use crate::topics::{TopicMatch, match_topics};

verus! {

/// Strings and characters, one by one.
pub proof fn law_texts(v: Seq<Vec<char>>, w: Seq<String>, i: int)
    ensures
        texts(v).len() == v.len(),
        string_texts(w).len() == w.len(),
        0 <= i < v.len() ==> texts(v)[i] == v[i]@,
        0 <= i < w.len() ==> string_texts(w)[i] == w[i]@,
{
}

/// Messages read from a file, with their contents and their senders.
pub proof fn law_parsed_messages(m: Map<i32, ParsedMessage>, id: i32)
    ensures
        parsed(m).contains_key(id) <==> m.contains_key(id),
        m.contains_key(id) ==> parsed(m)[id].content == m[id].content@ && parsed(m)[id].sender
            == m[id].sender,
{
}

/// Numbered lines, edits and ids.
pub proof fn law_lines_and_edits(
    v: Seq<(usize, String)>,
    e: Seq<(i32, String, MessageSender)>,
    g: Seq<i32>,
    i: int,
    j: int,
)
    ensures
        numbered_texts(v).len() == v.len(),
        0 <= i < v.len() ==> numbered_texts(v)[i] == (v[i].0 as int, v[i].1@),
        edited_ids(e).len() == e.len(),
        0 <= i < e.len() ==> edited_ids(e)[i] == e[i].0,
        growing(g) && 0 <= i < j < g.len() ==> g[i] < g[j],
{
}

/// Updates, with all that they ask for.
pub proof fn law_updates_say_it_all(v: Seq<MessageUpdate>, i: int)
    requires
        0 <= i < v.len(),
    ensures
        updates_of(v).len() == v.len(),
        v[i] matches MessageUpdate::Delete { group_id, topic_id, message_id } ==> updates_of(v)[i]
            == Update::Delete(group_id, topic_id, message_id),
        v[i] matches MessageUpdate::Edit {
            group_id,
            topic_id,
            message_id,
            new_content,
            sender,
        } ==> updates_of(v)[i] == Update::Edit(group_id, topic_id, message_id, new_content@, sender),
        v[i] matches MessageUpdate::Create { group_id, topic_id, content } ==> updates_of(v)[i]
            == Update::Create(group_id, topic_id, content@),
{
}

/// Planned edits and messages.
pub proof fn law_plans_say_it_all(e: PlannedEdit, m: PlannedMessage)
    ensures
        e@ == Update::Edit(e.group_id, e.topic_id, e.message_id, e.new_content@, e.sender),
        m@ == Update::Create(m.group_id, m.topic_id, m.content@),
{
}

/// What came of updates, with the notes on them.
pub proof fn law_outcomes_say_it_all(v: Seq<MessageResult>, w: Seq<CreateResult>, i: int)
    ensures
        message_outcomes(v).len() == v.len(),
        create_outcomes(w).len() == w.len(),
        0 <= i < v.len() ==> message_outcomes(v)[i].group == v[i].group_id && message_outcomes(
            v,
        )[i].id == v[i].message_id && message_outcomes(v)[i].success == v[i].result.success
            && message_outcomes(v)[i].note == v[i].result.message@,
        0 <= i < w.len() ==> create_outcomes(w)[i].group == w[i].group_id && create_outcomes(
            w,
        )[i].id == w[i].topic_id && create_outcomes(w)[i].success == w[i].result.success
            && create_outcomes(w)[i].note == w[i].result.message@,
{
}

/// Sent messages and their topics.
pub proof fn law_sent_messages_say_it_all(
    v: Seq<SentMessage>,
    w: Seq<(String, i32)>,
    t: Seq<TopicMessages>,
    d: Seq<TopicDeletions>,
    i: int,
)
    ensures
        sent_as(v).len() == v.len(),
        0 <= i < v.len() ==> sent_as(v)[i] == (
            v[i].group_id,
            v[i].topic_id,
            v[i].content@,
            v[i].message_id,
        ),
        sent_places(v).len() == v.len(),
        0 <= i < v.len() ==> sent_places(v)[i] == (v[i].group_id, v[i].topic_id),
        sent_texts(w).len() == w.len(),
        0 <= i < w.len() ==> sent_texts(w)[i] == (w[i].0@, w[i].1),
        topics_of_messages(t).len() == t.len(),
        0 <= i < t.len() ==> topics_of_messages(t)[i] == (t[i].group_id, t[i].topic_id),
        deletion_topics(d).len() == d.len(),
        0 <= i < d.len() ==> deletion_topics(d)[i] == (d[i].group_id, d[i].topic_id),
{
}

/// Alerts, messages to show, and tasks.
pub proof fn law_shown_values_say_it_all(
    a: Seq<(i32, String)>,
    r: Seq<RawMessage>,
    t: Seq<TrackedTodo>,
    i: int,
)
    ensures
        alert_texts(a).len() == a.len(),
        0 <= i < a.len() ==> alert_texts(a)[i] == (a[i].0, a[i].1@),
        raw_ids(r).len() == r.len(),
        0 <= i < r.len() ==> raw_ids(r)[i] == r[i].message_id,
        tasks(t).len() == t.len(),
        0 <= i < t.len() ==> tasks(t)[i].group == t[i].group_id && tasks(t)[i].topic
            == t[i].topic_id && tasks(t)[i].id == t[i].message_id && tasks(t)[i].content
            == t[i].content@,
{
}

/// Found topics, parameters and the topics of work.
pub proof fn law_topics_say_it_all(
    d: Seq<DiscoveredTopic>,
    p: Seq<(&'static str, String)>,
    w: Seq<TopicWork>,
    m: Seq<TopicMatch>,
    u: Seq<usize>,
    i: int,
)
    ensures
        titles(d).len() == d.len(),
        0 <= i < d.len() ==> titles(d)[i] == (d[i].topic_id, d[i].title@),
        param_texts(p).len() == p.len(),
        0 <= i < p.len() ==> param_texts(p)[i] == (p[i].0@, p[i].1@),
        work_topics(w).len() == w.len(),
        0 <= i < w.len() ==> work_topics(w)[i] == w[i].topic,
        match_topics(m).len() == m.len(),
        0 <= i < m.len() ==> match_topics(m)[i] == (m[i].group_id, m[i].topic_id),
{
}

/// Destinations.
pub proof fn law_destinations_say_it_all(
    u: Username,
    t: TopLevelId,
    d: TelegramDestination,
    a: crate::chat::TelegramDestination,
)
    ensures
        u matches Username::At(name) ==> u@ == Name::At(name@),
        u matches Username::Id(id) ==> u@ == Name::Id(id),
        t matches TopLevelId::AtName(name) ==> t@ == Name::At(name@),
        t matches TopLevelId::Id(id) ==> t@ == Name::Id(id),
        d matches TelegramDestination::Channel(id) ==> d@ == Target::Channel(id@),
        d matches TelegramDestination::Group(id) ==> d@ == Target::Group(id@),
        d matches TelegramDestination::GroupTopic { group, topic_id } ==> d@ == Target::GroupTopic(
            group@,
            topic_id,
        ),
        a matches crate::chat::TelegramDestination::ChannelExactUid(id) ==> a@ == Address::Id(id),
        a matches crate::chat::TelegramDestination::ChannelUsername(name) ==> a@
            == Address::Username(name@),
        a matches crate::chat::TelegramDestination::Group { id, thread_id } ==> a@
            == Address::Thread(id, thread_id),
{
}

/// An answer of this version holds its number.
pub proof fn law_versions(r: ServerResponse)
    ensures
        version_text() == "0.1.0"@,
        has_version(r) <==> r.version is Some && r.version->0@ == "0.1.0"@,
{
}

} // verus!
