//! Signing in, discovering topics and deleting messages with a user's client.
use vstd::prelude::*;

use crate::config::{
    AppConfig, TopicsMetadata, law_topic_name_is_kept, own_name, topic_label, topics_of,
};
use crate::pull::{sanitize_topic_name, sanitized};
use crate::text::{append_str, contains_str, from_chars, occurs, to_chars, trim, trimmed};

verus! {

// ---------------------------------------------------------------------------
// Signing in
// ---------------------------------------------------------------------------

/// What it takes to sign in.
#[derive(Clone, Debug)]
pub struct Credentials {
    pub api_id: i32,
    pub api_hash: String,
    pub phone: String,
    pub username: String,
}

/// What is missing to sign in.
#[derive(Clone, Copy, Debug, Eq, PartialEq, Structural)]
pub enum MissingCredential {
    ApiId,
    ApiHash,
    Phone,
}

/// The text in the settings, or else that in the environment.
pub open spec fn setting_or_env(setting: Option<String>, env: Option<String>) -> Option<Seq<char>> {
    match setting {
        Some(s) => Some(s@),
        None => match env {
            Some(s) => Some(s@),
            None => None,
        },
    }
}

fn pick(setting: &Option<String>, env: &Option<String>) -> (r: Option<String>)
    ensures
        match r {
            Some(s) => setting_or_env(*setting, *env) == Some(s@),
            None => setting_or_env(*setting, *env) is None,
        },
{
    match setting {
        Some(s) => Some(s.clone()),
        None => match env {
            Some(s) => Some(s.clone()),
            None => None,
        },
    }
}

/// What it takes to sign in, from the settings or else from the environment, or
/// the first thing that is missing.
pub open spec fn are_credentials(
    r: Result<Credentials, MissingCredential>,
    config: AppConfig,
    env_hash: Option<String>,
    env_phone: Option<String>,
) -> bool {
    let hash = setting_or_env(config.api_hash, env_hash);
    let phone = setting_or_env(config.phone, env_phone);
    match r {
        Ok(c) => {
            &&& config.api_id == Some(c.api_id)
            &&& hash == Some(c.api_hash@)
            &&& phone == Some(c.phone@)
            &&& c.username@ == (match config.username {
                Some(u) => u@,
                None => "@user"@,
            })
        },
        Err(MissingCredential::ApiId) => config.api_id is None,
        Err(MissingCredential::ApiHash) => config.api_id is Some && hash is None,
        Err(MissingCredential::Phone) => config.api_id is Some && hash is Some && phone is None,
    }
}

/// What it takes to sign in, from the settings or else from the environment, or
/// the first thing that is missing.
pub fn resolve_credentials(
    config: &AppConfig,
    env_hash: &Option<String>,
    env_phone: &Option<String>,
) -> (r: Result<Credentials, MissingCredential>)
    ensures
        are_credentials(r, *config, *env_hash, *env_phone),
{
    let api_id = match config.api_id {
        Some(id) => id,
        None => {
            return Err(MissingCredential::ApiId);
        },
    };
    let api_hash = match pick(&config.api_hash, env_hash) {
        Some(s) => s,
        None => {
            return Err(MissingCredential::ApiHash);
        },
    };
    let phone = match pick(&config.phone, env_phone) {
        Some(s) => s,
        None => {
            return Err(MissingCredential::Phone);
        },
    };
    let username = match &config.username {
        Some(u) => u.clone(),
        None => from_chars(to_chars("@user").as_slice()),
    };
    Ok(Credentials { api_id, api_hash, phone, username })
}

/// The name of the file that holds a user's session.
pub fn session_file_name(username: &str) -> (r: String)
    ensures
        r@ == username@ + ".session"@,
{
    let mut v = to_chars(username);
    append_str(&mut v, ".session");
    from_chars(v.as_slice())
}

/// Whether the error on opening a session says that its file is damaged, so that
/// a new one is to be made.
pub fn is_session_damaged(error: &str) -> (r: bool)
    ensures
        r == (occurs(error@, "not a database"@) || occurs(error@, "code 26"@)),
{
    let v = to_chars(error);
    contains_str(v.as_slice(), "not a database") || contains_str(v.as_slice(), "code 26")
}

/// What to do next to sign in.
#[derive(Clone, Copy, Debug, Eq, PartialEq, Structural)]
pub enum SignInStep {
    /// Ask whether the session is authorized.
    AskAuthorized,
    /// Request a code for the phone number.
    RequestCode,
    /// Read the code and sign in with it.
    SendCode,
    /// Read the password and send it.
    SendPassword,
    /// Signed in.
    Done,
    /// Signing in failed.
    Failed,
}

/// What came back.
#[derive(Clone, Copy, Debug, Eq, PartialEq, Structural)]
pub enum SignInReply {
    Authorized,
    NotAuthorized,
    CodeRequested,
    SignedIn,
    PasswordRequired,
    PasswordAccepted,
    Refused,
}

/// The step after the reply to a step.
pub open spec fn step_after(step: SignInStep, reply: SignInReply) -> SignInStep {
    match (step, reply) {
        (SignInStep::AskAuthorized, SignInReply::Authorized) => SignInStep::Done,
        (SignInStep::AskAuthorized, SignInReply::NotAuthorized) => SignInStep::RequestCode,
        (SignInStep::RequestCode, SignInReply::CodeRequested) => SignInStep::SendCode,
        (SignInStep::SendCode, SignInReply::SignedIn) => SignInStep::Done,
        (SignInStep::SendCode, SignInReply::PasswordRequired) => SignInStep::SendPassword,
        (SignInStep::SendPassword, SignInReply::PasswordAccepted) => SignInStep::Done,
        (SignInStep::Done, _) => SignInStep::Done,
        _ => SignInStep::Failed,
    }
}

/// The step after the reply to a step.
pub fn next_sign_in_step(step: SignInStep, reply: SignInReply) -> (r: SignInStep)
    ensures
        r == step_after(step, reply),
{
    match (step, reply) {
        (SignInStep::AskAuthorized, SignInReply::Authorized) => SignInStep::Done,
        (SignInStep::AskAuthorized, SignInReply::NotAuthorized) => SignInStep::RequestCode,
        (SignInStep::RequestCode, SignInReply::CodeRequested) => SignInStep::SendCode,
        (SignInStep::SendCode, SignInReply::SignedIn) => SignInStep::Done,
        (SignInStep::SendCode, SignInReply::PasswordRequired) => SignInStep::SendPassword,
        (SignInStep::SendPassword, SignInReply::PasswordAccepted) => SignInStep::Done,
        (SignInStep::Done, _) => SignInStep::Done,
        _ => SignInStep::Failed,
    }
}

/// What was typed in, without the white space around it.
pub fn typed_in(line: &str) -> (r: String)
    ensures
        r@ == trimmed(line@),
{
    let v = to_chars(line);
    from_chars(trim(v.as_slice()))
}

// ---------------------------------------------------------------------------
// Discovering topics
// ---------------------------------------------------------------------------

/// A topic that was found.
#[derive(Clone, Debug)]
pub struct DiscoveredTopic {
    pub topic_id: i32,
    pub title: String,
}

/// The id and the title of topics.
pub open spec fn titles(v: Seq<DiscoveredTopic>) -> Seq<(i32, Seq<char>)> {
    v.map_values(|t: DiscoveredTopic| (t.topic_id, t.title@))
}

/// An entry of a page of topics.
pub enum TopicEntry {
    Topic { id: i32, title: String, date: i32, top_message: i32 },
    Deleted { id: i32 },
}

/// The topics of a page that were not deleted.
pub open spec fn topics_on(page: Seq<TopicEntry>) -> Seq<(i32, Seq<char>)>
    decreases page.len(),
{
    if page.len() == 0 {
        Seq::empty()
    } else {
        let before = topics_on(page.drop_last());
        match page.last() {
            TopicEntry::Topic { id, title, date, top_message } => before.push((id, title@)),
            TopicEntry::Deleted { id } => before,
        }
    }
}

/// Where the next page of topics starts.
#[derive(Clone, Copy, Debug, Eq, PartialEq, Structural)]
pub struct TopicOffset {
    pub date: i32,
    pub id: i32,
    pub topic: i32,
}

/// The offset after a page: that of its last topic. A deleted one has only its id.
pub open spec fn offset_after(page: Seq<TopicEntry>, offset: TopicOffset) -> TopicOffset {
    if page.len() == 0 {
        offset
    } else {
        match page.last() {
            TopicEntry::Topic { id, title, date, top_message } => TopicOffset {
                date,
                id: top_message,
                topic: id,
            },
            TopicEntry::Deleted { id } => TopicOffset { date: offset.date, id: offset.id, topic: id },
        }
    }
}

/// What a page leads to: the topics that were found, where the next page starts, and
/// whether there is one to ask for. `count` is the number of all topics, or negative.
pub open spec fn discovered(
    found: Seq<(i32, Seq<char>)>,
    next: TopicOffset,
    page: Seq<TopicEntry>,
    count: i32,
    new_found: Seq<(i32, Seq<char>)>,
    new_next: TopicOffset,
    more: bool,
) -> bool {
    &&& new_found == found + topics_on(page)
    &&& more == (page.len() > 0 && !(count >= 0 && new_found.len() >= count))
    &&& new_next == (if more {
        offset_after(page, next)
    } else {
        next
    })
}

/// The topics of a group as far as they were found.
pub struct TopicDiscovery {
    topics: Vec<DiscoveredTopic>,
    offset: TopicOffset,
}

impl TopicDiscovery {
    /// The topics that were found.
    pub closed spec fn found(&self) -> Seq<(i32, Seq<char>)> {
        titles(self.topics@)
    }

    /// Where the next page starts.
    pub closed spec fn next(&self) -> TopicOffset {
        self.offset
    }

    /// Nothing was found.
    pub fn new() -> (r: TopicDiscovery)
        ensures
            r.found() == Seq::<(i32, Seq<char>)>::empty(),
            r.next() == (TopicOffset { date: 0, id: 0, topic: 0 }),
    {
        let r = TopicDiscovery {
            topics: Vec::new(),
            offset: TopicOffset { date: 0, id: 0, topic: 0 },
        };
        assert(r.found() =~= Seq::empty());
        r
    }

    /// Where the next page starts.
    pub fn offset(&self) -> (r: TopicOffset)
        ensures
            r == self.next(),
    {
        self.offset
    }

    /// Takes in a page of topics, and says whether there is another one to ask for:
    /// there is unless the page is empty, or as many topics as there are in all
    /// were found.
    pub fn absorb(&mut self, page: Vec<TopicEntry>, count: i32) -> (more: bool)
        ensures
            discovered(
                old(self).found(),
                old(self).next(),
                page@,
                count,
                final(self).found(),
                final(self).next(),
                more,
            ),
    {
        if page.len() == 0 {
            assert(self.found() + topics_on(page@) =~= self.found());
            return false;
        }
        let ghost all = page@;
        let ghost start = self.found();
        let mut offset = self.offset;
        let ghost first = self.offset;
        assert(start + topics_on(all.take(0)) =~= start);
        for entry in it: page
            invariant
                it.seq() == all,
                self.found() == start + topics_on(all.take(it.index() as int)),
                self.offset == first,
                first == old(self).next(),
                it.index() > 0 ==> offset == offset_after(all.take(it.index() as int), first),
        {
            let ghost before = self.found();
            proof {
                assert(all.take(it.index() + 1).drop_last() =~= all.take(it.index() as int));
                assert(all.take(it.index() + 1).last() == entry);
            }
            match entry {
                TopicEntry::Topic { id, title, date, top_message } => {
                    self.topics.push(DiscoveredTopic { topic_id: id, title });
                    offset = TopicOffset { date, id: top_message, topic: id };
                    assert(self.found() =~= before.push((id, title@)));
                    assert(start + topics_on(all.take(it.index() as int)).push((id, title@))
                        =~= before.push((id, title@)));
                },
                TopicEntry::Deleted { id } => {
                    offset = TopicOffset {
                        date: self.offset.date,
                        id: self.offset.id,
                        topic: id,
                    };
                },
            }
        }
        assert(all.take(all.len() as int) =~= all);
        assert(self.found().len() == self.topics.len());
        if count >= 0 && self.topics.len() >= count as usize {
            return false;
        }
        self.offset = offset;
        true
    }

    /// The topics that were found.
    pub fn finish(self) -> (r: Vec<DiscoveredTopic>)
        ensures
            titles(r@) == self.found(),
    {
        self.topics
    }
}

/// The title that was found last for a topic.
pub open spec fn last_title(ts: Seq<(i32, Seq<char>)>, topic: u64) -> Option<Seq<char>>
    decreases ts.len(),
{
    if ts.len() == 0 {
        None
    } else if ts.last().0 as u64 == topic {
        Some(ts.last().1)
    } else {
        last_title(ts.drop_last(), topic)
    }
}

/// Gives the topics of a group their names.
pub fn record_topics(metadata: &mut TopicsMetadata, group_id: u64, topics: &Vec<DiscoveredTopic>)
    ensures
        forall|t: u64| #[trigger]
            topic_label(final(metadata).groups@, group_id, t) == (match last_title(
                titles(topics@),
                t,
            ) {
                Some(title) => sanitized(title),
                None => topic_label(old(metadata).groups@, group_id, t),
            }),
        forall|g: u64, t: u64|
            g != group_id ==> #[trigger] topic_label(final(metadata).groups@, g, t) == topic_label(
                old(metadata).groups@,
                g,
                t,
            ),
        forall|g: u64, t: u64| #[trigger]
            topics_of(final(metadata).groups@, g).contains_key(t) <==> topics_of(
                old(metadata).groups@,
                g,
            ).contains_key(t) || (g == group_id && last_title(titles(topics@), t) is Some),
        forall|g: u64| #[trigger]
            own_name(final(metadata).groups@, g) == own_name(old(metadata).groups@, g),
        forall|g: u64| #[trigger]
            final(metadata).groups@.contains_key(g) <==> old(metadata).groups@.contains_key(g) || (g
                == group_id && topics.len() > 0),
{
    let ghost all = titles(topics@);
    let ghost start = metadata.groups@;
    let mut i: usize = 0;
    while i < topics.len()
        invariant
            i <= topics.len(),
            all == titles(topics@),
            forall|t: u64| #[trigger]
                topic_label(metadata.groups@, group_id, t) == (match last_title(
                    all.take(i as int),
                    t,
                ) {
                    Some(title) => sanitized(title),
                    None => topic_label(start, group_id, t),
                }),
            forall|g: u64, t: u64|
                g != group_id ==> #[trigger] topic_label(metadata.groups@, g, t) == topic_label(
                    start,
                    g,
                    t,
                ),
            forall|g: u64, t: u64| #[trigger]
                topics_of(metadata.groups@, g).contains_key(t) <==> topics_of(
                    start,
                    g,
                ).contains_key(t) || (g == group_id && last_title(all.take(i as int), t) is Some),
            forall|g: u64| #[trigger] own_name(metadata.groups@, g) == own_name(start, g),
            forall|g: u64| #[trigger]
                metadata.groups@.contains_key(g) <==> start.contains_key(g) || (g == group_id && i
                    > 0),
        decreases topics.len() - i,
    {
        let name = sanitize_topic_name(topics[i].title.as_str());
        let ghost before = metadata.groups@;
        let id: u64 = topics[i].topic_id as u64;
        metadata.set_topic_name(group_id, id, name);
        proof {
            law_topic_name_is_kept(before, metadata.groups@, group_id, id, name@);
            assert(all.take(i + 1).drop_last() =~= all.take(i as int));
            assert(all.take(i + 1).last() == (topics[i as int].topic_id, topics[i as int].title@));
        }
        i += 1;
    }
    assert(all.take(all.len() as int) =~= all);
}

// ---------------------------------------------------------------------------
// Deleting messages
// ---------------------------------------------------------------------------

/// What a message that is to be deleted was found to be.
#[derive(Clone, Copy, Debug, Eq, PartialEq, Structural)]
pub enum MessageState {
    /// A message or a service message.
    There,
    /// A message that was deleted before.
    Gone,
}

/// The number of messages that were deleted before.
pub open spec fn gone_count(v: Seq<MessageState>) -> int
    decreases v.len(),
{
    if v.len() == 0 {
        0
    } else {
        gone_count(v.drop_last()) + (if v.last() == MessageState::Gone {
            1int
        } else {
            0
        })
    }
}

/// What to do about a deletion.
#[derive(Clone, Copy, Debug, Eq, PartialEq, Structural)]
pub enum DeleteStep {
    /// Nothing was asked for.
    Nothing,
    /// All messages were deleted before: so many.
    AlreadyDone(usize),
    /// Ask for the deletion; so many messages were deleted before.
    Delete(usize),
}

/// What to do about a deletion of so many messages, of which so many were deleted before.
pub open spec fn is_deletion_step(r: DeleteStep, asked: int, already: int) -> bool {
    match r {
        DeleteStep::Nothing => asked == 0,
        DeleteStep::AlreadyDone(n) => asked > 0 && n == asked && already == asked,
        DeleteStep::Delete(n) => asked > 0 && n == already && already != asked,
    }
}

/// What to do about a deletion of so many messages, by what they were found to be.
/// Where they could not be looked up, nothing is known of them.
pub fn plan_deletion(asked: usize, found: &Option<Vec<MessageState>>) -> (r: DeleteStep)
    ensures
        is_deletion_step(
            r,
            asked as int,
            match *found {
                Some(v) => gone_count(v@),
                None => 0,
            },
        ),
{
    if asked == 0 {
        return DeleteStep::Nothing;
    }
    let mut already: usize = 0;
    match found {
        Some(v) => {
            let mut i: usize = 0;
            while i < v.len()
                invariant
                    i <= v.len(),
                    already <= i,
                    already == gone_count(v@.take(i as int)),
                decreases v.len() - i,
            {
                assert(v@.take(i + 1).drop_last() =~= v@.take(i as int));
                if v[i] == MessageState::Gone {
                    already += 1;
                }
                i += 1;
            }
            assert(v@.take(v@.len() as int) =~= v@);
        },
        None => {},
    }
    if already == asked {
        DeleteStep::AlreadyDone(already)
    } else {
        DeleteStep::Delete(already)
    }
}

/// The number of messages that are deleted in all: those of the reply and those
/// that were deleted before.
pub fn total_deleted(reply: i32, already: usize) -> (r: usize)
    requires
        (reply as usize) + already <= usize::MAX,
    ensures
        r == (reply as usize) + already,
        0 <= reply ==> r == reply + already,
{
    let deleted = #[verifier::truncate] (reply as usize);
    deleted + already
}

// ---------------------------------------------------------------------------
// Laws
// ---------------------------------------------------------------------------

/// Where signing in ends it stays: once done it is done, and once failed it fails.
pub proof fn law_sign_in_ends(reply: SignInReply)
    ensures
        step_after(SignInStep::Done, reply) == SignInStep::Done,
        step_after(SignInStep::Failed, reply) == SignInStep::Failed,
{
}

/// Signing in is done only with an authorized session, an accepted code or an
/// accepted password.
pub proof fn law_sign_in_is_earned(step: SignInStep, reply: SignInReply)
    requires
        step != SignInStep::Done,
        step_after(step, reply) == SignInStep::Done,
    ensures
        (step == SignInStep::AskAuthorized && reply == SignInReply::Authorized) || (step
            == SignInStep::SendCode && reply == SignInReply::SignedIn) || (step
            == SignInStep::SendPassword && reply == SignInReply::PasswordAccepted),
{
}

} // verus!
