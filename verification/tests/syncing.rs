use tg::alerts::{
    AlertMessage, AlertsState, alerts_target, extract_channel_id, is_cuttable, unread_messages,
};
use tg::backfill::{
    FileMerge, PhotoOutcome, PhotoSize, SyncTimestamps, TelegramMessage, TelegramUpdate,
    TopicDestination, TopicEdit, TopicStamp, image_file, largest_photo, message_content,
    note_topic_names, offset_after_batch, plan_backfill, record_work, route_update, update_params,
};
use tg::calendar::{SECOND, Timestamp};
use tg::config::{AppConfig, TopicsMetadata};
use tg::destination::parse_telegram_destination_str;
use tg::fetch::{FetchedMessage, PAGE, PageEntry, TopicFetch};
use tg::merge::{last_write_of, merge_messages, merge_mtproto_messages_to_file};
use tg::mtproto::{
    DeleteStep, DiscoveredTopic, MessageState, MissingCredential, SignInReply, SignInStep,
    TopicDiscovery, TopicEntry, is_session_damaged, next_sign_in_step, plan_deletion,
    record_topics, resolve_credentials, session_file_name, total_deleted, typed_in,
};
use tg::pulled::pull_into_file;
use tg::pull::{
    DialogPeer, ForumReply, can_sign_in, channel_of_dialog, expected_peer_id,
    extract_max_message_id_from_content, read_forum_reply, topic_filepath, topic_files,
};

fn config() -> AppConfig {
    AppConfig {
        localhost_port: 1,
        max_messages_per_chat: 1,
        pull_todos_over: None,
        groups: vec![],
        pull_interval: None,
        alerts_interval: None,
        alerts_channel: None,
        print_confirm_threshold: None,
        api_id: None,
        api_hash: None,
        phone: None,
        username: None,
    }
}

fn fetched(id: i32, date: i32, text: &str) -> FetchedMessage {
    FetchedMessage { id, date, text: text.to_string(), photo: false, is_outgoing: false }
}

fn text_message(chat_id: i64, thread: Option<i64>, date: i64, text: &str) -> TelegramMessage {
    TelegramMessage {
        date,
        chat_id,
        text: Some(text.to_string()),
        caption: None,
        photo: None,
        message_thread_id: thread,
        topic_created: None,
        topic_edited: None,
    }
}

fn update(update_id: i64, message: TelegramMessage) -> TelegramUpdate {
    TelegramUpdate { update_id, message: Some(message), channel_post: None }
}

#[test]
fn pages_of_messages() {
    let mut fetch = TopicFetch::new();
    assert_eq!(fetch.offset_id(), 0);
    let full: Vec<PageEntry> = (0..PAGE as i32)
        .map(|i| PageEntry::Message(fetched(500 - i, 1000 - i, "x"), false))
        .collect();
    assert!(fetch.absorb(Some(full), 1000));
    assert_eq!(fetch.offset_id(), 401);
    let rest = vec![
        PageEntry::Service,
        PageEntry::Message(fetched(400, 10, ""), false),
        PageEntry::Message(fetched(399, 9, ""), true),
    ];
    assert!(!fetch.absorb(Some(rest), 1000));
    assert_eq!(fetch.offset_id(), 399);
    assert!(!fetch.absorb(Some(vec![]), 1000));
    assert!(!fetch.absorb(None, 1000));
    let messages = fetch.finish(2);
    let ids: Vec<i32> = messages.iter().map(|m| m.id).collect();
    assert_eq!(ids, vec![499, 500]);
}

#[test]
fn merging_into_a_file() {
    let day = 1_767_225_600; // the first of January 2026
    let mut photo = fetched(12, day + 86_400, "look");
    photo.photo = true;
    photo.is_outgoing = true;
    let messages = vec![fetched(11, day + 60, "hi"), photo, fetched(13, day + 86_500, "")];
    let content = "## Dec 31\nb <!-- msg:10 -->\na <!-- msg:9 -->\n## Jan 1, 2026\nc <!-- msg:8 -->\n\n\n";
    let merged = merge_messages(content, &messages, 2030);
    assert_eq!(
        merged,
        "## Dec 31, 2025\na <!-- msg:9 -->\nb <!-- msg:10 -->\n\n## Jan 1, 2026\nc <!-- msg:8 -->\nhi <!-- msg:11 ts:1767225660 bot -->\n\n## Jan 02, 2026\n\n`````md\n[photo]\nlook\n`````\n<!-- msg:12 ts:1767312000 user -->\n"
    );
    assert_eq!(merge_messages("", &messages[..1].to_vec(), 2030), "hi <!-- msg:11 ts:1767225660 bot -->\n");
    assert_eq!(merge_mtproto_messages_to_file("x\n\n", &vec![]), "x\n");
}

#[test]
fn pulling_into_a_file() {
    let content = "## Jan 1\nkept <!-- msg:8 -->\nloose\n## Jan 2\n";
    assert_eq!(
        pull_into_file(content, &vec![], 2026),
        "## Jan 01, 2026\nkept <!-- msg:8 -->\n"
    );
    let messages = vec![fetched(11, 1_767_225_660, "hi")];
    let pulled = pull_into_file(content, &messages, 2026);
    assert_eq!(
        pulled,
        "## Jan 01, 2026\nkept <!-- msg:8 -->\n## Jan 02, 2026\nhi <!-- msg:11 ts:1767225660 bot -->\n"
    );
    assert_eq!(extract_max_message_id_from_content(&pulled), 11);
    assert_eq!(pull_into_file(&pulled, &vec![], 2026), pulled);
}

#[test]
fn names_of_files() {
    let mut m = TopicsMetadata::default();
    m.set_group_name(1, "g".to_string());
    m.set_topic_name(1, 9, "b".to_string());
    m.set_topic_name(1, 2, "a".to_string());
    m.ensure_topic(5, 1);
    assert_eq!(topic_filepath(1, 9, &m), ("g".to_string(), "b.md".to_string()));
    assert_eq!(topic_filepath(7, 8, &m), ("group_7".to_string(), "topic_8.md".to_string()));
    assert_eq!(
        topic_files(&m),
        vec![
            ("g".to_string(), vec!["a.md".to_string(), "b.md".to_string()]),
            ("group_5".to_string(), vec!["topic_1.md".to_string()]),
        ]
    );
}

#[test]
fn forums_and_peers() {
    let title = Some("My Group!".to_string());
    assert!(matches!(read_forum_reply(false, true, Some(true), &title), ForumReply::Failed));
    assert!(matches!(read_forum_reply(true, false, Some(true), &title), ForumReply::Unknown));
    assert!(matches!(read_forum_reply(true, true, None, &title), ForumReply::NoForum));
    assert!(matches!(read_forum_reply(true, true, Some(true), &None), ForumReply::Untitled));
    match read_forum_reply(true, true, Some(true), &title) {
        ForumReply::Forum(name) => assert_eq!(name, "my_group"),
        _ => panic!("no forum"),
    }
    assert_eq!(expected_peer_id(2244305221), 2244305221);
    assert_eq!(channel_of_dialog(5, &DialogPeer::Channel(5, Some(77)), 5), Some((5, 77)));
    assert_eq!(channel_of_dialog(5, &DialogPeer::Channel(5, None), 5), Some((5, 0)));
    assert_eq!(channel_of_dialog(5, &DialogPeer::Group(Some((6, Some(1)))), 5), Some((6, 1)));
    assert_eq!(channel_of_dialog(5, &DialogPeer::Group(None), 5), None);
    assert_eq!(channel_of_dialog(5, &DialogPeer::Other, 5), None);
    assert_eq!(channel_of_dialog(5, &DialogPeer::Channel(5, Some(77)), 6), None);
}

#[test]
fn credentials() {
    let mut c = config();
    let hash = Some("h".to_string());
    let phone = Some("p".to_string());
    assert!(!can_sign_in(&c, true, true));
    assert_eq!(resolve_credentials(&c, &hash, &phone).unwrap_err(), MissingCredential::ApiId);
    c.api_id = Some(12);
    assert!(can_sign_in(&c, true, true));
    assert!(!can_sign_in(&c, false, true));
    assert_eq!(resolve_credentials(&c, &None, &phone).unwrap_err(), MissingCredential::ApiHash);
    assert_eq!(resolve_credentials(&c, &hash, &None).unwrap_err(), MissingCredential::Phone);
    let r = resolve_credentials(&c, &hash, &phone).unwrap();
    assert_eq!((r.api_id, r.api_hash.as_str(), r.phone.as_str()), (12, "h", "p"));
    assert_eq!(r.username, "@user");
    c.api_hash = Some("mine".to_string());
    c.username = Some("@me".to_string());
    let r = resolve_credentials(&c, &hash, &phone).unwrap();
    assert_eq!((r.api_hash.as_str(), r.username.as_str()), ("mine", "@me"));
    assert_eq!(session_file_name("@me"), "@me.session");
    assert!(is_session_damaged("file is not a database"));
    assert!(is_session_damaged("error code 26"));
    assert!(!is_session_damaged("permission denied"));
}

#[test]
fn signing_in() {
    let mut step = SignInStep::AskAuthorized;
    for reply in [
        SignInReply::NotAuthorized,
        SignInReply::CodeRequested,
        SignInReply::PasswordRequired,
        SignInReply::PasswordAccepted,
    ] {
        step = next_sign_in_step(step, reply);
    }
    assert_eq!(step, SignInStep::Done);
    assert_eq!(
        next_sign_in_step(SignInStep::AskAuthorized, SignInReply::Authorized),
        SignInStep::Done
    );
    assert_eq!(
        next_sign_in_step(SignInStep::SendCode, SignInReply::Refused),
        SignInStep::Failed
    );
    assert_eq!(typed_in(" 12345 \n"), "12345");
}

#[test]
fn pages_of_topics() {
    let topic = |id: i32, title: &str| TopicEntry::Topic {
        id,
        title: title.to_string(),
        date: id * 10,
        top_message: id * 100,
    };
    let mut found = TopicDiscovery::new();
    assert!(found.absorb(vec![topic(1, "General"), topic(2, "My Topic")], 3));
    let offset = found.offset();
    assert_eq!((offset.date, offset.id, offset.topic), (20, 200, 2));
    assert!(found.absorb(vec![TopicEntry::Deleted { id: 3 }], 3));
    let offset = found.offset();
    assert_eq!((offset.date, offset.id, offset.topic), (20, 200, 3));
    assert!(!found.absorb(vec![topic(4, "Last")], 3));
    let mut metadata = TopicsMetadata::default();
    let topics: Vec<DiscoveredTopic> = found.finish();
    assert_eq!(topics.len(), 3);
    record_topics(&mut metadata, 9, &topics);
    assert_eq!(metadata.groups[&9].topics.len(), 3);
    let numbered = DiscoveredTopic { topic_id: 8, title: "Topic 8".to_string() };
    record_topics(&mut metadata, 9, &vec![numbered]);
    assert_eq!(metadata.groups[&9].topics.get(&8).map(|t| t.as_str()), Some("topic_8"));
    assert_eq!(metadata.topic_name(9, 2), "my_topic");
    assert_eq!(metadata.topic_name(9, 4), "last");
    assert_eq!(metadata.topic_name(9, 3), "topic_3");
}

#[test]
fn deleting_messages() {
    assert_eq!(plan_deletion(0, &None), DeleteStep::Nothing);
    assert_eq!(plan_deletion(2, &None), DeleteStep::Delete(0));
    let gone = Some(vec![MessageState::Gone, MessageState::Gone]);
    assert_eq!(plan_deletion(2, &gone), DeleteStep::AlreadyDone(2));
    let some = Some(vec![MessageState::There, MessageState::Gone]);
    assert_eq!(plan_deletion(2, &some), DeleteStep::Delete(1));
    assert_eq!(total_deleted(1, 1), 2);
    assert_eq!(total_deleted(-1, 0), usize::MAX);
}

#[test]
fn alerts() {
    let dest = |s: &str| parse_telegram_destination_str(s).unwrap();
    assert_eq!(alerts_target(&dest("-1005/7")), Some((5, Some(7))));
    assert_eq!(alerts_target(&dest("-1005/1")), Some((5, None)));
    assert_eq!(alerts_target(&dest("-1005")), Some((5, None)));
    assert_eq!(alerts_target(&dest("@name")), None);
    assert_eq!(extract_channel_id(-1002244305221), 2244305221);
    assert_eq!(extract_channel_id(-5), 5);
    assert!(is_cuttable(&"a".repeat(101)));
    assert!(is_cuttable(&"é".repeat(51)));
    assert!(!is_cuttable(&format!("a{}", "é".repeat(51))));
    assert!(is_cuttable(&format!("a{}", "é".repeat(49))));
    let alert = |id: i32, text: &str, out: bool| AlertMessage { id, text: text.to_string(), out };
    let long = "a".repeat(101);
    let uncuttable = format!("a{}", "é".repeat(51));
    let messages = vec![
        alert(1, "read", false),
        alert(5, "mine", true),
        alert(6, "new", false),
        alert(7, &long, false),
        alert(2, &uncuttable, false),
        alert(8, &uncuttable, true),
    ];
    let unread = unread_messages(&messages, 3);
    assert_eq!(unread, vec![(6, "new".to_string()), (7, format!("{}...", "a".repeat(100)))]);
    let mut state = AlertsState::default();
    state.record(2, 1002);
    state.record(6, 1006);
    assert_eq!(state.dismiss_read(&unread), vec![(2, 1002)]);
    assert_eq!(state.notified_pids.get(&6), Some(&1006));
    assert_eq!(state.notified_pids.len(), 1);
    let twice = vec![(9, "first".to_string()), (9, "second".to_string()), (6, "new".to_string())];
    assert_eq!(state.to_notify(&twice), vec![(9, "first".to_string())]);
    let left = state.to_notify(&unread);
    assert_eq!(left.len(), 1);
    assert_eq!(left[0].0, 7);
}

#[test]
fn updates_find_their_topics() {
    let groups = vec![5u64];
    assert_eq!(route_update(&update(1, text_message(-1005, Some(7), 0, "x")), &groups), Some((5, 7)));
    assert_eq!(route_update(&update(1, text_message(-1005, None, 0, "x")), &groups), Some((5, 1)));
    assert_eq!(route_update(&update(1, text_message(-1006, None, 0, "x")), &groups), None);
    let post = TelegramUpdate {
        update_id: 1,
        message: None,
        channel_post: Some(text_message(-1005, Some(2), 0, "x")),
    };
    assert_eq!(route_update(&post, &groups), Some((5, 2)));
    let nothing = TelegramUpdate { update_id: 1, message: None, channel_post: None };
    assert_eq!(route_update(&nothing, &groups), None);
}

#[test]
fn updates_name_topics() {
    let mut created = text_message(-1005, Some(7), 0, "x");
    created.topic_created = Some("My Topic".to_string());
    let mut renamed = text_message(-1005, Some(8), 0, "x");
    renamed.topic_edited = Some(TopicEdit { name: Some("New Name".to_string()) });
    let mut kept = text_message(-1005, Some(9), 0, "x");
    kept.topic_edited = Some(TopicEdit { name: None });
    let plain = text_message(-1005, Some(3), 0, "x");
    let updates =
        vec![update(1, created), update(2, renamed), update(3, kept), update(4, plain.clone())];
    let mut metadata = TopicsMetadata::default();
    metadata.set_topic_name(5, 8, "old".to_string());
    note_topic_names(&mut metadata, &updates, &vec![5]);
    assert_eq!(metadata.topic_name(5, 7), "my_topic");
    assert_eq!(metadata.topic_name(5, 8), "new_name");
    assert!(!metadata.groups[&5].topics.contains_key(&9));
    assert_eq!(metadata.groups[&5].topics[&3], "topic_3");
    metadata.set_topic_name(5, 3, "named".to_string());
    note_topic_names(&mut metadata, &vec![update(5, plain)], &vec![5]);
    assert_eq!(metadata.topic_name(5, 3), "named");
}

#[test]
fn new_updates_are_written_once() {
    let groups = vec![5u64];
    let topic = TopicDestination { group_id: 5, topic_id: 7 };
    let general = TopicDestination { group_id: 5, topic_id: 1 };
    let updates = vec![
        update(10, text_message(-1005, Some(7), 300, "c")),
        update(11, text_message(-1005, None, 100, "x")),
        update(12, text_message(-1005, Some(7), 100, "a")),
        update(13, text_message(-1005, Some(7), 200, "b")),
    ];
    let mut stamps = SyncTimestamps::default();
    assert_eq!(stamps.next_offset(), 0);
    let work = plan_backfill(&stamps, &updates, &groups, 100);
    assert_eq!(work.len(), 2);
    assert_eq!(work[0].topic, general);
    assert_eq!(work[0].updates, vec![1]);
    assert_eq!(work[1].topic, topic);
    assert_eq!(work[1].updates, vec![2, 3, 0]);
    assert_eq!(work[1].newest, Some(13));
    let few = plan_backfill(&stamps, &updates, &groups, 2);
    assert_eq!(few[1].updates, vec![2, 3]);
    record_work(&mut stamps, &work);
    assert_eq!(stamps.topics.len(), 2);
    assert_eq!(stamps.last_synced(topic), 13);
    assert_eq!(stamps.last_synced(general), 11);
    assert_eq!(stamps.next_offset(), 12);
    let last = TopicStamp { topic: TopicDestination { group_id: 5, topic_id: 8 }, update_id: i64::MAX };
    stamps.topics.push(last);
    assert_eq!(stamps.next_offset(), 12);
    stamps.topics.pop();
    assert!(plan_backfill(&stamps, &updates, &groups, 100).is_empty());
}

#[test]
fn topics_are_worked_on_in_the_order_of_their_keys() {
    let updates = vec![
        update(1, text_message(-1005, Some(9), 100, "a")),
        update(2, text_message(-1005, Some(10), 100, "b")),
        update(3, text_message(-10040, Some(1), 100, "c")),
    ];
    let work = plan_backfill(&SyncTimestamps::default(), &updates, &vec![5, 40], 100);
    let keys: Vec<String> = work.iter().map(|w| w.topic.key()).collect();
    assert_eq!(keys, vec!["40/1", "5/10", "5/9"]);
}

#[test]
fn a_pull_tells_when_it_wrote_last() {
    let message = |date: i32, text: &str| FetchedMessage {
        id: 1,
        date,
        text: text.to_string(),
        photo: false,
        is_outgoing: false,
    };
    assert_eq!(last_write_of(&vec![]), None);
    let messages = vec![message(10, "a"), message(20, "b"), message(30, "")];
    assert_eq!(last_write_of(&messages), Some(Timestamp { nanos: 20 * SECOND }));
}

#[test]
fn asking_for_updates() {
    assert_eq!(
        update_params(0, 1000),
        vec![("limit", "1000".to_string()), ("timeout", "0".to_string())]
    );
    assert_eq!(
        update_params(7, 10),
        vec![
            ("limit", "10".to_string()),
            ("timeout", "0".to_string()),
            ("offset", "7".to_string())
        ]
    );
    let one = update(41, text_message(-1005, None, 0, "x"));
    assert_eq!(offset_after_batch(&vec![]), None);
    assert_eq!(offset_after_batch(&vec![one.clone()]), None);
    assert_eq!(offset_after_batch(&vec![one; 1000]), Some(42));
}

#[test]
fn keys_of_topics() {
    let topic = TopicDestination { group_id: 2244305221, topic_id: 7 };
    assert_eq!(topic.key(), "2244305221/7");
    assert_eq!(TopicDestination::from_key(&topic.key()), Some(topic));
    assert_eq!(TopicDestination::from_key("5"), None);
    assert_eq!(TopicDestination::from_key("5/x"), None);
}

#[test]
fn photos() {
    let size = |width: u32, height: u32| PhotoSize { file_id: format!("{width}"), width, height };
    assert_eq!(largest_photo(&vec![]), None);
    assert_eq!(largest_photo(&vec![size(1, 9), size(3, 3), size(2, 2)]), Some(1));
    assert_eq!(image_file(5, 7, 100, Some("png")), "images/5_7_100.png");
    assert_eq!(image_file(5, 7, -1, None), "images/5_7_-1.jpg");
    let mut m = text_message(-1005, None, 0, "text");
    let saved = PhotoOutcome::Saved("images/a.jpg".to_string());
    assert_eq!(message_content(&m, &saved).as_deref(), Some("text"));
    m.photo = Some(vec![size(1, 1)]);
    assert_eq!(message_content(&m, &saved).as_deref(), Some("![](images/a.jpg)"));
    assert_eq!(message_content(&m, &PhotoOutcome::Failed), None);
    m.caption = Some("cap".to_string());
    assert_eq!(message_content(&m, &saved).as_deref(), Some("![](images/a.jpg)\ncap"));
    assert_eq!(
        message_content(&m, &PhotoOutcome::Failed).as_deref(),
        Some("[image failed to download]\ncap")
    );
    m.photo = Some(vec![]);
    assert_eq!(message_content(&m, &saved), None);
}

#[test]
fn writing_to_a_file() {
    let now = Timestamp { nanos: 0 };
    let mut file = FileMerge::open("old\n\n\n", Some("2026-01-01T00:00:00+00:00"));
    assert_eq!(file.content(), "old\n");
    file.write("a", 1_767_225_660, now);
    file.write("b", 1_767_229_260, now);
    assert_eq!(file.content(), "old\na\n\n. b\n");
    assert_eq!(file.last_changed().as_deref(), Some("2026-01-01T01:01:00+00:00"));
    let mut fresh = FileMerge::open("old", Some("never"));
    assert_eq!(fresh.last_changed(), None);
    fresh.write("x", i64::MAX, Timestamp { nanos: SECOND });
    assert_eq!(fresh.content(), "oldx\n");
    assert_eq!(fresh.last_changed().as_deref(), Some("1970-01-01T00:00:01+00:00"));
}
