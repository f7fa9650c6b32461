use tg::attachments::plan_attachments;
use tg::buffer::{SendBuffer, can_wait};
use tg::calendar::Timestamp;
use tg::push::{
    EditRoute, SentMessage, edit_route, is_yes, needs_client, needs_confirmation, plan_push,
    push_notice, remove_deleted_lines, sent_by_topic, tag_sent_messages,
};
use tg::pull::extract_max_message_id_from_content;
use tg::results::{
    CreateResult, FileCleanup, MessageResult, OpResult, PushResults, display_push_results,
};
use tg::server::{
    AfterSession, Handling, Outgoing, ServerRequest, ServerResponse, SessionEnd, after_session,
    answer_push, check_server_version, extract_image_path, handle_request, outgoing, version,
};
use tg::settle::{
    deletion_took_place, lines_to_remove, settle_deletions, settle_edits, settle_sends,
};
use tg::sync::{MessageSender, MessageUpdate};

const EPOCH: Timestamp = Timestamp { nanos: 0 };

fn delete(group_id: u64, topic_id: u64, message_id: i32) -> MessageUpdate {
    MessageUpdate::Delete { group_id, topic_id, message_id }
}

fn create(content: &str) -> MessageUpdate {
    MessageUpdate::Create { group_id: 1000000001, topic_id: 2, content: content.to_string() }
}

#[test]
fn buffered_send_drains_to_telegram() {
    let mut buffer = SendBuffer::load("");
    assert_eq!(buffer.append(&vec!["fire and forget".to_string()]), 1);
    assert_eq!(buffer.count_text(), "1\n");

    let entries = buffer.snapshot();
    let updates: Vec<MessageUpdate> = entries.iter().map(|e| create(e)).collect();
    let plan = plan_push(&updates);
    assert_eq!(plan.creates.len(), 1);
    let sent = vec![(plan.creates[0].content.clone(), 1000)];
    let content = tag_sent_messages("", &sent, None, EPOCH);
    assert!(content.contains("fire and forget <!-- msg:"));

    assert_eq!(buffer.pop_first(entries.len()), 0);
    assert_eq!(buffer.count_text().trim(), "0", "buffer not drained; topic file:\n{content}");
}

#[test]
fn send_document_inline_goes_out_as_photo() {
    let shot = "shot.png";
    let out = plan_attachments(&vec![shot.to_string()], &vec![true], true, "cap").unwrap();
    assert_eq!(out.len(), 1);
    let topic = tag_sent_messages("", &vec![(out[0].content(), 1000)], None, EPOCH);
    assert!(topic.contains("cap <!-- msg:"));
    let sent = out[0].log_line();
    assert!(sent.contains(&format!("[photo:{shot}] cap")), "not sent as photo: {sent}");
}

#[test]
fn send_document_without_inline_goes_out_as_document() {
    let shot = "shot.png";
    let out = plan_attachments(&vec![shot.to_string()], &vec![true], false, "cap").unwrap();
    assert_eq!(out.len(), 1);
    let topic = tag_sent_messages("", &vec![(out[0].content(), 1000)], None, EPOCH);
    assert!(topic.contains("cap <!-- msg:"));
    let sent = out[0].log_line();
    assert!(sent.contains(&format!("[document:{shot}] cap")), "not sent as document: {sent}");
}

#[test]
fn send_multiple_documents_without_caption() {
    let (a, b) = ("a.png", "b.png");
    let paths = vec![a.to_string(), b.to_string()];
    let out = plan_attachments(&paths, &vec![true, true], true, "").unwrap();
    assert_eq!(out.len(), 2);
    let ids = [1000, 1001];
    let sent: Vec<(String, i32)> = out.iter().zip(ids).map(|(m, id)| (m.content(), id)).collect();
    let topic = tag_sent_messages("", &sent, None, EPOCH);
    assert!(topic.contains("[photo] <!-- msg:"));
    assert_eq!(topic, "[photo] <!-- msg:1000 ts:0 -->\n[photo] <!-- msg:1001 ts:0 -->\n");
    let sent = format!("{}\n{}\n", out[0].log_line(), out[1].log_line());
    assert!(sent.contains(&format!("[photo:{a}] ")), "first not sent: {sent}");
    assert!(sent.contains(&format!("[photo:{b}] ")), "second not sent: {sent}");
}

#[test]
fn send_missing_document_fails_before_buffering() {
    let buffer = SendBuffer::load("");
    let paths = vec!["/nonexistent/shot.png".to_string()];
    let out = plan_attachments(&paths, &vec![false], false, "cap");
    assert!(out.is_err(), "send must fail on a missing attachment");
    assert_eq!(out.err(), Some("/nonexistent/shot.png".to_string()));
    assert_eq!(buffer.count_text().trim(), "0");
    assert_eq!(buffer.to_text(), "");
}

#[test]
fn a_caption_goes_with_the_first_file() {
    let paths = vec!["a.pdf".to_string(), "b.pdf".to_string()];
    let out = plan_attachments(&paths, &vec![true, true], false, "cap").unwrap();
    assert_eq!(out[0].content(), "cap");
    assert_eq!(out[1].content(), "[document]");
    assert_eq!(out[1].log_line(), "[document:b.pdf] ");
    assert_eq!(plan_attachments(&paths, &vec![true, false], false, "cap").err(), Some("b.pdf".to_string()));
}

#[test]
fn seeded_buffer_drains_on_startup() {
    let seeded = format!(
        r#"{{"Create":{{"group_id":{},"topic_id":{},"content":"survived a restart"}}}}{}"#,
        1000000001, 2, "\n"
    );
    let mut buffer = SendBuffer::load(&seeded);
    assert_eq!(buffer.count(), 1);
    let entry: serde_json::Value = serde_json::from_str(&buffer.snapshot()[0]).unwrap();
    let content = entry["Create"]["content"].as_str().unwrap().to_string();
    assert_eq!(content, "survived a restart");
    let topic = tag_sent_messages("", &vec![(content, 1000)], None, EPOCH);
    assert!(topic.contains("survived a restart <!-- msg:"));
    buffer.pop_first(1);
    assert_eq!(buffer.count_text().trim(), "0");
    assert_eq!(buffer.to_text(), "");
}

#[test]
fn the_buffer_is_a_queue() {
    let mut buffer = SendBuffer::load("a\n");
    assert_eq!(buffer.append(&vec!["b".to_string(), "c".to_string()]), 3);
    assert_eq!(buffer.to_text(), "a\nb\nc\n");
    assert_eq!(buffer.pop_first(1), 2);
    assert_eq!(buffer.snapshot(), vec!["b".to_string(), "c".to_string()]);
    assert_eq!(buffer.to_text(), "b\nc\n");
    assert_eq!(buffer.pop_first(9), 0);
    assert_eq!(buffer.to_text(), "");
}

#[test]
fn plans_put_updates_together() {
    let edit = MessageUpdate::Edit {
        group_id: 2,
        topic_id: 1,
        message_id: 9,
        new_content: "new".to_string(),
        sender: MessageSender::User,
    };
    let updates = vec![delete(5, 1, 10), edit, delete(3, 2, 11), create("hi"), delete(5, 4, 12)];
    let plan = plan_push(&updates);
    assert_eq!(plan.deletions, vec![(3, vec![(2, 11)]), (5, vec![(1, 10), (4, 12)])]);
    assert_eq!(plan.delete_count, 3);
    assert_eq!(plan.edits.len(), 1);
    assert_eq!(plan.edits[0].new_content, "new");
    assert_eq!(plan.edits[0].message_id, 9);
    assert_eq!(plan.creates.len(), 1);
    assert_eq!(plan.creates[0].content, "hi");
    assert!(needs_client(&plan));
    assert!(!needs_client(&plan_push(&vec![create("hi")])));
    assert_eq!(push_notice(&plan), "Pushing 5 updates (3 deletions, 1 edits, 1 creates)");
}

#[test]
fn replies_to_deletions() {
    let plan = plan_push(&vec![delete(5, 4, 10), delete(3, 2, 11), delete(5, 1, 12), delete(5, 4, 9)]);
    let replies = vec![Err("offline".to_string()), Ok(3)];
    let settled = settle_deletions(&plan.deletions, &replies);
    let read: Vec<(u64, i32, bool, &str)> = settled
        .iter()
        .map(|m| (m.group_id, m.message_id, m.result.success, m.result.message.as_str()))
        .collect();
    assert_eq!(
        read,
        vec![
            (3, 11, false, "Failed to delete from group 3: offline"),
            (5, 10, true, "Deleted 3 message(s) from group 5"),
            (5, 12, true, "Deleted 3 message(s) from group 5"),
            (5, 9, true, "Deleted 3 message(s) from group 5"),
        ]
    );
    let lines = lines_to_remove(&plan.deletions, &replies);
    assert_eq!(lines.len(), 2);
    assert_eq!((lines[0].group_id, lines[0].topic_id), (5, 1));
    assert_eq!(lines[0].message_ids, vec![12]);
    assert_eq!((lines[1].group_id, lines[1].topic_id), (5, 4));
    assert_eq!(lines[1].message_ids, vec![10, 9]);
    let none = vec![Ok(0), Ok(0)];
    assert!(lines_to_remove(&plan.deletions, &none).is_empty());
    assert_eq!(
        settle_deletions(&plan.deletions, &none)[0].result.message,
        "No messages were deleted from Telegram, local files unchanged"
    );
}

#[test]
fn replies_to_edits_and_sends() {
    let edit = |message_id: i32, sender: MessageSender| MessageUpdate::Edit {
        group_id: 2,
        topic_id: 1,
        message_id,
        new_content: "new".to_string(),
        sender,
    };
    let plan = plan_push(&vec![
        edit(9, MessageSender::User),
        edit(8, MessageSender::Bot),
        create("a"),
        create("b"),
    ]);
    let edits = settle_edits(&plan.edits, &vec![Ok(()), Err("too old".to_string())]);
    assert!(edits[0].result.success);
    assert_eq!(edits[0].result.message, "Edited message 9 in group 2 (via User)");
    assert!(!edits[1].result.success);
    assert_eq!(edits[1].result.message, "Failed to edit message 8 in group 2: too old");
    let (creates, sent) = settle_sends(&plan.creates, &vec![Err("flood".to_string()), Ok(77)]);
    assert!(!creates[0].result.success);
    assert_eq!(
        creates[0].result.message,
        "Failed to send message to group 1000000001 topic 2: flood"
    );
    assert_eq!(
        creates[1].result.message,
        "Sent message to group 1000000001 topic 2 (msg_id: 77)"
    );
    assert_eq!(sent.len(), 1);
    assert_eq!((sent[0].content.as_str(), sent[0].message_id), ("b", 77));
}

#[test]
fn only_messages_wait() {
    assert!(can_wait(&vec![create("a"), create("b")]));
    assert!(can_wait(&vec![]));
    assert!(!can_wait(&vec![create("a"), delete(1, 2, 3)]));
}

#[test]
fn questions_and_answers() {
    assert!(!needs_confirmation(25));
    assert!(needs_confirmation(26));
    assert!(is_yes("y\n"));
    assert!(is_yes(" Y "));
    assert!(!is_yes("yes"));
    assert!(!is_yes("\n"));
}

#[test]
fn routes_and_outcomes() {
    assert_eq!(edit_route(MessageSender::Bot), EditRoute::BotApi);
    assert_eq!(edit_route(MessageSender::User), EditRoute::Client);
    assert!(deletion_took_place(&Ok(1)));
    assert!(!deletion_took_place(&Ok(0)));
    assert!(!deletion_took_place(&Err("gone".to_string())));
}

#[test]
fn deleted_lines_are_gone() {
    let content = "## Jan 03\na <!-- msg:1 -->\nb <!-- msg:2 ts:5 bot -->\n\nc <!-- msg:3 user -->\n";
    let (left, removed) = remove_deleted_lines(content, &vec![1, 2]).unwrap();
    assert_eq!(left, "## Jan 03\n\nc <!-- msg:3 user -->");
    assert_eq!(removed, 2);
    assert!(remove_deleted_lines(&left, &vec![1, 2]).is_none());
}

#[test]
fn sent_messages_are_tagged() {
    let content = "old <!-- msg:1 -->\n\n. first\nsecond\n";
    let sent = vec![("first".to_string(), 8), ("second".to_string(), 9)];
    let tagged = tag_sent_messages(content, &sent, None, EPOCH);
    assert_eq!(
        tagged,
        "old <!-- msg:1 -->\n\nfirst <!-- msg:8 ts:0 -->\nsecond <!-- msg:9 ts:0 -->\n"
    );
    assert_eq!(extract_max_message_id_from_content(&tagged), 9);
}

#[test]
fn tagged_texts_stay() {
    let content = "same <!-- msg:1 -->\n";
    let tagged = tag_sent_messages(content, &vec![("same".to_string(), 2)], None, EPOCH);
    assert_eq!(tagged, "same <!-- msg:1 -->\nsame <!-- msg:2 ts:0 -->\n");
}

#[test]
fn sent_messages_by_their_topics() {
    let sent = |group_id: u64, topic_id: u64, message_id: i32| SentMessage {
        group_id,
        topic_id,
        content: format!("m{message_id}"),
        message_id,
    };
    let all = vec![sent(2, 1, 10), sent(1, 7, 11), sent(2, 1, 12), sent(1, 3, 13)];
    let topics = sent_by_topic(&all);
    assert_eq!(topics.len(), 3);
    assert_eq!((topics[0].group_id, topics[0].topic_id), (1, 3));
    assert_eq!((topics[1].group_id, topics[1].topic_id), (1, 7));
    assert_eq!((topics[2].group_id, topics[2].topic_id), (2, 1));
    assert_eq!(topics[2].messages, vec![("m10".to_string(), 10), ("m12".to_string(), 12)]);
}

#[test]
fn requests_and_answers() {
    match handle_request(Some(ServerRequest::Ping)) {
        Handling::Answer(a) => {
            assert!(a.success);
            assert_eq!(a.error, None);
            assert_eq!(a.version.as_deref(), Some(version()));
        },
        Handling::Push(_) => panic!("a ping was pushed"),
    }
    match handle_request(None) {
        Handling::Answer(a) => {
            assert!(!a.success);
            assert_eq!(a.error.as_deref(), Some("Invalid request format"));
        },
        Handling::Push(_) => panic!("nothing was pushed"),
    }
    match handle_request(Some(ServerRequest::Push { updates: vec![delete(1, 2, 3)] })) {
        Handling::Push(updates) => assert_eq!(updates.len(), 1),
        Handling::Answer(_) => panic!("a push was answered"),
    }
    assert!(answer_push(Ok(PushResults::default())).push_results.is_some());
    assert_eq!(answer_push(Err("gone".to_string())).error.as_deref(), Some("gone"));
}

#[test]
fn versions_have_to_match() {
    assert!(check_server_version(&ServerResponse::ok()).is_ok());
    assert!(check_server_version(&ServerResponse::err("no")).is_ok());
    let mut other = ServerResponse::ok();
    other.version = Some("9.9.9".to_string());
    let e = check_server_version(&other).unwrap_err();
    assert_eq!(
        e.message(),
        "Server version mismatch: server is v9.9.9, client is v0.1.0"
    );
    assert!(check_server_version(&ServerResponse::default()).is_err());
}

#[test]
fn pauses_double_up_to_a_minute() {
    let mut pause: u64 = 1;
    let mut seen = vec![];
    for _ in 0..8 {
        match after_session(SessionEnd::Failed(3), pause) {
            AfterSession::Reconnect { pause: now, next_pause } => {
                seen.push(now);
                pause = next_pause;
            },
            AfterSession::Stop => panic!("stopped"),
        }
    }
    assert_eq!(seen, vec![1, 2, 4, 8, 16, 32, 60, 60]);
    assert_eq!(
        after_session(SessionEnd::Failed(60), 32),
        AfterSession::Reconnect { pause: 32, next_pause: 1 }
    );
    assert_eq!(
        after_session(SessionEnd::NotCreated, 32),
        AfterSession::Reconnect { pause: 32, next_pause: 60 }
    );
    assert_eq!(after_session(SessionEnd::Clean, 32), AfterSession::Stop);
}

#[test]
fn images_go_out_as_photos() {
    match outgoing(extract_image_path("![](a.png) cap"), true) {
        Outgoing::Photo(path, caption) => {
            assert_eq!(path, "a.png");
            assert_eq!(caption.as_deref(), Some("cap"));
        },
        Outgoing::Text => panic!("sent as text"),
    }
    assert!(matches!(outgoing(extract_image_path("![](a.png)"), false), Outgoing::Text));
    assert!(matches!(outgoing(extract_image_path("plain"), true), Outgoing::Text));
}

#[test]
fn results_as_text() {
    let op = |success: bool, message: &str| OpResult { success, message: message.to_string() };
    let results = PushResults {
        deletions: vec![
            MessageResult { group_id: 1, message_id: 2, result: op(true, "done") },
            MessageResult { group_id: 1, message_id: 3, result: op(false, "gone") },
        ],
        edits: vec![MessageResult { group_id: 4, message_id: 5, result: op(true, "ok") }],
        creates: vec![CreateResult { group_id: 6, topic_id: 7, result: op(false, "no") }],
        file_cleanups: vec![FileCleanup {
            path: "a/b.md".to_string(),
            lines_removed: 1,
            message: "1 line".to_string(),
        }],
    };
    assert_eq!(
        display_push_results(&results),
        "\nResults:\n  ✓ delete msg:2 (group:1): done\n  ✗ delete msg:3 (group:1): gone\n  ✓ edit msg:5 (group:4): ok\n  ✗ create (group:6/topic:7): no\n  ✓ cleanup a/b.md: 1 line\nSummary: 1/2 deletions, 1 edits, 0/1 creates\n"
    );
    assert_eq!(display_push_results(&PushResults::default()), "");
}
