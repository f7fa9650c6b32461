use std::collections::BTreeMap;

use tg::sync::{
    MessageSender, MessageUpdate, ParsedMessage, changes_to_updates, coalesce_new_messages,
    detect_changes, detect_changes_with_new_messages, parse_file_messages,
    parse_file_with_positions,
};

fn parsed(content: &str, sender: MessageSender) -> ParsedMessage {
    ParsedMessage { content: content.to_string(), sender }
}

#[test]
fn test_parse_file_messages() {
    let content = r#"Hello world <!-- msg:123 -->

## Jan 03
This is a test <!-- msg:456 bot -->

. Another message <!-- msg:789 user -->
"#;

    let messages = parse_file_messages(content);
    assert_eq!(messages.len(), 3);
    assert_eq!(messages.get(&123).map(|m| &m.content), Some(&"Hello world".to_string()));
    assert_eq!(messages.get(&123).map(|m| m.sender), Some(MessageSender::Bot));
    assert_eq!(messages.get(&456).map(|m| &m.content), Some(&"This is a test".to_string()));
    assert_eq!(messages.get(&456).map(|m| m.sender), Some(MessageSender::Bot));
    assert_eq!(messages.get(&789).map(|m| &m.content), Some(&". Another message".to_string()));
    assert_eq!(messages.get(&789).map(|m| m.sender), Some(MessageSender::User));
}

#[test]
fn test_detect_changes_deleted() {
    let mut old = BTreeMap::new();
    old.insert(1, parsed("message 1", MessageSender::Bot));
    old.insert(2, parsed("message 2", MessageSender::Bot));

    let mut new = BTreeMap::new();
    new.insert(1, parsed("message 1", MessageSender::Bot));

    let changes = detect_changes(&old, &new);
    assert_eq!(changes.deleted, vec![2]);
    assert!(changes.edited.is_empty());
}

#[test]
fn test_detect_changes_edited() {
    let mut old = BTreeMap::new();
    old.insert(1, parsed("message 1", MessageSender::User));
    old.insert(2, parsed("message 2", MessageSender::Bot));

    let mut new = BTreeMap::new();
    new.insert(1, parsed("message 1", MessageSender::User));
    new.insert(2, parsed("message 2 edited", MessageSender::Bot));

    let changes = detect_changes(&old, &new);
    assert!(changes.deleted.is_empty());
    assert_eq!(changes.edited, vec![(2, "message 2 edited".to_string(), MessageSender::Bot)]);
}

#[test]
fn test_detect_changes_mixed() {
    let mut old = BTreeMap::new();
    old.insert(1, parsed("message 1", MessageSender::User));
    old.insert(2, parsed("message 2", MessageSender::Bot));
    old.insert(3, parsed("message 3", MessageSender::Bot));

    let mut new = BTreeMap::new();
    new.insert(1, parsed("message 1 edited", MessageSender::User));
    new.insert(3, parsed("message 3", MessageSender::Bot));

    let changes = detect_changes(&old, &new);
    assert_eq!(changes.deleted, vec![2]);
    assert_eq!(changes.edited, vec![(1, "message 1 edited".to_string(), MessageSender::User)]);
}

#[test]
fn test_detect_new_messages_at_end() {
    let old_content = r#"Hello world <!-- msg:123 -->

## Jan 03
This is a test <!-- msg:456 bot -->
"#;

    let new_content = r#"Hello world <!-- msg:123 -->

## Jan 03
This is a test <!-- msg:456 bot -->

New message at the end
"#;

    let changes = detect_changes_with_new_messages(old_content, new_content);
    assert!(changes.deleted.is_empty());
    assert!(changes.edited.is_empty());
    assert_eq!(changes.created.len(), 1);
    assert_eq!(changes.created[0], "New message at the end");
    assert!(changes.invalid_inserts.is_empty());
}

#[test]
fn test_detect_new_messages_with_dot_prefix() {
    let old_content = r#"Hello world <!-- msg:123 -->
"#;

    let new_content = r#"Hello world <!-- msg:123 -->

. First new message

. Second new message
"#;

    let changes = detect_changes_with_new_messages(old_content, new_content);
    assert!(changes.deleted.is_empty());
    assert!(changes.edited.is_empty());
    assert_eq!(changes.created.len(), 2);
    assert_eq!(changes.created[0], "First new message");
    assert_eq!(changes.created[1], "Second new message");
    assert!(changes.invalid_inserts.is_empty());
}

#[test]
fn test_detect_invalid_insert_before_last_message() {
    let old_content = r#"Hello world <!-- msg:123 -->

## Jan 03
This is a test <!-- msg:456 bot -->
"#;

    let new_content = r#"Hello world <!-- msg:123 -->

Inserted in the middle

## Jan 03
This is a test <!-- msg:456 bot -->
"#;

    let changes = detect_changes_with_new_messages(old_content, new_content);
    assert!(changes.deleted.is_empty());
    assert!(changes.edited.is_empty());
    assert!(changes.created.is_empty());
    assert_eq!(changes.invalid_inserts.len(), 1);
    assert!(changes.invalid_inserts[0].contains("Inserted in the middle"));
    assert!(changes.has_invalid_inserts());
}

#[test]
fn test_detect_new_messages_empty_file() {
    let old_content = "";
    let new_content = "New message in empty file";

    let changes = detect_changes_with_new_messages(old_content, new_content);
    assert!(changes.deleted.is_empty());
    assert!(changes.edited.is_empty());
    assert_eq!(changes.created.len(), 1);
    assert_eq!(changes.created[0], "New message in empty file");
    assert!(changes.invalid_inserts.is_empty());
}

#[test]
fn test_detect_multiline_new_message() {
    let old_content = r#"Hello world <!-- msg:123 -->
"#;

    let new_content = r#"Hello world <!-- msg:123 -->

This is a multiline message
with multiple lines
that should be combined
"#;

    let changes = detect_changes_with_new_messages(old_content, new_content);
    assert!(changes.deleted.is_empty());
    assert!(changes.edited.is_empty());
    assert_eq!(changes.created.len(), 1);
    assert!(changes.created[0].contains("multiline message"));
    assert!(changes.created[0].contains("multiple lines"));
    assert!(changes.invalid_inserts.is_empty());
}

#[test]
fn test_coalesce_new_messages() {
    let lines = vec![
        "First message".to_string(),
        "continuation of first".to_string(),
        ". Second message".to_string(),
        ". Third message".to_string(),
    ];

    let messages = coalesce_new_messages(&lines);
    assert_eq!(messages.len(), 3);
    assert!(messages[0].contains("First message"));
    assert!(messages[0].contains("continuation of first"));
    assert_eq!(messages[1], "Second message");
    assert_eq!(messages[2], "Third message");
}

#[test]
fn a_file_has_no_changes_against_itself() {
    let content = "a <!-- msg:1 -->\nb <!-- msg:2 user -->\n";
    let changes = detect_changes_with_new_messages(content, content);
    assert!(changes.is_empty());
    assert!(!changes.has_invalid_inserts());
}

#[test]
fn positions_of_tagged_lines() {
    let info = parse_file_with_positions("x\na <!-- msg:1 -->\ny\n");
    assert_eq!(info.last_tagged_line, Some(1));
    assert_eq!(info.tagged_messages.len(), 1);
    assert_eq!(info.untagged_lines, vec![(0, "x".to_string()), (2, "y".to_string())]);
}

#[test]
fn digits_of_other_scripts_make_a_tag_without_an_id() {
    // The tag is a tag, but its digits are no number, so the line is neither.
    let info = parse_file_with_positions("a <!-- msg:\u{663}\u{664} -->\n");
    assert!(info.tagged_messages.is_empty());
    assert!(info.untagged_lines.is_empty());
    assert_eq!(info.last_tagged_line, None);
}

#[test]
fn senders_of_other_scripts_are_word_characters() {
    let messages = parse_file_messages("a <!-- msg:5 \u{3b1}\u{3b2} -->\n");
    assert_eq!(messages.get(&5).map(|m| m.sender), Some(MessageSender::Bot));
    let messages = parse_file_messages("a <!-- msg:5 \u{2192} -->\n");
    assert!(messages.is_empty());
}

#[test]
fn headers_are_no_messages() {
    let old = "a <!-- msg:1 -->\n";
    let new = "a <!-- msg:1 -->\n\n## Jan 03, 2026\n\nb\n";
    let changes = detect_changes_with_new_messages(old, new);
    assert_eq!(changes.created, vec!["b".to_string()]);
    let new = "a <!-- msg:1 -->\n## Notes\n";
    assert_eq!(detect_changes_with_new_messages(old, new).created, vec!["## Notes".to_string()]);
}

#[test]
fn senders_by_their_tags() {
    assert_eq!(MessageSender::from_tag("user"), MessageSender::User);
    assert_eq!(MessageSender::from_tag("bot"), MessageSender::Bot);
    assert_eq!(MessageSender::from_tag("User"), MessageSender::Bot);
    assert_eq!(MessageSender::default(), MessageSender::Bot);
}

#[test]
fn changes_become_updates() {
    let old = "a <!-- msg:1 -->\nb <!-- msg:2 user -->\nc <!-- msg:3 -->\n";
    let new = "a2 <!-- msg:1 -->\nc <!-- msg:3 -->\nnew one\n";
    let changes = detect_changes_with_new_messages(old, new);
    let updates = changes_to_updates(&changes, 10, 20);
    assert_eq!(updates.len(), 3);
    match &updates[0] {
        MessageUpdate::Delete { group_id, topic_id, message_id } => {
            assert_eq!((*group_id, *topic_id, *message_id), (10, 20, 2));
        },
        other => panic!("{other:?}"),
    }
    match &updates[1] {
        MessageUpdate::Edit { group_id, topic_id, message_id, new_content, sender } => {
            assert_eq!((*group_id, *topic_id, *message_id), (10, 20, 1));
            assert_eq!(new_content, "a2");
            assert_eq!(*sender, MessageSender::Bot);
        },
        other => panic!("{other:?}"),
    }
    match &updates[2] {
        MessageUpdate::Create { group_id, topic_id, content } => {
            assert_eq!((*group_id, *topic_id), (10, 20));
            assert_eq!(content, "new one");
        },
        other => panic!("{other:?}"),
    }
}
