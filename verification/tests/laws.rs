use tg::buffer::SendBuffer;
use tg::calendar::{Date, SECOND, Timestamp};
use tg::chat;
use tg::cleanup::cleanup_tagless_messages;
use tg::destination::{parse_telegram_destination_str, parse_top_level_id, parse_username};
use tg::header::{backfill_date_header_years, extract_last_date_from_content};
use tg::order::reorder_messages_by_id;
use tg::pull::{
    are_message_ids_increasing, extract_max_message_id_from_content, sanitize_topic_name,
};
use tg::server::format_message_append_with_sender;
use tg::sync::{MessageSender, detect_changes, parse_file_messages, parse_message_times};
use tg::{TelegramDestination, TopLevelId, Username};

#[test]
fn parameters_read_back() {
    for id in [0u64, 7, 100, 2244305221] {
        let top = TopLevelId::Id(id);
        assert_eq!(parse_top_level_id(&top.chat_id_param()), Ok(top.clone()));
        let text = format!("{}/7", top.chat_id_param());
        assert_eq!(
            parse_telegram_destination_str(&text),
            Ok(TelegramDestination::GroupTopic { group: top, topic_id: 7 })
        );
    }
    let name = Username::At("@johndoe".to_string());
    assert_eq!(parse_username(&name.api_param()), Ok(name));
    assert_eq!(parse_username(&Username::Id(5).api_param()), Ok(Username::Id(5)));
    let channel = chat::TelegramDestination::ChannelExactUid(2244305221);
    let param = &channel.destination_params()[0].1;
    assert_eq!(chat::parse_telegram_destination_str(param), Ok(channel));
}

#[test]
fn headers_read_back() {
    for (year, month, day) in [(2024, 2, 29), (1000, 1, 1), (9999, 12, 31), (33, 7, 4)] {
        let date = Date::new(year, month, day).unwrap();
        let content = format!("## {}\n", date.text());
        assert_eq!(extract_last_date_from_content(&content), Some(date));
    }
}

#[test]
fn filled_in_years_stay() {
    let content = "## Nov 15\nmsg\n## Dec 25, 2024\nmsg\n## Jan 3\nmsg";
    let once = backfill_date_header_years(content);
    assert_eq!(once, "## Nov 15, 2024\nmsg\n## Dec 25, 2024\nmsg\n## Jan 03, 2025\nmsg");
    assert_eq!(backfill_date_header_years(&once), once);
}

#[test]
fn written_ids_are_found() {
    let mut content = String::new();
    let mut last = None;
    for id in [3, 8, 21] {
        let now = Timestamp { nanos: id as i128 * 1000 * SECOND };
        let text = format!("message {id}\nof two lines");
        content.push_str(&format_message_append_with_sender(&text, last, now, Some(id), Some("bot")));
        assert_eq!(extract_max_message_id_from_content(&content), id);
        last = Some(now);
    }
    assert!(are_message_ids_increasing(&content));
    assert!(cleanup_tagless_messages(&content).is_none());
}

#[test]
fn cleaning_up_keeps_ids() {
    let content = "x\na <!-- msg:5 -->\ny\n\n\n## Jan 1\n## Jan 2\nb <!-- msg:9 -->\n";
    let cleaned = cleanup_tagless_messages(content).unwrap();
    assert_eq!(cleaned, "a <!-- msg:5 -->\n\n## Jan 2\nb <!-- msg:9 -->\n");
    assert!(cleanup_tagless_messages(&cleaned).is_none());
}

#[test]
fn a_fence_in_a_message_stays_in_its_block() {
    let message = "a\n`````\n## Jan 1\n\n\nb";
    let content = format_message_append_with_sender(message, None, Timestamp { nanos: 0 }, Some(1), None);
    assert_eq!(content, "``````md\na\n`````\n## Jan 1\n\n\nb\n``````\n<!-- msg:1 ts:0 -->\n");
    assert!(cleanup_tagless_messages(&content).is_none());
    assert_eq!(reorder_messages_by_id(&content), content);
    let behind = format!("x\n\n\n{content}");
    assert_eq!(cleanup_tagless_messages(&behind), Some(content));
}

#[test]
fn ordering_twice_is_ordering_once() {
    let content = "## Dec 25, 2024\nc <!-- msg:3 -->\n`````md\nx\n`````\n<!-- msg:2 -->\n## Dec 26, 2024\nlost\n## Dec 27, 2024\nb <!-- msg:3 -->\na <!-- msg:1 -->\n";
    let once = reorder_messages_by_id(content);
    assert_eq!(
        once,
        "## Dec 25, 2024\n`````md\nx\n`````\n<!-- msg:2 -->\nc <!-- msg:3 -->\n\n## Dec 27, 2024\na <!-- msg:1 -->\n"
    );
    assert_eq!(reorder_messages_by_id(&once), once);
    let without_headers = "b <!-- msg:2 -->\na <!-- msg:1 -->\n";
    let once = reorder_messages_by_id(without_headers);
    assert_eq!(once, "a <!-- msg:1 -->\nb <!-- msg:2 -->\n");
    assert_eq!(reorder_messages_by_id(&once), once);
    // A message above the first header goes to the end, and then under the last one.
    let once = reorder_messages_by_id("a <!-- msg:1 -->\n## Dec 25, 2024\nb <!-- msg:2 -->\n");
    assert_eq!(once, "## Dec 25, 2024\nb <!-- msg:2 -->\n\na <!-- msg:1 -->\n");
    assert_eq!(
        reorder_messages_by_id(&once),
        "## Dec 25, 2024\na <!-- msg:1 -->\nb <!-- msg:2 -->\n"
    );
}

#[test]
fn file_names_stay() {
    for (name, file) in [("My Topic!", "my_topic"), ("_A-b_", "a-b"), ("***", ""), ("Über", "über")] {
        assert_eq!(sanitize_topic_name(name), file);
        assert_eq!(sanitize_topic_name(file), file);
    }
}

#[test]
fn appended_messages_read_back() {
    let noon = Timestamp { nanos: 43_200 * SECOND };
    let plain = format_message_append_with_sender("hello", None, noon, Some(5), Some("user"));
    let two = format_message_append_with_sender("a\nb", Some(noon), noon, Some(6), Some("bot"));
    let content = format!("{plain}{two}");
    let messages = parse_file_messages(&content);
    assert_eq!(messages.len(), 2);
    assert_eq!(messages[&5].content, "hello");
    assert_eq!(messages[&5].sender, MessageSender::User);
    assert_eq!(messages[&6].content, "");
    assert_eq!(messages[&6].sender, MessageSender::Bot);
    let times = parse_message_times(&content);
    assert_eq!(times.len(), 2);
    assert_eq!(times[&5], 43_200);
    assert_eq!(times[&6], 43_200);
}

#[test]
fn days_keep_their_messages() {
    let content = "## Dec 25, 2024\nb <!-- msg:2 -->\n## Dec 26, 2024\na <!-- msg:1 -->\n";
    let reordered = reorder_messages_by_id(content);
    assert_eq!(
        reordered,
        "## Dec 25, 2024\nb <!-- msg:2 -->\n\n## Dec 26, 2024\na <!-- msg:1 -->\n"
    );
    assert!(!are_message_ids_increasing(&reordered));
}

#[test]
fn a_drain_leaves_what_came_meanwhile() {
    let mut buffer = SendBuffer::load("a\nb\n");
    let drained = buffer.snapshot().len();
    buffer.append(&vec!["c".to_string()]);
    assert_eq!(buffer.pop_first(drained), 1);
    assert_eq!(buffer.snapshot(), vec!["c".to_string()]);
}

#[test]
fn changes_lead_to_the_new_state() {
    let old = parse_file_messages("a <!-- msg:1 -->\nb <!-- msg:2 user -->\nc <!-- msg:3 -->\n");
    let new = parse_file_messages("a <!-- msg:1 -->\nB <!-- msg:2 -->\nd <!-- msg:4 -->\n");
    let changes = detect_changes(&old, &new);
    let mut state = old.clone();
    for id in &changes.deleted {
        state.remove(id);
    }
    for (id, content, _) in &changes.edited {
        state.get_mut(id).unwrap().content = content.clone();
    }
    assert_eq!(state.len(), 2);
    for (id, m) in &state {
        assert_eq!(m.content, new[id].content);
    }
}
