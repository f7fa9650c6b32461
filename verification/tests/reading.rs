use tg::calendar::Date;
use tg::config::{AppConfig, Timeframe, TopicsMetadata};
use tg::errors::{ConnectionError, JsonParseError, TopicNotFoundError};
use tg::last::{
    RawMessage, build_message_date_map, file_messages, format_display_content,
    format_message_time, group_consecutive, last_messages, messages_since, print_messages,
    shown_without_asking, sort_messages,
};
use tg::shell_init::{CompletionSyntax, Shell};
use tg::sync::MessageUpdate;
use tg::todos::{
    TopicFile, aggregate_todos, collect_todos, count_todo_lines, parse_todos_file, removed_todos, sort_todos,
    todo_cutoff, write_todos,
};
use tg::topics::{
    SendDestination, TopicChoice, all_topics, choices, chosen_topic, file_matches, find_matches, group_line,
    is_match, list_topic_paths, resolve_send_destination, resolve_topic_ids_from_path, resolve_topic_path, source_of,
    topic_line,
};

fn date(year: i16, month: i8, day: i8) -> Date {
    Date::new(year, month, day).unwrap()
}

fn message(id: i32, day: i8, topic: &str) -> RawMessage {
    RawMessage {
        message_id: id,
        date: date(2024, 3, day),
        ts: None,
        content: format!("m{id}"),
        is_voice: false,
        group_name: "g".to_string(),
        topic_name: topic.to_string(),
    }
}

fn ids(messages: &[RawMessage]) -> Vec<i32> {
    messages.iter().map(|m| m.message_id).collect()
}

fn metadata() -> TopicsMetadata {
    let mut m = TopicsMetadata::default();
    m.set_group_name(10, "home".to_string());
    m.set_topic_name(10, 1, "general".to_string());
    m.set_topic_name(10, 7, "journal".to_string());
    m.set_topic_name(20, 3, "work_journal".to_string());
    m
}

#[test]
fn messages_by_date_and_id() {
    let all = vec![message(5, 2, "a"), message(4, 2, "a"), message(9, 1, "b"), message(1, 3, "b")];
    assert_eq!(ids(&sort_messages(all.clone())), vec![9, 4, 5, 1]);
    assert_eq!(ids(&last_messages(all.clone(), 2)), vec![5, 1]);
    assert_eq!(ids(&last_messages(all.clone(), 9)), vec![9, 4, 5, 1]);
    assert_eq!(ids(&messages_since(all, date(2024, 3, 2))), vec![4, 5, 1]);
}

#[test]
fn messages_in_runs() {
    let all = vec![message(1, 1, "a"), message(2, 1, "a"), message(3, 1, "b"), message(4, 1, "a")];
    assert_eq!(group_consecutive(&all), vec![(0, 2), (2, 3), (3, 4)]);
    assert_eq!(
        print_messages(&all),
        "## g/a\n[2024-03-01 UNKNOWN UTC] m1\n[2024-03-01 UNKNOWN UTC] m2\n\n## g/b\n[2024-03-01 UNKNOWN UTC] m3\n\n## g/a\n[2024-03-01 UNKNOWN UTC] m4\n"
    );
}

#[test]
fn messages_as_they_are_shown() {
    let mut m = message(1, 1, "a");
    m.content = "[voice] hello".to_string();
    assert_eq!(format_display_content(&m.content, m.is_voice), "[voice] hello");
    m.is_voice = true;
    assert_eq!(format_display_content(&m.content, m.is_voice), "hello");
    m.ts = Some(1_767_225_600 + 3_660);
    assert_eq!(format_message_time(&m), "2026-01-01 01:01 UTC");
}

#[test]
fn many_messages_are_asked_about() {
    let mut config = AppConfig {
        localhost_port: 1,
        max_messages_per_chat: 1,
        pull_todos_over: None,
        groups: vec![],
        pull_interval: None,
        alerts_interval: None,
        alerts_channel: None,
        print_confirm_threshold: None,
        api_id: None,
        api_hash: None,
        phone: None,
        username: None,
    };
    assert!(shown_without_asking(64, &config));
    assert!(!shown_without_asking(65, &config));
    config.print_confirm_threshold = Some(1);
    assert!(!shown_without_asking(2, &config));
}

#[test]
fn dates_of_messages() {
    let content = "x <!-- msg:1 -->\n## mar 20\na <!-- msg:2 -->\n## Mar 2\nb <!-- msg:3 user -->\n## Foo 1\nc <!-- msg:4 -->\n## Mar 1, 2020\nd <!-- msg:5 -->\n## Feb 30, 2020\ne <!-- msg:6 -->\n";
    let dates = build_message_date_map(content, 2024, date(2024, 3, 15));
    assert_eq!(dates.get(&1), None);
    assert_eq!(dates.get(&2), Some(&date(2023, 3, 20)));
    assert_eq!(dates.get(&3), Some(&date(2024, 3, 2)));
    assert_eq!(dates.get(&4), Some(&date(2024, 3, 2)));
    assert_eq!(dates.get(&5), Some(&date(2020, 3, 1)));
    assert_eq!(dates.get(&6), None);
    let messages = file_messages(content, "g", "t", date(2024, 3, 15));
    assert_eq!(ids(&messages), vec![1, 2, 3, 4, 5, 6]);
    assert_eq!(messages[0].date, date(2024, 3, 15));
    assert_eq!(messages[1].date, date(2023, 3, 20));
    assert_eq!(messages[2].content, "b");
    assert_eq!(messages[2].ts, None);
}

#[test]
fn times_of_messages() {
    let content = "## Mar 1, 2024\na <!-- msg:1 ts:1709251200 user -->\nb <!-- msg:2 ts:-5 reply_to:1 -->\n[voice] c <!-- msg:3 reply_to:-2 bot -->\nd <!-- msg:4 ts:9999999999999 -->\ne <!-- msg:5 ts: -->\nf <!-- msg:6 reply_to:1 ts:7 -->\ng <!-- msg:7 ts:7 two words -->\nh <!-- msg:2 -->\n[voice] i <!-- msg:8 ts:60 -->\n";
    let messages = file_messages(content, "g", "t", date(2024, 3, 15));
    assert_eq!(ids(&messages), vec![1, 2, 3, 4, 8]);
    assert_eq!(messages[0].ts, Some(1709251200));
    assert_eq!(messages[0].content, "a");
    assert!(!messages[0].is_voice);
    assert_eq!(messages[1].ts, None);
    assert_eq!(messages[1].content, "h");
    assert_eq!(messages[2].ts, None);
    assert!(messages[2].is_voice);
    assert_eq!(messages[3].ts, None);
    assert_eq!(messages[4].ts, Some(60));
    assert_eq!(
        print_messages(&messages),
        "## g/t\n[2024-03-01 00:00 UTC] a\n[2024-03-01 UNKNOWN UTC] h\n[2024-03-01 UNKNOWN UTC] c\n[2024-03-01 UNKNOWN UTC] d\n[1970-01-01 00:01 UTC] i\n"
    );
}

#[test]
fn todos_from_files_and_back() {
    let file = |topic_id: u64, source: &str, content: &str| TopicFile {
        group_id: 10,
        topic_id,
        source: source.to_string(),
        content: content.to_string(),
    };
    let today = date(2024, 3, 15);
    let from = todo_cutoff(today, Timeframe { seconds: 604_800 });
    assert_eq!(from, date(2024, 3, 8));
    let files = vec![
        file(1, "g/b.md", "## Mar 10\nTODO: one <!-- msg:1 -->\nno task <!-- msg:2 -->\n## Mar 1\nTODO: old <!-- msg:3 -->\n"),
        file(2, "g/a.md", "TODO: undated <!-- msg:4 -->\n## Mar 10\nTODO: two <!-- msg:5 -->\n## Mar 12\nTODO: three <!-- msg:6 -->\n"),
    ];
    let todos = sort_todos(collect_todos(&files, today, from));
    let order: Vec<i32> = todos.iter().map(|t| t.message_id.unwrap()).collect();
    assert_eq!(order, vec![4, 6, 5, 1]);
    let text = write_todos(&todos, "1w");
    assert_eq!(
        aggregate_todos(&files, today, Timeframe { seconds: 604_800 }, "1w"),
        (text.clone(), 4)
    );
    assert_eq!(
        text,
        "# TODOs\n*Auto-aggregated from group messages (last 1w).*\n\n## g/a.md\n- [ ] TODO: undated <!-- todo:10:2:4 -->\n- [ ] TODO: three (Mar 12) <!-- todo:10:2:6 -->\n- [ ] TODO: two (Mar 10) <!-- todo:10:2:5 -->\n\n## g/b.md\n- [ ] TODO: one (Mar 10) <!-- todo:10:1:1 -->\n"
    );
    assert_eq!(count_todo_lines(&text), 4);
    let followed = parse_todos_file(&text);
    let read: Vec<(u64, u64, i32, &str)> =
        followed.iter().map(|t| (t.group_id, t.topic_id, t.message_id, t.content.as_str())).collect();
    assert_eq!(
        read,
        vec![(10, 2, 6, "TODO: three"), (10, 2, 5, "TODO: two"), (10, 1, 1, "TODO: one")]
    );
    assert!(removed_todos(&followed, &followed).is_empty());
    let rest = parse_todos_file(&text.replace("- [ ] TODO: two (Mar 10) <!-- todo:10:2:5 -->\n", ""));
    let updates = removed_todos(&followed, &rest);
    assert_eq!(updates.len(), 1);
    match updates[0] {
        MessageUpdate::Delete { group_id, topic_id, message_id } => {
            assert_eq!((group_id, topic_id, message_id), (10, 2, 5));
        },
        _ => panic!("not a deletion"),
    }
}

#[test]
fn no_todos() {
    assert_eq!(
        write_todos(&vec![], "1w"),
        "# TODOs\n*Auto-aggregated from group messages (last 1w).*\n\nNo TODOs found.\n"
    );
    let today = date(2024, 3, 15);
    assert_eq!(todo_cutoff(today, Timeframe { seconds: u64::MAX }), date(2024, 3, 8));
    assert_eq!(todo_cutoff(date(-9999, 1, 1), Timeframe { seconds: 86_400 }), date(-9999, 1, 1));
}

#[test]
fn todos_that_are_not_followed() {
    assert!(parse_todos_file("- [ ] a (Mar 10) <!-- todo:1:2:0 -->\n").is_empty());
    assert!(parse_todos_file("- [x] a (Mar 10) <!-- todo:1:2:3 -->\n").is_empty());
    assert!(parse_todos_file("- [ ] a <!-- todo:1:2:3 -->\n").is_empty());
    let twice = "- [ ] a (Mar 1) <!-- todo:1:2:3 -->\n  - [ ] a (Mar 9) <!-- todo:1:2:3 -->  \n";
    assert_eq!(parse_todos_file(twice).len(), 1);
}

#[test]
fn topics_and_files() {
    let m = metadata();
    assert_eq!(all_topics(&m), vec![(10, 1), (10, 7), (20, 3)]);
    assert_eq!(source_of(&m, 20, 3), "group_20/work_journal.md");
    assert_eq!(resolve_topic_ids_from_path(&m, "home", "journal.md"), Some((10, 7)));
    assert_eq!(resolve_topic_ids_from_path(&m, "group_20", "work_journal.md"), Some((20, 3)));
    assert_eq!(resolve_topic_ids_from_path(&m, "home", "nothing.md"), None);
    assert_eq!(resolve_topic_ids_from_path(&m, "home", "journal"), None);
    assert_eq!(group_line("home", 10), "home (10)");
    assert_eq!(topic_line("journal", 7, true), "  journal (7)");
    assert_eq!(topic_line("journal", 7, false), "  journal (7) [no file]");
}

#[test]
fn patterns() {
    let m = metadata();
    assert!(is_match("Work_JOURNAL", "journal"));
    assert!(is_match("ÄRGER", "ärg"));
    assert!(!is_match("general", "journal"));
    let found = find_matches(&m, "JOURNAL");
    assert_eq!(found.len(), 2);
    assert_eq!(choices(&found), "home/journal\ngroup_20/work_journal");
    assert_eq!(chosen_topic(&found, "group_20/work_journal\n"), Some((20, 3)));
    assert_eq!(chosen_topic(&found, "home/general"), None);
    assert!(file_matches("home/journal.md", "journal", "HOME"));
    assert!(!file_matches("home/journal.md", "journal", "work"));
}

#[test]
fn which_file_to_open() {
    let file = |relative: &str, stem: &str| (relative.to_string(), stem.to_string());
    let files = vec![
        file("home/journal.md", "journal"),
        file("home/general.md", "general"),
        file("work/journal.md", "journal"),
    ];
    assert!(matches!(resolve_topic_path(&vec![], None), TopicChoice::NoFiles));
    assert!(matches!(resolve_topic_path(&vec![], Some("x")), TopicChoice::NotFound));
    assert!(matches!(resolve_topic_path(&files, Some("x")), TopicChoice::NotFound));
    assert!(matches!(resolve_topic_path(&files, Some("GEN")), TopicChoice::One(1)));
    match resolve_topic_path(&files, Some("journal")) {
        TopicChoice::Choose(found) => assert_eq!(found, vec![0, 2]),
        other => panic!("{other:?}"),
    }
    match resolve_topic_path(&files, None) {
        TopicChoice::Choose(found) => assert_eq!(found, vec![0, 1, 2]),
        other => panic!("{other:?}"),
    }
}

#[test]
fn where_to_send() {
    let m = metadata();
    assert!(matches!(
        resolve_send_destination(Some(5), None, None, &m),
        SendDestination::Topic(5, 1)
    ));
    assert!(matches!(
        resolve_send_destination(Some(5), Some(9), Some("x"), &m),
        SendDestination::Topic(5, 9)
    ));
    assert!(matches!(resolve_send_destination(None, Some(9), None, &m), SendDestination::NoPattern));
    assert!(matches!(
        resolve_send_destination(None, None, Some("gen"), &m),
        SendDestination::Topic(10, 1)
    ));
    assert!(matches!(
        resolve_send_destination(None, None, Some("none"), &m),
        SendDestination::NotFound
    ));
    match resolve_send_destination(None, None, Some("journal"), &m) {
        SendDestination::Choose(found) => assert_eq!(found.len(), 2),
        _ => panic!("no choice"),
    }
}

#[test]
fn listed_files() {
    let listing = "/d/g/a.md\n\n  /d/g/b.md \n/d/images/c.md\n";
    assert_eq!(list_topic_paths(listing), vec!["/d/g/a.md".to_string(), "/d/g/b.md".to_string()]);
}

#[test]
fn shells() {
    assert_eq!(
        Shell::Bash.aliases(false),
        "\n# tg aliases\nalias tgo='tg open'\nalias tgs='tg send'\nalias tgl='tg list'\nalias tgt='tg todos open'"
    );
    assert!(Shell::Zsh.aliases(true).ends_with("\nalias tga='tg send-alert'"));
    assert!(Shell::Fish.aliases(true).ends_with("\nalias tga 'tg send-alert'"));
    assert_eq!(Shell::Dash.completion_syntax(), CompletionSyntax::Bash);
    assert_eq!(Shell::Fish.completion_syntax(), CompletionSyntax::Fish);
    assert_eq!(Shell::Zsh.completion_syntax(), CompletionSyntax::Zsh);
}

#[test]
fn json_errors_point_at_their_place() {
    let src = "{\n  \"é\": x\n}";
    let cause = serde_json::from_str::<serde_json::Value>(src).unwrap_err();
    let message = cause.to_string();
    assert_eq!((cause.line(), cause.column()), (2, 9));
    let e = JsonParseError::from_serde(src.to_string(), cause);
    assert_eq!(e.span.offset, 10);
    assert_eq!(e.span.len, 1);
    assert_eq!(e.src, src);
    assert_eq!(e.message(), format!("Failed to parse JSON response: {message}"));

    let e = JsonParseError::located(src.to_string(), 0, 3, "m".to_string());
    assert_eq!(e.span.offset, 0);
    let e = JsonParseError::located(src.to_string(), 9, 3, "m".to_string());
    assert_eq!(e.span.offset, 14);
}

#[test]
fn error_messages() {
    assert_eq!(
        ConnectionError::new("127.0.0.1:1".to_string(), "refused".to_string()).message(),
        "Cannot connect to tg server at 127.0.0.1:1: refused"
    );
    assert_eq!(
        TopicNotFoundError { pattern: "x".to_string() }.message(),
        "No topic found matching pattern: x"
    );
}
