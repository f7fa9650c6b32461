use tg::calendar::{Date, SECOND, Timestamp};
use tg::cleanup::cleanup_tagless_messages;
use tg::push::tag_sent_messages;
use tg::server::{
    extract_image_path, format_message_append, format_message_append_with_sender,
    max_backtick_run, needs_markdown_wrapping,
};

const EPOCH: Timestamp = Timestamp { nanos: 0 };

/// The instant at that hour and minute of a date in UTC.
fn at(year: i16, month: i8, day: i8, hour: i128, minute: i128) -> Timestamp {
    let last = Date::new(year, month, day).unwrap().last_second().unwrap();
    Timestamp { nanos: last.nanos - 86_399 * SECOND + (hour * 3600 + minute * 60) * SECOND }
}

#[test]
fn test_format_message_append() {
    let times = [
        at(1970, 1, 1, 6, 30),
        at(1970, 1, 3, 15, 41),
        at(1970, 1, 3, 15, 49),
        at(1970, 1, 3, 15, 50),
        at(1970, 1, 3, 16, 56),
        at(1970, 1, 3, 17, 8),
        at(1970, 1, 3, 17, 19),
        at(1970, 1, 3, 17, 20),
        at(1970, 1, 3, 17, 33),
        at(1970, 1, 3, 20, 36),
    ];
    let mut formatted = String::new();
    for (i, t) in times.iter().enumerate() {
        let message = format!("{} {}:00", t.utc_date().iso_text(), t.clock_text());
        let last = if i == 0 { None } else { Some(times[i - 1]) };
        formatted.push_str(&format_message_append_with_sender(&message, last, *t, None, None));
    }
    assert_eq!(
        formatted,
        "1970-01-01 06:30:00

## Jan 03, 1970

1970-01-03 15:41:00

. 1970-01-03 15:49:00
1970-01-03 15:50:00

. 1970-01-03 16:56:00

. 1970-01-03 17:08:00

. 1970-01-03 17:19:00
1970-01-03 17:20:00

. 1970-01-03 17:33:00

. 1970-01-03 20:36:00
"
    );
}

#[test]
fn test_multiline_message_with_special_patterns() {
    let message = "TODO: integrate resume into the site\n\n# Impl details\nwhile at it, add photo and general info on yourself at the top of /contact\n\n// will no longer need separate repo for it";
    let formatted = format_message_append_with_sender(message, None, EPOCH, Some(123), Some("user"));
    assert_eq!(
        formatted,
        "`````md
TODO: integrate resume into the site

# Impl details
while at it, add photo and general info on yourself at the top of /contact

// will no longer need separate repo for it
`````
<!-- msg:123 ts:0 user -->
"
    );
}

#[test]
fn test_simple_message_not_wrapped() {
    let message = "just a simple message";
    let formatted = format_message_append_with_sender(message, None, EPOCH, Some(456), Some("bot"));
    assert_eq!(formatted, "just a simple message <!-- msg:456 ts:0 bot -->\n");
}

#[test]
fn test_message_with_dot_prefix_wrapped() {
    let message = ". this looks like a separator\nbut it's actually content";
    let formatted = format_message_append_with_sender(message, None, EPOCH, Some(789), Some("user"));
    assert!(formatted.contains("```md"));
    assert!(formatted.contains("```"));
}

#[test]
fn test_code_block_closing_fence_is_valid_commonmark() {
    let message = "Some message\n\nWith paragraph break";
    let formatted = format_message_append_with_sender(message, None, EPOCH, Some(999), Some("bot"));
    let lines: Vec<&str> = formatted.lines().collect();
    let fence_line_idx =
        lines.iter().position(|l| l.starts_with("`````") && !l.contains("md")).unwrap();
    let fence_line = lines[fence_line_idx];
    assert!(
        fence_line.chars().all(|c| c == '`'),
        "Closing fence should contain only backticks, got: {fence_line:?}"
    );
    let tag_line = lines[fence_line_idx + 1];
    assert!(
        tag_line.contains("<!-- msg:999") && tag_line.contains("bot -->"),
        "Tag should be on line after closing fence, got: {tag_line:?}"
    );
}

#[test]
fn no_duplicate_date_header_with_stale_xattr() {
    let stale_xattr_time = at(2026, 2, 24, 22, 0);
    let now = at(2026, 2, 25, 14, 0);
    let formatted = format_message_append_with_sender(
        "new message after restart",
        Some(stale_xattr_time),
        now,
        Some(3416),
        None,
    );
    assert!(
        formatted.contains("## Feb 25, 2026"),
        "stale xattr produces date header (pre-fix behavior)"
    );

    let correct_xattr_time = at(2026, 2, 25, 12, 0);
    let formatted = format_message_append_with_sender(
        "new message after restart",
        Some(correct_xattr_time),
        now,
        Some(3416),
        None,
    );
    assert!(
        !formatted.contains("## Feb 25"),
        "correct xattr should not produce duplicate header"
    );
    assert!(formatted.contains(". new message"), "same-day gap should produce dot prefix");
}

#[test]
fn test_message_containing_code_blocks_formats_correctly() {
    let message = r#"do note that milestones can easily consist of just one issue, so no problems there.

Q: what do we do for operating on multiple milestones though? Will need some naming standard wtih inverent sorting properties. But dates won't work out of the box, as some task-sets don't have them set in stone
A: wait, but we can have explicit (or even implicit) deadline move semantics, like existing `milestones` currently do"#;
    let formatted = format_message_append_with_sender(message, None, EPOCH, Some(2797), Some("bot"));
    assert!(formatted.contains("`````md"), "Should start with 5-backtick fence");
    let lines: Vec<&str> = formatted.lines().collect();
    let closing_fence_idx =
        lines.iter().rposition(|l| l.starts_with("`````") && !l.contains("md")).unwrap();
    assert!(
        lines[closing_fence_idx].chars().all(|c| c == '`'),
        "Closing fence must be only backticks: {:?}",
        lines[closing_fence_idx]
    );
}

#[test]
fn gap_separator_after_interval() {
    let topic = "## Jan 01, 2026\nold message <!-- msg:10 ts:1767225600 -->\n";
    let now = at(2026, 1, 3, 0, 0);
    let last = Timestamp { nanos: now.nanos - 48 * 3600 * SECOND };
    let second = vec![("second message".to_string(), 1000)];
    let topic = tag_sent_messages(topic, &second, Some(last), now);
    let third = vec![("third message".to_string(), 1001)];
    let topic = tag_sent_messages(&topic, &third, Some(now), now);
    assert_eq!(
        topic,
        "## Jan 01, 2026
old message <!-- msg:10 ts:1767225600 -->

## Jan 03, 2026

second message <!-- msg:1000 ts:1767398400 -->
third message <!-- msg:1001 ts:1767398400 -->
"
    );
}

#[test]
fn messages_sent_together_stay_together() {
    let now = at(2026, 1, 3, 12, 0);
    let last = Timestamp { nanos: now.nanos - 3600 * SECOND };
    let sent = vec![("one".to_string(), 11), ("two".to_string(), 12)];
    assert_eq!(
        tag_sent_messages("a <!-- msg:10 -->\none\ntwo\n", &sent, Some(last), now),
        "a <!-- msg:10 -->\n\n. one <!-- msg:11 ts:1767441600 -->\ntwo <!-- msg:12 ts:1767441600 -->\n"
    );
}

#[test]
fn multiline_message_survives_as_code_block() {
    let table = "zero_fee_arb:4    empty\nnix:4 <Starship pwd disappearing>    draft\nv_utils:4    empty";
    let topic = tag_sent_messages("", &vec![(table.to_string(), 1000)], None, EPOCH);
    assert!(topic.contains("zero_fee_arb:4"));
    assert!(cleanup_tagless_messages(&topic).is_none());
    assert_eq!(
        topic,
        "`````md
zero_fee_arb:4    empty
nix:4 <Starship pwd disappearing>    draft
v_utils:4    empty
`````
<!-- msg:1000 ts:0 -->
"
    );
}

#[test]
fn tags_tell_all_they_know() {
    assert_eq!(
        format_message_append("hi", None, at(1970, 1, 1, 0, 1), Some(5), Some("user"), true, Some(4)),
        "hi <!-- forwarded msg:5 ts:60 reply_to:4 user -->\n"
    );
    assert_eq!(format_message_append("hi", None, EPOCH, None, Some("user"), true, Some(4)), "hi\n");
}

#[test]
fn fences_outgrow_the_message() {
    assert_eq!(
        format_message_append_with_sender("a ``` b", None, EPOCH, None, None),
        "`````md\na ``` b\n`````\n\n"
    );
    assert_eq!(
        format_message_append_with_sender("a ``````` b", None, EPOCH, None, None),
        "````````md\na ``````` b\n````````\n\n"
    );
}

#[test]
fn what_has_to_be_wrapped() {
    assert!(!needs_markdown_wrapping("plain `code` text"));
    assert!(needs_markdown_wrapping("two\nlines"));
    assert!(needs_markdown_wrapping("a ``` b"));
    assert!(needs_markdown_wrapping("  # header"));
    assert!(needs_markdown_wrapping(". dot"));
    assert!(!needs_markdown_wrapping(".dot"));
    assert_eq!(max_backtick_run("a `` b ```` c `"), 4);
    assert_eq!(max_backtick_run(""), 0);
}

#[test]
fn the_gap_is_six_minutes() {
    let noon = at(2026, 2, 25, 12, 0);
    let later = Timestamp { nanos: noon.nanos + 360 * SECOND };
    assert_eq!(format_message_append_with_sender("x", Some(noon), later, None, None), "\n. x\n");
    let sooner = Timestamp { nanos: later.nanos - 1 };
    assert_eq!(format_message_append_with_sender("x", Some(noon), sooner, None, None), "x\n");
    // Midnight alone opens no day.
    let night = at(2026, 2, 25, 23, 58);
    let morning = at(2026, 2, 26, 0, 2);
    assert_eq!(format_message_append_with_sender("x", Some(night), morning, None, None), "x\n");
}

#[test]
fn images_and_captions() {
    assert_eq!(
        extract_image_path("![alt](images/a.png) a caption "),
        Some(("images/a.png".to_string(), Some("a caption".to_string())))
    );
    assert_eq!(extract_image_path("  ![](a.png)  "), Some(("a.png".to_string(), None)));
    assert_eq!(extract_image_path("see ![](a.png)"), None);
    assert_eq!(extract_image_path("![]()"), None);
}
