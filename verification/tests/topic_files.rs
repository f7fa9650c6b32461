use tg::calendar::Date;
use tg::cleanup::cleanup_tagless_messages;
use tg::header::{
    backfill_date_header_years, backfill_file_date_headers, extract_last_date_from_content,
    month_name, parse_month,
};
use tg::order::reorder_messages_by_id;
use tg::pull::{
    are_message_ids_increasing, extract_max_message_id_from_content, sanitize_topic_name,
};

#[test]
fn backfill_test_sanitize_topic_name() {
    // Basic lowercase
    assert_eq!(sanitize_topic_name("Journal"), "journal");
    assert_eq!(sanitize_topic_name("ALERTS"), "alerts");

    // Spaces become underscores
    assert_eq!(sanitize_topic_name("My Topic"), "my_topic");
    assert_eq!(sanitize_topic_name("Work Notes"), "work_notes");

    // Special characters become underscores
    assert_eq!(sanitize_topic_name("alerts!"), "alerts");
    assert_eq!(sanitize_topic_name("topic/name"), "topic_name");
    assert_eq!(sanitize_topic_name("topic:name"), "topic_name");

    // Emojis are stripped
    assert_eq!(sanitize_topic_name("🔥 Hot Takes"), "hot_takes");
    assert_eq!(sanitize_topic_name("📝 Notes"), "notes");

    // Hyphens and underscores preserved
    assert_eq!(sanitize_topic_name("my-topic"), "my-topic");
    assert_eq!(sanitize_topic_name("my_topic"), "my_topic");

    // Consecutive special chars collapse
    assert_eq!(sanitize_topic_name("a  b"), "a__b");

    // Leading/trailing underscores trimmed
    assert_eq!(sanitize_topic_name("  topic  "), "topic");
    assert_eq!(sanitize_topic_name("!!!topic!!!"), "topic");
}

#[test]
fn pull_test_sanitize_topic_name() {
    assert_eq!(sanitize_topic_name("Journal"), "journal");
    assert_eq!(sanitize_topic_name("My Topic"), "my_topic");
    assert_eq!(sanitize_topic_name("🔥 Hot Takes"), "hot_takes");
    assert_eq!(sanitize_topic_name("my-topic"), "my-topic");
}

#[test]
fn sanitizing_beyond_ascii() {
    assert_eq!(sanitize_topic_name("ÄRGER Ünten №5"), "ärger_ünten__5");
    assert_eq!(sanitize_topic_name("!!!"), "");
}

#[test]
fn test_cleanup_tagless_messages() {
    let content = r#"## Jan 03
Hello with tag <!-- msg:123 -->
This is tagless and should be removed
. Another tagged message <!-- msg:456 -->

## Jan 04
Untagged message
Tagged message <!-- msg:789 -->
"#;
    let result = cleanup_tagless_messages(content).unwrap();

    assert!(result.contains("## Jan 03"));
    assert!(result.contains("Hello with tag <!-- msg:123 -->"));
    assert!(!result.contains("This is tagless"));
    assert!(result.contains(". Another tagged message <!-- msg:456 -->"));
    assert!(result.contains("## Jan 04"));
    assert!(!result.contains("Untagged message"));
    assert!(result.contains("Tagged message <!-- msg:789 -->"));
}

#[test]
fn test_cleanup_empty_date_sections() {
    let content = r#"## Dec 25
Message on Dec 25 <!-- msg:100 -->

## Dec 26

## Dec 27

## Dec 27

## Dec 28
Message on Dec 28 <!-- msg:101 -->
"#;
    let result = cleanup_tagless_messages(content).unwrap();

    assert!(result.contains("## Dec 25"));
    assert!(result.contains("Message on Dec 25"));
    assert!(!result.contains("## Dec 26"));
    assert!(!result.contains("## Dec 27"));
    assert!(result.contains("## Dec 28"));
    assert!(result.contains("Message on Dec 28"));

    let dec_28_count = result.matches("## Dec 28").count();
    assert_eq!(dec_28_count, 1, "Should have exactly one Dec 28 header");
}

#[test]
fn test_cleanup_preserves_code_block_content() {
    let content = r#"## Dec 27
some message <!-- msg:100 -->

`````md
TODO: integrate resume into the site

# Impl details
while at it, add photo and general info on yourself at the top of /contact

// will no longer need separate repo for it
````` <!-- msg:123 user -->
next message <!-- msg:124 bot -->
"#;
    let result = cleanup_tagless_messages(content).unwrap_or_else(|| content.to_string());

    assert!(result.contains("`````md"), "Opening fence should be preserved");
    assert!(
        result.contains("TODO: integrate resume into the site"),
        "Content line 1 should be preserved"
    );
    assert!(result.contains("# Impl details"), "Header inside block should be preserved");
    assert!(result.contains("while at it, add photo"), "Content line 2 should be preserved");
    assert!(result.contains("// will no longer need"), "Content line 3 should be preserved");
    assert!(
        result.contains("````` <!-- msg:123 user -->"),
        "Closing fence with tag should be preserved"
    );
    assert!(
        result.contains("next message <!-- msg:124 bot -->"),
        "Next message should be preserved"
    );
}

#[test]
fn test_cleanup_preserves_new_codeblock_format() {
    let content = r#"## Dec 27
some message <!-- msg:100 -->

`````md
Multi-line message

With paragraph
`````
<!-- msg:123 user -->
next message <!-- msg:124 bot -->
"#;
    let result = cleanup_tagless_messages(content).unwrap_or_else(|| content.to_string());

    assert!(result.contains("`````md"), "Opening fence should be preserved");
    assert!(result.contains("Multi-line message"), "Content should be preserved");
    assert!(result.contains("With paragraph"), "Content should be preserved");
    assert!(
        result.lines().any(|l| l.trim() == "`````"),
        "Pure closing fence should be preserved"
    );
    assert!(result.contains("<!-- msg:123 user -->"), "Tag should be preserved");
    assert!(
        result.contains("next message <!-- msg:124 bot -->"),
        "Next message should be preserved"
    );
}

#[test]
fn cleanup_keeps_blocks_and_drops_the_rest() {
    let content = "\n\n## Jan 1\nx\n\n\n`````md\nuntagged\n`````\n<!-- msg:1 -->\nloose\n\n\n## Jan 2\n\n";
    let result = cleanup_tagless_messages(content).unwrap();
    assert_eq!(result, "## Jan 1\n\n`````md\nuntagged\n`````\n<!-- msg:1 -->\n");
    assert!(cleanup_tagless_messages(&result).is_none());
    assert_eq!(cleanup_tagless_messages("only this"), Some(String::new()));
    let spread = "a <!-- msg:1 -->\n\n\nb <!-- msg:2 -->\n";
    let closed_up = "a <!-- msg:1 -->\n\nb <!-- msg:2 -->\n";
    assert_eq!(cleanup_tagless_messages(spread), Some(closed_up.to_string()));
    assert!(cleanup_tagless_messages(closed_up).is_none());
    // A file from which no line is taken out is left as it is.
    for left_alone in ["a <!-- msg:1 -->", "a <!-- msg:1 -->\r\n", "a <!-- msg:1 -->\r\r\n"] {
        assert!(cleanup_tagless_messages(left_alone).is_none());
    }
    let once = cleanup_tagless_messages("x\na <!-- msg:1 -->\r\r\n").unwrap();
    assert_eq!(once, "a <!-- msg:1 -->\r\n");
    assert!(cleanup_tagless_messages(&once).is_none());
    let headers_in_a_block = "`````md\n## Dec 26\n## Dec 27\n\n\n`````\n<!-- msg:1 user -->\n";
    assert!(cleanup_tagless_messages(headers_in_a_block).is_none());
}

#[test]
fn test_extract_last_date_from_content() {
    let content = "## Dec 25, 2024\nmessage\n## Dec 26, 2024\nmessage";
    let date = extract_last_date_from_content(content);
    assert_eq!(date, Some(Date::new(2024, 12, 26).unwrap()));

    let content = "## Jan 03\nmessage";
    let date = extract_last_date_from_content(content);
    assert_eq!(date, None);

    let date = extract_last_date_from_content("");
    assert_eq!(date, None);

    let content = "just some message <!-- msg:123 -->";
    let date = extract_last_date_from_content(content);
    assert_eq!(date, None);
}

#[test]
fn last_date_passes_over_what_is_no_date() {
    assert_eq!(
        extract_last_date_from_content("## Dec 25, 2024\n## Feb 30, 2025\n## Foo 01, 2025\n"),
        Date::new(2024, 12, 25)
    );
}

#[test]
fn test_backfill_date_header_years() {
    let content = "## Nov 15\nmsg\n## Dec 25, 2024\nmsg\n## Jan 03\nmsg";
    let result = backfill_date_header_years(content);
    assert!(result.contains("## Nov 15, 2024"));
    assert!(result.contains("## Dec 25, 2024"));
    assert!(result.contains("## Jan 03, 2025"));

    let content = "## Oct 01\nmsg\n## Nov 15\nmsg\n## Dec 25, 2024\nmsg";
    let result = backfill_date_header_years(content);
    assert!(result.contains("## Oct 01, 2024"));
    assert!(result.contains("## Nov 15, 2024"));
    assert!(result.contains("## Dec 25, 2024"));

    let content = "## Jan 03\nmsg\n## Feb 15\nmsg";
    let result = backfill_date_header_years(content);
    let current_year = jiff::Zoned::now().year();
    assert!(result.contains(&format!("## Jan 03, {}", current_year)));
    assert!(result.contains(&format!("## Feb 15, {}", current_year)));
}

#[test]
fn names_of_months() {
    for month in 1..=12 {
        assert_eq!(parse_month(month_name(month)), Some(month));
    }
    assert_eq!(parse_month("Sep"), Some(9));
    assert_eq!(parse_month("sep"), None);
    assert_eq!(parse_month("???"), None);
    assert_eq!(month_name(0), "???");
    assert_eq!(month_name(13), "???");
}

#[test]
fn headers_of_a_file_get_years() {
    assert_eq!(
        backfill_file_date_headers("## Dec 25, 2024\nx\n## Jan 3\ny\n", 2030),
        Some("## Dec 25, 2024\nx\n## Jan 03, 2025\ny".to_string())
    );
    assert_eq!(
        backfill_file_date_headers("## Jan 3\ny\n", 2030),
        Some("## Jan 03, 2030\ny".to_string())
    );
    assert_eq!(backfill_file_date_headers("## Jan 3, 2024\ny\n", 2030), None);
}

#[test]
fn test_are_message_ids_increasing() {
    let content = "msg <!-- msg:100 -->\nmsg <!-- msg:200 -->\nmsg <!-- msg:300 -->";
    assert!(are_message_ids_increasing(content));

    let content = "msg <!-- msg:200 -->\nmsg <!-- msg:100 -->";
    assert!(!are_message_ids_increasing(content));

    let content = "msg <!-- msg:100 -->\nmsg <!-- msg:100 -->";
    assert!(!are_message_ids_increasing(content));

    assert!(are_message_ids_increasing(""));

    let content = "msg <!-- msg:100 -->";
    assert!(are_message_ids_increasing(content));
}

#[test]
fn test_reorder_messages_by_id() {
    let content = "## Dec 25, 2024\nmsg B <!-- msg:200 -->\nmsg A <!-- msg:100 -->\nmsg C <!-- msg:300 -->\n";
    let result = reorder_messages_by_id(content);
    assert!(are_message_ids_increasing(&result));
    let pos_a = result.find("msg:100").unwrap();
    let pos_b = result.find("msg:200").unwrap();
    let pos_c = result.find("msg:300").unwrap();
    assert!(pos_a < pos_b);
    assert!(pos_b < pos_c);

    let content = "## Dec 25, 2024\nmsg 2 <!-- msg:200 -->\nmsg 1 <!-- msg:100 -->\n\n## Dec 26, 2024\nmsg 4 <!-- msg:400 -->\nmsg 3 <!-- msg:300 -->\n";
    let result = reorder_messages_by_id(content);
    assert!(are_message_ids_increasing(&result));
    assert!(result.contains("## Dec 25, 2024"));
    assert!(result.contains("## Dec 26, 2024"));

    let content = "## Dec 27, 2024\n`````md\ncode content\n````` <!-- msg:200 user -->\nsimple msg <!-- msg:100 bot -->\n";
    let result = reorder_messages_by_id(content);
    assert!(are_message_ids_increasing(&result));
    assert!(result.contains("code content"));

    let content = "## Dec 27, 2024\n`````md\nnew format content\n`````\n<!-- msg:200 user -->\nsimple msg <!-- msg:100 bot -->\n";
    let result = reorder_messages_by_id(content);
    assert!(are_message_ids_increasing(&result));
    assert!(result.contains("new format content"));
}

#[test]
fn reordering_to_the_letter() {
    let content = "no date <!-- msg:9 -->\n## Dec 25, 2024\nb <!-- msg:2 -->\n`````md\nx\n`````\n<!-- msg:1 -->\nloose\n\n## Dec 26, 2024\n## Dec 27, 2024\nc <!-- msg:4 -->\nd <!-- msg:3 -->\n";
    assert_eq!(
        reorder_messages_by_id(content),
        "## Dec 25, 2024\n`````md\nx\n`````\n<!-- msg:1 -->\nb <!-- msg:2 -->\n\n## Dec 27, 2024\nd <!-- msg:3 -->\nc <!-- msg:4 -->\n\nno date <!-- msg:9 -->\n"
    );
    assert_eq!(reorder_messages_by_id(""), "");
}

#[test]
fn test_extract_max_message_id_from_content() {
    let content = "msg <!-- msg:100 -->\nmsg <!-- msg:200 -->\nmsg <!-- msg:150 -->";
    assert_eq!(extract_max_message_id_from_content(content), 200);

    let content = "";
    assert_eq!(extract_max_message_id_from_content(content), 0);

    let content = "msg <!-- msg:300 user -->\nmsg <!-- msg:250 bot -->";
    assert_eq!(extract_max_message_id_from_content(content), 300);
}

#[test]
fn ids_that_are_no_numbers_are_passed_over() {
    let content = "a <!-- msg:99999999999 -->\nb <!-- msg:7 -->\nc <!-- msg:\u{661} -->";
    assert_eq!(extract_max_message_id_from_content(content), 7);
}
