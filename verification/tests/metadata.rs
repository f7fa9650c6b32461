use tg::config::{AppConfig, Timeframe, TopicsMetadata};
use tg::destination::parse_telegram_destination_str;

/// The configuration that a TOML document holds.
fn config(text: &str) -> AppConfig {
    let table: toml::Table = text.parse().unwrap();
    let groups = match table.get("groups") {
        Some(groups) => groups
            .as_table()
            .unwrap()
            .iter()
            .map(|(k, v)| {
                (k.clone(), parse_telegram_destination_str(v.as_str().unwrap()).unwrap())
            })
            .collect(),
        None => vec![],
    };
    AppConfig {
        localhost_port: table["localhost_port"].as_integer().unwrap() as u16,
        max_messages_per_chat: table["max_messages_per_chat"].as_integer().unwrap() as usize,
        pull_todos_over: None,
        groups,
        pull_interval: None,
        alerts_interval: None,
        alerts_channel: None,
        print_confirm_threshold: None,
        api_id: None,
        api_hash: None,
        phone: None,
        username: None,
    }
}

#[test]
fn test_topics_metadata_defaults() {
    let metadata = TopicsMetadata::default();
    assert_eq!(metadata.group_name(12345), "group_12345");
    assert_eq!(metadata.topic_name(12345, 7), "topic_7");
}

#[test]
fn test_topics_metadata_custom_names() {
    let mut metadata = TopicsMetadata::default();

    metadata.set_group_name(12345, "my_group".to_string());
    assert_eq!(metadata.group_name(12345), "my_group");

    metadata.set_topic_name(12345, 7, "alerts".to_string());
    assert_eq!(metadata.topic_name(12345, 7), "alerts");

    assert_eq!(metadata.topic_name(12345, 8), "topic_8");
    assert_eq!(metadata.group_name(99999), "group_99999");
}

#[test]
fn test_topics_metadata_ensure_topic() {
    let mut metadata = TopicsMetadata::default();

    metadata.ensure_topic(12345, 7);
    assert_eq!(metadata.topic_name(12345, 7), "topic_7");

    metadata.set_topic_name(12345, 7, "custom".to_string());
    metadata.ensure_topic(12345, 7);
    assert_eq!(metadata.topic_name(12345, 7), "custom");

    assert!(metadata.groups.contains_key(&12345));
    assert!(metadata.groups.get(&12345).unwrap().topics.contains_key(&7));
}

#[test]
fn test_config_deserialization() {
    let toml_str = r#"
localhost_port = 8123
max_messages_per_chat = 500

[groups]
general = "-1002244305221"
work = "-1002244305221/3"
alerts = "-1001234567890"
"#;
    let config = config(toml_str);
    assert_eq!(config.localhost_port, 8123);
    assert_eq!(config.max_messages_per_chat, 500);

    let general = config.resolve_group("general").unwrap();
    assert_eq!(general.as_group_topic(), Some((2244305221, 1)));

    let work = config.resolve_group("work").unwrap();
    assert_eq!(work.as_group_topic(), Some((2244305221, 3)));

    let alerts = config.resolve_group("alerts").unwrap();
    assert_eq!(alerts.as_group_topic(), Some((1234567890, 1)));

    let mut group_ids = config.forum_group_ids();
    group_ids.sort();
    assert_eq!(group_ids, vec![1234567890, 2244305221]);
}

#[test]
fn test_config_defaults() {
    let toml_str = r#"
localhost_port = 8080
max_messages_per_chat = 1000
"#;
    let config = config(toml_str);
    assert_eq!(config.max_messages_per_chat, 1000);
    assert!(config.forum_group_ids().is_empty());
}

#[test]
fn settings_have_defaults() {
    let mut c = config("localhost_port = 1\nmax_messages_per_chat = 2\n");
    assert_eq!(c.pull_todos_over(), Timeframe { seconds: 604_800 });
    assert_eq!(c.pull_interval(), Timeframe { seconds: 60 });
    assert_eq!(c.alerts_interval(), Timeframe { seconds: 60 });
    assert_eq!(c.print_confirm_threshold(), 64);
    assert!(c.resolve_group("general").is_none());
    c.pull_interval = Some(Timeframe { seconds: 5 });
    c.print_confirm_threshold = Some(3);
    assert_eq!(c.pull_interval(), Timeframe { seconds: 5 });
    assert_eq!(c.print_confirm_threshold(), 3);
}
