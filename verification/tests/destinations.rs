use std::collections::BTreeMap;
use std::str::FromStr;

use tg::chat;
use tg::chat::ChatError;
use tg::destination::{
    DestinationError, parse_telegram_destination_str, parse_top_level_id, parse_username,
};
use tg::{TelegramDestination, TopLevelId, Username, extract_group_id, telegram_chat_id};

/// The destination that a JSON value stands for: a text or a whole number.
fn dest(json: &str) -> Result<TelegramDestination, DestinationError> {
    let value: serde_json::Value = serde_json::from_str(json).unwrap();
    match value.as_i64() {
        Some(id) => TelegramDestination::from_signed(id),
        None => parse_telegram_destination_str(value.as_str().unwrap()),
    }
}

/// The destination that a JSON value stands for, as the messages of a chat have it.
fn chat_dest(json: &str) -> Result<chat::TelegramDestination, ChatError> {
    let value: serde_json::Value = serde_json::from_str(json).unwrap();
    match value.as_i64() {
        Some(id) => chat::TelegramDestination::from_signed(id),
        None => match value.as_str() {
            Some(text) => chat::parse_telegram_destination_str(text),
            None => chat::parse_telegram_destination_str(&value.to_string()),
        },
    }
}

/// The user that a JSON value stands for.
fn user(json: &str) -> Result<Username, DestinationError> {
    let value: serde_json::Value = serde_json::from_str(json).unwrap();
    match value.as_i64() {
        Some(id) => Username::from_signed(id),
        None => parse_username(value.as_str().unwrap()),
    }
}

/// The texts under the keys of a TOML document.
fn toml_texts(text: &str) -> BTreeMap<String, String> {
    let table: toml::Table = text.parse().unwrap();
    table.into_iter().map(|(k, v)| (k, v.as_str().unwrap().to_string())).collect()
}

#[test]
fn test_deserialize_group_numeric() {
    let json = r#""2244305221""#;
    let d = dest(json).unwrap();
    assert_eq!(format!("{d:#?}"), "Group(\n    Id(\n        2244305221,\n    ),\n)");

    let cases = [r#"2244305221"#, r#""-1002244305221""#, r#"-1002244305221"#];
    for case in cases {
        assert_eq!(dest(case).unwrap().group_id(), Some(2244305221));
    }
}

#[test]
fn test_deserialize_group_topic() {
    let d = dest(r#""2244305221/7""#).unwrap();
    assert_eq!(
        format!("{d:#?}"),
        "GroupTopic {\n    group: Id(\n        2244305221,\n    ),\n    topic_id: 7,\n}"
    );
}

#[test]
fn test_deserialize_username() {
    let d = dest(r#""WatchingTT""#).unwrap();
    assert_eq!(format!("{d:#?}"), "Group(\n    AtName(\n        \"WatchingTT\",\n    ),\n)");

    let d = dest(r#""@WatchingTT""#).unwrap();
    assert_eq!(format!("{d:#?}"), "Group(\n    AtName(\n        \"@WatchingTT\",\n    ),\n)");
}

#[test]
fn test_deserialize_object_form() {
    let toml_str = r#"
[dest]
group = 2244305221
topic_id = 7
"#;
    let table: toml::Table = toml_str.parse().unwrap();
    let object = table["dest"].as_table().unwrap();
    let d = TelegramDestination::GroupTopic {
        group: TopLevelId::from_signed(object["group"].as_integer().unwrap()).unwrap(),
        topic_id: object["topic_id"].as_integer().unwrap() as u64,
    };
    assert_eq!(d.as_group_topic(), Some((2244305221, 7)));
}

#[test]
fn test_deserialize_config_map() {
    let toml_str = r#"
wtt = "2244305221"
journal = "-1002244305222"
alerts = "2244305223/7"
watching = "WatchingTT"
"#;
    let groups: BTreeMap<String, TelegramDestination> = toml_texts(toml_str)
        .into_iter()
        .map(|(k, v)| (k, parse_telegram_destination_str(&v).unwrap()))
        .collect();
    assert_eq!(
        format!("{groups:#?}"),
        "{\n    \"alerts\": GroupTopic {\n        group: Id(\n            2244305223,\n        ),\n        \
         topic_id: 7,\n    },\n    \"journal\": Group(\n        Id(\n            2244305222,\n        ),\n    ),\n    \
         \"watching\": Group(\n        AtName(\n            \"WatchingTT\",\n        ),\n    ),\n    \
         \"wtt\": Group(\n        Id(\n            2244305221,\n        ),\n    ),\n}"
    );
}

#[test]
fn test_destination_params() {
    let group = TelegramDestination::Group(TopLevelId::Id(123));
    assert_eq!(group.destination_params(), vec![("chat_id", "-100123".to_string())]);

    let group_topic = TelegramDestination::GroupTopic { group: TopLevelId::Id(123), topic_id: 7 };
    assert_eq!(
        group_topic.destination_params(),
        vec![("chat_id", "-100123".to_string()), ("message_thread_id", "7".to_string())]
    );

    let username = TelegramDestination::Group(TopLevelId::AtName("test".to_string()));
    assert_eq!(username.destination_params(), vec![("chat_id", "@test".to_string())]);

    let username_at = TelegramDestination::Group(TopLevelId::AtName("@test".to_string()));
    assert_eq!(username_at.destination_params(), vec![("chat_id", "@test".to_string())]);
}

#[test]
fn test_as_group_topic() {
    let group = TelegramDestination::Group(TopLevelId::Id(123));
    assert_eq!(group.as_group_topic(), Some((123, 1)));

    let group_topic = TelegramDestination::GroupTopic { group: TopLevelId::Id(123), topic_id: 7 };
    assert_eq!(group_topic.as_group_topic(), Some((123, 7)));

    let username = TelegramDestination::Group(TopLevelId::AtName("test".to_string()));
    assert_eq!(username.as_group_topic(), None);
}

#[test]
fn test_telegram_chat_id() {
    assert_eq!(telegram_chat_id(2244305221), -1002244305221);
    assert_eq!(telegram_chat_id(1), -1001);
    assert_eq!(telegram_chat_id(123456789), -100123456789);
}

#[test]
fn test_extract_group_id() {
    assert_eq!(extract_group_id(-1002244305221), Some(2244305221));
    assert_eq!(extract_group_id(-1001), Some(1));
    assert_eq!(extract_group_id(-100123456789), Some(123456789));
    assert_eq!(extract_group_id(123456), Some(123456));
    assert_eq!(extract_group_id(-123456), Some(123456));
}

#[test]
fn test_telegram_chat_id_roundtrip() {
    let original_id: u64 = 2244305221;
    let tg_id = telegram_chat_id(original_id);
    let extracted = extract_group_id(tg_id);
    assert_eq!(extracted, Some(original_id));
}

#[test]
fn test_username_numeric() {
    let id = user("123456789").unwrap();
    assert_eq!(id, Username::Id(123456789));
    assert_eq!(id.numeric_id(), Some(123456789));
    assert_eq!(id.name(), None);
    assert_eq!(id.api_param(), "123456789");
}

#[test]
fn test_username_at() {
    let id = user(r#""johndoe""#).unwrap();
    assert_eq!(id, Username::At("johndoe".to_string()));
    assert_eq!(id.numeric_id(), None);
    assert_eq!(id.name(), Some("johndoe"));
    assert_eq!(id.api_param(), "@johndoe");
}

#[test]
fn test_username_with_at_prefix() {
    let id = user(r#""@johndoe""#).unwrap();
    assert_eq!(id, Username::At("@johndoe".to_string()));
    assert_eq!(id.numeric_id(), None);
    assert_eq!(id.name(), Some("johndoe"));
    assert_eq!(id.api_param(), "@johndoe");
}

#[test]
fn test_username_with_numbers() {
    let id = user(r#""john123""#).unwrap();
    assert_eq!(id, Username::At("john123".to_string()));
}

#[test]
fn test_username_rejects_negative() {
    assert!(user("-123456").is_err());
    assert_eq!(user("-123456"), Err(DestinationError::NegativeUserId));
}

#[test]
fn test_username_from_toml() {
    let table: toml::Table = r#"user = 123456"#.parse().unwrap();
    let id = Username::from_signed(table["user"].as_integer().unwrap()).unwrap();
    assert_eq!(id, Username::Id(123456));

    let table: toml::Table = r#"user = "testuser""#.parse().unwrap();
    let id = parse_username(table["user"].as_str().unwrap()).unwrap();
    assert_eq!(id, Username::At("testuser".to_string()));
}

#[test]
fn test_deserialize_channel() {
    let d = chat_dest(r#""2244305221""#).unwrap();
    assert_eq!(format!("{d:#?}"), "ChannelExactUid(\n    2244305221,\n)");

    let cases = [r#"2244305221"#, r#""-1002244305221""#, r#"-1002244305221"#];
    for case in cases {
        assert_eq!(chat_dest(case).unwrap(), d);
    }
}

#[test]
fn test_deserialize_group() {
    let d = chat_dest(r#""2244305221/7""#).unwrap();
    assert_eq!(format!("{d:#?}"), "Group {\n    id: 2244305221,\n    thread_id: 7,\n}");
}

#[test]
fn test_deserialize_errors() {
    let d = chat_dest(r#""invalid""#);
    assert_eq!(format!("{d:#?}"), "Ok(\n    ChannelUsername(\n        \"invalid\",\n    ),\n)");

    assert!(chat_dest(r#"2244305221.5"#).is_err());
}

#[test]
fn test_deserialize_channels() {
    let toml_str = r#"
wtt = "2244305221"
journal = "-1002244305222"
alerts = "2244305223/7"
"#;
    let channels: BTreeMap<String, chat::TelegramDestination> = toml_texts(toml_str)
        .into_iter()
        .map(|(k, v)| (k, chat::parse_telegram_destination_str(&v).unwrap()))
        .collect();
    assert_eq!(
        format!("{channels:#?}"),
        "{\n    \"alerts\": Group {\n        id: 2244305223,\n        thread_id: 7,\n    },\n    \
         \"journal\": ChannelExactUid(\n        2244305222,\n    ),\n    \
         \"wtt\": ChannelExactUid(\n        2244305221,\n    ),\n}"
    );
}

#[test]
fn test_deserialize_channel_username() {
    let d = chat_dest(r#""WatchingTT""#).unwrap();
    assert_eq!(format!("{d:#?}"), "ChannelUsername(\n    \"WatchingTT\",\n)");

    let d = chat_dest(r#""@WatchingTT""#).unwrap();
    assert_eq!(format!("{d:#?}"), "ChannelUsername(\n    \"@WatchingTT\",\n)");
}

#[test]
fn test_destination_params_username() {
    let d = chat::TelegramDestination::ChannelUsername("WatchingTT".to_string());
    assert_eq!(d.destination_params(), vec![("chat_id", "@WatchingTT".to_string())]);

    let d = chat::TelegramDestination::ChannelUsername("@WatchingTT".to_string());
    assert_eq!(d.destination_params(), vec![("chat_id", "@WatchingTT".to_string())]);
}

#[test]
fn test_deserialize_channels_with_username() {
    let toml_str = r#"
wtt = "2244305221"
watching = "WatchingTT"
alerts = "2244305223/7"
"#;
    let channels: BTreeMap<String, chat::TelegramDestination> = toml_texts(toml_str)
        .into_iter()
        .map(|(k, v)| (k, chat::parse_telegram_destination_str(&v).unwrap()))
        .collect();
    assert_eq!(
        format!("{channels:#?}"),
        "{\n    \"alerts\": Group {\n        id: 2244305223,\n        thread_id: 7,\n    },\n    \
         \"watching\": ChannelUsername(\n        \"WatchingTT\",\n    ),\n    \
         \"wtt\": ChannelExactUid(\n        2244305221,\n    ),\n}"
    );
}

#[test]
fn test_channel_username_integration() {
    let username = "WatchingTT";
    let d = chat::TelegramDestination::ChannelUsername(username.to_string());
    let params = d.destination_params();
    assert_eq!(params.len(), 1);
    assert_eq!(params[0].0, "chat_id");
    assert_eq!(params[0].1, "@WatchingTT");

    let with_at = chat::TelegramDestination::ChannelUsername("@WatchingTT".to_string());
    assert_eq!(with_at.destination_params()[0].1, "@WatchingTT");
}

#[test]
fn test_channel_username_parsing() {
    match chat::TelegramDestination::from_str("WatchingTT").unwrap() {
        chat::TelegramDestination::ChannelUsername(username) => assert_eq!(username, "WatchingTT"),
        _ => panic!("Expected ChannelUsername variant"),
    }
    match chat::TelegramDestination::from_str("@WatchingTT").unwrap() {
        chat::TelegramDestination::ChannelUsername(username) => assert_eq!(username, "@WatchingTT"),
        _ => panic!("Expected ChannelUsername variant"),
    }
}

#[test]
fn test_channel_username_in_config() {
    let toml_str = r#"
watching = "WatchingTT"
another = "@another_channel"
numeric = "2244305221"
"#;
    let channels: BTreeMap<String, chat::TelegramDestination> = toml_texts(toml_str)
        .into_iter()
        .map(|(k, v)| (k, chat::parse_telegram_destination_str(&v).unwrap()))
        .collect();
    match channels.get("watching").unwrap() {
        chat::TelegramDestination::ChannelUsername(username) => assert_eq!(username, "WatchingTT"),
        _ => panic!("Expected ChannelUsername for 'watching'"),
    }
    match channels.get("another").unwrap() {
        chat::TelegramDestination::ChannelUsername(username) => {
            assert_eq!(username, "@another_channel");
        },
        _ => panic!("Expected ChannelUsername for 'another'"),
    }
    match channels.get("numeric").unwrap() {
        chat::TelegramDestination::ChannelExactUid(id) => assert_eq!(*id, 2244305221),
        _ => panic!("Expected ChannelExactUid for 'numeric'"),
    }
}

#[test]
fn chat_errors() {
    assert_eq!(chat::parse_telegram_destination_str("12a"), Err(ChatError::InvalidChatId));
    assert_eq!(chat::parse_telegram_destination_str("x9/7"), Err(ChatError::InvalidChatId));
    assert_eq!(chat::parse_telegram_destination_str("12/x"), Err(ChatError::InvalidThreadId));
}

#[test]
fn chat_params_of_ids_and_threads() {
    let channel = chat::TelegramDestination::ChannelExactUid(2244305221);
    assert_eq!(
        channel.destination_params(),
        vec![("chat_id", "-1002244305221".to_string())]
    );
    let group = chat::TelegramDestination::Group { id: 5, thread_id: 7 };
    assert_eq!(
        group.destination_params(),
        vec![("chat_id", "-1005".to_string()), ("message_thread_id", "7".to_string())]
    );
}

#[test]
fn destination_errors() {
    assert_eq!(
        parse_username("-123"),
        Err(DestinationError::InvalidUsername("-123".to_string()))
    );
    assert_eq!(parse_top_level_id("12 34"), Err(DestinationError::InvalidId));
    assert_eq!(
        parse_telegram_destination_str("2244305221/x"),
        Err(DestinationError::InvalidTopicId)
    );
}

#[test]
fn usernames_lose_all_leading_ats() {
    assert_eq!(Username::At("@@both@ends".to_string()).name(), Some("both@ends"));
}

#[test]
fn chat_ids_read_back() {
    for id in [1u64, 100, 1002, 9_999_999_999_999_999] {
        assert_eq!(extract_group_id(telegram_chat_id(id)), Some(id));
    }
    assert_eq!(
        TelegramDestination::Group(TopLevelId::Id(7)).telegram_chat_id(),
        Some(-1007)
    );
}
