use verseengine::reply::{extract_variables_from_pattern, reply_key, split_message_id};

#[test]
fn error_replies_carry_their_message() {
    assert_eq!(reply_key("error:loot_table__rate_limited:70"), ("loot_table__rate_limited".to_string(), Some("70".to_string())));
    assert_eq!(reply_key("error:k:a:b"), ("k".to_string(), Some("a:b".to_string())));
    assert_eq!(reply_key("error:k"), ("error:k".to_string(), None));
    assert_eq!(reply_key("loot_table__loot_success"), ("loot_table__loot_success".to_string(), None));
    assert_eq!(reply_key("errors:k:m"), ("errors:k:m".to_string(), None));
}

#[test]
fn message_ids_split_at_the_first_dot() {
    assert_eq!(split_message_id("reply.title"), ("reply".to_string(), Some("title".to_string())));
    assert_eq!(split_message_id("a.b.c"), ("a".to_string(), Some("b.c".to_string())));
    assert_eq!(split_message_id("plain"), ("plain".to_string(), None));
}

#[test]
fn message_patterns_name_their_variables() {
    assert_eq!(
        extract_variables_from_pattern("Hello, {$name}. Welcome to {$location}."),
        vec!["name".to_string(), "location".to_string()]
    );
    assert!(extract_variables_from_pattern("no {variables} here, {$} either").is_empty());
}
