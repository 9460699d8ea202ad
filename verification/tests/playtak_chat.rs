use tiltak::playtak_chat::{chat_message_is_readable, ChatCommand};

#[test]
fn parse_engine_command_reads_command_and_argument_test() {
    let c = ChatCommand::parse_engine_command("Tiltak", "Tell <alice> Tiltak_Bot color white").unwrap();
    assert_eq!(c.command, "color");
    assert_eq!(c.argument, Some("white".to_string()));
    assert_eq!(c.response_command, "Tell");
    assert_eq!(c.sender_name, "alice");
}

#[test]
fn parse_engine_command_without_argument_test() {
    let c = ChatCommand::parse_engine_command("Tiltak", "Shout <bob> Tiltak: size").unwrap();
    assert_eq!(c.command, "size");
    assert_eq!(c.argument, None);
    assert_eq!(c.response_command, "Shout");
    assert_eq!(c.sender_name, "bob");
}

#[test]
fn parse_engine_command_ignores_other_messages_test() {
    assert!(ChatCommand::parse_engine_command("Tiltak", "Tell <alice> OtherBot color white").is_none());
    assert!(ChatCommand::parse_engine_command("Tiltak", "Tell <alice> Tiltak").is_none());
    assert!(ChatCommand::parse_engine_command("Tiltak", "Tell <alice>").is_none());
    assert!(ChatCommand::parse_engine_command("Tiltak", "Shout").is_none());
}

#[test]
fn chat_message_is_readable_test() {
    assert!(chat_message_is_readable("Tell <alice> Tiltak color white"));
    assert!(chat_message_is_readable("Shout"));
    assert!(!chat_message_is_readable("Game#1 Show"));
    assert!(!chat_message_is_readable(""));
    assert!(!chat_message_is_readable("Tell x Tiltak size"));
}
