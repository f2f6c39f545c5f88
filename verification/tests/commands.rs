use mq::messages::Commands as MessageCommands;
use mq::messages::Message;
use mq::queue::Queue;
use mq::Commands;

#[test]
fn command_words_map_to_commands() {
    assert!(matches!(Commands::from_u32(0), Commands::QUIT));
    assert!(matches!(Commands::from_u32(1), Commands::SUBSCRIBE));
    assert!(matches!(Commands::from_u32(2), Commands::PUBLISH));
    assert!(matches!(Commands::from_u32(3), Commands::PING));
    assert!(matches!(Commands::from_u32(4), Commands::STATS));
    assert!(matches!(Commands::from_u32(5), Commands::UNKNOWN(_)));
    assert!(Commands::new().is_none());
}

#[test]
fn unknown_command_diagnostic_names_the_word() {
    match Commands::from_u32(5) {
        Commands::UNKNOWN(s) => assert_eq!(s, "Unknown command: 5"),
        _ => panic!("expected an unknown command"),
    }
    match Commands::from_u32(123456) {
        Commands::UNKNOWN(s) => assert_eq!(s, "Unknown command: 123456"),
        _ => panic!("expected an unknown command"),
    }
    match MessageCommands::from_u8(9) {
        MessageCommands::UNKNOWN(s) => assert_eq!(s, "Unknown command: 9"),
        _ => panic!("expected an unknown command"),
    }
}

#[test]
fn message_scheme_commands() {
    assert!(matches!(MessageCommands::from_u8(0), MessageCommands::QUIT));
    assert!(matches!(
        MessageCommands::from_u8(1),
        MessageCommands::SUBSCRIBE
    ));
    assert!(matches!(
        MessageCommands::from_u8(2),
        MessageCommands::PUBLISH
    ));
    assert!(matches!(
        MessageCommands::from_u8(3),
        MessageCommands::UNKNOWN(_)
    ));
}

#[test]
fn message_parts_are_kept() {
    let message = Message::new(2, "q".to_string(), vec![1, 2, 3]);
    assert_eq!(message.command, Some(2));
    assert_eq!(message.queue, Some("q".to_string()));
    assert_eq!(message.message, Some(vec![1, 2, 3]));
}

#[test]
fn fresh_queue_is_empty() {
    let queue = Queue::new();
    assert_eq!(queue.message.len(), 0);
}
