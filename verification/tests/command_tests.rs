use tunadb::command::{Command, ParseError};
use tunadb::proto;
use tunadb::proto::{OPERATION_DEL, OPERATION_GET, OPERATION_LIST, OPERATION_SET};

#[test]
fn parses_get() {
    match Command::from_str("get mykey").unwrap() {
        Command::Get { key } => assert_eq!(key, "mykey"),
        other => panic!("wrong command: {:?}", other),
    }
}

#[test]
fn parses_set() {
    match Command::from_str("set mykey myvalue").unwrap() {
        Command::Put { key, value } => {
            assert_eq!(key, "mykey");
            assert_eq!(value, "myvalue");
        }
        other => panic!("wrong command: {:?}", other),
    }
}

#[test]
fn parses_del() {
    match Command::from_str("del mykey").unwrap() {
        Command::Del { key } => assert_eq!(key, "mykey"),
        other => panic!("wrong command: {:?}", other),
    }
}

#[test]
fn parses_list() {
    assert!(matches!(Command::from_str("list").unwrap(), Command::List));
}

#[test]
fn parses_with_surrounding_whitespace() {
    match Command::from_str("  \t set\n a \r b  ").unwrap() {
        Command::Put { key, value } => {
            assert_eq!(key, "a");
            assert_eq!(value, "b");
        }
        other => panic!("wrong command: {:?}", other),
    }
}

#[test]
fn extra_words_are_ignored() {
    match Command::from_str("get a b c").unwrap() {
        Command::Get { key } => assert_eq!(key, "a"),
        other => panic!("wrong command: {:?}", other),
    }
}

#[test]
fn empty_line_has_no_command() {
    assert_eq!(Command::from_str("").err(), Some(ParseError::CommandMissing));
    assert_eq!(
        Command::from_str("   \t ").err(),
        Some(ParseError::CommandMissing)
    );
}

#[test]
fn get_without_key_is_rejected() {
    assert_eq!(Command::from_str("get").err(), Some(ParseError::KeyMissing));
    assert_eq!(Command::from_str("del ").err(), Some(ParseError::KeyMissing));
    assert_eq!(Command::from_str("set").err(), Some(ParseError::KeyMissing));
}

#[test]
fn set_without_value_is_rejected() {
    assert_eq!(
        Command::from_str("set onlykey").err(),
        Some(ParseError::ValueMissing)
    );
}

#[test]
fn unknown_word_is_rejected() {
    assert_eq!(
        Command::from_str("drop table").err(),
        Some(ParseError::UnknownCommand)
    );
}

#[test]
fn parse_error_messages_are_stable() {
    assert_eq!(ParseError::CommandMissing.message(), "Command not found");
    assert_eq!(ParseError::UnknownCommand.message(), "Unknown command");
}

#[test]
fn get_to_proto() {
    let cmd = Command::Get { key: "k".to_string() };
    let p = cmd.to_proto_command();
    assert_eq!(p.operation, OPERATION_GET);
    assert_eq!(p.key, "k");
    assert_eq!(p.value, None);
}

#[test]
fn set_to_proto() {
    let cmd = Command::Put { key: "k".to_string(), value: "v".to_string() };
    let p = cmd.to_proto_command();
    assert_eq!(p.operation, OPERATION_SET);
    assert_eq!(p.key, "k");
    assert_eq!(p.value, Some("v".to_string()));
}

#[test]
fn list_to_proto_has_empty_key() {
    let p = Command::List.to_proto_command();
    assert_eq!(p.operation, OPERATION_LIST);
    assert_eq!(p.key, "");
    assert_eq!(p.value, None);
}

#[test]
fn proto_round_trips_every_command() {
    let commands = vec![
        Command::Get { key: "a".to_string() },
        Command::Put { key: "b".to_string(), value: "c".to_string() },
        Command::Del { key: "d".to_string() },
        Command::List,
    ];
    for cmd in commands {
        let back = Command::from_proto_command(cmd.to_proto_command());
        match (&cmd, &back) {
            (Command::Get { key: a }, Command::Get { key: b }) => assert_eq!(a, b),
            (
                Command::Put { key: a, value: va },
                Command::Put { key: b, value: vb },
            ) => {
                assert_eq!(a, b);
                assert_eq!(va, vb);
            }
            (Command::Del { key: a }, Command::Del { key: b }) => assert_eq!(a, b),
            (Command::List, Command::List) => {}
            other => panic!("round trip changed the command: {:?}", other),
        }
    }
}

#[test]
fn unknown_operation_reads_as_get() {
    let p = proto::Command { key: "k".to_string(), operation: 99, value: None };
    assert_eq!(p.operation(), OPERATION_GET);
    match Command::from_proto_command(p) {
        Command::Get { key } => assert_eq!(key, "k"),
        other => panic!("wrong command: {:?}", other),
    }
}

#[test]
fn proto_set_without_value_reads_empty_value() {
    let p = proto::Command { key: "k".to_string(), operation: OPERATION_SET, value: None };
    match Command::from_proto_command(p) {
        Command::Put { key, value } => {
            assert_eq!(key, "k");
            assert_eq!(value, "");
        }
        other => panic!("wrong command: {:?}", other),
    }
}

#[test]
fn proto_accessors_apply_defaults() {
    let p = proto::Command { key: "k".to_string(), operation: OPERATION_DEL, value: None };
    assert_eq!(p.operation(), OPERATION_DEL);
    assert_eq!(p.value(), "");
}
