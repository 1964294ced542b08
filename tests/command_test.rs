use anode_kv::codec::Token;
use anode_kv::command::{Command, CommandError};
use anode_kv::types::Blob;

#[test]
fn command_it_has_errors_for_empty_input() {
    let input = vec![];
    let expected = Err(CommandError::InsufficientTokens);

    assert_eq!(expected, Command::from_tokens(&input));
}

#[test]
fn command_it_has_errors_for_incomplete_input() {
    let input = vec![Token::Array(2), Token::SimpleString("echo".to_string())];
    let expected = Err(CommandError::InsufficientTokens);

    assert_eq!(expected, Command::from_tokens(&input));
}

#[test]
fn command_it_has_errors_for_malformed_input() {
    let input = vec![Token::SimpleString("whoops".to_string())];
    let expected = Err(CommandError::Malformed);

    assert_eq!(expected, Command::from_tokens(&input));
}

#[test]
fn command_it_parses_echo_commands() {
    let msg = "hello world".to_string();
    let input = vec![
        Token::Array(2),
        Token::SimpleString("echo".to_string()),
        Token::SimpleString(msg.clone()),
    ];
    let bytes: Vec<_> = msg.bytes().collect();
    let expected = Ok((Command::Echo(bytes.into()), 3));

    assert_eq!(expected, Command::from_tokens(&input));
}

#[test]
fn types_it_has_errors_for_empty_input() {
    let input = vec![];
    let expected = Err(CommandError::InsufficientTokens);

    assert_eq!(expected, Command::from_tokens(&input));
}

#[test]
fn types_it_has_errors_for_incomplete_input() {
    let input = vec![Token::Array(2), Token::SimpleString("echo".to_string())];
    let expected = Err(CommandError::InsufficientTokens);

    assert_eq!(expected, Command::from_tokens(&input));
}

#[test]
fn types_it_has_errors_for_malformed_input() {
    let input = vec![Token::SimpleString("whoops".to_string())];
    let expected = Err(CommandError::Malformed);

    assert_eq!(expected, Command::from_tokens(&input));
}

#[test]
fn types_it_parses_echo_commands() {
    let msg = "hello world".to_string();
    let input = vec![
        Token::Array(2),
        Token::SimpleString("echo".to_string()),
        Token::SimpleString(msg.clone()),
    ];
    let bytes: Vec<_> = msg.bytes().collect();
    let expected = Ok((Command::Echo(bytes.into()), 3));

    assert_eq!(expected, Command::from_tokens(&input));
}

fn s(text: &str) -> Token {
    Token::SimpleString(text.to_string())
}

fn blob(text: &str) -> Blob {
    Blob(text.as_bytes().to_vec())
}

#[test]
fn unknown_names_are_parsed_not_rejected() {
    let input = vec![Token::Array(2), s("flushall"), s("x"), s("extra")];
    assert_eq!(
        Ok((Command::Unknown("FLUSHALL".to_string()), 3)),
        Command::from_tokens(&input)
    );
}

#[test]
fn parses_each_known_command() {
    let cases = vec![
        (vec![Token::Array(1), s("command")], Command::Command, 2),
        (vec![Token::Array(2), s("GET"), s("k")], Command::Get(blob("k")), 3),
        (vec![Token::Array(3), s("set"), s("k"), Token::BulkString(Some(b"v".to_vec()))], Command::Put(blob("k"), blob("v")), 4),
        (vec![Token::Array(2), s("incr"), s("k")], Command::Incr(blob("k")), 3),
        (vec![Token::Array(2), s("decr"), s("k")], Command::Decr(blob("k")), 3),
        (vec![Token::Array(3), s("sadd"), s("k"), s("m")], Command::SetAdd(blob("k"), blob("m")), 4),
        (vec![Token::Array(3), s("srem"), s("k"), s("m")], Command::SetRemove(blob("k"), blob("m")), 4),
        (vec![Token::Array(2), s("smembers"), s("k")], Command::SetMembers(blob("k")), 3),
        (vec![Token::Array(3), s("sinter"), s("a"), s("b"), s("next")], Command::SetIntersection(vec![blob("a"), blob("b")]), 4),
        (vec![Token::Array(2), Token::BulkString(Some(b"sunion".to_vec())), s("a")], Command::SetUnion(vec![blob("a")]), 3),
    ];
    for (input, cmd, used) in cases {
        assert_eq!(Ok((cmd, used)), Command::from_tokens(&input));
    }
}

#[test]
fn rejects_wrong_shapes() {
    let cases = vec![
        vec![Token::Array(0)],
        vec![Token::Array(-3), s("get")],
        vec![Token::Array(3), s("get"), s("a"), s("b")],
        vec![Token::Array(2), s("get"), Token::Integer(1)],
        vec![Token::Array(2), Token::BulkString(Some(vec![0xff])), s("a")],
        vec![Token::Array(1), s("sinter")],
        vec![Token::Array(2), Token::Integer(5), s("a")],
    ];
    for input in cases {
        assert_eq!(Err(CommandError::Malformed), Command::from_tokens(&input));
    }
}

#[test]
fn parts_make_the_named_command() {
    let tokens = vec![Token::Array(2), s("get"), s("k")];
    assert_eq!(Ok((Command::Get(blob("k")), 3)), Command::from_parts("GET", 2, &tokens));
    assert_eq!(Ok((Command::Unknown("get".to_string()), 3)), Command::from_parts("get", 2, &tokens));
    assert_eq!(Err(CommandError::Malformed), Command::from_parts("GET", 0, &tokens));
    assert_eq!(Err(CommandError::InsufficientTokens), Command::from_parts("GET", 3, &tokens));
    assert_eq!(Err(CommandError::Malformed), Command::from_parts("SET", 2, &tokens));
}
