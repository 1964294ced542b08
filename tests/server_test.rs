use anode_kv::codec::{encode, Token};
use anode_kv::command::Command;
use anode_kv::connection::{ConnectionError, RequestBuffer};
use anode_kv::processor::{dispatch, storage_reply_to_result, Dispatch, StorageOutcome};
use anode_kv::storage::{InMemoryStorage, StorageError};
use anode_kv::transaction::TransactionLogError;
use anode_kv::transaction::{decode_log, encode_batch};
use anode_kv::types::Blob;

/// Feeds bytes to a connection and serves every command they complete,
/// recording mutations to `log` first.
fn serve(st: &mut InMemoryStorage, conn: &mut RequestBuffer, log: &mut Vec<u8>, input: &[u8]) -> Vec<u8> {
    conn.push_bytes(input);
    let mut out = vec![];
    while let Some(cmd) = conn.next_command().expect("protocol error") {
        let result = match dispatch(&cmd) {
            Dispatch::Reply(r) => r,
            Dispatch::Storage(sc) => {
                if st.should_record(&sc) {
                    log.extend(encode_batch(&vec![sc.clone()]));
                }
                let reply = st.handle_cmd(sc);
                storage_reply_to_result(&cmd, StorageOutcome::Replied(reply))
            }
        };
        for t in result.0 {
            encode(&mut out, &t).unwrap();
        }
    }
    out
}

fn request(st: &mut InMemoryStorage, input: &[u8]) -> Vec<u8> {
    let mut conn = RequestBuffer::new();
    let mut log = vec![];
    serve(st, &mut conn, &mut log, input)
}

#[test]
fn it_echoes() {
    let cmd = Command::Echo(Blob(vec![0u8, 1u8, 2u8]));
    let expected = vec![Token::BulkString(Some(vec![0u8, 1u8, 2u8]))];

    let result = match dispatch(&cmd) {
        Dispatch::Reply(r) => r.0,
        Dispatch::Storage(_) => panic!("echo needs no storage"),
    };

    assert_eq!(expected, result);
}

#[test]
fn echo_scenario() {
    let mut st = InMemoryStorage::new();
    assert_eq!(request(&mut st, b"*2\r\n+ECHO\r\n+hello world\r\n"), b"$11\r\nhello world\r\n".to_vec());
}

#[test]
fn set_incr_get_scenario() {
    let mut st = InMemoryStorage::new();
    assert_eq!(request(&mut st, b"*3\r\n+SET\r\n+x\r\n+1\r\n"), b"+OK\r\n".to_vec());
    assert_eq!(request(&mut st, b"*2\r\n+INCR\r\n+x\r\n"), b"$1\r\n2\r\n".to_vec());
    assert_eq!(request(&mut st, b"*2\r\n+GET\r\n+x\r\n"), b"$1\r\n2\r\n".to_vec());
}

#[test]
fn decr_absent_key_scenario() {
    let mut st = InMemoryStorage::new();
    assert_eq!(request(&mut st, b"*2\r\n+DECR\r\n+newkey\r\n"), b"$2\r\n-1\r\n".to_vec());
}

#[test]
fn incr_non_integer_scenario() {
    let mut st = InMemoryStorage::new();
    assert_eq!(request(&mut st, b"*3\r\n+SET\r\n+y\r\n+notanint\r\n"), b"+OK\r\n".to_vec());
    assert_eq!(
        request(&mut st, b"*2\r\n+INCR\r\n+y\r\n"),
        b"-WRONGTYPE Operation against a key holding the wrong kind of value\r\n".to_vec()
    );
}

#[test]
fn restart_scenario() {
    let mut st = InMemoryStorage::new();
    let mut conn = RequestBuffer::new();
    let mut log = vec![];
    serve(&mut st, &mut conn, &mut log, b"*3\r\n+SET\r\n+a\r\n+1\r\n");
    serve(&mut st, &mut conn, &mut log, b"*2\r\n+INCR\r\n+a\r\n");
    serve(&mut st, &mut conn, &mut log, b"*3\r\n+SADD\r\n+s\r\n+x\r\n");
    serve(&mut st, &mut conn, &mut log, b"*2\r\n+GET\r\n+a\r\n");
    drop(st);

    let mut restarted = InMemoryStorage::new();
    let cmds = decode_log(&log).unwrap();
    assert_eq!(restarted.load_from_log(cmds), 3);
    assert_eq!(request(&mut restarted, b"*2\r\n+GET\r\n+a\r\n"), b"$1\r\n2\r\n".to_vec());
    assert_eq!(request(&mut restarted, b"*2\r\n+SMEMBERS\r\n+s\r\n"), b"*1\r\n$1\r\nx\r\n".to_vec());
}

#[test]
fn restart_replays_set_removals() {
    let mut st = InMemoryStorage::new();
    let mut conn = RequestBuffer::new();
    let mut log = vec![];
    serve(&mut st, &mut conn, &mut log, b"*3\r\n+SADD\r\n+s\r\n+x\r\n*3\r\n+SADD\r\n+s\r\n+y\r\n");
    serve(&mut st, &mut conn, &mut log, b"*3\r\n+SREM\r\n+s\r\n+x\r\n");

    let mut restarted = InMemoryStorage::new();
    restarted.load_from_log(decode_log(&log).unwrap());
    assert_eq!(request(&mut restarted, b"*2\r\n+SMEMBERS\r\n+s\r\n"), b"*1\r\n$1\r\ny\r\n".to_vec());
}

#[test]
fn pipelined_scenario() {
    let mut st = InMemoryStorage::new();
    let out = request(&mut st, b"*3\r\n+SET\r\n+p\r\n+5\r\n*2\r\n+INCR\r\n+p\r\n");
    assert_eq!(out, b"+OK\r\n$1\r\n6\r\n".to_vec());
}

#[test]
fn fragmented_request_is_served_when_whole() {
    let mut st = InMemoryStorage::new();
    let mut conn = RequestBuffer::new();
    let mut log = vec![];
    let bytes = b"*2\r\n+ECHO\r\n$5\r\nhello\r\n";
    let mut out = vec![];
    for b in bytes.iter() {
        out.extend(serve(&mut st, &mut conn, &mut log, &[*b]));
    }
    assert_eq!(out, b"$5\r\nhello\r\n".to_vec());
}

#[test]
fn it_can_incr_and_decr_keys() {
    let mut st = InMemoryStorage::new();
    let cmd_set = |k: &str, v: &str| format!("*3\r\n+SET\r\n+{}\r\n+{}\r\n", k, v);
    let cmd_incr = |k: &str| format!("*2\r\n+INCR\r\n+{}\r\n", k);
    let cmd_decr = |k: &str| format!("*2\r\n+DECR\r\n+{}\r\n", k);
    let resp_simple = |v: &str| format!("+{}\r\n", v);
    let resp_bulk = |v: &str| format!("${}\r\n{}\r\n", v.len(), v);

    let cases = vec![
        (cmd_incr("x"), resp_bulk("1")),
        (cmd_incr("x"), resp_bulk("2")),
        (cmd_set("y", "3"), resp_simple("OK")),
        (cmd_incr("y"), resp_bulk("4")),
        (cmd_incr("y"), resp_bulk("5")),
        (cmd_set("z", "-4"), resp_simple("OK")),
        (cmd_decr("z"), resp_bulk("-5")),
        (cmd_decr("z"), resp_bulk("-6")),
        (cmd_decr("a"), resp_bulk("-1")),
        (cmd_decr("a"), resp_bulk("-2")),
    ];
    for (command, expected) in cases {
        assert_eq!(request(&mut st, command.as_bytes()), expected.as_bytes().to_vec());
    }
}

#[test]
fn command_lists_known_names() {
    let mut st = InMemoryStorage::new();
    let out = request(&mut st, b"*1\r\n+COMMAND\r\n");
    let text = String::from_utf8(out).unwrap();
    assert!(text.starts_with("*11\r\n$4\r\nECHO\r\n$7\r\nCOMMAND\r\n"));
    assert!(text.ends_with("$6\r\nSUNION\r\n"));
}

#[test]
fn unknown_command_replies_with_error() {
    let mut st = InMemoryStorage::new();
    assert_eq!(request(&mut st, b"*1\r\n+flush\r\n"), b"-FLUSH is not implemented\r\n".to_vec());
}

#[test]
fn storage_failures_map_to_replies() {
    let get = Command::Get(Blob(b"k".to_vec()));
    let r = storage_reply_to_result(&get, StorageOutcome::SendTimeout);
    assert_eq!(r.0, vec![Token::Error("timeout while sending to storage".to_string())]);
    let r = storage_reply_to_result(&get, StorageOutcome::NoResponse);
    assert_eq!(r.0, vec![Token::Error("no response from storage".to_string())]);
    let r = storage_reply_to_result(&get, StorageOutcome::Replied(Ok(None)));
    assert_eq!(r.0, vec![Token::BulkString(None)]);
    let incr = Command::Incr(Blob(b"k".to_vec()));
    let r = storage_reply_to_result(&incr, StorageOutcome::Replied(Ok(None)));
    assert_eq!(r.0, vec![Token::Error("invalid response from storage".to_string())]);
    let r = storage_reply_to_result(&incr, StorageOutcome::Replied(Err(StorageError::LogError(TransactionLogError::Failed))));
    assert_eq!(r.0, vec![Token::Error("ERR transaction log failure".to_string())]);
    let r = storage_reply_to_result(&incr, StorageOutcome::Replied(Err(StorageError::Failed)));
    assert_eq!(r.0, vec![Token::Error("ERR unknown storage failure".to_string())]);
    let mut st = InMemoryStorage::new();
    assert_eq!(
        request(&mut st, b"*3\r\n+SADD\r\n+s\r\n+x\r\n*3\r\n+SET\r\n+s\r\n+v\r\n*3\r\n+SREM\r\n+s\r\n+x\r\n"),
        b"$1\r\n1\r\n+OK\r\n-WRONGTYPE Operation against a key holding the wrong kind of value\r\n".to_vec()
    );
    assert_eq!(
        request(&mut st, b"*3\r\n+SET\r\n+m\r\n+9223372036854775807\r\n*2\r\n+INCR\r\n+m\r\n"),
        b"+OK\r\n-ERR increment or decrement would overflow\r\n".to_vec()
    );
}

#[test]
fn malformed_bytes_break_the_connection() {
    let mut conn = RequestBuffer::new();
    conn.push_bytes(b":12x\r\n");
    assert!(matches!(conn.next_command(), Err(ConnectionError::Decode(_))));
    let mut conn = RequestBuffer::new();
    conn.push_bytes(b"+hello\r\n");
    assert!(matches!(conn.next_command(), Err(ConnectionError::Parse(_))));
}
