use anode_kv::storage::StorageCommand;
use anode_kv::transaction::{current_log_filename, decode_log, encode_batch, next_record, TransactionLogError};
use anode_kv::types::{Blob, Value};

fn blob(text: &str) -> Blob {
    Blob(text.as_bytes().to_vec())
}

#[test]
fn mod_writes_out_commands() {
    let commands = vec![
        StorageCommand::Put(blob("a"), "1".bytes().collect::<Vec<u8>>().into()),
        StorageCommand::Incr(blob("a")),
    ];

    let content = encode_batch(&commands);

    let expected_log = "S\u{1}\0\0\0\0\0\0\0aB\u{1}\0\0\0\0\0\0\01I\u{1}\0\0\0\0\0\0\0a";
    assert_eq!(expected_log.as_bytes().to_vec(), content);
}

#[test]
fn mod_reads_commands_back() {
    let commands = vec![
        StorageCommand::Put(blob("a"), "1".bytes().collect::<Vec<u8>>().into()),
        StorageCommand::Incr(blob("a")),
        StorageCommand::SetAdd(blob("x"), blob("z")),
    ];

    let content = encode_batch(&commands);
    let recorded_commands = decode_log(&content).unwrap();
    assert_eq!(commands, recorded_commands);
}

#[test]
fn transaction_log_reads_commands_back() {
    let commands = vec![
        StorageCommand::Put(blob("a"), "1".bytes().collect::<Vec<u8>>().into()),
        StorageCommand::Incr(blob("a")),
    ];

    let mut content = vec![];
    for cmd in &commands {
        content.extend(encode_batch(&vec![cmd.clone()]));
    }

    let recorded_commands = decode_log(&content).unwrap();
    assert_eq!(commands, recorded_commands);
}

#[test]
fn every_record_kind_round_trips() {
    let commands = vec![
        StorageCommand::Put(blob("k"), Value::Int(-2)),
        StorageCommand::Put(blob(""), Value::Int(i64::MIN)),
        StorageCommand::Put(blob("k"), Value::Blob(blob(""))),
        StorageCommand::Decr(blob("d")),
        StorageCommand::SetAdd(blob("s"), blob("member")),
        StorageCommand::SetRemove(blob("s"), blob("member")),
    ];
    let content = encode_batch(&commands);
    assert_eq!(decode_log(&content).unwrap(), commands);
    let (first, used) = next_record(&content).unwrap().unwrap();
    assert_eq!(first, commands[0]);
    assert_eq!(used, 1 + 8 + 1 + 1 + 8);
}

#[test]
fn unlogged_commands_write_nothing() {
    let commands = vec![
        StorageCommand::Get(blob("a")),
        StorageCommand::SetMembers(blob("s")),
        StorageCommand::SetIntersection(vec![blob("s")]),
        StorageCommand::SetUnion(vec![blob("s")]),
    ];
    assert!(encode_batch(&commands).is_empty());
}

#[test]
fn truncated_last_record_ends_the_log() {
    let commands = vec![StorageCommand::Incr(blob("a")), StorageCommand::Put(blob("b"), Value::Blob(blob("xyz")))];
    let content = encode_batch(&commands);
    for cut in 1..=(content.len() - 10) {
        let short = &content[..content.len() - cut];
        let read = decode_log(short).unwrap();
        assert_eq!(read, vec![StorageCommand::Incr(blob("a"))]);
    }
    assert_eq!(decode_log(&[]).unwrap(), vec![]);
}

#[test]
fn corrupt_tag_is_reported() {
    let mut content = encode_batch(&vec![StorageCommand::Incr(blob("a"))]);
    content[0] = b'Z';
    assert_eq!(decode_log(&content), Err(TransactionLogError::Corrupted));
}

#[test]
fn log_file_name_has_suffix() {
    assert_eq!(current_log_filename("./tmp/log"), "./tmp/log.current");
}
