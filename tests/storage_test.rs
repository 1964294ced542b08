use anode_kv::storage::{InMemoryStorage, StorageCommand, StorageError};
use anode_kv::types::{Blob, BlobSet, Value};

fn blob(text: &str) -> Blob {
    Blob(text.as_bytes().to_vec())
}

fn members(items: &[&str]) -> Value {
    let mut s = BlobSet::new();
    for i in items {
        s.insert(blob(i));
    }
    Value::Members(s)
}

#[test]
fn get_returns_what_set_stored_until_rewritten() {
    let mut st = InMemoryStorage::new();
    assert_eq!(st.handle_cmd(StorageCommand::Put(blob("k"), Value::Blob(blob("v")))), Ok(None));
    assert_eq!(st.handle_cmd(StorageCommand::SetAdd(blob("k"), blob("x"))), Err(StorageError::NotASet));
    assert_eq!(st.handle_cmd(StorageCommand::Incr(blob("other"))), Ok(Some(Value::Int(1))));
    assert_eq!(st.handle_cmd(StorageCommand::Get(blob("k"))), Ok(Some(Value::Blob(blob("v")))));
    assert_eq!(st.handle_cmd(StorageCommand::Put(blob("k"), Value::Blob(blob("w")))), Ok(None));
    assert_eq!(st.handle_cmd(StorageCommand::Get(blob("k"))), Ok(Some(Value::Blob(blob("w")))));
    assert_eq!(st.handle_cmd(StorageCommand::Get(blob("absent"))), Ok(None));
}

#[test]
fn incr_then_get_gives_next_integer() {
    let mut st = InMemoryStorage::new();
    assert_eq!(st.handle_cmd(StorageCommand::Incr(blob("a"))), Ok(Some(Value::Int(1))));
    assert_eq!(st.handle_cmd(StorageCommand::Get(blob("a"))), Ok(Some(Value::Int(1))));
    st.handle_cmd(StorageCommand::Put(blob("b"), Value::Blob(blob("-4")))).unwrap();
    assert_eq!(st.handle_cmd(StorageCommand::Incr(blob("b"))), Ok(Some(Value::Int(-3))));
    assert_eq!(st.handle_cmd(StorageCommand::Get(blob("b"))), Ok(Some(Value::Int(-3))));
    st.handle_cmd(StorageCommand::Put(blob("c"), Value::Int(41))).unwrap();
    assert_eq!(st.handle_cmd(StorageCommand::Incr(blob("c"))), Ok(Some(Value::Int(42))));
    assert_eq!(st.handle_cmd(StorageCommand::Decr(blob("d"))), Ok(Some(Value::Int(-1))));
}

#[test]
fn incr_rejects_what_is_not_an_integer() {
    let mut st = InMemoryStorage::new();
    st.handle_cmd(StorageCommand::SetAdd(blob("s"), blob("x"))).unwrap();
    assert_eq!(st.handle_cmd(StorageCommand::Incr(blob("s"))), Err(StorageError::NotAnInteger));
    for text in ["notanint", "12abc", "+5", "-", "", "9223372036854775808"] {
        st.handle_cmd(StorageCommand::Put(blob("t"), Value::Blob(blob(text)))).unwrap();
        assert_eq!(st.handle_cmd(StorageCommand::Incr(blob("t"))), Err(StorageError::NotAnInteger));
        assert_eq!(st.handle_cmd(StorageCommand::Get(blob("t"))), Ok(Some(Value::Blob(blob(text)))));
    }
}

#[test]
fn incr_and_decr_report_overflow() {
    let mut st = InMemoryStorage::new();
    st.handle_cmd(StorageCommand::Put(blob("m"), Value::Blob(blob("9223372036854775807")))).unwrap();
    assert_eq!(st.handle_cmd(StorageCommand::Incr(blob("m"))), Err(StorageError::Overflow));
    st.handle_cmd(StorageCommand::Put(blob("n"), Value::Int(i64::MIN))).unwrap();
    assert_eq!(st.handle_cmd(StorageCommand::Decr(blob("n"))), Err(StorageError::Overflow));
    assert_eq!(st.handle_cmd(StorageCommand::Get(blob("n"))), Ok(Some(Value::Int(i64::MIN))));
}

#[test]
fn sadd_twice_reports_zero() {
    let mut st = InMemoryStorage::new();
    assert_eq!(st.handle_cmd(StorageCommand::SetAdd(blob("k"), blob("x"))), Ok(Some(Value::Int(1))));
    assert_eq!(st.handle_cmd(StorageCommand::SetAdd(blob("k"), blob("x"))), Ok(Some(Value::Int(0))));
    assert_eq!(st.handle_cmd(StorageCommand::SetMembers(blob("k"))), Ok(Some(members(&["x"]))));
}

#[test]
fn srem_removes_members() {
    let mut st = InMemoryStorage::new();
    assert_eq!(st.handle_cmd(StorageCommand::SetRemove(blob("k"), blob("x"))), Err(StorageError::NotASet));
    st.handle_cmd(StorageCommand::SetAdd(blob("k"), blob("x"))).unwrap();
    st.handle_cmd(StorageCommand::SetAdd(blob("k"), blob("y"))).unwrap();
    assert_eq!(st.handle_cmd(StorageCommand::SetRemove(blob("k"), blob("x"))), Ok(Some(Value::Int(1))));
    assert_eq!(st.handle_cmd(StorageCommand::SetRemove(blob("k"), blob("x"))), Ok(Some(Value::Int(0))));
    assert_eq!(st.handle_cmd(StorageCommand::SetMembers(blob("k"))), Ok(Some(members(&["y"]))));
}

#[test]
fn smembers_of_absent_key_is_empty() {
    let mut st = InMemoryStorage::new();
    assert_eq!(st.handle_cmd(StorageCommand::SetMembers(blob("k"))), Ok(Some(members(&[]))));
    assert_eq!(st.handle_cmd(StorageCommand::Get(blob("k"))), Ok(None));
}

#[test]
fn sinter_of_a_key_with_itself_is_its_members() {
    let mut st = InMemoryStorage::new();
    for m in ["a", "b", "c"] {
        st.handle_cmd(StorageCommand::SetAdd(blob("k"), blob(m))).unwrap();
    }
    let inter = st.handle_cmd(StorageCommand::SetIntersection(vec![blob("k"), blob("k")]));
    let all = st.handle_cmd(StorageCommand::SetMembers(blob("k")));
    assert_eq!(inter, all);
    assert_eq!(inter, Ok(Some(members(&["c", "b", "a"]))));
}

#[test]
fn sinter_keeps_common_members() {
    let mut st = InMemoryStorage::new();
    for m in ["a", "b", "c"] {
        st.handle_cmd(StorageCommand::SetAdd(blob("p"), blob(m))).unwrap();
    }
    for m in ["b", "c", "d"] {
        st.handle_cmd(StorageCommand::SetAdd(blob("q"), blob(m))).unwrap();
    }
    assert_eq!(
        st.handle_cmd(StorageCommand::SetIntersection(vec![blob("p"), blob("q")])),
        Ok(Some(members(&["b", "c"])))
    );
    assert_eq!(st.handle_cmd(StorageCommand::SetIntersection(vec![])), Err(StorageError::NotASet));
    assert_eq!(
        st.handle_cmd(StorageCommand::SetIntersection(vec![blob("p"), blob("missing")])),
        Err(StorageError::NotASet)
    );
}

#[test]
fn sunion_of_disjoint_sets_adds_sizes() {
    let mut st = InMemoryStorage::new();
    for m in ["a", "b"] {
        st.handle_cmd(StorageCommand::SetAdd(blob("p"), blob(m))).unwrap();
    }
    for m in ["c", "d", "e"] {
        st.handle_cmd(StorageCommand::SetAdd(blob("q"), blob(m))).unwrap();
    }
    let u = st.handle_cmd(StorageCommand::SetUnion(vec![blob("p"), blob("q")]));
    assert_eq!(u, Ok(Some(members(&["a", "b", "c", "d", "e"]))));
    match u {
        Ok(Some(Value::Members(s))) => assert_eq!(s.len(), 5),
        _ => panic!("expected a set"),
    }
    st.handle_cmd(StorageCommand::Put(blob("v"), Value::Blob(blob("x")))).unwrap();
    assert_eq!(st.handle_cmd(StorageCommand::SetUnion(vec![blob("p"), blob("v")])), Err(StorageError::NotASet));
}

#[test]
fn replay_applies_in_order_and_skips_failures() {
    let mut st = InMemoryStorage::new();
    let cmds = vec![
        StorageCommand::Put(blob("a"), Value::Blob(blob("1"))),
        StorageCommand::Incr(blob("a")),
        StorageCommand::SetAdd(blob("a"), blob("x")),
        StorageCommand::SetAdd(blob("s"), blob("x")),
    ];
    assert_eq!(st.load_from_log(cmds), 4);
    assert_eq!(st.handle_cmd(StorageCommand::Get(blob("a"))), Ok(Some(Value::Int(2))));
    assert_eq!(st.handle_cmd(StorageCommand::SetMembers(blob("s"))), Ok(Some(members(&["x"]))));
    assert!(st.should_record(&StorageCommand::Incr(blob("a"))));
    assert!(!st.should_record(&StorageCommand::Get(blob("a"))));
    st.disable_durability();
    assert!(!st.should_record(&StorageCommand::Incr(blob("a"))));
}
