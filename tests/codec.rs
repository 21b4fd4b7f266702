use kvs::{KvsError, LogHelper, Record};

fn set(k: &str, v: &str) -> Record {
    Record::Put(k.to_string(), v.to_string())
}

#[test]
fn serialize_set_line() {
    assert_eq!(LogHelper::serialize(&set("k", "v")).unwrap(), "set k v\n");
}

#[test]
fn serialize_rm_line() {
    let r = Record::Remove("key1".to_string());
    assert_eq!(LogHelper::serialize(&r).unwrap(), "rm key1\n");
}

#[test]
fn serialize_keeps_utf8() {
    assert_eq!(LogHelper::serialize(&set("clé", "värde")).unwrap(), "set clé värde\n");
}

#[test]
fn deserialize_set() {
    assert_eq!(LogHelper::deserialize("set a b\n").unwrap(), set("a", "b"));
}

#[test]
fn deserialize_rm() {
    assert_eq!(
        LogHelper::deserialize("rm a\n").unwrap(),
        Record::Remove("a".to_string())
    );
}

#[test]
fn deserialize_trims_both_ends() {
    assert_eq!(LogHelper::deserialize("\t set a b \r\n").unwrap(), set("a", "b"));
    assert_eq!(LogHelper::deserialize("\u{3000}rm x\u{a0}").unwrap(), Record::Remove("x".to_string()));
}

#[test]
fn deserialize_wrong_token_counts() {
    assert_eq!(LogHelper::deserialize("set a\n"), Err(KvsError::DeserializeError));
    assert_eq!(LogHelper::deserialize("set a b c\n"), Err(KvsError::DeserializeError));
    assert_eq!(LogHelper::deserialize("rm a b\n"), Err(KvsError::DeserializeError));
    assert_eq!(LogHelper::deserialize("rm\n"), Err(KvsError::DeserializeError));
}

#[test]
fn deserialize_unknown_word_and_empty() {
    assert_eq!(LogHelper::deserialize("put a b\n"), Err(KvsError::DeserializeError));
    assert_eq!(LogHelper::deserialize(""), Err(KvsError::DeserializeError));
    assert_eq!(LogHelper::deserialize("\n"), Err(KvsError::DeserializeError));
}

#[test]
fn deserialize_double_space_gives_empty_piece() {
    assert_eq!(LogHelper::deserialize("set  b\n").unwrap(), set("", "b"));
    assert_eq!(LogHelper::deserialize("set a  b\n"), Err(KvsError::DeserializeError));
}

#[test]
fn round_trip_of_records() {
    for r in [set("k", "v"), set("x", "2"), Record::Remove("nope".to_string()), set("ключ", "値")] {
        let line = LogHelper::serialize(&r).unwrap();
        assert_eq!(LogHelper::deserialize(&line).unwrap(), r);
    }
}

#[test]
fn trailing_white_space_of_value_is_lost() {
    let line = LogHelper::serialize(&set("a", "b\t")).unwrap();
    assert_eq!(LogHelper::deserialize(&line).unwrap(), set("a", "b"));
}
