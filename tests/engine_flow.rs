use std::collections::BTreeMap;

use kvs::segment::{detect_previous_engine, latest_segment, segment_number};
use kvs::{EngineKind, FileIndex, KvsError, LogHelper, LogStore, MAX_UNCOMPACTED};

/// Segment files held in memory, driven through the store as the server drives real files.
struct Sim {
    disk: BTreeMap<u64, String>,
    store: LogStore,
}

impl Sim {
    fn open(mut disk: BTreeMap<u64, String>) -> Sim {
        let names: Vec<String> = disk.keys().map(|n| format!("{n}.log")).collect();
        let latest = latest_segment(&names);
        let active = if latest == 0 { 1 } else { latest };
        let len = disk.entry(active).or_default().len() as u64;
        let mut store = LogStore::new(latest, len);
        for (&seg, text) in disk.iter() {
            store.replay_segment(seg, text).unwrap();
        }
        Sim { disk, store }
    }

    fn fresh() -> Sim {
        Sim::open(BTreeMap::new())
    }

    fn set(&mut self, k: &str, v: &str) -> Result<(), KvsError> {
        let p = self.store.begin_set(k.to_string(), v.to_string());
        self.disk.entry(p.segment).or_default().push_str(&p.line);
        if self.store.commit(p) {
            self.compact()?;
        }
        Ok(())
    }

    fn remove(&mut self, k: &str) -> Result<(), KvsError> {
        let p = self.store.begin_remove(k.to_string())?;
        self.disk.entry(p.segment).or_default().push_str(&p.line);
        if self.store.commit(p) {
            self.compact()?;
        }
        Ok(())
    }

    fn line_at(&self, fi: FileIndex) -> String {
        let rest = &self.disk[&fi.segment][fi.offset as usize..];
        rest[..=rest.find('\n').unwrap()].to_string()
    }

    fn get(&self, k: &str) -> Result<Option<String>, KvsError> {
        match self.store.lookup(&k.to_string()) {
            None => Ok(None),
            Some(fi) => LogStore::value_from_line(&k.to_string(), &self.line_at(fi)).map(Some),
        }
    }

    fn compact(&mut self) -> Result<(), KvsError> {
        let records = self
            .store
            .live_addresses()
            .iter()
            .map(|fi| LogHelper::deserialize(&self.line_at(*fi)))
            .collect::<Result<Vec<_>, _>>()?;
        let (old, lines) = self.store.compact(records)?;
        self.disk.insert(self.store.active_segment(), lines.concat());
        self.disk.retain(|&n, _| n > old);
        Ok(())
    }
}

#[test]
fn basic_round_trip() {
    let mut s = Sim::fresh();
    assert_eq!(s.set("k", "v"), Ok(()));
    assert_eq!(s.get("k"), Ok(Some("v".to_string())));
    assert_eq!(s.remove("k"), Ok(()));
    assert_eq!(s.get("k"), Ok(None));
}

#[test]
fn overwrite_reads_latest() {
    let mut s = Sim::fresh();
    s.set("x", "1").unwrap();
    s.set("x", "2").unwrap();
    assert_eq!(s.get("x"), Ok(Some("2".to_string())));
    assert_eq!(s.store.uncompacted(), 1);
}

#[test]
fn persistence_after_reopen() {
    let mut s = Sim::fresh();
    s.set("a", "1").unwrap();
    let s2 = Sim::open(s.disk.clone());
    assert_eq!(s2.get("a"), Ok(Some("1".to_string())));
}

#[test]
fn reopen_gives_same_state() {
    let mut s = Sim::fresh();
    s.set("a", "1").unwrap();
    s.set("b", "2").unwrap();
    s.set("a", "3").unwrap();
    s.remove("b").unwrap();
    s.set("c", "4").unwrap();
    let s2 = Sim::open(s.disk.clone());
    for k in ["a", "b", "c", "d"] {
        assert_eq!(s.get(k), s2.get(k));
        assert_eq!(s.store.lookup(&k.to_string()), s2.store.lookup(&k.to_string()));
    }
    assert_eq!(s.store.uncompacted(), 2);
    assert_eq!(s2.store.uncompacted(), 2);
    assert_eq!(s.store.active_len(), s2.store.active_len());
}

#[test]
fn segmentation_over_one_mebibyte() {
    let mut s = Sim::fresh();
    let value = "v".repeat(1000);
    for i in 0..1100 {
        s.set(&format!("key{i}"), &format!("{value}{i}")).unwrap();
    }
    assert!(s.disk.len() >= 2);
    assert_eq!(s.store.active_segment(), 2);
    for i in 0..1100 {
        assert_eq!(s.get(&format!("key{i}")), Ok(Some(format!("{value}{i}"))));
    }
}

#[test]
fn compaction_after_many_overwrites() {
    let mut s = Sim::fresh();
    for i in 0..2000 {
        s.set("key", &format!("value{i}")).unwrap();
    }
    assert_eq!(s.disk.len(), 1);
    assert_eq!(s.get("key"), Ok(Some("value1999".to_string())));
    assert!(s.store.uncompacted() < MAX_UNCOMPACTED);
    let reopened = Sim::open(s.disk.clone());
    assert_eq!(reopened.get("key"), Ok(Some("value1999".to_string())));
}

#[test]
fn compaction_twice_is_stable() {
    let mut s = Sim::fresh();
    s.set("a", "1").unwrap();
    s.set("b", "2").unwrap();
    s.set("a", "3").unwrap();
    s.remove("b").unwrap();
    s.compact().unwrap();
    let first = s.store.lookup(&"a".to_string()).unwrap();
    let text1 = s.disk[&first.segment].clone();
    s.compact().unwrap();
    let second = s.store.lookup(&"a".to_string()).unwrap();
    assert_eq!(s.disk.len(), 1);
    assert_eq!(second.segment, first.segment + 1);
    assert_eq!(second.offset, first.offset);
    assert_eq!(s.disk[&second.segment], text1);
    assert_eq!(text1, "set a 3\n");
    assert_eq!(s.store.lookup(&"b".to_string()), None);
}

#[test]
fn missing_key_remove() {
    let mut s = Sim::fresh();
    let before_len = s.store.active_len();
    assert_eq!(s.remove("nope"), Err(KvsError::NonExistentKey("nope".to_string())));
    assert_eq!(s.store.active_len(), before_len);
    assert_eq!(s.store.uncompacted(), 0);
    assert_eq!(s.set("nope", "v"), Ok(()));
    assert_eq!(s.get("nope"), Ok(Some("v".to_string())));
}

#[test]
fn engine_mismatch() {
    let names = vec!["db".to_string(), "1.log".to_string()];
    assert_eq!(detect_previous_engine(&names), Err(KvsError::EngineMismatch));
}

#[test]
fn engine_detection_kinds() {
    assert_eq!(detect_previous_engine(&vec![]), Ok(None));
    assert_eq!(
        detect_previous_engine(&vec!["3.log".to_string(), "notes.txt".to_string()]),
        Ok(Some(EngineKind::Kvs))
    );
    assert_eq!(
        detect_previous_engine(&vec!["_sled_conf".to_string()]),
        Ok(Some(EngineKind::Sled))
    );
    assert_eq!(detect_previous_engine(&vec!["x.log".to_string()]), Ok(None));
}

#[test]
fn segment_numbers() {
    assert_eq!(segment_number("1.log"), Some(1));
    assert_eq!(segment_number("12.log"), Some(12));
    assert_eq!(segment_number("01.log"), None);
    assert_eq!(segment_number("0.log"), None);
    assert_eq!(segment_number("a.log"), None);
    assert_eq!(segment_number("1.txt"), None);
    assert_eq!(segment_number(".log"), None);
    assert_eq!(segment_number("18446744073709551615.log"), Some(u64::MAX));
    assert_eq!(segment_number("18446744073709551616.log"), None);
}

#[test]
fn latest_segment_of_names() {
    let names = vec!["2.log".to_string(), "10.log".to_string(), "db".to_string(), "9.log".to_string()];
    assert_eq!(latest_segment(&names), 10);
    assert_eq!(latest_segment(&vec!["x".to_string()]), 0);
}

#[test]
fn get_of_a_remove_line_is_corruption() {
    assert_eq!(
        LogStore::value_from_line(&"k".to_string(), "rm k\n"),
        Err(KvsError::DeserializeError)
    );
    assert_eq!(
        LogStore::value_from_line(&"k".to_string(), "set j v\n"),
        Err(KvsError::DeserializeError)
    );
    assert_eq!(LogStore::value_from_line(&"k".to_string(), "set k v\n"), Ok("v".to_string()));
}

#[test]
fn rotation_flag_and_offsets() {
    let mut store = LogStore::new(0, 0);
    assert_eq!(store.active_segment(), 1);
    let p = store.begin_set("a".to_string(), "b".to_string());
    assert!(!p.rotated);
    assert_eq!((p.segment, p.offset), (1, 0));
    assert!(!store.commit(p));
    assert_eq!(store.active_len(), 8);
    let mut full = LogStore::new(4, 1048577);
    let p = full.begin_set("a".to_string(), "b".to_string());
    assert!(p.rotated);
    assert_eq!((p.segment, p.offset), (5, 0));
}

#[test]
fn replay_segment_offsets_count_bytes() {
    let mut store = LogStore::new(1, 100);
    let text = "set é 1\nset b 2\nrm é\nset c 3";
    assert_eq!(store.replay_segment(1, text), Ok(()));
    assert_eq!(store.lookup(&"é".to_string()), None);
    assert_eq!(store.lookup(&"b".to_string()), Some(FileIndex { segment: 1, offset: 9 }));
    assert_eq!(store.lookup(&"c".to_string()), Some(FileIndex { segment: 1, offset: 23 }));
    assert_eq!(store.uncompacted(), 1);
}

#[test]
fn replay_segment_rejects_a_bad_line_whole() {
    let mut store = LogStore::new(2, 0);
    assert_eq!(store.replay_segment(1, "set a 1\nbogus\nset b 2\n"), Err(KvsError::DeserializeError));
    assert_eq!(store.lookup(&"a".to_string()), None);
    assert_eq!(store.uncompacted(), 0);
}

#[test]
fn replay_one_record() {
    let mut store = LogStore::new(1, 10);
    store.replay(LogHelper::deserialize("set a 1\n").unwrap(), FileIndex { segment: 1, offset: 0 });
    store.replay(LogHelper::deserialize("set a 2\n").unwrap(), FileIndex { segment: 1, offset: 8 });
    assert_eq!(store.lookup(&"a".to_string()), Some(FileIndex { segment: 1, offset: 8 }));
    assert_eq!(store.uncompacted(), 1);
}

#[test]
fn key_with_a_space_does_not_read_back() {
    let mut s = Sim::fresh();
    s.set("a b", "c").unwrap();
    assert_eq!(s.get("a b"), Err(KvsError::DeserializeError));
}

#[test]
fn remove_rotates_a_full_segment() {
    let mut store = LogStore::new(1, 0);
    let p = store.begin_set("k".to_string(), "v".to_string());
    assert!(!store.commit(p));
    let mut full = LogStore::new(1, 2_000_000);
    let p = full.begin_set("k".to_string(), "v".to_string());
    assert!(p.rotated);
    assert!(!full.commit(p));
    let p = full.begin_remove("k".to_string()).unwrap();
    assert!(!p.rotated);
    assert_eq!(p.line, "rm k\n");
    assert_eq!((p.segment, p.offset), (2, 8));
    assert!(!full.commit(p));
    assert_eq!(full.lookup(&"k".to_string()), None);
    assert_eq!(full.uncompacted(), 1);
}

#[test]
fn compact_rejects_records_of_other_keys() {
    let mut store = LogStore::new(1, 0);
    let p = store.begin_set("k".to_string(), "v".to_string());
    store.commit(p);
    let wrong = vec![LogHelper::deserialize("set j v\n").unwrap()];
    assert_eq!(store.compact(wrong), Err(KvsError::DeserializeError));
    assert_eq!(store.active_segment(), 1);
    let right = vec![LogHelper::deserialize("set k v\n").unwrap()];
    let (old, lines) = store.compact(right).unwrap();
    assert_eq!(old, 1);
    assert_eq!(lines, vec!["set k v\n".to_string()]);
    assert_eq!(store.lookup(&"k".to_string()), Some(FileIndex { segment: 2, offset: 0 }));
    assert_eq!(store.active_len(), 8);
}

#[test]
fn compaction_keeps_every_value() {
    let mut s = Sim::fresh();
    for i in 0..50 {
        s.set(&format!("k{i}"), &format!("a{i}")).unwrap();
    }
    for i in 0..25 {
        s.remove(&format!("k{i}")).unwrap();
    }
    s.compact().unwrap();
    let seg = s.store.active_segment();
    assert_eq!(s.disk.len(), 1);
    for i in 0..50 {
        let fi = s.store.lookup(&format!("k{i}"));
        if i < 25 {
            assert_eq!(fi, None);
        } else {
            assert_eq!(fi.unwrap().segment, seg);
            assert_eq!(s.get(&format!("k{i}")), Ok(Some(format!("a{i}"))));
        }
    }
    assert!(!s.disk[&seg].contains("rm "));
}
