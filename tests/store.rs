use kvs::codec::{decode, encode, CodecError, Operation};
use kvs::engine::{value_of_record, whole_records_len, Engine, Step, COMPACTED_FID, FIRST_ACTIVE_FID};
use kvs::err::KvError;
use kvs::pointer::Pointer;
use kvs::segments::{parse_log_name, segment_ids};
use std::collections::BTreeMap;

/// A store whose segments live in memory, driven the way the file-backed
/// store drives the engine.
struct MemStore {
    segments: BTreeMap<u64, Vec<u8>>,
    engine: Engine,
}

impl MemStore {
    fn fresh() -> MemStore {
        let mut segments = BTreeMap::new();
        segments.insert(1, Vec::new());
        MemStore { segments, engine: Engine::new(1) }
    }

    fn reopen(segments: BTreeMap<u64, Vec<u8>>) -> MemStore {
        let mut engine = Engine::new(0);
        let mut last = 0;
        for (&fid, bytes) in &segments {
            let n = engine.replay(fid, bytes).unwrap();
            engine.add_rubbish(n);
            last = fid;
        }
        let mut segments = segments;
        engine.fid = last + 1;
        segments.insert(last + 1, Vec::new());
        MemStore { segments, engine }
    }

    fn active(&mut self) -> &mut Vec<u8> {
        self.segments.get_mut(&self.engine.fid).unwrap()
    }

    fn set(&mut self, k: &str, v: &str) {
        let data = encode(&Operation::Put(k.to_owned(), v.to_owned()));
        let start = self.active().len() as u64;
        self.active().extend_from_slice(&data);
        match self.engine.record_set(k.to_owned(), start, data.len() as u64) {
            Step::Compact => self.compact(),
            Step::Roll => {
                self.engine.roll();
                let fid = self.engine.fid;
                self.segments.insert(fid, Vec::new());
            }
            Step::Stay => {}
        }
    }

    fn get(&self, k: &str) -> Result<Option<String>, KvError> {
        match self.engine.lookup(&k.to_owned()) {
            None => Ok(None),
            Some(p) => {
                let seg = self.segments.get(&p.fid).ok_or(KvError::KeyNotFound)?;
                let bytes = &seg[p.start as usize..(p.start + p.len) as usize];
                value_of_record(bytes).map(Some)
            }
        }
    }

    fn remove(&mut self, k: &str) -> Result<(), KvError> {
        self.engine.remove(&k.to_owned())?;
        let data = encode(&Operation::Rm(k.to_owned()));
        self.active().extend_from_slice(&data);
        self.engine.add_rubbish(data.len() as u64);
        Ok(())
    }

    fn compact(&mut self) {
        let mut live = Vec::new();
        for k in self.engine.index.keys() {
            let v = self.get(&k).unwrap().unwrap();
            live.push((k, v));
        }
        let bytes = self.engine.compact(&live);
        self.segments.clear();
        self.segments.insert(COMPACTED_FID, bytes);
        self.segments.insert(FIRST_ACTIVE_FID, Vec::new());
    }
}

#[test]
fn empty_get() {
    let s = MemStore::fresh();
    assert_eq!(s.get("a").unwrap(), None);
}

#[test]
fn overwrite() {
    let mut s = MemStore::fresh();
    s.set("a", "1");
    s.set("a", "2");
    assert_eq!(s.get("a").unwrap(), Some("2".to_owned()));
}

#[test]
fn remove_then_get() {
    let mut s = MemStore::fresh();
    s.set("k", "v");
    s.remove("k").unwrap();
    assert_eq!(s.get("k").unwrap(), None);
    assert!(matches!(s.remove("k"), Err(KvError::KeyNotFound)));
}

#[test]
fn persistence_across_reopen() {
    let mut s = MemStore::fresh();
    s.set("x", "10");
    s.set("y", "20");
    let s = MemStore::reopen(s.segments);
    assert_eq!(s.get("x").unwrap(), Some("10".to_owned()));
    assert_eq!(s.get("y").unwrap(), Some("20".to_owned()));
}

#[test]
fn persistence_keeps_removals() {
    let mut s = MemStore::fresh();
    s.set("x", "10");
    s.set("y", "20");
    s.remove("x").unwrap();
    let s = MemStore::reopen(s.segments);
    assert_eq!(s.get("x").unwrap(), None);
    assert_eq!(s.get("y").unwrap(), Some("20".to_owned()));
}

#[test]
fn compaction_preserves_data() {
    let mut s = MemStore::fresh();
    let first = "a".repeat(20 * 1024);
    let second = "b".repeat(20 * 1024);
    for i in 0..100 {
        s.set(&format!("k{}", i), &first);
    }
    for i in 0..100 {
        s.set(&format!("k{}", i), &second);
    }
    assert!(s.segments.len() <= 2);
    let s = MemStore::reopen(s.segments);
    for i in 0..100 {
        assert_eq!(s.get(&format!("k{}", i)).unwrap(), Some(second.clone()));
    }
}

#[test]
fn crash_mid_compaction() {
    let mut staging = encode(&Operation::Put("a".to_owned(), "1".to_owned()));
    staging.extend_from_slice(&encode(&Operation::Put("b".to_owned(), "2".to_owned())));
    let mut engine = Engine::new(FIRST_ACTIVE_FID);
    let n = engine.replay(COMPACTED_FID, &staging).unwrap();
    assert_eq!(n, 0);
    let mut segments = BTreeMap::new();
    segments.insert(COMPACTED_FID, staging);
    segments.insert(FIRST_ACTIVE_FID, Vec::new());
    let mut s = MemStore { segments, engine };
    assert_eq!(s.get("a").unwrap(), Some("1".to_owned()));
    assert_eq!(s.get("b").unwrap(), Some("2".to_owned()));
    s.set("c", "3");
    assert_eq!(s.segments.keys().cloned().collect::<Vec<u64>>(), vec![1, 2]);
}

#[test]
fn record_set_counts_rubbish_and_steps() {
    let mut e = Engine::new(3);
    assert_eq!(e.record_set("a".to_owned(), 0, 10), Step::Stay);
    assert_eq!(e.rubbish, 0);
    assert_eq!(e.record_set("a".to_owned(), 10, 12), Step::Stay);
    assert_eq!(e.rubbish, 10);
    assert_eq!(e.lookup(&"a".to_owned()), Some(Pointer::new(3, 10, 12)));
    assert_eq!(e.record_set("b".to_owned(), 1048576, 5), Step::Roll);
    assert_eq!(e.record_set("b".to_owned(), 1048581, 5), Step::Roll);
    assert_eq!(e.rubbish, 15);
    assert_eq!(e.record_set("c".to_owned(), 0, 1048576), Step::Stay);
    assert_eq!(e.record_set("c".to_owned(), 0, 1), Step::Compact);
    assert_eq!(e.rubbish, 1048591);
}

#[test]
fn remove_counts_rubbish() {
    let mut e = Engine::new(1);
    e.record_set("a".to_owned(), 0, 7);
    assert_eq!(e.remove(&"a".to_owned()).unwrap(), Pointer::new(1, 0, 7));
    assert_eq!(e.rubbish, 7);
    e.add_rubbish(5);
    assert_eq!(e.rubbish, 12);
    assert_eq!(e.lookup(&"a".to_owned()), None);
}

#[test]
fn replay_counts_obsolete_bytes() {
    let set_a = encode(&Operation::Put("a".to_owned(), "1".to_owned()));
    let set_a2 = encode(&Operation::Put("a".to_owned(), "22".to_owned()));
    let rm_a = encode(&Operation::Rm("a".to_owned()));
    let mut log = set_a.clone();
    log.extend_from_slice(&set_a2);
    log.extend_from_slice(&rm_a);
    let mut e = Engine::new(0);
    let n = e.replay(4, &log).unwrap();
    assert_eq!(n as usize, set_a.len() + set_a2.len() + rm_a.len());
    assert_eq!(e.lookup(&"a".to_owned()), None);
}

#[test]
fn replay_points_at_records() {
    let set_a = encode(&Operation::Put("a".to_owned(), "1".to_owned()));
    let set_b = encode(&Operation::Put("b".to_owned(), "2".to_owned()));
    let mut log = set_a.clone();
    log.extend_from_slice(&set_b);
    let mut e = Engine::new(0);
    e.replay(7, &log).unwrap();
    assert_eq!(e.lookup(&"b".to_owned()), Some(Pointer::new(7, set_a.len() as u64, set_b.len() as u64)));
}

#[test]
fn replay_rejects_garbage() {
    let mut e = Engine::new(0);
    assert!(matches!(e.replay(1, &[9u8]), Err(KvError::Serde(CodecError::BadTag))));
}

#[test]
fn encode_layout() {
    let b = encode(&Operation::Put("ab".to_owned(), "é".to_owned()));
    assert_eq!(b, vec![0, 2, 0, 0, 0, 0, 0, 0, 0, 97, 98, 2, 0, 0, 0, 0, 0, 0, 0, 0xc3, 0xa9]);
    let r = encode(&Operation::Rm("k".to_owned()));
    assert_eq!(r, vec![1, 1, 0, 0, 0, 0, 0, 0, 0, 107]);
}

#[test]
fn decode_round_trip() {
    let mut b = encode(&Operation::Put("key".to_owned(), "välue".to_owned()));
    let first = b.len();
    b.extend_from_slice(&encode(&Operation::Rm("key".to_owned())));
    match decode(&b, 0).unwrap() {
        Some((Operation::Put(k, v), end)) => {
            assert_eq!(k, "key");
            assert_eq!(v, "välue");
            assert_eq!(end, first);
        }
        other => panic!("unexpected {:?}", other),
    }
    match decode(&b, first).unwrap() {
        Some((Operation::Rm(k), end)) => {
            assert_eq!(k, "key");
            assert_eq!(end, b.len());
        }
        other => panic!("unexpected {:?}", other),
    }
    assert!(decode(&b, b.len()).unwrap().is_none());
}

#[test]
fn decode_errors() {
    let b = encode(&Operation::Put("key".to_owned(), "value".to_owned()));
    assert_eq!(decode(&b[..b.len() - 1], 0).unwrap_err(), CodecError::Truncated);
    assert_eq!(decode(&b[..5], 0).unwrap_err(), CodecError::Truncated);
    assert_eq!(decode(&[2u8], 0).unwrap_err(), CodecError::BadTag);
    let bad = vec![1u8, 1, 0, 0, 0, 0, 0, 0, 0, 0xff];
    assert_eq!(decode(&bad, 0).unwrap_err(), CodecError::BadText);
}

#[test]
fn value_of_record_cases() {
    let set = encode(&Operation::Put("k".to_owned(), "v".to_owned()));
    assert_eq!(value_of_record(&set).unwrap(), "v");
    let rm = encode(&Operation::Rm("k".to_owned()));
    assert!(matches!(value_of_record(&rm), Err(KvError::UnKnownCommand)));
    let mut long = set.clone();
    long.push(0);
    assert!(matches!(value_of_record(&long), Err(KvError::Serde(CodecError::Trailing))));
    assert!(matches!(value_of_record(&[]), Err(KvError::Serde(CodecError::Truncated))));
}

#[test]
fn compact_plans_segment() {
    let mut e = Engine::new(9);
    e.record_set("x".to_owned(), 0, 100);
    e.add_rubbish(5);
    let live = vec![("x".to_owned(), "1".to_owned()), ("y".to_owned(), "22".to_owned())];
    let bytes = e.compact(&live);
    assert_eq!(e.fid, 2);
    assert_eq!(e.rubbish, 0);
    let px = e.lookup(&"x".to_owned()).unwrap();
    let py = e.lookup(&"y".to_owned()).unwrap();
    assert_eq!(px.fid, 1);
    assert_eq!(py.fid, 1);
    let vx = value_of_record(&bytes[px.start as usize..(px.start + px.len) as usize]).unwrap();
    let vy = value_of_record(&bytes[py.start as usize..(py.start + py.len) as usize]).unwrap();
    assert_eq!(vx, "1");
    assert_eq!(vy, "22");
}

#[test]
fn log_names() {
    assert_eq!(parse_log_name("12.log"), Some(12));
    assert_eq!(parse_log_name("0.log"), Some(0));
    assert_eq!(parse_log_name("18446744073709551615.log"), Some(u64::MAX));
    assert_eq!(parse_log_name("18446744073709551616.log"), None);
    assert_eq!(parse_log_name(".log"), None);
    assert_eq!(parse_log_name("a1.log"), None);
    assert_eq!(parse_log_name("1.txt"), None);
    assert_eq!(parse_log_name("not_commit.dat"), None);
}

#[test]
fn segment_ids_sorted() {
    let names: Vec<String> = vec!["10.log", "2.log", "x.log", "not_commit.dat", "1.log", "3.txt"]
        .into_iter()
        .map(|s| s.to_owned())
        .collect();
    assert_eq!(segment_ids(&names), vec![1, 2, 10]);
}

#[test]
fn error_descriptions() {
    assert_eq!(KvError::KeyNotFound.describe(), "key not found");
    assert_eq!(KvError::UnKnownCommand.describe(), "unknown command");
}

#[test]
fn truncated_tail_is_cut_off() {
    let set_a = encode(&Operation::Put("a".to_owned(), "1".to_owned()));
    let set_b = encode(&Operation::Put("b".to_owned(), "2".to_owned()));
    let mut log = set_a.clone();
    log.extend_from_slice(&set_b[..set_b.len() - 3]);
    assert_eq!(whole_records_len(&log), set_a.len());
    let mut e = Engine::new(0);
    assert!(e.replay(1, &log).is_err());
    let mut e = Engine::new(0);
    e.replay(1, &log[..whole_records_len(&log)]).unwrap();
    assert_eq!(e.lookup(&"a".to_owned()), Some(Pointer::new(1, 0, set_a.len() as u64)));
    assert_eq!(e.lookup(&"b".to_owned()), None);
    let mut whole = set_a.clone();
    whole.extend_from_slice(&set_b);
    assert_eq!(whole_records_len(&whole), whole.len());
}

#[test]
fn segment_ids_keep_repeats() {
    let names: Vec<String> = vec!["7.log", "07.log", "3.log"].into_iter().map(|s| s.to_owned()).collect();
    assert_eq!(segment_ids(&names), vec![3, 7, 7]);
}

#[test]
fn replay_rejects_cut_record() {
    let set_a = encode(&Operation::Put("a".to_owned(), "1".to_owned()));
    let mut e = Engine::new(0);
    assert!(matches!(e.replay(1, &set_a[..set_a.len() - 1]), Err(KvError::Serde(CodecError::Truncated))));
}

#[test]
fn compact_offsets_follow_records() {
    let mut e = Engine::new(5);
    let live = vec![("x".to_owned(), "1".to_owned()), ("y".to_owned(), "22".to_owned())];
    let bytes = e.compact(&live);
    let first = encode(&Operation::Put("x".to_owned(), "1".to_owned()));
    let second = encode(&Operation::Put("y".to_owned(), "22".to_owned()));
    assert_eq!(e.lookup(&"x".to_owned()), Some(Pointer::new(1, 0, first.len() as u64)));
    assert_eq!(e.lookup(&"y".to_owned()), Some(Pointer::new(1, first.len() as u64, second.len() as u64)));
    assert_eq!(bytes.len(), first.len() + second.len());
}
