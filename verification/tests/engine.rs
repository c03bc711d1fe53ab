use kvs::engine::journal::LogEffect;
use kvs::engine::kvs::KvStore;
use kvs::error::KvsError;
use kvs::frame::Frame;
use kvs::log::names::segment_file_name;
use kvs::log::reader::LogReader;
use kvs::KvsEngine;
use std::collections::BTreeMap;

fn fresh() -> KvStore {
    KvStore::recover(Vec::new()).unwrap()
}

fn s(text: &str) -> String {
    text.to_string()
}

fn frame_put(k: &str, v: &str) -> Vec<u8> {
    let mut out = Vec::new();
    Frame::set(s(k), s(v)).write(&mut out);
    out
}

fn frame_remove(k: &str) -> Vec<u8> {
    let mut out = Vec::new();
    Frame::remove(s(k)).write(&mut out);
    out
}

fn apply(disk: &mut BTreeMap<u64, Vec<u8>>, effects: Vec<LogEffect>) {
    for e in effects {
        match e {
            LogEffect::Create(id) => {
                disk.insert(id, Vec::new());
            }
            LogEffect::Append(id, bytes) => {
                disk.entry(id).or_default().extend_from_slice(&bytes);
            }
            LogEffect::Delete(id) => {
                disk.remove(&id);
            }
        }
    }
}

fn files_of(disk: &BTreeMap<u64, Vec<u8>>) -> Vec<(String, Vec<u8>)> {
    let mut files: Vec<(String, Vec<u8>)> = disk
        .iter()
        .map(|(id, data)| (segment_file_name(*id), data.clone()))
        .collect();
    files.reverse();
    files.push((s("engine"), b"kvs".to_vec()));
    files
}

fn failure(r: Result<KvStore, KvsError>) -> Option<KvsError> {
    match r {
        Ok(_) => None,
        Err(e) => Some(e),
    }
}

#[test]
fn set_then_get_returns_the_value() {
    let mut store = fresh();
    assert_eq!(store.set(s("a"), s("1")), Ok(()));
    assert_eq!(store.get(s("a")), Ok(Some(s("1"))));
    assert_eq!(store.get(s("b")), Ok(None));
    assert_eq!(store.len(), 1);
}

#[test]
fn set_then_get_with_empty_and_non_ascii_text() {
    let mut store = fresh();
    store.set(String::new(), String::new()).unwrap();
    store.set(s("ключ"), s("значение 🦀")).unwrap();
    store.set(s("empty"), String::new()).unwrap();
    assert_eq!(store.get(String::new()), Ok(Some(String::new())));
    assert_eq!(store.get(s("ключ")), Ok(Some(s("значение 🦀"))));
    assert_eq!(store.get(s("empty")), Ok(Some(String::new())));
}

#[test]
fn overwrite_returns_the_last_value() {
    let mut store = fresh();
    store.set(s("a"), s("1")).unwrap();
    store.set(s("b"), s("x")).unwrap();
    store.set(s("c"), s("y")).unwrap();
    store.set(s("a"), s("2")).unwrap();
    assert_eq!(store.get(s("a")), Ok(Some(s("2"))));
    assert_eq!(store.stale_count(), 1);
    assert_eq!(store.len(), 3);
}

#[test]
fn remove_then_get_finds_nothing_and_remove_fails() {
    let mut store = fresh();
    store.set(s("a"), s("1")).unwrap();
    store.set(s("b"), s("2")).unwrap();
    store.set(s("c"), s("3")).unwrap();
    assert_eq!(store.remove(s("a")), Ok(()));
    assert_eq!(store.get(s("a")), Ok(None));
    assert_eq!(store.remove(s("a")), Err(KvsError::KeyNotFound));
    assert_eq!(store.get(s("b")), Ok(Some(s("2"))));
}

#[test]
fn remove_of_an_absent_key_writes_nothing() {
    let mut store = fresh();
    store.take_effects();
    assert_eq!(store.remove(s("nope")), Err(KvsError::KeyNotFound));
    assert_eq!(store.take_effects(), Vec::<LogEffect>::new());
    assert_eq!(store.stale_count(), 0);
}

#[test]
fn a_fresh_store_writes_to_segment_one() {
    let mut store = fresh();
    assert_eq!(store.take_effects(), vec![LogEffect::Create(1)]);
    store.set(s("a"), s("1")).unwrap();
    assert_eq!(
        store.take_effects(),
        vec![LogEffect::Append(1, frame_put("a", "1"))]
    );
    assert_eq!(store.take_effects(), Vec::<LogEffect>::new());
}

#[test]
fn compaction_runs_when_stale_reaches_live() {
    let mut store = fresh();
    store.take_effects();
    store.set(s("a"), s("1")).unwrap();
    store.set(s("b"), s("2")).unwrap();
    store.set(s("a"), s("3")).unwrap();
    assert_eq!(store.stale_count(), 1);
    assert_eq!(
        store.take_effects(),
        vec![
            LogEffect::Append(1, frame_put("a", "1")),
            LogEffect::Append(1, frame_put("b", "2")),
            LogEffect::Append(1, frame_put("a", "3")),
        ]
    );
    store.set(s("b"), s("4")).unwrap();
    assert_eq!(store.stale_count(), 0);
    let mut compacted = frame_put("a", "3");
    compacted.extend_from_slice(&frame_put("b", "4"));
    assert_eq!(
        store.take_effects(),
        vec![
            LogEffect::Append(1, frame_put("b", "4")),
            LogEffect::Create(2),
            LogEffect::Append(2, compacted),
            LogEffect::Delete(1),
            LogEffect::Create(3),
        ]
    );
    assert_eq!(store.get(s("a")), Ok(Some(s("3"))));
    assert_eq!(store.get(s("b")), Ok(Some(s("4"))));
    store.set(s("c"), s("5")).unwrap();
    assert_eq!(
        store.take_effects(),
        vec![LogEffect::Append(3, frame_put("c", "5"))]
    );
}

#[test]
fn compaction_after_the_last_key_is_removed() {
    let mut store = fresh();
    store.take_effects();
    store.set(s("a"), s("1")).unwrap();
    store.remove(s("a")).unwrap();
    assert_eq!(store.len(), 0);
    assert_eq!(store.stale_count(), 0);
    assert_eq!(
        store.take_effects(),
        vec![
            LogEffect::Append(1, frame_put("a", "1")),
            LogEffect::Append(1, frame_remove("a")),
            LogEffect::Create(2),
            LogEffect::Append(2, Vec::new()),
            LogEffect::Delete(1),
            LogEffect::Create(3),
        ]
    );
    assert_eq!(store.get(s("a")), Ok(None));
}

#[test]
fn compaction_keeps_every_live_value() {
    let mut store = fresh();
    let mut disk = BTreeMap::new();
    for round in 0..5 {
        for k in 0..20 {
            store.set(format!("key{}", k), format!("value{}-{}", k, round)).unwrap();
        }
        for k in 0..20 {
            if k % 3 == round % 3 {
                let _ = store.remove(format!("key{}", k));
            }
        }
    }
    for k in 0..20 {
        let expected = if k % 3 == 1 { None } else { Some(format!("value{}-4", k)) };
        assert_eq!(store.get(format!("key{}", k)), Ok(expected));
    }
    apply(&mut disk, store.take_effects());
    let total: usize = disk.values().map(|d| d.len()).sum();
    assert!(total < 20 * 3 * 40);
    assert!(disk.len() <= 2);
}

#[test]
fn reopen_gives_the_same_results() {
    let mut store = fresh();
    let mut disk = BTreeMap::new();
    store.set(s("a"), s("1")).unwrap();
    store.set(s("b"), s("2")).unwrap();
    store.set(s("c"), s("3")).unwrap();
    store.set(s("d"), s("4")).unwrap();
    store.set(s("a"), s("5")).unwrap();
    store.remove(s("b")).unwrap();
    apply(&mut disk, store.take_effects());
    assert_eq!(disk.keys().copied().collect::<Vec<u64>>(), vec![1]);

    let mut again = KvStore::open(files_of(&disk)).unwrap();
    for key in ["a", "b", "c", "d", "e"] {
        assert_eq!(again.get(s(key)), store.get(s(key)));
    }
    assert_eq!(again.stale_count(), 0);
    assert_eq!(again.take_effects(), vec![LogEffect::Create(2)]);
    again.set(s("e"), s("6")).unwrap();
    assert_eq!(
        again.take_effects(),
        vec![LogEffect::Append(2, frame_put("e", "6"))]
    );
}

#[test]
fn later_segments_win_on_recovery() {
    let files = vec![
        (s("2.bin"), frame_put("a", "new")),
        (s("1.bin"), {
            let mut d = frame_put("a", "old");
            d.extend_from_slice(&frame_put("b", "kept"));
            d
        }),
        (s("3.bin"), frame_remove("b")),
        (s("notes.txt"), b"not mine".to_vec()),
    ];
    let mut store = KvStore::open(files).unwrap();
    assert_eq!(store.get(s("a")), Ok(Some(s("new"))));
    assert_eq!(store.get(s("b")), Ok(None));
    assert_eq!(store.take_effects(), vec![LogEffect::Create(4)]);
}

#[test]
fn recovery_stops_cleanly_at_a_cut_tail() {
    let mut data = frame_put("a", "1");
    data.extend_from_slice(&frame_put("b", "2")[..20]);
    let mut store = KvStore::open(vec![(s("1.bin"), data)]).unwrap();
    assert_eq!(store.get(s("a")), Ok(Some(s("1"))));
    assert_eq!(store.get(s("b")), Ok(None));
    store.set(s("b"), s("3")).unwrap();
    assert_eq!(
        store.take_effects(),
        vec![LogEffect::Create(2), LogEffect::Append(2, frame_put("b", "3"))]
    );
}

#[test]
fn recovery_after_a_crash_in_compaction() {
    let mut old = frame_put("a", "1");
    old.extend_from_slice(&frame_put("b", "2"));
    old.extend_from_slice(&frame_put("a", "3"));
    let mut half = frame_put("a", "3");
    half.extend_from_slice(&frame_put("b", "2")[..11]);
    let files = vec![(s("1.bin"), old), (s("2.bin"), half)];
    let store = KvStore::open(files).unwrap();
    assert_eq!(store.get(s("a")), Ok(Some(s("3"))));
    assert_eq!(store.get(s("b")), Ok(Some(s("2"))));
}

#[test]
fn a_frame_without_a_request_fails_the_open() {
    let mut data = frame_put("a", "1");
    data.extend_from_slice(&[0, 0, 0, 0, 0, 0, 0, 1, 9]);
    assert_eq!(
        failure(KvStore::open(vec![(s("1.bin"), data)])),
        Some(KvsError::Corruption)
    );
}

#[test]
fn segments_out_of_order_are_an_invariant_violation() {
    let readers = vec![LogReader::new(2, Vec::new()), LogReader::new(1, Vec::new())];
    assert_eq!(
        failure(KvStore::recover(readers)),
        Some(KvsError::InvariantViolation)
    );
    let twice = vec![LogReader::new(1, Vec::new()), LogReader::new(1, Vec::new())];
    assert_eq!(
        failure(KvStore::recover(twice)),
        Some(KvsError::InvariantViolation)
    );
}

#[test]
fn no_id_left_for_the_new_segment_is_corruption() {
    let readers = vec![LogReader::new(u64::MAX, Vec::new())];
    assert_eq!(failure(KvStore::recover(readers)), Some(KvsError::Corruption));
    let near = vec![LogReader::new(u64::MAX - 1, Vec::new())];
    let mut store = KvStore::recover(near).unwrap();
    assert_eq!(store.take_effects(), vec![LogEffect::Create(u64::MAX)]);
}

#[test]
fn compaction_waits_when_no_two_ids_are_left() {
    let near = vec![LogReader::new(u64::MAX - 2, Vec::new())];
    let mut store = KvStore::recover(near).unwrap();
    store.take_effects();
    store.set(s("a"), s("1")).unwrap();
    store.set(s("a"), s("2")).unwrap();
    assert_eq!(store.stale_count(), 1);
    assert_eq!(store.get(s("a")), Ok(Some(s("2"))));
    assert_eq!(
        store.take_effects(),
        vec![
            LogEffect::Append(u64::MAX - 1, frame_put("a", "1")),
            LogEffect::Append(u64::MAX - 1, frame_put("a", "2")),
        ]
    );
}

fn drive<E: KvsEngine>(engine: &mut E) {
    assert_eq!(engine.set(s("a"), s("1")), Ok(()));
    assert_eq!(engine.get(s("a")), Ok(Some(s("1"))));
    assert_eq!(engine.remove(s("a")), Ok(()));
    assert_eq!(engine.remove(s("a")), Err(KvsError::KeyNotFound));
    assert_eq!(engine.get(s("a")), Ok(None));
}

#[test]
fn the_engine_capability_drives_the_store() {
    let mut store = fresh();
    drive(&mut store);
    assert_eq!(store.len(), 0);
}

#[test]
fn end_to_end_example() {
    let mut disk = BTreeMap::new();
    let mut store = KvStore::open(files_of(&disk)).unwrap();
    store.set(s("a"), s("1")).unwrap();
    store.set(s("b"), s("2")).unwrap();
    store.remove(s("a")).unwrap();
    assert_eq!(store.get(s("a")), Ok(None));
    assert_eq!(store.get(s("b")), Ok(Some(s("2"))));
    apply(&mut disk, store.take_effects());

    let restarted = KvStore::open(files_of(&disk)).unwrap();
    assert_eq!(restarted.get(s("a")), Ok(None));
    assert_eq!(restarted.get(s("b")), Ok(Some(s("2"))));
}

fn contents_of(store: &KvStore, keys: &[&str]) -> Vec<Option<String>> {
    keys.iter().map(|k| store.get(s(k)).unwrap()).collect()
}

#[test]
fn a_crash_at_any_point_of_an_operation_recovers() {
    let keys = ["a", "b", "c", "d"];
    let mut store = fresh();
    let mut disk = BTreeMap::new();
    store.set(s("a"), s("1")).unwrap();
    store.set(s("b"), s("2")).unwrap();
    store.set(s("c"), s("3")).unwrap();
    store.remove(s("b")).unwrap();
    apply(&mut disk, store.take_effects());
    let before = contents_of(&store, &keys);

    store.set(s("a"), s("4")).unwrap();
    let after = contents_of(&store, &keys);
    assert_eq!(store.stale_count(), 0);
    let effects = store.take_effects();
    assert_eq!(effects.len(), 5);

    for done in 0..=effects.len() {
        let mut crashed = disk.clone();
        apply(&mut crashed, effects[..done].to_vec());
        let reopened = KvStore::open(files_of(&crashed)).unwrap();
        let found = contents_of(&reopened, &keys);
        if done == 0 {
            assert_eq!(found, before);
        } else {
            assert_eq!(found, after);
        }
        if done < effects.len() {
            if let LogEffect::Append(id, bytes) = &effects[done] {
                for cut in 0..bytes.len() {
                    let mut torn = crashed.clone();
                    apply(&mut torn, vec![LogEffect::Append(*id, bytes[..cut].to_vec())]);
                    let reopened = KvStore::open(files_of(&torn)).unwrap();
                    let found = contents_of(&reopened, &keys);
                    if done == 0 {
                        assert_eq!(found, before);
                    } else {
                        assert_eq!(found, after);
                    }
                }
            }
        }
    }
}

#[test]
fn two_files_with_the_name_of_one_segment_fail_the_open() {
    let files = vec![
        (s("1.bin"), frame_put("a", "1")),
        (s("1.bin"), frame_put("a", "2")),
    ];
    assert_eq!(
        failure(KvStore::open(files)),
        Some(KvsError::InvariantViolation)
    );
}

#[test]
fn the_order_of_the_files_does_not_matter() {
    let one = (s("1.bin"), frame_put("a", "1"));
    let two = (s("2.bin"), frame_put("a", "2"));
    let ten = (s("10.bin"), frame_put("a", "10"));
    let orders = vec![
        vec![one.clone(), two.clone(), ten.clone()],
        vec![ten.clone(), two.clone(), one.clone()],
        vec![two.clone(), ten.clone(), one.clone()],
        vec![two, one, ten],
    ];
    for files in orders {
        let mut store = KvStore::open(files).unwrap();
        assert_eq!(store.get(s("a")), Ok(Some(s("10"))));
        assert_eq!(store.take_effects(), vec![LogEffect::Create(11)]);
    }
}
