use kvs::command::Command;
use kvs::engine::journal::LogEffect;
use kvs::error::KvsError;
use kvs::log::names::{segment_file_name, segment_id};
use kvs::log::reader::LogReader;
use kvs::log::writer::LogWriter;
use kvs::log::{LogPosition, Position};
use vstd::hash_map::StringHashMap;

fn put(k: &str, v: &str) -> Command {
    Command::Put(k.to_string(), v.to_string())
}

#[test]
fn position_getters() {
    let p = LogPosition::new(7, 42);
    assert_eq!(p.id(), 7);
    assert_eq!(p.pos(), 42);
    let q: Position = Position::new(7, 42);
    assert_eq!(p, q);
}

#[test]
fn writer_returns_the_start_of_each_frame() {
    let mut w = LogWriter::new(3);
    assert_eq!(w.id(), 3);
    assert_eq!(w.pos(), 0);
    assert_eq!(w.write(put("a", "1")), LogPosition::new(3, 0));
    assert_eq!(w.pos(), 27);
    assert_eq!(
        w.write(Command::Remove("a".to_string())),
        LogPosition::new(3, 27)
    );
    assert_eq!(w.pos(), 45);
    assert_eq!(w.bytes().len(), 45);
    assert_eq!(&w.bytes()[..8], &[0, 0, 0, 0, 0, 0, 0, 19]);
}

#[test]
fn flush_hands_out_what_was_written_since() {
    let mut w = LogWriter::new(1);
    w.write(put("a", "1"));
    w.write(put("b", "2"));
    let first = w.flush();
    assert_eq!(first.len(), 54);
    assert_eq!(&first[..], w.bytes());
    assert_eq!(w.flush(), Vec::<u8>::new());
    let (p, bytes) = w.write_and_flush(put("c", "3"));
    assert_eq!(p, LogPosition::new(1, 54));
    assert_eq!(bytes.len(), 27);
    assert_eq!(&w.bytes()[54..], &bytes[..]);
}

#[test]
fn reader_reads_at_positions() {
    let mut w = LogWriter::new(1);
    let first = w.write(put("a", "1"));
    let second = w.write(Command::Remove("a".to_string()));
    let mut r = w.seal();
    assert_eq!(r.id(), 1);
    assert_eq!(r.read(second.pos()), Ok(Some(Command::Remove("a".to_string()))));
    assert_eq!(r.read(first.pos()), Ok(Some(put("a", "1"))));
    assert_eq!(r.read(45), Ok(None));
}

#[test]
fn reader_short_prefix_is_the_end() {
    let mut r = LogReader::new(1, vec![0, 0, 0]);
    assert_eq!(r.read(0), Ok(None));
    let mut empty = LogReader::new(1, Vec::new());
    assert_eq!(empty.read(0), Ok(None));
}

#[test]
fn reader_declared_length_past_the_end_is_corruption() {
    let mut w = LogWriter::new(1);
    w.write(put("a", "1"));
    let mut data = w.flush();
    data.truncate(20);
    let mut r = LogReader::new(1, data);
    assert_eq!(r.read(0), Err(KvsError::Corruption));
}

#[test]
fn reader_undecodable_payload_is_corruption() {
    let mut r = LogReader::new(1, vec![0, 0, 0, 0, 0, 0, 0, 1, 9]);
    assert_eq!(r.read(0), Err(KvsError::Corruption));
}

#[test]
fn load_all_replays_into_the_index() {
    let mut w = LogWriter::new(4);
    w.write(put("a", "1"));
    w.write(put("b", "2"));
    w.write(put("a", "3"));
    w.write(Command::Remove("b".to_string()));
    w.write(Command::Get("zz".to_string()));
    let mut r = w.seal();
    let mut index: StringHashMap<LogPosition> = StringHashMap::new();
    assert_eq!(r.load_all(&mut index), Ok(()));
    assert_eq!(index.len(), 1);
    assert_eq!(index.get("a"), Some(&LogPosition::new(4, 54)));
    assert_eq!(index.get("b"), None);
}

#[test]
fn load_all_stops_cleanly_at_a_cut_frame() {
    let mut w = LogWriter::new(1);
    w.write(put("a", "1"));
    w.write(put("b", "2"));
    let mut data = w.flush();
    data.truncate(40);
    let mut r = LogReader::new(1, data);
    let mut index: StringHashMap<LogPosition> = StringHashMap::new();
    assert_eq!(r.load_all(&mut index), Ok(()));
    assert_eq!(index.len(), 1);
    assert_eq!(index.get("a"), Some(&LogPosition::new(1, 0)));
    let (end, whole) = r.replay_into(&mut index);
    assert_eq!((end, whole), (27, true));
}

#[test]
fn load_all_fails_at_a_frame_without_a_request() {
    let mut w = LogWriter::new(1);
    w.write(put("a", "1"));
    let mut data = w.flush();
    data.extend_from_slice(&[0, 0, 0, 0, 0, 0, 0, 1, 9]);
    let mut r = LogReader::new(1, data);
    let mut index: StringHashMap<LogPosition> = StringHashMap::new();
    assert_eq!(r.load_all(&mut index), Err(KvsError::Corruption));
}

#[test]
fn reader_remove_is_the_delete_effect() {
    let r = LogReader::new(9, Vec::new());
    assert_eq!(r.remove(), LogEffect::Delete(9));
}

#[test]
fn segment_names_are_canonical_decimal() {
    assert_eq!(segment_id("1.bin"), Some(1));
    assert_eq!(segment_id("0.bin"), Some(0));
    assert_eq!(segment_id("120.bin"), Some(120));
    assert_eq!(segment_id("18446744073709551615.bin"), Some(u64::MAX));
    assert_eq!(segment_id("18446744073709551616.bin"), None);
    assert_eq!(segment_id("99999999999999999999.bin"), None);
    assert_eq!(segment_id("01.bin"), None);
    assert_eq!(segment_id("+1.bin"), None);
    assert_eq!(segment_id("-1.bin"), None);
    assert_eq!(segment_id(".bin"), None);
    assert_eq!(segment_id("bin"), None);
    assert_eq!(segment_id(""), None);
    assert_eq!(segment_id("1.bi"), None);
    assert_eq!(segment_id("1.bin.tmp"), None);
    assert_eq!(segment_id("1.BIN"), None);
    assert_eq!(segment_id("a1.bin"), None);
    assert_eq!(segment_id("1a.bin"), None);
    assert_eq!(segment_id("engine"), None);
    assert_eq!(segment_id("١.bin"), None);
}

#[test]
fn segment_file_names() {
    assert_eq!(segment_file_name(0), "0.bin");
    assert_eq!(segment_file_name(7), "7.bin");
    assert_eq!(segment_file_name(42), "42.bin");
    assert_eq!(segment_file_name(1000), "1000.bin");
    assert_eq!(segment_file_name(u64::MAX), "18446744073709551615.bin");
    assert_eq!(segment_id(&segment_file_name(907)), Some(907));
}

#[test]
fn open_sorts_by_id_and_leaves_out_other_files() {
    let files = vec![
        ("3.bin".to_string(), vec![3u8]),
        ("engine".to_string(), vec![b'k']),
        ("10.bin".to_string(), vec![10u8]),
        ("1.bin".to_string(), vec![1u8]),
        ("02.bin".to_string(), vec![2u8]),
        ("2.bin".to_string(), vec![2u8]),
    ];
    let readers = LogReader::open(files);
    let ids: Vec<u64> = readers.iter().map(|r| r.id()).collect();
    assert_eq!(ids, vec![1, 2, 3, 10]);
    assert_eq!(readers[3].bytes(), &[10u8]);
    assert_eq!(readers[0].bytes(), &[1u8]);
}

#[test]
fn open_of_no_files() {
    assert_eq!(LogReader::open(Vec::new()).len(), 0);
}
