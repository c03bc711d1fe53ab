use kvs::codec::{find_block, read_str, read_u64, write_str, write_u64, Extent};
use kvs::command::Command;
use kvs::error::KvsError;
use kvs::frame::{read_value, scan_record, Frame, FrameReader, Scanned};

#[test]
fn write_u64_is_big_endian() {
    let mut v = vec![7u8];
    write_u64(&mut v, 0x0102030405060708);
    assert_eq!(v, vec![7, 1, 2, 3, 4, 5, 6, 7, 8]);
    assert_eq!(read_u64(&v, 1), 0x0102030405060708);
}

#[test]
fn read_u64_of_extremes() {
    let mut v = Vec::new();
    write_u64(&mut v, u64::MAX);
    write_u64(&mut v, 0);
    assert_eq!(v, vec![255, 255, 255, 255, 255, 255, 255, 255, 0, 0, 0, 0, 0, 0, 0, 0]);
    assert_eq!(read_u64(&v, 0), u64::MAX);
    assert_eq!(read_u64(&v, 8), 0);
}

#[test]
fn string_field_round_trips() {
    let mut v = Vec::new();
    write_str(&mut v, "hi");
    write_str(&mut v, "");
    assert_eq!(v, vec![0, 0, 0, 0, 0, 0, 0, 2, 104, 105, 0, 0, 0, 0, 0, 0, 0, 0]);
    assert_eq!(read_str(&v, 0), Some(("hi".to_string(), 10)));
    assert_eq!(read_str(&v, 10), Some((String::new(), 18)));
    assert_eq!(read_str(&v, 18), None);
    assert_eq!(read_str(&v, 100), None);
}

#[test]
fn find_block_tells_short_partial_whole() {
    let data = vec![0, 0, 0, 0, 0, 0, 0, 2, 104, 105];
    assert!(matches!(find_block(&data, 0), Extent::Whole(10)));
    assert!(matches!(find_block(&data[..9], 0), Extent::Partial));
    assert!(matches!(find_block(&data[..7], 0), Extent::Short));
    assert!(matches!(find_block(&data, 10), Extent::Short));
    assert!(matches!(find_block(&data, 11), Extent::Short));
}

#[test]
fn frame_constructors() {
    let f = Frame::set("k".to_string(), "v".to_string());
    assert_eq!((f.typ, f.key.as_str(), f.value.as_str()), (0, "k", "v"));
    let f = Frame::get("k".to_string());
    assert_eq!((f.typ, f.key.as_str(), f.value.as_str()), (1, "k", ""));
    let f = Frame::remove("k".to_string());
    assert_eq!((f.typ, f.key.as_str(), f.value.as_str()), (2, "k", ""));
}

#[test]
fn frame_write_appends_prefix_and_payload() {
    let mut out = vec![9u8];
    let n = Frame::set("a".to_string(), "1".to_string()).write(&mut out);
    assert_eq!(n, 27);
    assert_eq!(
        out,
        vec![
            9, 0, 0, 0, 0, 0, 0, 0, 19, 0, 0, 0, 0, 0, 0, 0, 0, 1, 97, 0, 0, 0, 0, 0, 0, 0,
            1, 49
        ]
    );
    let n = Frame::remove("a".to_string()).write(&mut out);
    assert_eq!(n, 18);
    assert_eq!(out.len(), 46);
}

#[test]
fn frame_read_gives_record_and_length() {
    let mut out = Vec::new();
    Frame::set("a".to_string(), "1".to_string()).write(&mut out);
    Frame::remove("a".to_string()).write(&mut out);
    assert_eq!(
        Frame::read(&out, 0),
        Ok(Some((Frame::set("a".to_string(), "1".to_string()), 27)))
    );
    assert_eq!(
        Frame::read(&out, 27),
        Ok(Some((Frame::remove("a".to_string()), 18)))
    );
    assert_eq!(Frame::read(&out, 45), Ok(None));
    assert_eq!(Frame::read(&out, 1000), Ok(None));
}

#[test]
fn frame_read_of_a_cut_frame_is_corruption() {
    let mut out = Vec::new();
    Frame::set("a".to_string(), "1".to_string()).write(&mut out);
    assert_eq!(Frame::read(&out[..20], 0), Err(KvsError::Corruption));
    assert_eq!(Frame::read(&out[..5], 0), Ok(None));
}

#[test]
fn frame_read_of_an_unknown_tag_is_corruption() {
    let data = vec![0, 0, 0, 0, 0, 0, 0, 9, 7, 0, 0, 0, 0, 0, 0, 0, 0];
    assert_eq!(Frame::read(&data, 0), Err(KvsError::Corruption));
}

#[test]
fn frame_and_command_agree() {
    let cmd = Command::Put("k".to_string(), "v".to_string());
    let frame = Frame::from_command(cmd.clone());
    let mut framed = Vec::new();
    frame.write(&mut framed);
    assert_eq!(&framed[8..], &cmd.to_bytes()[..]);
    assert_eq!(frame.into_command(), Some(cmd));
    let odd = Frame { typ: 9, key: String::new(), value: String::new() };
    assert_eq!(odd.into_command(), None);
}

#[test]
fn scan_record_tells_the_four_cases() {
    let mut data = Vec::new();
    Frame::get("a".to_string()).write(&mut data);
    assert!(matches!(
        scan_record(&data, 0),
        Scanned::Record(Command::Get(_), 18)
    ));
    assert!(matches!(scan_record(&data, 18), Scanned::End));
    assert!(matches!(scan_record(&data[..12], 0), Scanned::Truncated));
    let bad = vec![0, 0, 0, 0, 0, 0, 0, 1, 5];
    assert!(matches!(scan_record(&bad, 0), Scanned::Corrupt));
}

#[test]
fn frame_reader_walks_the_records() {
    let mut data = Vec::new();
    Frame::set("a".to_string(), "1".to_string()).write(&mut data);
    Frame::remove("a".to_string()).write(&mut data);
    data.extend_from_slice(&[0, 0, 0]);
    let mut reader = FrameReader::new(data);
    assert_eq!(
        reader.next(),
        Some((Frame::set("a".to_string(), "1".to_string()), 0))
    );
    assert_eq!(reader.next(), Some((Frame::remove("a".to_string()), 27)));
    assert_eq!(reader.next(), None);
    assert_eq!(reader.next(), None);
}

#[test]
fn read_value_gives_the_value_of_a_put_record() {
    let mut data = Vec::new();
    Frame::set("a".to_string(), "1".to_string()).write(&mut data);
    Frame::remove("a".to_string()).write(&mut data);
    Frame::get("a".to_string()).write(&mut data);
    assert_eq!(read_value(&data, 0), Ok("1".to_string()));
    assert_eq!(read_value(&data, 27), Err(KvsError::InvariantViolation));
    assert_eq!(read_value(&data, 45), Err(KvsError::InvariantViolation));
    assert_eq!(read_value(&data, 63), Err(KvsError::InvariantViolation));
    assert_eq!(read_value(&data[..50], 45), Err(KvsError::InvariantViolation));
    assert_eq!(read_value(&data[..60], 45), Err(KvsError::Corruption));
    assert_eq!(
        read_value(&[0, 0, 0, 0, 0, 0, 0, 1, 9], 0),
        Err(KvsError::Corruption)
    );
}
