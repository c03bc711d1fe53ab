use kvs::command::Command;
use kvs::error::KvsError;

#[test]
fn command_serialize_and_deserialize() {
    let mut cmd = Command::Put("hello".to_string(), "world".to_string());
    let mut buf = cmd.to_bytes();
    cmd = Command::from_bytes(&buf);

    match cmd {
        Command::Put(k, v) => {
            assert_eq!(k, "hello");
            assert_eq!(v, "world");
        }
        _ => {
            panic!("test failed")
        }
    }

    cmd = Command::Get("hello2".to_string());
    buf = cmd.to_bytes();
    cmd = Command::from_bytes(&buf);
    match cmd {
        Command::Get(k) => {
            assert_eq!(k, "hello2");
        }
        _ => {
            panic!("test failed")
        }
    }

    cmd = Command::Remove("hello3".to_string());
    buf = cmd.to_bytes();
    cmd = Command::from_bytes(&buf);
    match cmd {
        Command::Remove(k) => {
            assert_eq!(k, "hello3");
        }
        _ => {
            panic!("test failed")
        }
    }
}

#[test]
fn put_payload_is_tag_key_value() {
    let buf = Command::Put("a".to_string(), "1".to_string()).to_bytes();
    assert_eq!(
        buf,
        vec![0, 0, 0, 0, 0, 0, 0, 0, 1, 97, 0, 0, 0, 0, 0, 0, 0, 1, 49]
    );
}

#[test]
fn get_payload_is_tag_and_key() {
    let buf = Command::Get("ab".to_string()).to_bytes();
    assert_eq!(buf, vec![1, 0, 0, 0, 0, 0, 0, 0, 2, 97, 98]);
}

#[test]
fn remove_payload_is_tag_and_key() {
    let buf = Command::Remove("k".to_string()).to_bytes();
    assert_eq!(buf, vec![2, 0, 0, 0, 0, 0, 0, 0, 1, 107]);
}

#[test]
fn length_prefix_is_big_endian() {
    let key = "x".repeat(258);
    let buf = Command::Get(key.clone()).to_bytes();
    assert_eq!(&buf[..9], &[1, 0, 0, 0, 0, 0, 0, 1, 2]);
    assert_eq!(buf.len(), 9 + 258);
    assert_eq!(Command::try_from_bytes(&buf), Ok(Command::Get(key)));
}

#[test]
fn empty_strings_round_trip() {
    let cmd = Command::Put(String::new(), String::new());
    let buf = cmd.to_bytes();
    assert_eq!(buf.len(), 17);
    assert_eq!(Command::try_from_bytes(&buf), Ok(cmd));
}

#[test]
fn non_ascii_text_round_trips() {
    let cmd = Command::Put("ключ".to_string(), "值 🦀".to_string());
    let buf = cmd.to_bytes();
    assert_eq!(Command::try_from_bytes(&buf), Ok(cmd));
}

#[test]
fn invalid_utf8_is_repaired_not_rejected() {
    let buf = vec![1, 0, 0, 0, 0, 0, 0, 0, 3, 97, 0xff, 98];
    assert_eq!(
        Command::try_from_bytes(&buf),
        Ok(Command::Get("a\u{fffd}b".to_string()))
    );
}

#[test]
fn empty_payload_is_corruption() {
    assert_eq!(Command::try_from_bytes(&[]), Err(KvsError::Corruption));
}

#[test]
fn unknown_tag_is_corruption() {
    let buf = vec![3, 0, 0, 0, 0, 0, 0, 0, 1, 97];
    assert_eq!(Command::try_from_bytes(&buf), Err(KvsError::Corruption));
}

#[test]
fn short_length_prefix_is_corruption() {
    let buf = vec![1, 0, 0, 0];
    assert_eq!(Command::try_from_bytes(&buf), Err(KvsError::Corruption));
}

#[test]
fn field_longer_than_payload_is_corruption() {
    let buf = vec![1, 0, 0, 0, 0, 0, 0, 0, 5, 97];
    assert_eq!(Command::try_from_bytes(&buf), Err(KvsError::Corruption));
}

#[test]
fn put_without_value_is_corruption() {
    let buf = vec![0, 0, 0, 0, 0, 0, 0, 0, 1, 97];
    assert_eq!(Command::try_from_bytes(&buf), Err(KvsError::Corruption));
}

#[test]
fn huge_declared_length_is_corruption() {
    let buf = vec![1, 255, 255, 255, 255, 255, 255, 255, 255, 97];
    assert_eq!(Command::try_from_bytes(&buf), Err(KvsError::Corruption));
}

#[test]
fn bytes_after_the_last_field_are_ignored() {
    let mut buf = Command::Remove("k".to_string()).to_bytes();
    buf.push(9);
    buf.push(9);
    assert_eq!(
        Command::try_from_bytes(&buf),
        Ok(Command::Remove("k".to_string()))
    );
}

#[test]
fn command_frame_is_prefix_and_payload() {
    let bytes = Command::Get("a".to_string()).into_frame();
    assert_eq!(
        &bytes[..],
        &[0, 0, 0, 0, 0, 0, 0, 10, 1, 0, 0, 0, 0, 0, 0, 0, 1, 97]
    );
}
