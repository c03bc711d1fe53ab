use kvs::error::KvsError;
use kvs::response::Response;

#[test]
fn success_with_value_round_trips() {
    let res = Response::Success(Some("v".to_string()));
    let buf = res.to_bytes();
    assert_eq!(buf, vec![0, 0, 0, 0, 0, 0, 0, 0, 1, 118]);
    assert_eq!(Response::try_from_bytes(&buf), Ok(res));
}

#[test]
fn success_without_value_is_the_empty_text() {
    let res = Response::Success(None);
    let buf = res.to_bytes();
    assert_eq!(buf, vec![0, 0, 0, 0, 0, 0, 0, 0, 0]);
    assert_eq!(Response::try_from_bytes(&buf), Ok(res));
}

#[test]
fn success_with_empty_value_reads_as_no_value() {
    let buf = Response::Success(Some(String::new())).to_bytes();
    assert_eq!(Response::try_from_bytes(&buf), Ok(Response::Success(None)));
}

#[test]
fn error_round_trips() {
    let res = Response::Error("Key not found".to_string());
    let buf = res.to_bytes();
    assert_eq!(buf[0], 1);
    assert_eq!(&buf[1..9], &[0, 0, 0, 0, 0, 0, 0, 13]);
    assert_eq!(Response::try_from_bytes(&buf), Ok(res));
}

#[test]
fn empty_error_message_round_trips() {
    let res = Response::Error(String::new());
    assert_eq!(Response::try_from_bytes(&res.to_bytes()), Ok(res));
}

#[test]
fn non_ascii_value_round_trips() {
    let res = Response::Success(Some("héllo ✓".to_string()));
    assert_eq!(Response::from_bytes(&res.to_bytes()), res);
}

#[test]
fn unknown_response_tag_is_corruption() {
    let buf = vec![2, 0, 0, 0, 0, 0, 0, 0, 0];
    assert_eq!(Response::try_from_bytes(&buf), Err(KvsError::Corruption));
}

#[test]
fn truncated_response_is_corruption() {
    assert_eq!(Response::try_from_bytes(&[]), Err(KvsError::Corruption));
    assert_eq!(Response::try_from_bytes(&[0, 0, 0]), Err(KvsError::Corruption));
    assert_eq!(
        Response::try_from_bytes(&[0, 0, 0, 0, 0, 0, 0, 0, 2, 97]),
        Err(KvsError::Corruption)
    );
}

#[test]
fn response_frame_is_prefix_and_payload() {
    let bytes = Response::Success(Some("2".to_string())).into_frame();
    assert_eq!(
        &bytes[..],
        &[0, 0, 0, 0, 0, 0, 0, 10, 0, 0, 0, 0, 0, 0, 0, 0, 1, 50]
    );
}

#[test]
fn error_messages() {
    assert_eq!(KvsError::KeyNotFound.message(), "Key not found");
    assert_eq!(KvsError::Corruption.message(), "Corrupted data");
    assert_eq!(
        KvsError::InvariantViolation.message(),
        "Index out of step with the log"
    );
    assert_eq!(
        KvsError::IoFailure("disk full".to_string()).message(),
        "disk full"
    );
}
