use kvs::command::Command;
use kvs::engine::kvs::KvStore;
use kvs::error::KvsError;
use kvs::response::Response;
use kvs::server::{Handler, KvsServer, Next, Received};
use kvs::KvsEngine;

struct Failing;

impl KvsEngine for Failing {
    fn set(&mut self, _key: String, _value: String) -> Result<(), KvsError> {
        Err(KvsError::IoFailure("disk full".to_string()))
    }

    fn get(&mut self, _key: String) -> Result<Option<String>, KvsError> {
        Err(KvsError::Corruption)
    }

    fn remove(&mut self, _key: String) -> Result<(), KvsError> {
        Err(KvsError::InvariantViolation)
    }
}

fn s(text: &str) -> String {
    text.to_string()
}

#[test]
fn dispatch_maps_results_to_replies() {
    let mut store = KvStore::recover(Vec::new()).unwrap();
    assert_eq!(
        KvsServer::dispatch(&mut store, Command::Put(s("a"), s("1"))),
        Response::Success(None)
    );
    assert_eq!(
        KvsServer::dispatch(&mut store, Command::Get(s("a"))),
        Response::Success(Some(s("1")))
    );
    assert_eq!(
        KvsServer::dispatch(&mut store, Command::Get(s("b"))),
        Response::Success(None)
    );
    assert_eq!(
        KvsServer::dispatch(&mut store, Command::Remove(s("b"))),
        Response::Error(s("Key not found"))
    );
    assert_eq!(
        KvsServer::dispatch(&mut store, Command::Remove(s("a"))),
        Response::Success(None)
    );
    assert_eq!(
        KvsServer::dispatch(&mut store, Command::Get(s("a"))),
        Response::Success(None)
    );
}

#[test]
fn an_engine_error_becomes_an_error_reply() {
    let mut engine = Failing;
    assert_eq!(
        KvsServer::dispatch(&mut engine, Command::Put(s("a"), s("1"))),
        Response::Error(s("disk full"))
    );
    assert_eq!(
        KvsServer::dispatch(&mut engine, Command::Get(s("a"))),
        Response::Error(s("Corrupted data"))
    );
    assert_eq!(
        KvsServer::dispatch(&mut engine, Command::Remove(s("a"))),
        Response::Error(s("Index out of step with the log"))
    );
}

#[test]
fn replies_from_results() {
    assert_eq!(KvsServer::reply_done(Ok(())), Response::Success(None));
    assert_eq!(
        KvsServer::reply_done(Err(KvsError::KeyNotFound)),
        Response::Error(s("Key not found"))
    );
    assert_eq!(
        KvsServer::reply_found(Ok(Some(s("v")))),
        Response::Success(Some(s("v")))
    );
    assert_eq!(KvsServer::reply_found(Ok(None)), Response::Success(None));
    assert_eq!(
        KvsServer::reply_found(Err(KvsError::Corruption)),
        Response::Error(s("Corrupted data"))
    );
    assert_eq!(
        KvsServer::reject(KvsError::Corruption),
        Response::Error(s("Corrupted data"))
    );
}

#[test]
fn a_message_in_pieces_is_incomplete_until_whole() {
    let message = Command::Put(s("key"), s("value")).into_frame();
    let mut handler = Handler::new();
    assert_eq!(handler.parse_frame(), Ok(None));
    for cut in [1usize, 7, 8, 9, message.len() - 1] {
        let mut h = Handler::new();
        assert_eq!(h.received(&message[..cut]), Received::More);
        assert_eq!(h.parse_frame(), Ok(None));
        assert_eq!(h.received(&message[cut..]), Received::More);
        assert_eq!(h.parse_frame(), Ok(Some(Command::Put(s("key"), s("value")))));
        assert_eq!(h.parse_frame(), Ok(None));
    }
}

#[test]
fn one_byte_at_a_time() {
    let message = Command::Get(s("k")).into_frame();
    let mut handler = Handler::new();
    for (i, b) in message.iter().enumerate() {
        assert_eq!(handler.parse_frame(), Ok(None));
        assert_eq!(handler.received(&[*b]), Received::More);
        if i + 1 < message.len() {
            assert_eq!(handler.parse_frame(), Ok(None));
        }
    }
    assert_eq!(handler.parse_frame(), Ok(Some(Command::Get(s("k")))));
}

#[test]
fn two_messages_in_one_read() {
    let mut both = Command::Put(s("a"), s("1")).into_frame().to_vec();
    both.extend_from_slice(&Command::Remove(s("a")).into_frame());
    both.extend_from_slice(&[0, 0, 0]);
    let mut handler = Handler::new();
    handler.received(&both);
    assert_eq!(handler.parse_frame(), Ok(Some(Command::Put(s("a"), s("1")))));
    assert_eq!(handler.parse_frame(), Ok(Some(Command::Remove(s("a")))));
    assert_eq!(handler.parse_frame(), Ok(None));
    assert_eq!(handler.received(&[]), Received::Reset);
}

#[test]
fn a_read_of_nothing_closes_the_connection() {
    let mut handler = Handler::new();
    assert_eq!(handler.received(&[]), Received::Closed);
    handler.received(&[0, 0]);
    assert_eq!(handler.received(&[]), Received::Reset);
}

#[test]
fn a_message_without_a_request_is_taken_out_and_reported() {
    let mut bytes = vec![0, 0, 0, 0, 0, 0, 0, 1, 9];
    bytes.extend_from_slice(&Command::Get(s("k")).into_frame());
    let mut handler = Handler::new();
    handler.received(&bytes);
    assert_eq!(handler.parse_frame(), Err(KvsError::Corruption));
    assert_eq!(handler.parse_frame(), Ok(Some(Command::Get(s("k")))));
    assert_eq!(handler.parse_frame(), Ok(None));
    assert_eq!(handler.received(&[]), Received::Closed);
}

#[test]
fn take_payload_hands_out_the_payload() {
    let mut handler = Handler::new();
    handler.received(&[0, 0, 0, 0, 0, 0, 0, 3, 7, 8, 9, 1]);
    assert_eq!(handler.take_payload(), Some(vec![7, 8, 9]));
    assert_eq!(handler.take_payload(), None);
    handler.received(&[0, 0, 0, 0, 0, 0, 0]);
    assert_eq!(handler.take_payload(), None);
}

#[test]
fn the_client_side_reads_replies() {
    let mut handler = Handler::new();
    let reply = Handler::write_frame(Response::Success(Some(s("2"))));
    assert_eq!(
        &reply[..],
        &[0, 0, 0, 0, 0, 0, 0, 10, 0, 0, 0, 0, 0, 0, 0, 0, 1, 50]
    );
    handler.received(&reply[..5]);
    assert_eq!(handler.parse_reply(), Ok(None));
    handler.received(&reply[5..]);
    assert_eq!(handler.parse_reply(), Ok(Some(Response::Success(Some(s("2"))))));
    handler.received(&Handler::write_frame(Response::Error(s("Key not found"))));
    assert_eq!(
        handler.parse_reply(),
        Ok(Some(Response::Error(s("Key not found"))))
    );
    handler.received(&[0, 0, 0, 0, 0, 0, 0, 1, 7]);
    assert_eq!(handler.parse_reply(), Err(KvsError::Corruption));
}

#[test]
fn a_session_over_the_wire() {
    let mut store = KvStore::recover(Vec::new()).unwrap();
    let mut server = Handler::new();
    let mut client = Handler::new();
    let requests = vec![
        Command::Put(s("a"), s("1")),
        Command::Put(s("b"), s("2")),
        Command::Remove(s("a")),
        Command::Get(s("a")),
        Command::Get(s("b")),
        Command::Remove(s("a")),
    ];
    let mut replies = Vec::new();
    for cmd in requests {
        server.received(&cmd.into_frame());
        let got = server.parse_frame().unwrap().unwrap();
        let reply = KvsServer::dispatch(&mut store, got);
        client.received(&Handler::write_frame(reply));
        replies.push(client.parse_reply().unwrap().unwrap());
    }
    assert_eq!(
        replies,
        vec![
            Response::Success(None),
            Response::Success(None),
            Response::Success(None),
            Response::Success(None),
            Response::Success(Some(s("2"))),
            Response::Error(s("Key not found")),
        ]
    );
}

#[test]
fn respond_answers_requests_and_corrupt_messages() {
    let mut store = KvStore::recover(Vec::new()).unwrap();
    assert_eq!(
        KvsServer::respond(&mut store, Ok(Some(Command::Put(s("a"), s("1"))))),
        Some(Response::Success(None))
    );
    assert_eq!(
        KvsServer::respond(&mut store, Ok(Some(Command::Get(s("a"))))),
        Some(Response::Success(Some(s("1"))))
    );
    assert_eq!(KvsServer::respond(&mut store, Ok(None)), None);
    assert_eq!(
        KvsServer::respond(&mut store, Err(KvsError::Corruption)),
        Some(Response::Error(s("Corrupted data")))
    );
    assert_eq!(store.get(s("a")), Ok(Some(s("1"))));
}

#[test]
fn a_failed_send_ends_the_connection() {
    assert_eq!(KvsServer::after_send(true), Next::Continue);
    assert_eq!(KvsServer::after_send(false), Next::Close);
}
