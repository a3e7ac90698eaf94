//! The server core and the wire protocol, driven end to end through the
//! codecs, and the engine-kind gate.

use kvs::codec::decode_op;
use kvs::codec::encode_op;
use kvs::codec::DecodeOutcome;
use kvs::engines::check_engine;
use kvs::engines::KvStore;
use kvs::error::KvsErrorType;
use kvs::response::decode_response;
use kvs::response::encode_response;
use kvs::response::Response;
use kvs::response::RespDecodeOutcome;
use kvs::server::KvsServer;
use kvs::thread_pool::pool_size;
use kvs::Operation;

#[test]
fn handle_op_maps_outcomes_to_responses() {
    let mut server = KvsServer::new(KvStore::new());
    let foo = String::from("foo");

    let resp = server.handle_op(Operation::set(&foo, String::from("bar")));
    assert_eq!(resp.status, 0);
    assert_eq!(resp.msg, None);

    let resp = server.handle_op(Operation::get(&foo));
    assert_eq!(resp.status, 0);
    assert_eq!(resp.msg, Some(String::from("bar")));

    let resp = server.handle_op(Operation::remove(&foo));
    assert_eq!(resp.status, 0);
    assert_eq!(resp.msg, None);

    let resp = server.handle_op(Operation::get(&foo));
    assert_eq!(resp.status, -1);
    assert_eq!(resp.msg, Some(String::from("Key not found")));

    let resp = server.handle_op(Operation::remove(&foo));
    assert_eq!(resp.status, -1);
    assert_eq!(resp.msg, Some(String::from("KeyNotFound")));
}

#[test]
fn wire_round_trip_of_a_session() {
    // The client encodes a run of requests into its outgoing stream.
    let foo = String::from("foo");
    let requests = vec![
        Operation::set(&foo, String::from("bar")),
        Operation::get(&foo),
        Operation::remove(&foo),
        Operation::get(&foo),
    ];
    let mut wire_in: Vec<u8> = Vec::new();
    for op in &requests {
        wire_in.extend_from_slice(&encode_op(op));
    }

    // The server decodes each frame, serves it, and answers in order.
    let mut server = KvsServer::new(KvStore::new());
    let mut wire_out: Vec<u8> = Vec::new();
    let mut pos = 0usize;
    let mut served = 0usize;
    while pos < wire_in.len() {
        match decode_op(&wire_in, pos) {
            DecodeOutcome::Decoded { op, next } => {
                let resp = server.handle_op(op);
                wire_out.extend_from_slice(&encode_response(&resp));
                pos = next;
                served += 1;
            }
            _ => panic!("server saw a bad frame"),
        }
    }
    assert_eq!(served, requests.len());

    // The client reads the responses back.
    let mut answers = Vec::new();
    let mut pos = 0usize;
    while pos < wire_out.len() {
        match decode_response(&wire_out, pos) {
            RespDecodeOutcome::Decoded { resp, next } => {
                answers.push(resp);
                pos = next;
            }
            _ => panic!("client saw a bad frame"),
        }
    }
    assert_eq!(answers.len(), 4);
    assert_eq!((answers[0].status, answers[0].msg.clone()), (0, None));
    assert_eq!(
        (answers[1].status, answers[1].msg.clone()),
        (0, Some(String::from("bar")))
    );
    assert_eq!((answers[2].status, answers[2].msg.clone()), (0, None));
    assert_eq!(
        (answers[3].status, answers[3].msg.clone()),
        (-1, Some(String::from("Key not found")))
    );
}

#[test]
fn server_set_and_get_fire_and_forget() {
    let mut server = KvsServer::new(KvStore::new());
    server.set(String::from("a"), String::from("1"));
    server.get(String::from("a"));
    let resp = server.handle_op(Operation::get(&String::from("a")));
    assert_eq!(resp.status, 0);
    assert_eq!(resp.msg, Some(String::from("1")));
}

#[test]
fn check_engine_gate() {
    assert!(check_engine(&None, &String::from("kvs")).is_ok());
    assert!(check_engine(&Some(String::from("kvs")), &String::from("kvs")).is_ok());
    let err = check_engine(&Some(String::from("sled")), &String::from("kvs")).unwrap_err();
    assert_eq!(err.kind(), KvsErrorType::Other);
}

#[test]
fn error_messages_name_the_kind() {
    let kinds = vec![
        (KvsErrorType::IOError, "IOError"),
        (KvsErrorType::SerdeError, "SerdeError"),
        (KvsErrorType::UnknownOperation, "UnknownOperation"),
        (KvsErrorType::KeyNotFound, "KeyNotFound"),
        (KvsErrorType::SledError, "SledError"),
        (KvsErrorType::Other, "Other"),
    ];
    for (kind, name) in kinds {
        let e = kvs::error::KvsError::from(kind);
        assert_eq!(e.kind(), kind);
        assert_eq!(e.message(), name);
    }
}

#[test]
fn pool_sizing() {
    assert_eq!(pool_size(4), 4);
    assert_eq!(pool_size(1), 1);
    assert!(pool_size(0) >= 1);
}
