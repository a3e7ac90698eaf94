//! Frame, response, integer and state-file codecs, exercised end to end.

use kvs::codec::decode_op;
use kvs::codec::encode_op;
use kvs::codec::le8;
use kvs::codec::read_le8;
use kvs::codec::DecodeOutcome;
use kvs::engines::kvs::decode_status;
use kvs::engines::kvs::encode_status;
use kvs::engines::kvs::log_filename;
use kvs::engines::kvs::status_filename;
use kvs::engines::kvs::LogStatus;
use kvs::response::decode_response;
use kvs::response::encode_response;
use kvs::response::Response;
use kvs::response::RespDecodeOutcome;
use kvs::Operation;

#[test]
fn le8_round_trip() {
    let mut buf = vec![0xAAu8, 0xBB];
    let mut enc = le8(0x0123_4567_89AB_CDEF);
    buf.append(&mut enc);
    assert_eq!(buf.len(), 10);
    assert_eq!(read_le8(&buf, 2), 0x0123_4567_89AB_CDEF);
    let zero = le8(0);
    assert_eq!(zero, vec![0u8; 8]);
    let max = le8(u64::MAX);
    assert_eq!(read_le8(&max, 0), u64::MAX);
}

#[test]
fn op_round_trip_put() {
    let key = String::from("hello");
    let op = Operation::set(&key, String::from("wörld"));
    let frame = encode_op(&op);
    match decode_op(&frame, 0) {
        DecodeOutcome::Decoded { op: back, next } => {
            assert_eq!(next, frame.len());
            match back {
                Operation::Put { key, value } => {
                    assert_eq!(key, "hello");
                    assert_eq!(value, "wörld");
                }
                _ => panic!("wrong variant"),
            }
        }
        _ => panic!("frame did not decode"),
    }
}

#[test]
fn op_round_trip_remove_and_get() {
    let key = String::from("k1");
    for op in [Operation::remove(&key), Operation::get(&key)] {
        let frame = encode_op(&op);
        match decode_op(&frame, 0) {
            DecodeOutcome::Decoded { op: back, next } => {
                assert_eq!(next, frame.len());
                match (&op, &back) {
                    (Operation::Remove { .. }, Operation::Remove { key }) => {
                        assert_eq!(key, "k1")
                    }
                    (Operation::Get { .. }, Operation::Get { key }) => assert_eq!(key, "k1"),
                    _ => panic!("wrong variant"),
                }
            }
            _ => panic!("frame did not decode"),
        }
    }
}

#[test]
fn op_decode_with_offset_and_tail() {
    let k1 = String::from("a");
    let k2 = String::from("b");
    let mut buf = encode_op(&Operation::set(&k1, String::from("1")));
    let first_len = buf.len();
    buf.extend_from_slice(&encode_op(&Operation::remove(&k2)));
    match decode_op(&buf, 0) {
        DecodeOutcome::Decoded { next, .. } => assert_eq!(next, first_len),
        _ => panic!("first frame did not decode"),
    }
    match decode_op(&buf, first_len) {
        DecodeOutcome::Decoded { op, next } => {
            assert_eq!(next, buf.len());
            assert!(matches!(op, Operation::Remove { .. }));
        }
        _ => panic!("second frame did not decode"),
    }
}

#[test]
fn op_decode_truncated_is_incomplete() {
    let key = String::from("some-key");
    let mut frame = encode_op(&Operation::set(&key, String::from("some-value")));
    frame.pop();
    assert!(matches!(decode_op(&frame, 0), DecodeOutcome::Incomplete));
    assert!(matches!(decode_op(&frame[..5].to_vec(), 0), DecodeOutcome::Incomplete));
}

#[test]
fn op_decode_bad_tag_is_malformed() {
    let key = String::from("k");
    let mut frame = encode_op(&Operation::get(&key));
    frame[0] = 0xFF;
    assert!(matches!(decode_op(&frame, 0), DecodeOutcome::Malformed));
}

#[test]
fn op_decode_bad_utf8_is_malformed() {
    let key = String::from("k");
    let mut frame = encode_op(&Operation::remove(&key));
    let n = frame.len();
    frame[n - 1] = 0xFF;
    assert!(matches!(decode_op(&frame, 0), DecodeOutcome::Malformed));
}

#[test]
fn response_round_trip() {
    let cases = vec![
        Response::ok(String::from("value")),
        Response::ok_without_msg(),
        Response::err(String::from("Key not found")),
        Response { status: 7, msg: None },
        Response { status: -2_000_000, msg: Some(String::from("x")) },
        Response { status: i32::MIN, msg: None },
        Response { status: i32::MAX, msg: Some(String::new()) },
    ];
    for resp in cases {
        let frame = encode_response(&resp);
        match decode_response(&frame, 0) {
            RespDecodeOutcome::Decoded { resp: back, next } => {
                assert_eq!(next, frame.len());
                assert_eq!(back.status, resp.status);
                assert_eq!(back.msg, resp.msg);
            }
            _ => panic!("response did not decode"),
        }
    }
}

#[test]
fn response_decode_truncated_is_incomplete() {
    let mut frame = encode_response(&Response::ok(String::from("v")));
    frame.pop();
    assert!(matches!(decode_response(&frame, 0), RespDecodeOutcome::Incomplete));
}

#[test]
fn response_constructors() {
    let ok = Response::ok(String::from("m"));
    assert_eq!(ok.status, 0);
    assert_eq!(ok.msg, Some(String::from("m")));
    let quiet = Response::ok_without_msg();
    assert_eq!(quiet.status, 0);
    assert_eq!(quiet.msg, None);
    let err = Response::err(String::from("bad"));
    assert_eq!(err.status, -1);
    assert_eq!(err.msg, Some(String::from("bad")));
}

#[test]
fn status_file_round_trip() {
    for id in [0u64, 1, 9, 10, 42, 1_000_000, u64::MAX] {
        let bytes = encode_status(&LogStatus { cur_file_id: id });
        assert_eq!(decode_status(&bytes), Some(id));
    }
}

#[test]
fn status_file_exact_bytes() {
    let bytes = encode_status(&LogStatus { cur_file_id: 7 });
    assert_eq!(bytes, b"{\"cur_file_id\":7}".to_vec());
    let bytes = encode_status(&LogStatus { cur_file_id: 1048576 });
    assert_eq!(bytes, b"{\"cur_file_id\":1048576}".to_vec());
}

#[test]
fn status_file_rejects_torn_and_garbage() {
    let mut bytes = encode_status(&LogStatus { cur_file_id: 12345 });
    bytes.pop();
    assert_eq!(decode_status(&bytes), None);
    assert_eq!(decode_status(&b"".to_vec()), None);
    assert_eq!(decode_status(&b"{\"cur_file_id\":}".to_vec()), None);
    assert_eq!(decode_status(&b"{\"cur_file_id\":12a}".to_vec()), None);
    assert_eq!(decode_status(&b"(\"cur_file_id\":12}".to_vec()), None);
    assert_eq!(decode_status(&b"{\"cur_file_id\":123456789012345678901}".to_vec()), None);
    assert_eq!(decode_status(&b"{\"cur_file_id\":99999999999999999999}".to_vec()), None);
}

#[test]
fn log_status_new_starts_at_zero() {
    assert_eq!(LogStatus::new().cur_file_id, 0);
}

#[test]
fn filenames() {
    assert_eq!(status_filename(), "status.json");
    assert_eq!(log_filename(0), "0.log");
    assert_eq!(log_filename(3), "3.log");
    assert_eq!(log_filename(1234567890), "1234567890.log");
}
