//! Frame codec behavior: header decoding, round trips, the compression
//! boundary, and decode failures.
use kvs::codec::decode_header;
use kvs::types::{CommandRequest, CommandResponse, KvError, Status, Value};
use kvs::wire::serialize_request;

fn is_compressed(data: &[u8]) -> bool {
    if let &[v] = &data[..1] {
        v >> 7 == 1
    } else {
        false
    }
}

fn response_of(values: Vec<Value>) -> CommandResponse {
    CommandResponse { status: Status::Success, message: String::new(), values, pairs: Vec::new() }
}

#[test]
fn should_decode_header_work() {
    let encode_header = |len: u32| {
        if len >= 1436 {
            len | (3u32 << 30)
        } else {
            len
        }
    };

    let header = encode_header(1);
    assert_eq!(decode_header(header), (1, false));

    let header = encode_header(0);
    assert_eq!(decode_header(header), (0, false));

    let header = encode_header(1000);
    assert_eq!(decode_header(header), (1000, false));

    let header = encode_header(1436);
    assert_eq!(decode_header(header), (1436, true));

    let header = encode_header(10000);
    assert_eq!(decode_header(header), (10000, true));
}

#[test]
fn command_request_encode_decode_should_work() {
    let cmd = CommandRequest::new_delete("t1".to_string(), "k1".to_string());
    let buf = cmd.encode_frame().unwrap();

    assert_eq!(is_compressed(&buf), false);

    let (cmd1, _) = CommandRequest::decode_frame(&buf).unwrap();
    assert_eq!(cmd, cmd1);
}

#[test]
fn command_response_encode_decode_should_work() {
    let values: Vec<Value> = vec![
        Value::Integer(1),
        Value::Text("hello".to_string()),
        Value::Binary(b"data".to_vec()),
    ];
    let res = response_of(values);
    let buf = res.encode_frame().unwrap();

    assert_eq!(is_compressed(&buf), false);

    let (res1, _) = CommandResponse::decode_frame(&buf).unwrap();
    assert_eq!(res, res1);
}

#[test]
fn command_response_compressed_encode_decode_should_work() {
    let value = Value::Binary(vec![0u8; 1436 + 1]);
    let res = response_of(vec![value]);
    let buf = res.encode_frame().unwrap();

    assert_eq!(is_compressed(&buf), true);

    let (res1, _) = CommandResponse::decode_frame(&buf).unwrap();
    assert_eq!(res, res1);
}

#[test]
fn compressed_frame_reproduces_payload() {
    let res = response_of(vec![Value::Binary(vec![0u8; 1437])]);
    let buf = res.encode_frame().unwrap();
    assert_eq!(buf[0] >> 7, 1);

    let (res1, used) = CommandResponse::decode_frame(&buf).unwrap();
    assert_eq!(used, buf.len());
    assert_eq!(res1.values.len(), 1);
    match &res1.values[0] {
        Value::Binary(b) => {
            assert_eq!(b.len(), 1437);
            assert!(b.iter().all(|x| *x == 0));
        },
        _ => panic!("expected a binary value"),
    }
}

#[test]
fn compression_boundary_pinned() {
    // A Delete request with a one-character table serializes to
    // 1 + (8 + 1) + (8 + key_len) bytes.
    let cmd = CommandRequest::new_delete("t".to_string(), "k".repeat(1418));
    let buf = cmd.encode_frame().unwrap();
    assert_eq!(buf.len(), 4 + 1436);
    assert_eq!(is_compressed(&buf), false);

    let cmd2 = CommandRequest::new_delete("t".to_string(), "k".repeat(1419));
    let buf2 = cmd2.encode_frame().unwrap();
    assert_eq!(is_compressed(&buf2), true);
    let (cmd3, _) = CommandRequest::decode_frame(&buf2).unwrap();
    assert_eq!(cmd2, cmd3);
}

#[test]
fn wire_format_exact_bytes() {
    let cmd = CommandRequest::new_delete("a".to_string(), "b".to_string());
    let payload = serialize_request(&cmd);
    assert_eq!(
        payload,
        vec![2u8, 1, 0, 0, 0, 0, 0, 0, 0, 97, 1, 0, 0, 0, 0, 0, 0, 0, 98]
    );
    let buf = cmd.encode_frame().unwrap();
    assert_eq!(&buf[0..4], &[0u8, 0, 0, 19]);
}

#[test]
fn zero_length_payload_roundtrip() {
    // The shortest encodable request still round-trips; an empty buffer and a
    // frame whose payload is not a valid message are decode errors.
    let cmd = CommandRequest::new_get_all(String::new());
    let buf = cmd.encode_frame().unwrap();
    let (cmd1, used) = CommandRequest::decode_frame(&buf).unwrap();
    assert_eq!(used, buf.len());
    assert_eq!(cmd, cmd1);
}

#[test]
fn decode_error_on_garbage() {
    assert!(matches!(
        CommandRequest::decode_frame(&Vec::new()),
        Err(KvError::DecodeError)
    ));
    let bad = vec![0u8, 0, 0, 3, 9, 9, 9];
    assert!(matches!(
        CommandRequest::decode_frame(&bad),
        Err(KvError::DecodeError)
    ));
}

#[test]
fn unicode_text_roundtrip() {
    let cmd = CommandRequest::new_set(
        "table one".to_string(),
        "clé".to_string(),
        Value::Text("värde 値".to_string()),
    );
    let buf = cmd.encode_frame().unwrap();
    let (cmd1, _) = CommandRequest::decode_frame(&buf).unwrap();
    assert_eq!(cmd, cmd1);
}

#[test]
fn zero_length_frame_bytes_roundtrip() {
    let frame = kvs::codec::encode_frame_bytes(&Vec::new()).unwrap();
    assert_eq!(frame, vec![0u8, 0, 0, 0]);
    let (payload, used) = kvs::codec::decode_frame_bytes(&frame).unwrap();
    assert_eq!(used, 4);
    assert_eq!(payload.len(), 0);
}
