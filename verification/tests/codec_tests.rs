use kvs::CommandRequest;
use kvs::CommandResponse;
use kvs::Kvpair;
use kvs::Value;
use kvs::decode_request;
use kvs::decode_response;
use kvs::encode_request;
use kvs::encode_response;
use kvs::read_frame;
use kvs::write_frame;

fn request_round_trips(req: CommandRequest) {
    let bytes = encode_request(&req);
    let back = decode_request(&bytes).expect("a just-encoded request must decode");
    // compare through re-encoding: the codec pins the bytes exactly
    assert_eq!(encode_request(&back), bytes);
}

#[test]
fn requests_round_trip() {
    request_round_trips(CommandRequest { request_data: None });
    request_round_trips(CommandRequest::new_hget("table", "key"));
    request_round_trips(CommandRequest::new_hgetall("t"));
    request_round_trips(CommandRequest::new_hset("t", "k", Value::Str("héllo".to_string())));
    request_round_trips(CommandRequest::new_hset("t", "k", Value::Int(-5)));
    request_round_trips(CommandRequest::new_hset("t", "k", Value::Float((2.5f64).to_bits())));
    request_round_trips(CommandRequest::new_hset("t", "k", Value::Bool(false)));
    request_round_trips(CommandRequest::new_hset("t", "k", Value::Bytes(vec![0, 255, 7])));
    request_round_trips(CommandRequest::new_hset("t", "k", Value::Empty));
    request_round_trips(CommandRequest::new_hdel("t", "k"));
    request_round_trips(CommandRequest::new_hexist("t", "k"));
}

#[test]
fn decoded_requests_carry_the_sent_fields() {
    let bytes = encode_request(&CommandRequest::new_hget("t1", "k1"));
    match decode_request(&bytes).unwrap().request_data {
        Some(kvs::RequestData::Hget(p)) => {
            assert_eq!(p.table, "t1");
            assert_eq!(p.key, "k1");
        }
        other => panic!("wrong variant: {:?}", other),
    }
}

#[test]
fn responses_round_trip() {
    let resp = CommandResponse {
        status: 404,
        message: "Not found".to_string(),
        values: vec![Value::Int(1), Value::Str("x".to_string())],
        pairs: vec![Kvpair::new("k", Value::Bool(true))],
    };
    let bytes = encode_response(&resp);
    let back = decode_response(&bytes).expect("a just-encoded response must decode");
    assert_eq!(back.status, 404);
    assert_eq!(back.message, "Not found");
    assert_eq!(back.values, resp.values);
    assert_eq!(back.pairs, resp.pairs);
}

#[test]
fn truncated_or_garbled_payloads_are_refused() {
    let bytes = encode_request(&CommandRequest::new_hget("t1", "k1"));
    // truncated
    let cut = bytes[..bytes.len() - 1].to_vec();
    assert!(decode_request(&cut).is_none());
    // trailing garbage
    let mut long = bytes.clone();
    long.push(0);
    assert!(decode_request(&long).is_none());
    // unknown tag
    assert!(decode_request(&vec![9u8]).is_none());
    // empty payload
    assert!(decode_request(&Vec::new()).is_none());
    // a string that is not UTF-8: tag 2 (Hgetall) + counted run of one bad byte
    let mut bad = vec![2u8, 1, 0, 0, 0, 0, 0, 0, 0];
    bad.push(0xff);
    assert!(decode_request(&bad).is_none());
}

#[test]
fn frames_keep_their_boundaries() {
    let p1 = encode_request(&CommandRequest::new_hget("t", "a"));
    let p2 = encode_request(&CommandRequest::new_hgetall("t"));
    let mut stream: Vec<u8> = Vec::new();
    write_frame(&mut stream, &p1);
    write_frame(&mut stream, &p2);

    let (got1, next) = read_frame(&stream, 0).unwrap();
    assert_eq!(got1, p1);
    // even if the first payload fails to decode, the boundary stands and the
    // second frame is intact
    let mut broken = got1.clone();
    broken[0] = 9;
    assert!(decode_request(&broken).is_none());
    let (got2, end) = read_frame(&stream, next).unwrap();
    assert_eq!(got2, p2);
    assert_eq!(end, stream.len());
    // an incomplete trailing frame is refused
    assert!(read_frame(&stream, end).is_none());
}
