use kvs::proto::{decode_request, decode_response, encode_request, encode_response};
use kvs::server::handle_request;
use kvs::{KvStore, KvsError, Request, Response};

fn round_trip_request(req: Request) -> Request {
    let bytes = encode_request(&req);
    decode_request(&bytes).expect("a freshly encoded request must decode")
}

fn round_trip_response(resp: Response) -> Response {
    let bytes = encode_response(&resp);
    decode_response(&bytes).expect("a freshly encoded response must decode")
}

#[test]
fn request_round_trip_get() {
    let back = round_trip_request(Request::GET { key: "a key".to_owned() });
    match back {
        Request::GET { key } => assert_eq!(key, "a key"),
        _ => panic!("wrong variant"),
    }
}

#[test]
fn request_round_trip_set() {
    let back = round_trip_request(Request::SET {
        key: "k\"quote".to_owned(),
        value: "v\\slash\u{00e9}".to_owned(),
    });
    match back {
        Request::SET { key, value } => {
            assert_eq!(key, "k\"quote");
            assert_eq!(value, "v\\slash\u{00e9}");
        }
        _ => panic!("wrong variant"),
    }
}

#[test]
fn request_round_trip_rm() {
    let back = round_trip_request(Request::RM { key: "gone".to_owned() });
    match back {
        Request::RM { key } => assert_eq!(key, "gone"),
        _ => panic!("wrong variant"),
    }
}

#[test]
fn response_round_trip_both_statuses() {
    let ok = round_trip_response(Response { status: KvsError::ErrOk, value: "val".to_owned() });
    assert_eq!(ok.status, KvsError::ErrOk);
    assert_eq!(ok.value, "val");
    let nf = round_trip_response(Response {
        status: KvsError::ErrKeyNotFound,
        value: "".to_owned(),
    });
    assert_eq!(nf.status, KvsError::ErrKeyNotFound);
    assert_eq!(nf.value, "");
}

#[test]
fn request_payload_is_plain_json() {
    let bytes = encode_request(&Request::SET { key: "k".to_owned(), value: "v".to_owned() });
    assert_eq!(bytes, b"{\"SET\":{\"key\":\"k\",\"value\":\"v\"}}".to_vec());
    let bytes = encode_request(&Request::GET { key: "k".to_owned() });
    assert_eq!(bytes, b"{\"GET\":{\"key\":\"k\"}}".to_vec());
    let bytes = encode_request(&Request::RM { key: "k".to_owned() });
    assert_eq!(bytes, b"{\"RM\":{\"key\":\"k\"}}".to_vec());
}

#[test]
fn response_payload_is_plain_json() {
    let bytes = encode_response(&Response { status: KvsError::ErrOk, value: "v".to_owned() });
    assert_eq!(bytes, b"{\"status\":\"ErrOk\",\"value\":\"v\"}".to_vec());
}

#[test]
fn decoder_rejects_garbage() {
    assert!(decode_request(&b"{\"PUT\":{\"key\":\"k\"}}".to_vec()).is_none());
    assert!(decode_request(&b"".to_vec()).is_none());
    assert!(decode_response(&b"{\"status\":\"Weird\",\"value\":\"\"}".to_vec()).is_none());
}

#[test]
fn frame_round_trip() {
    let payload = encode_request(&Request::GET { key: "k".to_owned() });
    let mut framed: Vec<u8> = Vec::new();
    kvs::codec::push_be32(&mut framed, payload.len() as u32);
    kvs::codec::append_bytes(&mut framed, &payload);
    let len = kvs::codec::read_be32(&framed, 0) as usize;
    assert_eq!(len, payload.len());
    let body = kvs::io::read_n(&framed, 4, len);
    assert_eq!(body, payload);
}

#[test]
fn dispatch_set_get_rm() {
    let mut s = KvStore::open(Vec::new());
    let r = handle_request(&mut s, Request::SET { key: "k".to_owned(), value: "v".to_owned() });
    assert_eq!(r.status, KvsError::ErrOk);
    let r = handle_request(&mut s, Request::GET { key: "k".to_owned() });
    assert_eq!(r.status, KvsError::ErrOk);
    assert_eq!(r.value, "v");
    let r = handle_request(&mut s, Request::RM { key: "k".to_owned() });
    assert_eq!(r.status, KvsError::ErrOk);
    let r = handle_request(&mut s, Request::GET { key: "k".to_owned() });
    assert_eq!(r.status, KvsError::ErrKeyNotFound);
    assert_eq!(r.value, "");
    let r = handle_request(&mut s, Request::RM { key: "k".to_owned() });
    assert_eq!(r.status, KvsError::ErrKeyNotFound);
}

#[test]
fn many_clients_worth_of_requests_through_the_wire() {
    // the work of many client connections, replayed through the full wire
    // path: decode each framed request, dispatch it, encode the response
    let mut s = KvStore::open(Vec::new());
    for i in 0..1000 {
        let req = encode_request(&Request::SET {
            key: format!("key_{}", i),
            value: format!("value_{}", i),
        });
        let decoded = decode_request(&req).unwrap();
        let resp = handle_request(&mut s, decoded);
        assert_eq!(resp.status, KvsError::ErrOk);
    }
    for i in 0..1000 {
        let req = encode_request(&Request::GET { key: format!("key_{}", i) });
        let decoded = decode_request(&req).unwrap();
        let resp = handle_request(&mut s, decoded);
        let bytes = encode_response(&resp);
        let back = decode_response(&bytes).unwrap();
        assert_eq!(back.status, KvsError::ErrOk);
        assert_eq!(back.value, format!("value_{}", i));
    }
}
