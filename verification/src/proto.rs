//! The wire protocol: request and response values and their JSON payloads.
//!
//! A request is one of `{"GET":{"key":…}}`, `{"SET":{"key":…,"value":…}}`
//! and `{"RM":{"key":…}}`; a response is `{"status":…,"value":…}` with the
//! status spelled `"ErrOk"` or `"ErrKeyNotFound"`.  Each value has one byte
//! image ([`request_bytes`], [`response_bytes`]); the decoders accept a
//! payload exactly when it is such an image, so decoding inverts encoding.
use crate::codec::{append_bytes, bytes_at, esc, match_bytes, push_escaped, scan_string, string_at, B_QUOTE};
use crate::error::KvsError;
use crate::record::{bytes_to_string, lit_value};
use vstd::prelude::*;
use vstd::string::StrSliceExecFns;
use vstd::utf8::encode_utf8;

verus! {

/// Operation requested over the wire.
pub enum Request {
    /// read a key
    GET {
        /// the key to read
        key: String,
    },
    /// bind a key to a value
    SET {
        /// the key to bind
        key: String,
        /// the value to bind it to
        value: String,
    },
    /// remove a key
    RM {
        /// the key to remove
        key: String,
    },
}

/// The mathematical image of a request.
pub ghost enum RequestModel {
    /// read a key
    Get {
        /// the key to read
        key: Seq<char>,
    },
    /// bind a key to a value
    Put {
        /// the key to bind
        key: Seq<char>,
        /// the value to bind it to
        value: Seq<char>,
    },
    /// remove a key
    Rm {
        /// the key to remove
        key: Seq<char>,
    },
}

impl View for Request {
    type V = RequestModel;

    open spec fn view(&self) -> RequestModel {
        match self {
            Request::GET { key } => RequestModel::Get { key: key@ },
            Request::SET { key, value } => RequestModel::Put { key: key@, value: value@ },
            Request::RM { key } => RequestModel::Rm { key: key@ },
        }
    }
}

/// Response sent back over the wire: a status and a value (empty unless a
/// `GET` found one).
pub struct Response {
    /// outcome of the operation
    pub status: KvsError,
    /// the value read, or empty
    pub value: String,
}

/// The mathematical image of a response.
pub ghost struct ResponseModel {
    /// outcome of the operation
    pub status: KvsError,
    /// the value read, or empty
    pub value: Seq<char>,
}

impl View for Response {
    type V = ResponseModel;

    open spec fn view(&self) -> ResponseModel {
        ResponseModel { status: self.status, value: self.value@ }
    }
}

/// The bytes `{"GET":{"key":"`.
pub open spec fn lit_get() -> Seq<u8> {
    seq![0x7b, 0x22, 0x47, 0x45, 0x54, 0x22, 0x3a, 0x7b, 0x22, 0x6b, 0x65, 0x79, 0x22, 0x3a, 0x22]
}

/// The bytes `{"SET":{"key":"`.
pub open spec fn lit_set() -> Seq<u8> {
    seq![0x7b, 0x22, 0x53, 0x45, 0x54, 0x22, 0x3a, 0x7b, 0x22, 0x6b, 0x65, 0x79, 0x22, 0x3a, 0x22]
}

/// The bytes `{"RM":{"key":"`.
pub open spec fn lit_rm() -> Seq<u8> {
    seq![0x7b, 0x22, 0x52, 0x4d, 0x22, 0x3a, 0x7b, 0x22, 0x6b, 0x65, 0x79, 0x22, 0x3a, 0x22]
}

/// The bytes `}}` that close a request.
pub open spec fn lit_req_end() -> Seq<u8> {
    seq![0x7d, 0x7d]
}

/// The bytes `{"status":"ErrOk","value":"`.
pub open spec fn lit_resp_ok() -> Seq<u8> {
    seq![
        0x7b, 0x22, 0x73, 0x74, 0x61, 0x74, 0x75, 0x73, 0x22, 0x3a, 0x22, 0x45, 0x72, 0x72, 0x4f,
        0x6b, 0x22, 0x2c, 0x22, 0x76, 0x61, 0x6c, 0x75, 0x65, 0x22, 0x3a, 0x22,
    ]
}

/// The bytes `{"status":"ErrKeyNotFound","value":"`.
pub open spec fn lit_resp_nf() -> Seq<u8> {
    seq![
        0x7b, 0x22, 0x73, 0x74, 0x61, 0x74, 0x75, 0x73, 0x22, 0x3a, 0x22, 0x45, 0x72, 0x72, 0x4b,
        0x65, 0x79, 0x4e, 0x6f, 0x74, 0x46, 0x6f, 0x75, 0x6e, 0x64, 0x22, 0x2c, 0x22, 0x76, 0x61,
        0x6c, 0x75, 0x65, 0x22, 0x3a, 0x22,
    ]
}

/// The JSON payload of a request, byte for byte.
pub open spec fn request_bytes(m: RequestModel) -> Seq<u8> {
    match m {
        RequestModel::Get { key } => lit_get() + esc(encode_utf8(key)) + seq![B_QUOTE]
            + lit_req_end(),
        RequestModel::Put { key, value } => lit_set() + esc(encode_utf8(key)) + seq![B_QUOTE]
            + lit_value() + esc(encode_utf8(value)) + seq![B_QUOTE] + lit_req_end(),
        RequestModel::Rm { key } => lit_rm() + esc(encode_utf8(key)) + seq![B_QUOTE]
            + lit_req_end(),
    }
}

/// The JSON payload of a response, byte for byte.
pub open spec fn response_bytes(m: ResponseModel) -> Seq<u8> {
    (match m.status {
        KvsError::ErrOk => lit_resp_ok(),
        KvsError::ErrKeyNotFound => lit_resp_nf(),
    }) + esc(encode_utf8(m.value)) + seq![B_QUOTE, 0x7d]
}

/// The literal `{"GET":{"key":"` as a vector.
fn lit_get_x() -> (r: Vec<u8>)
    ensures
        r@ == lit_get(),
{
    let v = vec![
        0x7bu8, 0x22u8, 0x47u8, 0x45u8, 0x54u8, 0x22u8, 0x3au8, 0x7bu8, 0x22u8, 0x6bu8, 0x65u8,
        0x79u8, 0x22u8, 0x3au8, 0x22u8,
    ];
    proof {
        assert(v@ =~= lit_get());
    }
    v
}

/// The literal `{"SET":{"key":"` as a vector.
fn lit_set_x() -> (r: Vec<u8>)
    ensures
        r@ == lit_set(),
{
    let v = vec![
        0x7bu8, 0x22u8, 0x53u8, 0x45u8, 0x54u8, 0x22u8, 0x3au8, 0x7bu8, 0x22u8, 0x6bu8, 0x65u8,
        0x79u8, 0x22u8, 0x3au8, 0x22u8,
    ];
    proof {
        assert(v@ =~= lit_set());
    }
    v
}

/// The literal `{"RM":{"key":"` as a vector.
fn lit_rm_x() -> (r: Vec<u8>)
    ensures
        r@ == lit_rm(),
{
    let v = vec![
        0x7bu8, 0x22u8, 0x52u8, 0x4du8, 0x22u8, 0x3au8, 0x7bu8, 0x22u8, 0x6bu8, 0x65u8, 0x79u8,
        0x22u8, 0x3au8, 0x22u8,
    ];
    proof {
        assert(v@ =~= lit_rm());
    }
    v
}

/// The literal `{"status":"ErrOk","value":"` as a vector.
fn lit_resp_ok_x() -> (r: Vec<u8>)
    ensures
        r@ == lit_resp_ok(),
{
    let v = vec![
        0x7bu8, 0x22u8, 0x73u8, 0x74u8, 0x61u8, 0x74u8, 0x75u8, 0x73u8, 0x22u8, 0x3au8, 0x22u8,
        0x45u8, 0x72u8, 0x72u8, 0x4fu8, 0x6bu8, 0x22u8, 0x2cu8, 0x22u8, 0x76u8, 0x61u8, 0x6cu8,
        0x75u8, 0x65u8, 0x22u8, 0x3au8, 0x22u8,
    ];
    proof {
        assert(v@ =~= lit_resp_ok());
    }
    v
}

/// The literal `{"status":"ErrKeyNotFound","value":"` as a vector.
fn lit_resp_nf_x() -> (r: Vec<u8>)
    ensures
        r@ == lit_resp_nf(),
{
    let v = vec![
        0x7bu8, 0x22u8, 0x73u8, 0x74u8, 0x61u8, 0x74u8, 0x75u8, 0x73u8, 0x22u8, 0x3au8, 0x22u8,
        0x45u8, 0x72u8, 0x72u8, 0x4bu8, 0x65u8, 0x79u8, 0x4eu8, 0x6fu8, 0x74u8, 0x46u8, 0x6fu8,
        0x75u8, 0x6eu8, 0x64u8, 0x22u8, 0x2cu8, 0x22u8, 0x76u8, 0x61u8, 0x6cu8, 0x75u8, 0x65u8,
        0x22u8, 0x3au8, 0x22u8,
    ];
    proof {
        assert(v@ =~= lit_resp_nf());
    }
    v
}

/// The literal `,"value":"` as a vector.
fn lit_value_x() -> (r: Vec<u8>)
    ensures
        r@ == lit_value(),
{
    let v = vec![
        0x2cu8, 0x22u8, 0x76u8, 0x61u8, 0x6cu8, 0x75u8, 0x65u8, 0x22u8, 0x3au8, 0x22u8,
    ];
    proof {
        assert(v@ =~= lit_value());
    }
    v
}

/// Encode a request's JSON payload.
pub fn encode_request(req: &Request) -> (r: Vec<u8>)
    ensures
        r@ == request_bytes(req@),
{
    let mut buf: Vec<u8> = Vec::new();
    match req {
        Request::GET { key } => {
            let l = lit_get_x();
            append_bytes(&mut buf, &l);
            let kb = key.as_str().as_bytes_vec();
            push_escaped(&mut buf, &kb);
            buf.push(B_QUOTE);
            buf.push(0x7d);
            buf.push(0x7d);
        },
        Request::SET { key, value } => {
            let l = lit_set_x();
            append_bytes(&mut buf, &l);
            let kb = key.as_str().as_bytes_vec();
            push_escaped(&mut buf, &kb);
            buf.push(B_QUOTE);
            let lv = lit_value_x();
            append_bytes(&mut buf, &lv);
            let vb = value.as_str().as_bytes_vec();
            push_escaped(&mut buf, &vb);
            buf.push(B_QUOTE);
            buf.push(0x7d);
            buf.push(0x7d);
        },
        Request::RM { key } => {
            let l = lit_rm_x();
            append_bytes(&mut buf, &l);
            let kb = key.as_str().as_bytes_vec();
            push_escaped(&mut buf, &kb);
            buf.push(B_QUOTE);
            buf.push(0x7d);
            buf.push(0x7d);
        },
    }
    proof {
        assert(buf@ =~= request_bytes(req@));
    }
    buf
}

/// Encode a response's JSON payload.
pub fn encode_response(resp: &Response) -> (r: Vec<u8>)
    ensures
        r@ == response_bytes(resp@),
{
    let mut buf: Vec<u8> = Vec::new();
    match resp.status {
        KvsError::ErrOk => {
            let l = lit_resp_ok_x();
            append_bytes(&mut buf, &l);
        },
        KvsError::ErrKeyNotFound => {
            let l = lit_resp_nf_x();
            append_bytes(&mut buf, &l);
        },
    }
    let vb = resp.value.as_str().as_bytes_vec();
    push_escaped(&mut buf, &vb);
    buf.push(B_QUOTE);
    buf.push(0x7d);
    proof {
        assert(buf@ =~= response_bytes(resp@));
    }
    buf
}

/// Decode a request payload.  Accepts a byte string exactly when it is the
/// image of a request, and then returns that request: decoding inverts
/// encoding.
#[verifier::loop_isolation(false)]
#[verifier::rlimit(100)]
pub fn decode_request(data: &Vec<u8>) -> (r: Option<Request>)
    ensures
        r matches Some(q) ==> data@ == request_bytes(q@),
        forall|m: RequestModel| data@ == request_bytes(m) ==> (r matches Some(q) && q@ == m),
{
    let lg = lit_get_x();
    let ls = lit_set_x();
    let lr = lit_rm_x();
    let parsed: Option<Request> = if match_bytes(data, 0, &lg) {
        match scan_string(data, 15) {
            Some(p) => {
                let (kb, _) = p;
                match bytes_to_string(kb) {
                    Some(key) => Some(Request::GET { key }),
                    None => None,
                }
            },
            None => None,
        }
    } else if match_bytes(data, 0, &ls) {
        match scan_string(data, 15) {
            Some(p) => {
                let (kb, kend) = p;
                let lv = lit_value_x();
                // binds the length so the position arithmetic below stays in
                // bounds
                let dlen = data.len();
                if match_bytes(data, kend, &lv) {
                    match scan_string(data, kend + 10) {
                        Some(q) => {
                            let (vb, _) = q;
                            match (bytes_to_string(kb), bytes_to_string(vb)) {
                                (Some(key), Some(value)) => Some(Request::SET { key, value }),
                                _ => None,
                            }
                        },
                        None => None,
                    }
                } else {
                    None
                }
            },
            None => None,
        }
    } else if match_bytes(data, 0, &lr) {
        match scan_string(data, 14) {
            Some(p) => {
                let (kb, _) = p;
                match bytes_to_string(kb) {
                    Some(key) => Some(Request::RM { key }),
                    None => None,
                }
            },
            None => None,
        }
    } else {
        None
    };
    // accept only an exact image of the parsed request
    let r = match parsed {
        Some(q) => {
            let enc = encode_request(&q);
            if enc.len() == data.len() && match_bytes(data, 0, &enc) {
                Some(q)
            } else {
                None
            }
        },
        None => None,
    };
    proof {
        if r is Some {
            assert(data@ =~= request_bytes(r.unwrap()@));
        }
        assert forall|m: RequestModel| data@ == request_bytes(m) implies (r matches Some(q) && q@
            == m) by {
            lemma_request_parts(data@, m);
            assert(data@.subrange(0, data@.len() as int) =~= data@);
            match m {
                RequestModel::Get { key } => {
                    vstd::utf8::encode_utf8_valid_utf8(key);
                    vstd::utf8::encode_utf8_decode_utf8(key);
                },
                RequestModel::Put { key, value } => {
                    vstd::utf8::encode_utf8_valid_utf8(key);
                    vstd::utf8::encode_utf8_decode_utf8(key);
                    vstd::utf8::encode_utf8_valid_utf8(value);
                    vstd::utf8::encode_utf8_decode_utf8(value);
                },
                RequestModel::Rm { key } => {
                    vstd::utf8::encode_utf8_valid_utf8(key);
                    vstd::utf8::encode_utf8_decode_utf8(key);
                },
            }
        }
    }
    r
}

/// Where the pieces of a request image stand.
#[verifier::rlimit(100)]
proof fn lemma_request_parts(data: Seq<u8>, m: RequestModel)
    requires
        data == request_bytes(m),
    ensures
        match m {
            RequestModel::Get { key } => bytes_at(data, 0, lit_get()) && string_at(
                data,
                15,
                encode_utf8(key),
            ) && !bytes_at(data, 0, lit_set()) && !bytes_at(data, 0, lit_rm()),
            RequestModel::Put { key, value } => {
                &&& bytes_at(data, 0, lit_set())
                &&& string_at(data, 15, encode_utf8(key))
                &&& bytes_at(data, 16 + esc(encode_utf8(key)).len() as int, lit_value())
                &&& string_at(data, 26 + esc(encode_utf8(key)).len() as int, encode_utf8(value))
                &&& !bytes_at(data, 0, lit_get())
                &&& !bytes_at(data, 0, lit_rm())
            },
            RequestModel::Rm { key } => bytes_at(data, 0, lit_rm()) && string_at(
                data,
                14,
                encode_utf8(key),
            ) && !bytes_at(data, 0, lit_get()) && !bytes_at(data, 0, lit_set()),
        },
{
    assert(bytes_at(data, 0, data)) by {
        assert(data.subrange(0, data.len() as int) =~= data);
    }
    match m {
        RequestModel::Get { key } => {
            let a = lit_get();
            let d = esc(encode_utf8(key));
            let q = seq![B_QUOTE];
            let h = lit_req_end();
            crate::codec::lemma_bytes_at_split(data, 0, a + d + q, h);
            crate::codec::lemma_bytes_at_split(data, 0, a + d, q);
            crate::codec::lemma_bytes_at_split(data, 0, a, d);
            crate::codec::lemma_bytes_at_join(data, 15, d, q);
            assert(string_at(data, 15, encode_utf8(key)));
            assert(data[2] == 0x47) by {
                assert(data[2] == data.subrange(0, 15)[2]);
            }
            assert(!bytes_at(data, 0, lit_set())) by {
                if bytes_at(data, 0, lit_set()) {
                    assert(data[2] == data.subrange(0, 15)[2]);
                }
            }
            assert(!bytes_at(data, 0, lit_rm())) by {
                if bytes_at(data, 0, lit_rm()) {
                    assert(data[2] == data.subrange(0, 14)[2]);
                }
            }
        },
        RequestModel::Put { key, value } => {
            let a = lit_set();
            let d = esc(encode_utf8(key));
            let q = seq![B_QUOTE];
            let f = lit_value();
            let g = esc(encode_utf8(value));
            let h = lit_req_end();
            crate::codec::lemma_bytes_at_split(data, 0, a + d + q + f + g + q, h);
            crate::codec::lemma_bytes_at_split(data, 0, a + d + q + f + g, q);
            crate::codec::lemma_bytes_at_split(data, 0, a + d + q + f, g);
            crate::codec::lemma_bytes_at_split(data, 0, a + d + q, f);
            crate::codec::lemma_bytes_at_split(data, 0, a + d, q);
            crate::codec::lemma_bytes_at_split(data, 0, a, d);
            crate::codec::lemma_bytes_at_join(data, 15, d, q);
            assert(string_at(data, 15, encode_utf8(key)));
            crate::codec::lemma_bytes_at_join(data, 26 + d.len() as int, g, q);
            assert(string_at(data, 26 + d.len() as int, encode_utf8(value)));
            assert(data[2] == 0x53) by {
                assert(data[2] == data.subrange(0, 15)[2]);
            }
            assert(!bytes_at(data, 0, lit_get())) by {
                if bytes_at(data, 0, lit_get()) {
                    assert(data[2] == data.subrange(0, 15)[2]);
                }
            }
            assert(!bytes_at(data, 0, lit_rm())) by {
                if bytes_at(data, 0, lit_rm()) {
                    assert(data[2] == data.subrange(0, 14)[2]);
                }
            }
        },
        RequestModel::Rm { key } => {
            let a = lit_rm();
            let d = esc(encode_utf8(key));
            let q = seq![B_QUOTE];
            let h = lit_req_end();
            crate::codec::lemma_bytes_at_split(data, 0, a + d + q, h);
            crate::codec::lemma_bytes_at_split(data, 0, a + d, q);
            crate::codec::lemma_bytes_at_split(data, 0, a, d);
            crate::codec::lemma_bytes_at_join(data, 14, d, q);
            assert(string_at(data, 14, encode_utf8(key)));
            assert(data[2] == 0x52) by {
                assert(data[2] == data.subrange(0, 14)[2]);
            }
            assert(!bytes_at(data, 0, lit_get())) by {
                if bytes_at(data, 0, lit_get()) {
                    assert(data[2] == data.subrange(0, 15)[2]);
                }
            }
            assert(!bytes_at(data, 0, lit_set())) by {
                if bytes_at(data, 0, lit_set()) {
                    assert(data[2] == data.subrange(0, 15)[2]);
                }
            }
        },
    }
}

/// Decode a response payload.  Accepts a byte string exactly when it is the
/// image of a response, and then returns that response: decoding inverts
/// encoding.
#[verifier::loop_isolation(false)]
#[verifier::rlimit(100)]
pub fn decode_response(data: &Vec<u8>) -> (r: Option<Response>)
    ensures
        r matches Some(p) ==> data@ == response_bytes(p@),
        forall|m: ResponseModel| data@ == response_bytes(m) ==> (r matches Some(p) && p@ == m),
{
    let lo = lit_resp_ok_x();
    let ln = lit_resp_nf_x();
    let parsed: Option<Response> = if match_bytes(data, 0, &lo) {
        match scan_string(data, 27) {
            Some(p) => {
                let (vb, _) = p;
                match bytes_to_string(vb) {
                    Some(value) => Some(Response { status: KvsError::ErrOk, value }),
                    None => None,
                }
            },
            None => None,
        }
    } else if match_bytes(data, 0, &ln) {
        match scan_string(data, 36) {
            Some(p) => {
                let (vb, _) = p;
                match bytes_to_string(vb) {
                    Some(value) => Some(Response { status: KvsError::ErrKeyNotFound, value }),
                    None => None,
                }
            },
            None => None,
        }
    } else {
        None
    };
    let r = match parsed {
        Some(p) => {
            let enc = encode_response(&p);
            if enc.len() == data.len() && match_bytes(data, 0, &enc) {
                Some(p)
            } else {
                None
            }
        },
        None => None,
    };
    proof {
        if r is Some {
            assert(data@ =~= response_bytes(r.unwrap()@));
        }
        assert forall|m: ResponseModel| data@ == response_bytes(m) implies (r matches Some(p) && p@
            == m) by {
            lemma_response_parts(data@, m);
            assert(data@.subrange(0, data@.len() as int) =~= data@);
            vstd::utf8::encode_utf8_valid_utf8(m.value);
            vstd::utf8::encode_utf8_decode_utf8(m.value);
        }
    }
    r
}

/// Where the pieces of a response image stand.
#[verifier::rlimit(100)]
proof fn lemma_response_parts(data: Seq<u8>, m: ResponseModel)
    requires
        data == response_bytes(m),
    ensures
        match m.status {
            KvsError::ErrOk => bytes_at(data, 0, lit_resp_ok()) && string_at(
                data,
                27,
                encode_utf8(m.value),
            ) && !bytes_at(data, 0, lit_resp_nf()),
            KvsError::ErrKeyNotFound => bytes_at(data, 0, lit_resp_nf()) && string_at(
                data,
                36,
                encode_utf8(m.value),
            ) && !bytes_at(data, 0, lit_resp_ok()),
        },
{
    assert(bytes_at(data, 0, data)) by {
        assert(data.subrange(0, data.len() as int) =~= data);
    }
    let g = esc(encode_utf8(m.value));
    let tail = seq![B_QUOTE, 0x7du8];
    match m.status {
        KvsError::ErrOk => {
            let a = lit_resp_ok();
            crate::codec::lemma_bytes_at_split(data, 0, a + g, tail);
            crate::codec::lemma_bytes_at_split(data, 0, a, g);
            assert(tail =~= seq![B_QUOTE] + seq![0x7du8]);
            crate::codec::lemma_bytes_at_split(data, 27 + g.len() as int, seq![B_QUOTE], seq![0x7du8]);
            crate::codec::lemma_bytes_at_join(data, 27, g, seq![B_QUOTE]);
            assert(string_at(data, 27, encode_utf8(m.value)));
            assert(data[14] == 0x4f) by {
                assert(data[14] == data.subrange(0, 27)[14]);
            }
            assert(!bytes_at(data, 0, lit_resp_nf())) by {
                if bytes_at(data, 0, lit_resp_nf()) {
                    assert(data[14] == data.subrange(0, 36)[14]);
                }
            }
        },
        KvsError::ErrKeyNotFound => {
            let a = lit_resp_nf();
            crate::codec::lemma_bytes_at_split(data, 0, a + g, tail);
            crate::codec::lemma_bytes_at_split(data, 0, a, g);
            assert(tail =~= seq![B_QUOTE] + seq![0x7du8]);
            crate::codec::lemma_bytes_at_split(data, 36 + g.len() as int, seq![B_QUOTE], seq![0x7du8]);
            crate::codec::lemma_bytes_at_join(data, 36, g, seq![B_QUOTE]);
            assert(string_at(data, 36, encode_utf8(m.value)));
            assert(data[14] == 0x4b) by {
                assert(data[14] == data.subrange(0, 36)[14]);
            }
            assert(!bytes_at(data, 0, lit_resp_ok())) by {
                if bytes_at(data, 0, lit_resp_ok()) {
                    assert(data[14] == data.subrange(0, 27)[14]);
                }
            }
        },
    }
}

} // verus!
