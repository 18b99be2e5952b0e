//! The on-disk record: a version tag, a key and a value, stored as a
//! length-prefixed JSON object `{"version":N,"key":"…","value":"…"}`.
//!
//! [`record_bytes`] is the exact byte image of one record payload and
//! [`rec_enc`] adds the four-byte big-endian length prefix.  The encoder
//! produces exactly that image; the decoder accepts a byte range exactly when
//! it is such an image, and then returns the record it encodes.
use crate::codec::{
    append_bytes, be32, bytes_at, dec_digits, esc, is_digit, lemma_be32_injective,
    lemma_bytes_at_join, lemma_bytes_at_split, lemma_dec_digits_are_digits, match_bytes, number_at,
    push_be32, push_dec, push_escaped, read_be32, scan_number, scan_string, string_at, B_QUOTE,
};
use vstd::prelude::*;
use vstd::string::StrSliceExecFns;
use vstd::utf8::{decode_utf8, encode_utf8, valid_utf8};

verus! {

/// A record as it is stored in a segment: a version tag (`0` marks a
/// tombstone, any other value a live put), a key and a value.
pub struct KV {
    /// version tag; `0` means the record is a tombstone
    pub version: u32,
    /// the key
    pub key: String,
    /// the value; empty for tombstones
    pub value: String,
}

/// The mathematical image of a record.
pub ghost struct KvModel {
    /// version tag; `0` means the record is a tombstone
    pub version: u32,
    /// the key, as a character sequence
    pub key: Seq<char>,
    /// the value, as a character sequence
    pub value: Seq<char>,
}

impl View for KV {
    type V = KvModel;

    open spec fn view(&self) -> KvModel {
        KvModel { version: self.version, key: self.key@, value: self.value@ }
    }
}

impl KV {
    /// Build a record from its parts.
    pub fn new(key: String, value: String, version: u32) -> (kv: KV)
        ensures
            kv.version == version,
            kv.key@ == key@,
            kv.value@ == value@,
    {
        KV { version, key, value }
    }
}

/// The bytes `{"version":`.
pub open spec fn lit_version() -> Seq<u8> {
    seq![0x7b, 0x22, 0x76, 0x65, 0x72, 0x73, 0x69, 0x6f, 0x6e, 0x22, 0x3a]
}

/// The bytes `,"key":"`.
pub open spec fn lit_key() -> Seq<u8> {
    seq![0x2c, 0x22, 0x6b, 0x65, 0x79, 0x22, 0x3a, 0x22]
}

/// The bytes `,"value":"`.
pub open spec fn lit_value() -> Seq<u8> {
    seq![0x2c, 0x22, 0x76, 0x61, 0x6c, 0x75, 0x65, 0x22, 0x3a, 0x22]
}

/// The bytes `"}` that close a record payload.
pub open spec fn lit_end() -> Seq<u8> {
    seq![B_QUOTE, 0x7d]
}

/// The JSON payload of one record, byte for byte.
pub open spec fn record_bytes(r: KvModel) -> Seq<u8> {
    lit_version() + dec_digits(r.version) + lit_key() + esc(encode_utf8(r.key)) + seq![B_QUOTE]
        + lit_value() + esc(encode_utf8(r.value)) + lit_end()
}

/// A record payload must fit its four-byte length prefix.
pub open spec fn rec_fits(r: KvModel) -> bool {
    record_bytes(r).len() <= u32::MAX
}

/// The full on-disk image of one record: length prefix, then payload.
pub open spec fn rec_enc(r: KvModel) -> Seq<u8> {
    be32(record_bytes(r).len() as u32) + record_bytes(r)
}

/// `data` holds the full on-disk image of `r` at `pos`.
pub open spec fn record_at(data: Seq<u8>, pos: int, r: KvModel) -> bool {
    rec_fits(r) && bytes_at(data, pos, rec_enc(r))
}

/// Append the literal bytes of `lit_version` to `buf`.
fn push_lit_version(buf: &mut Vec<u8>)
    ensures
        final(buf)@ == old(buf)@ + lit_version(),
{
    buf.push(0x7b);
    buf.push(0x22);
    buf.push(0x76);
    buf.push(0x65);
    buf.push(0x72);
    buf.push(0x73);
    buf.push(0x69);
    buf.push(0x6f);
    buf.push(0x6e);
    buf.push(0x22);
    buf.push(0x3a);
    assert(final(buf)@ =~= old(buf)@ + lit_version());
}

/// Append the literal bytes of `lit_key` to `buf`.
fn push_lit_key(buf: &mut Vec<u8>)
    ensures
        final(buf)@ == old(buf)@ + lit_key(),
{
    buf.push(0x2c);
    buf.push(0x22);
    buf.push(0x6b);
    buf.push(0x65);
    buf.push(0x79);
    buf.push(0x22);
    buf.push(0x3a);
    buf.push(0x22);
    assert(final(buf)@ =~= old(buf)@ + lit_key());
}

/// Append the literal bytes of `lit_value` to `buf`.
fn push_lit_value(buf: &mut Vec<u8>)
    ensures
        final(buf)@ == old(buf)@ + lit_value(),
{
    buf.push(0x2c);
    buf.push(0x22);
    buf.push(0x76);
    buf.push(0x61);
    buf.push(0x6c);
    buf.push(0x75);
    buf.push(0x65);
    buf.push(0x22);
    buf.push(0x3a);
    buf.push(0x22);
    assert(final(buf)@ =~= old(buf)@ + lit_value());
}

/// Encode one record's JSON payload.
pub fn encode_payload(kv: &KV) -> (r: Vec<u8>)
    ensures
        r@ == record_bytes(kv@),
{
    let mut buf: Vec<u8> = Vec::new();
    push_lit_version(&mut buf);
    push_dec(&mut buf, kv.version);
    push_lit_key(&mut buf);
    let kb = kv.key.as_str().as_bytes_vec();
    push_escaped(&mut buf, &kb);
    buf.push(B_QUOTE);
    push_lit_value(&mut buf);
    let vb = kv.value.as_str().as_bytes_vec();
    push_escaped(&mut buf, &vb);
    buf.push(B_QUOTE);
    buf.push(0x7d);
    assert(buf@ =~= record_bytes(kv@));
    buf
}

/// Append the full on-disk image of one record — length prefix, then JSON
/// payload — to `buf`.
pub fn write_kv(buf: &mut Vec<u8>, kv: KV)
    requires
        rec_fits(kv@),
    ensures
        final(buf)@ == old(buf)@ + rec_enc(kv@),
{
    let payload = encode_payload(&kv);
    push_be32(buf, payload.len() as u32);
    append_bytes(buf, &payload);
    assert(final(buf)@ =~= old(buf)@ + rec_enc(kv@));
}

/// Where each piece of a record image stands, relative to `pos`.
pub proof fn lemma_record_parts(data: Seq<u8>, pos: int, m: KvModel)
    requires
        record_at(data, pos, m),
    ensures
        ({
            let dlen = dec_digits(m.version).len() as int;
            let klen = esc(encode_utf8(m.key)).len() as int;
            let vlen = esc(encode_utf8(m.value)).len() as int;
            &&& record_bytes(m).len() == 32 + dlen + klen + vlen
            &&& pos + 4 + record_bytes(m).len() <= data.len()
            &&& data.subrange(pos, pos + 4) == be32(record_bytes(m).len() as u32)
            &&& bytes_at(data, pos + 4, record_bytes(m))
            &&& bytes_at(data, pos + 4, lit_version())
            &&& number_at(data, pos + 15, m.version)
            &&& bytes_at(data, pos + 15 + dlen, lit_key())
            &&& string_at(data, pos + 23 + dlen, encode_utf8(m.key))
            &&& bytes_at(data, pos + 24 + dlen + klen, lit_value())
            &&& string_at(data, pos + 34 + dlen + klen, encode_utf8(m.value))
        }),
{
    let dlen = dec_digits(m.version).len() as int;
    let klen = esc(encode_utf8(m.key)).len() as int;
    let vlen = esc(encode_utf8(m.value)).len() as int;
    let a = lit_version();
    let b = dec_digits(m.version);
    let c = lit_key();
    let d = esc(encode_utf8(m.key));
    let q = seq![B_QUOTE];
    let f = lit_value();
    let g = esc(encode_utf8(m.value));
    let h = lit_end();
    let p = record_bytes(m);
    assert(p.len() == 32 + dlen + klen + vlen);
    lemma_bytes_at_split(data, pos, be32(p.len() as u32), p);
    assert(data.subrange(pos, pos + 4) =~= be32(p.len() as u32));
    // peel the payload apart, last part first
    lemma_bytes_at_split(data, pos + 4, a + b + c + d + q + f + g, h);
    lemma_bytes_at_split(data, pos + 4, a + b + c + d + q + f, g);
    lemma_bytes_at_split(data, pos + 4, a + b + c + d + q, f);
    lemma_bytes_at_split(data, pos + 4, a + b + c + d, q);
    lemma_bytes_at_split(data, pos + 4, a + b + c, d);
    lemma_bytes_at_split(data, pos + 4, a + b, c);
    lemma_bytes_at_split(data, pos + 4, a, b);
    // the version number is followed by the comma that opens `,"key":"`
    lemma_dec_digits_are_digits(m.version);
    assert(data[pos + 15 + dlen] == c[0]) by {
        assert(data[pos + 15 + dlen] == data.subrange(pos + 15 + dlen, pos + 15 + dlen + 8)[0]);
    }
    assert(number_at(data, pos + 15, m.version));
    // the escaped key is followed by its closing quote
    lemma_bytes_at_join(data, pos + 23 + dlen, d, q);
    assert(string_at(data, pos + 23 + dlen, encode_utf8(m.key)));
    // the escaped value is followed by the quote that opens `"}`
    assert(h =~= q + seq![0x7du8]);
    lemma_bytes_at_split(data, pos + 34 + dlen + klen + vlen, q, seq![0x7du8]);
    lemma_bytes_at_join(data, pos + 34 + dlen + klen, g, q);
    assert(string_at(data, pos + 34 + dlen + klen, encode_utf8(m.value)));
}

/// Decode one record at `pos`: read the length prefix, parse the JSON
/// payload, and accept only if the bytes are exactly the image of the
/// resulting record.  Whenever some record stands at `pos` in the sense of
/// [`record_at`], the decoder returns exactly that record.
#[verifier::rlimit(100)]
pub fn read_record(data: &Vec<u8>, pos: usize) -> (r: Option<(KV, usize)>)
    requires
        pos <= data@.len(),
    ensures
        r matches Some(p) ==> record_at(data@, pos as int, p.0@) && p.1 == pos + rec_enc(
            p.0@,
        ).len() && pos < p.1 <= data@.len(),
        forall|m: KvModel|
            record_at(data@, pos as int, m) ==> (r matches Some(p) && p.0@ == m),
{
    let ghost gm: KvModel = choose|m: KvModel| record_at(data@, pos as int, m);
    let ghost has = record_at(data@, pos as int, gm);
    proof {
        if has {
            lemma_record_parts(data@, pos as int, gm);
        }
    }
    let len_data = data.len();
    if len_data - pos < 4 {
        proof {
            if has {
                assert(false);
            }
        }
        return None;
    }
    let plen32 = read_be32(data, pos);
    proof {
        if has {
            lemma_be32_injective(plen32, record_bytes(gm).len() as u32);
        }
    }
    let body = pos + 4;
    let plen = plen32 as usize;
    if len_data - body < plen {
        proof {
            if has {
                assert(false);
            }
        }
        return None;
    }
    let mut l1: Vec<u8> = Vec::new();
    push_lit_version(&mut l1);
    proof {
        assert(l1@ =~= lit_version());
    }
    if !match_bytes(data, body, &l1) {
        proof {
            if has {
                assert(false);
            }
        }
        return None;
    }
    let cur1 = body + 11;
    let ver_scan = scan_number(data, cur1);
    if ver_scan.is_none() {
        proof {
            if has {
                assert(false);
            }
        }
        return None;
    }
    let (ver, cur2) = ver_scan.unwrap();
    let mut l2: Vec<u8> = Vec::new();
    push_lit_key(&mut l2);
    proof {
        assert(l2@ =~= lit_key());
    }
    if !match_bytes(data, cur2, &l2) {
        proof {
            if has {
                assert(false);
            }
        }
        return None;
    }
    let cur3 = cur2 + 8;
    let key_scan = scan_string(data, cur3);
    if key_scan.is_none() {
        proof {
            if has {
                assert(false);
            }
        }
        return None;
    }
    let (kb, cur4) = key_scan.unwrap();
    let mut l3: Vec<u8> = Vec::new();
    push_lit_value(&mut l3);
    proof {
        assert(l3@ =~= lit_value());
    }
    if !match_bytes(data, cur4, &l3) {
        proof {
            if has {
                assert(false);
            }
        }
        return None;
    }
    let cur5 = cur4 + 10;
    let val_scan = scan_string(data, cur5);
    if val_scan.is_none() {
        proof {
            if has {
                assert(false);
            }
        }
        return None;
    }
    let (vb, cur6) = val_scan.unwrap();
    let key = bytes_to_string(kb);
    if key.is_none() {
        proof {
            if has {
                vstd::utf8::encode_utf8_valid_utf8(gm.key);
                assert(false);
            }
        }
        return None;
    }
    let value = bytes_to_string(vb);
    if value.is_none() {
        proof {
            if has {
                vstd::utf8::encode_utf8_valid_utf8(gm.value);
                assert(false);
            }
        }
        return None;
    }
    let kv = KV::new(key.unwrap(), value.unwrap(), ver);
    proof {
        if has {
            vstd::utf8::encode_utf8_decode_utf8(gm.key);
            vstd::utf8::encode_utf8_decode_utf8(gm.value);
            assert(kv@ == gm);
        }
    }
    let payload = encode_payload(&kv);
    if payload.len() != plen {
        proof {
            if has {
                assert(false);
            }
        }
        return None;
    }
    if !match_bytes(data, body, &payload) {
        proof {
            if has {
                assert(false);
            }
        }
        return None;
    }
    proof {
        // the bytes at `pos` are exactly the image of `kv`, by comparison
        assert(record_at(data@, pos as int, kv@)) by {
            assert(data@.subrange(pos as int, pos as int + 4 + record_bytes(kv@).len())
                =~= be32(plen32) + record_bytes(kv@));
        }
        assert forall|m: KvModel| record_at(data@, pos as int, m) implies kv@ == m by {
            lemma_record_parts(data@, pos as int, m);
            lemma_be32_injective(plen32, record_bytes(m).len() as u32);
            vstd::utf8::encode_utf8_decode_utf8(m.key);
            vstd::utf8::encode_utf8_decode_utf8(m.value);
        }
    }
    Some((kv, body + plen))
}

/// Relies on `String::from_utf8` from std: it returns `Ok` exactly on valid
/// UTF-8 input, and then yields the character sequence that the bytes encode
/// (`vstd`'s `decode_utf8` of them).
#[verifier::external_body]
pub fn bytes_to_string(v: Vec<u8>) -> (r: Option<String>)
    ensures
        r matches Some(s) ==> valid_utf8(v@) && s@ == decode_utf8(v@),
        valid_utf8(v@) ==> r is Some,
{
    match String::from_utf8(v) {
        Ok(s) => Some(s),
        Err(_) => None,
    }
}

} // verus!
