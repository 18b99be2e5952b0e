use kvs::record::KV;
use kvs::KvStore;
use std::collections::BTreeMap;

fn fresh_store() -> KvStore {
    KvStore::open(Vec::new())
}

#[test]
fn basic_set_get() {
    let mut s = fresh_store();
    s.set("k".to_owned(), "v".to_owned()).unwrap();
    assert_eq!(s.get("k".to_owned()).unwrap(), Some("v".to_owned()));
}

#[test]
fn get_missing_key() {
    let s = fresh_store();
    assert_eq!(s.get("nope".to_owned()).unwrap(), None);
}

#[test]
fn overwrite() {
    let mut s = fresh_store();
    s.set("k".to_owned(), "a".to_owned()).unwrap();
    s.set("k".to_owned(), "b".to_owned()).unwrap();
    assert_eq!(s.get("k".to_owned()).unwrap(), Some("b".to_owned()));
}

#[test]
fn tombstone_then_resurrect() {
    let mut s = fresh_store();
    s.set("k".to_owned(), "a".to_owned()).unwrap();
    s.remove("k".to_owned()).unwrap();
    assert_eq!(s.get("k".to_owned()).unwrap(), None);
    s.set("k".to_owned(), "c".to_owned()).unwrap();
    assert_eq!(s.get("k".to_owned()).unwrap(), Some("c".to_owned()));
}

#[test]
fn remove_absent_key_fails_and_changes_nothing() {
    let mut s = fresh_store();
    s.set("other".to_owned(), "v".to_owned()).unwrap();
    let r = s.remove("k".to_owned());
    assert_eq!(r, Err(kvs::KvsError::ErrKeyNotFound));
    assert_eq!(s.len(), 1);
    assert_eq!(s.get("other".to_owned()).unwrap(), Some("v".to_owned()));
}

#[test]
fn persistence_across_reopen() {
    let mut s = fresh_store();
    s.set("k1".to_owned(), "v1".to_owned()).unwrap();
    s.set("k2".to_owned(), "v2".to_owned()).unwrap();
    let r = s.reopen();
    assert_eq!(r.get("k1".to_owned()).unwrap(), Some("v1".to_owned()));
    assert_eq!(r.get("k2".to_owned()).unwrap(), Some("v2".to_owned()));
}

#[test]
fn persistence_across_dump_and_open() {
    let mut s = fresh_store();
    s.set("k1".to_owned(), "v1".to_owned()).unwrap();
    s.set("k2".to_owned(), "v2".to_owned()).unwrap();
    s.remove("k1".to_owned()).unwrap();
    let r = KvStore::open(s.dump());
    assert_eq!(r.get("k1".to_owned()).unwrap(), None);
    assert_eq!(r.get("k2".to_owned()).unwrap(), Some("v2".to_owned()));
}

#[test]
fn reopen_tolerates_torn_tail() {
    let mut s = fresh_store();
    s.set("k1".to_owned(), "v1".to_owned()).unwrap();
    s.set("k2".to_owned(), "v2".to_owned()).unwrap();
    let mut files = s.dump();
    // a crash mid-append leaves a half-written record at the tail
    let last = files.len() - 1;
    files[last].1.extend_from_slice(&[0, 0, 0, 40, 0x7b, 0x22]);
    let r = KvStore::open(files);
    assert_eq!(r.get("k1".to_owned()).unwrap(), Some("v1".to_owned()));
    assert_eq!(r.get("k2".to_owned()).unwrap(), Some("v2".to_owned()));
}

#[test]
fn compaction_reclaims_overwritten_bytes() {
    let mut s = fresh_store();
    let value: String = std::iter::repeat('x').take(1024).collect();
    for _ in 0..10_000 {
        s.set("key".to_owned(), value.clone()).unwrap();
    }
    // land a record in the active segment so the size gate is met; one of
    // the two rounds finds the active segment non-empty and compacts
    s.set("key".to_owned(), value.clone()).unwrap();
    s.compaction();
    s.set("key".to_owned(), value.clone()).unwrap();
    s.compaction();
    let total: usize = s.dump().iter().map(|f| f.1.len()).sum();
    // one live record: the value plus a small bounded overhead
    assert!(total <= 2 * 1024 + 128, "disk still holds {} bytes", total);
    assert_eq!(s.get("key".to_owned()).unwrap(), Some(value));
}

#[test]
fn compaction_keeps_every_live_key() {
    let mut s = fresh_store();
    let value: String = std::iter::repeat('y').take(200).collect();
    for i in 0..50 {
        s.set(format!("k{}", i), format!("{}-{}", value, i)).unwrap();
    }
    s.remove("k7".to_owned()).unwrap();
    s.compaction();
    assert_eq!(s.len(), 49);
    assert_eq!(s.get("k7".to_owned()).unwrap(), None);
    for i in 0..50 {
        if i != 7 {
            assert_eq!(s.get(format!("k{}", i)).unwrap(), Some(format!("{}-{}", value, i)));
        }
    }
}

#[test]
fn unicode_keys_and_values_round_trip() {
    let mut s = fresh_store();
    s.set("clé\u{1F511}".to_owned(), "valeur \"quoted\" \\ \n\ttab\u{0001}".to_owned()).unwrap();
    let r = s.reopen();
    assert_eq!(
        r.get("clé\u{1F511}".to_owned()).unwrap(),
        Some("valeur \"quoted\" \\ \n\ttab\u{0001}".to_owned())
    );
}

#[test]
fn empty_key_and_value() {
    let mut s = fresh_store();
    s.set("".to_owned(), "".to_owned()).unwrap();
    assert_eq!(s.get("".to_owned()).unwrap(), Some("".to_owned()));
    let r = s.reopen();
    assert_eq!(r.get("".to_owned()).unwrap(), Some("".to_owned()));
}

#[test]
fn pending_ops_replay_to_the_same_disk() {
    // apply the queued operations to a shadow directory and check it matches
    let mut s = fresh_store();
    let mut shadow: BTreeMap<u64, Vec<u8>> = BTreeMap::new();
    let mut apply = |shadow: &mut BTreeMap<u64, Vec<u8>>, ops: Vec<kvs::DiskOp>| {
        for op in ops {
            match op {
                kvs::DiskOp::Create { seg } => {
                    shadow.insert(seg, Vec::new());
                }
                kvs::DiskOp::Append { seg, bytes } => {
                    shadow.entry(seg).or_default().extend_from_slice(&bytes);
                }
                kvs::DiskOp::Delete { seg } => {
                    shadow.remove(&seg);
                }
            }
        }
    };
    // open over the empty directory: bring the shadow in line with dump()
    for f in s.dump() {
        shadow.insert(f.0, f.1);
    }
    let big: String = std::iter::repeat('z').take(600).collect();
    for i in 0..300 {
        s.set(format!("k{}", i % 10), format!("{}-{}", big, i)).unwrap();
        if i % 3 == 0 {
            let ops = s.take_pending();
            apply(&mut shadow, ops);
            let dumped: BTreeMap<u64, Vec<u8>> = s.dump().into_iter().collect();
            assert_eq!(shadow, dumped);
        }
    }
    s.remove("k3".to_owned()).unwrap();
    let ops = s.take_pending();
    apply(&mut shadow, ops);
    let dumped: BTreeMap<u64, Vec<u8>> = s.dump().into_iter().collect();
    assert_eq!(shadow, dumped);
    // and the mirrored directory reopens to the same store
    let r = KvStore::open(shadow.into_iter().collect());
    for i in 0..10 {
        assert_eq!(
            r.get(format!("k{}", i)).unwrap(),
            s.get(format!("k{}", i)).unwrap()
        );
    }
}

#[test]
fn record_codec_round_trip() {
    let kv = KV::new("some key".to_owned(), "some \"value\"\n".to_owned(), 1);
    let mut buf: Vec<u8> = Vec::new();
    kvs::record::write_kv(&mut buf, kv);
    let (back, used) = kvs::record::read_record(&buf, 0).unwrap();
    assert_eq!(used, buf.len());
    assert_eq!(back.version, 1);
    assert_eq!(back.key, "some key");
    assert_eq!(back.value, "some \"value\"\n");
}

#[test]
fn record_payload_is_plain_json() {
    let kv = KV::new("k".to_owned(), "v".to_owned(), 1);
    let payload = kvs::record::encode_payload(&kv);
    assert_eq!(payload, b"{\"version\":1,\"key\":\"k\",\"value\":\"v\"}".to_vec());
}

#[test]
fn record_decoder_rejects_corrupt_payload() {
    let kv = KV::new("k".to_owned(), "v".to_owned(), 1);
    let mut buf: Vec<u8> = Vec::new();
    kvs::record::write_kv(&mut buf, kv);
    buf[10] ^= 0xff;
    assert!(kvs::record::read_record(&buf, 0).is_none());
}
