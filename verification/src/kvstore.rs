//! The log-structured store: segments of appended records, an index from
//! each live key to the position of its latest record, and a compactor.
//!
//! The store holds the segment bytes itself; the caller mirrors them onto
//! files by applying the [`DiskOp`]s that every mutation queues (see
//! [`KvStore::take_pending`]).  The abstract state is a map from keys to
//! values; [`KvStore::wf`] ties the index, the segment bytes and that map
//! together, and also states that replaying the whole log yields the map
//! again, which is what makes reopening sound.
use crate::codec::{
    append_bytes, bytes_at, dec_digits, esc, lemma_bytes_at_split, lemma_dec_digits_are_digits,
};
use crate::error::KvsError;
use crate::record::{read_record, rec_enc, rec_fits, record_at, write_kv, KvModel, KV};
use vstd::prelude::*;
use vstd::utf8::encode_utf8;

verus! {

/// A segment rolls once its byte length exceeds this.
pub const ONE_SST_FILE_MAX_SIZE: u64 = 1024;

/// Overwrites and removals tolerated before a set attempts compaction.
pub const UNCOMPACTED_KEY_COUNTS: u64 = 100;

/// Keys and values are limited to this many UTF-8 bytes, so that every
/// record payload fits its four-byte length prefix.
pub const MAX_PART_BYTES: usize = 0x0800_0000;

/// One on-disk segment: its number, its bytes, and (in the ghost world) the
/// records those bytes encode.
pub struct Segment {
    /// the segment number, as in the file name it mirrors
    pub id: u64,
    /// the segment's bytes: a concatenation of record images
    pub data: Vec<u8>,
    /// the records that `data` encodes
    pub recs: Ghost<Seq<KvModel>>,
}

/// One index entry: a live key and where its latest record stands.
pub struct IndexEntry {
    /// the key
    pub key: String,
    /// the number of the segment holding the latest record for the key
    pub seg: u64,
    /// byte offset of that record's length prefix within the segment
    pub off: u64,
    /// position of that segment in the store's segment list
    pub pos: Ghost<int>,
    /// index of the record within the segment's record sequence
    pub rec: Ghost<int>,
}

/// A file operation for the caller to mirror onto the data directory.
pub enum DiskOp {
    /// create the (empty) segment file with this number
    Create {
        /// segment number
        seg: u64,
    },
    /// append these bytes to the segment file
    Append {
        /// segment number
        seg: u64,
        /// the bytes to append
        bytes: Vec<u8>,
    },
    /// delete the segment file
    Delete {
        /// segment number
        seg: u64,
    },
}

/// The concatenated on-disk images of a record sequence.
pub open spec fn concat_encs(recs: Seq<KvModel>) -> Seq<u8>
    decreases recs.len(),
{
    if recs.len() == 0 {
        Seq::empty()
    } else {
        concat_encs(recs.drop_last()) + rec_enc(recs.last())
    }
}

/// Byte offset of record `i` within its segment.
pub open spec fn rec_off(recs: Seq<KvModel>, i: int) -> int {
    concat_encs(recs.take(i)).len() as int
}

/// Every record of the sequence fits its length prefix.
pub open spec fn all_fit(recs: Seq<KvModel>) -> bool {
    forall|i: int| 0 <= i < recs.len() ==> rec_fits(#[trigger] recs[i])
}

/// One step of replaying the log: a tombstone removes its key, any other
/// record binds it.
pub open spec fn replay_step(
    m: Map<Seq<char>, Seq<char>>,
    r: KvModel,
) -> Map<Seq<char>, Seq<char>> {
    if r.version == 0 {
        m.remove(r.key)
    } else {
        m.insert(r.key, r.value)
    }
}

/// Replaying a record sequence in order, starting from the empty map.
pub open spec fn replay(recs: Seq<KvModel>) -> Map<Seq<char>, Seq<char>>
    decreases recs.len(),
{
    if recs.len() == 0 {
        Map::empty()
    } else {
        replay_step(replay(recs.drop_last()), recs.last())
    }
}

/// All records of all segments, in segment order.
pub open spec fn all_recs(segs: Seq<Segment>) -> Seq<KvModel>
    decreases segs.len(),
{
    if segs.len() == 0 {
        Seq::empty()
    } else {
        all_recs(segs.drop_last()) + segs.last().recs@
    }
}

/// The directory image: segment number to segment bytes.
pub open spec fn disk_of(segs: Seq<Segment>) -> Map<u64, Seq<u8>>
    decreases segs.len(),
{
    if segs.len() == 0 {
        Map::empty()
    } else {
        disk_of(segs.drop_last()).insert(segs.last().id, segs.last().data@)
    }
}

/// What one [`DiskOp`] does to a directory image.
pub open spec fn apply_op(m: Map<u64, Seq<u8>>, op: DiskOp) -> Map<u64, Seq<u8>> {
    match op {
        DiskOp::Create { seg } => m.insert(seg, Seq::empty()),
        DiskOp::Append { seg, bytes } => m.insert(
            seg,
            (if m.contains_key(seg) {
                m[seg]
            } else {
                Seq::empty()
            }) + bytes@,
        ),
        DiskOp::Delete { seg } => m.remove(seg),
    }
}

/// What a queue of [`DiskOp`]s does to a directory image, in order.
pub open spec fn apply_ops(m: Map<u64, Seq<u8>>, ops: Seq<DiskOp>) -> Map<u64, Seq<u8>>
    decreases ops.len(),
{
    if ops.len() == 0 {
        m
    } else {
        apply_op(apply_ops(m, ops.drop_last()), ops.last())
    }
}

/// Some index entry carries this key.
pub open spec fn has_entry(entries: Seq<IndexEntry>, k: Seq<char>) -> bool {
    exists|i: int| 0 <= i < entries.len() && entries[i].key@ == k
}

/// The entry occurs in the sequence.
pub open spec fn entries_has(entries: Seq<IndexEntry>, e: IndexEntry) -> bool {
    exists|i: int| 0 <= i < entries.len() && entries[i] == e
}

/// One index entry, against a given segment list and abstract state: it
/// points at a live record for its key whose value is the key's current
/// value.
spec fn entry_ok_for(segs: Seq<Segment>, state: Map<Seq<char>, Seq<char>>, e: IndexEntry) -> bool {
    &&& 0 <= e.pos@ < segs.len()
    &&& segs[e.pos@].id == e.seg
    &&& 0 <= e.rec@ < segs[e.pos@].recs@.len()
    &&& segs[e.pos@].recs@[e.rec@].version != 0
    &&& segs[e.pos@].recs@[e.rec@].key == e.key@
    &&& state.contains_key(e.key@)
    &&& segs[e.pos@].recs@[e.rec@].value == state[e.key@]
    &&& e.off == rec_off(segs[e.pos@].recs@, e.rec@)
}

/// The bytes are exactly the images of the records, each of which fits.
pub open spec fn full_match(d: Seq<u8>, rs: Seq<KvModel>) -> bool {
    d == concat_encs(rs) && all_fit(rs)
}

/// All records of a per-segment record listing, in order.
pub open spec fn flatten_recs(gs: Seq<Seq<KvModel>>) -> Seq<KvModel>
    decreases gs.len(),
{
    if gs.len() == 0 {
        Seq::empty()
    } else {
        flatten_recs(gs.drop_last()) + gs.last()
    }
}

/// Each listed segment's bytes are exactly the images of the listed records.
pub open spec fn disk_matches(files: Seq<(u64, Vec<u8>)>, gs: Seq<Seq<KvModel>>) -> bool {
    gs.len() == files.len() && forall|i: int|
        0 <= i < files.len() ==> full_match((#[trigger] files[i]).1@, gs[i])
}

/// When segments carry the listed records, the log is their flattening.
pub proof fn lemma_all_recs_flatten(segs: Seq<Segment>, gs: Seq<Seq<KvModel>>)
    requires
        segs.len() == gs.len(),
        forall|i: int| 0 <= i < segs.len() ==> (#[trigger] segs[i]).recs@ == gs[i],
    ensures
        all_recs(segs) == flatten_recs(gs),
    decreases segs.len(),
{
    if segs.len() > 0 {
        lemma_all_recs_flatten(segs.drop_last(), gs.drop_last());
        assert(segs.last().recs@ == gs.last());
        assert(all_recs(segs) =~= flatten_recs(gs));
    } else {
        assert(all_recs(segs) =~= flatten_recs(gs));
    }
}

/// The persistent key/value store.
pub struct KvStore {
    segments: Vec<Segment>,
    entries: Vec<IndexEntry>,
    uncompacted: u64,
    pending: Vec<DiskOp>,
    base: Ghost<Map<u64, Seq<u8>>>,
    state: Ghost<Map<Seq<char>, Seq<char>>>,
}

impl View for KvStore {
    type V = Map<Seq<char>, Seq<char>>;

    closed spec fn view(&self) -> Map<Seq<char>, Seq<char>> {
        self.state@
    }
}

impl KvStore {
    /// One segment's bytes are exactly the images of its records.
    pub open spec fn seg_wf(s: Segment) -> bool {
        &&& s.data@ == concat_encs(s.recs@)
        &&& all_fit(s.recs@)
    }

    /// One index entry points at a live record for its key whose value is the
    /// key's current value.
    spec fn entry_ok(&self, e: IndexEntry) -> bool {
        entry_ok_for(self.segments@, self.state@, e)
    }

    /// The store's full well-formedness: segments are ordered and encode
    /// their records; the index holds exactly the live keys, each pointing at
    /// its latest value; replaying the log yields the abstract state; and the
    /// queued disk operations carry the caller's directory image to the
    /// store's.
    pub closed spec fn wf(&self) -> bool {
        &&& self.segments@.len() >= 1
        &&& forall|i: int, j: int|
            0 <= i < j < self.segments@.len() ==> #[trigger] self.segments@[i].id
                < #[trigger] self.segments@[j].id
        &&& forall|i: int|
            0 <= i < self.segments@.len() ==> Self::seg_wf(#[trigger] self.segments@[i])
        &&& forall|i: int|
            0 <= i < self.entries@.len() ==> self.entry_ok(#[trigger] self.entries@[i])
        &&& forall|i: int, j: int|
            0 <= i < j < self.entries@.len() ==> (#[trigger] self.entries@[i].key)@
                != (#[trigger] self.entries@[j].key)@
        &&& forall|k: Seq<char>|
            #[trigger] self.state@.contains_key(k) ==> has_entry(self.entries@, k)
        &&& replay(all_recs(self.segments@)) == self.state@
        &&& apply_ops(self.base@, self.pending@) == disk_of(self.segments@)
    }

    /// The number of live keys.
    pub closed spec fn spec_len(&self) -> nat {
        self.entries@.len()
    }

    /// The store's directory image as a sequence: each segment's number and
    /// bytes, in segment order.
    pub closed spec fn disk_seq(&self) -> Seq<(u64, Seq<u8>)> {
        Seq::new(self.segments@.len(), |i: int| (self.segments@[i].id, self.segments@[i].data@))
    }

    /// The number of live keys.
    pub fn len(&self) -> (n: usize)
        requires
            self.wf(),
        ensures
            n == self.spec_len(),
    {
        self.entries.len()
    }

    /// A copy of the store's directory image: each segment's number and
    /// bytes, in segment order.
    pub fn dump(&self) -> (r: Vec<(u64, Vec<u8>)>)
        requires
            self.wf(),
        ensures
            r@.len() == self.disk_seq().len(),
            forall|i: int|
                0 <= i < r@.len() ==> (#[trigger] r@[i]).0 == self.disk_seq()[i].0 && r@[i].1@
                    == self.disk_seq()[i].1,
    {
        let mut out: Vec<(u64, Vec<u8>)> = Vec::new();
        let n = self.segments.len();
        let mut i: usize = 0;
        while i < n
            invariant
                0 <= i <= n,
                n == self.segments@.len(),
                out@.len() == i,
                forall|j: int|
                    0 <= j < i ==> (#[trigger] out@[j]).0 == self.segments@[j].id && out@[j].1@
                        == self.segments@[j].data@,
            decreases n - i,
        {
            let seg = &self.segments[i];
            out.push((seg.id, seg.data.clone()));
            i = i + 1;
        }
        out
    }
}

impl KvStore {
    /// Read the record that index entry `i` points at.
    #[verifier::loop_isolation(false)]
    #[verifier::rlimit(60)]
    fn read_entry(&self, i: usize) -> (kv: KV)
        requires
            self.wf(),
            i < self.entries@.len(),
        ensures
            kv@ == self.segments@[self.entries@[i as int].pos@].recs@[self.entries@[i as int].rec@],
            kv.version != 0,
            kv.key@ == self.entries@[i as int].key@,
            self.state@.contains_key(kv.key@),
            kv.value@ == self.state@[kv.key@],
    {
        let e = &self.entries[i];
        let ghost rec = self.segments@[e.pos@].recs@[e.rec@];
        proof {
            assert(self.entry_ok(self.entries@[i as int]));
        }
        // find the segment the entry points at
        let m = self.segments.len();
        let mut j: usize = 0;
        while j < m && self.segments[j].id != e.seg
            invariant
                0 <= j <= m,
                m == self.segments@.len(),
                j <= e.pos@,
            decreases m - j,
        {
            proof {
                if j == e.pos@ {
                    assert(self.segments@[j as int].id == e.seg);
                }
            }
            j = j + 1;
        }
        proof {
            assert(j == e.pos@) by {
                if j < e.pos@ {
                    assert(self.segments@[j as int].id < self.segments@[e.pos@].id);
                }
            }
            lemma_record_at_in_segment(self.segments@[j as int], e.rec@);
            assert(record_at(self.segments@[j as int].data@, e.off as int, rec));
        }
        let seg = &self.segments[j];
        let dlen = seg.data.len();
        proof {
            assert(seg.data@ == self.segments@[j as int].data@);
            assert(e.off <= dlen);
            assert((e.off as usize) as int == e.off as int);
        }
        match read_record(&seg.data, e.off as usize) {
            Some(p) => p.0,
            None => {
                proof {
                    assert(false);
                }
                KV { version: 1, key: String::new(), value: String::new() }
            },
        }
    }

    /// Look a key up.  Returns the value of the latest `set` for the key, or
    /// `None` when the key was never set or was removed since.
    pub fn get(&self, key: String) -> (r: Result<Option<String>, KvsError>)
        requires
            self.wf(),
        ensures
            r matches Ok(v) && match v {
                Some(s) => self@.contains_key(key@) && s@ == self@[key@],
                None => !self@.contains_key(key@),
            },
    {
        match index_find(&self.entries, &key) {
            Some(i) => {
                let kv = self.read_entry(i);
                if kv.version == 0 {
                    return Ok(None);
                }
                Ok(Some(kv.value))
            },
            None => {
                proof {
                    if self@.contains_key(key@) {
                        assert(has_entry(self.entries@, key@));
                        let w = choose|t: int|
                            0 <= t < self.entries@.len() && self.entries@[t].key@ == key@;
                        assert(self.entries@[w].key@ != key@);
                    }
                }
                Ok(None)
            },
        }
    }
}

/// A key or value small enough for its records to fit the length prefix.
pub open spec fn can_put(key: Seq<char>, value: Seq<char>) -> bool {
    encode_utf8(key).len() <= MAX_PART_BYTES && encode_utf8(value).len() <= MAX_PART_BYTES
}

/// Escaping at most sextuples the length.
pub proof fn lemma_esc_len(s: Seq<u8>)
    ensures
        esc(s).len() <= 6 * s.len(),
    decreases s.len(),
{
    if s.len() > 0 {
        lemma_esc_len(s.drop_first());
    }
}

/// Powers of ten.
pub open spec fn pow10(k: nat) -> int
    decreases k,
{
    if k == 0 {
        1
    } else {
        10 * pow10((k - 1) as nat)
    }
}

/// A number below the `k`-th power of ten has at most `k` digits.
pub proof fn lemma_dec_digits_len(n: u32, k: nat)
    requires
        k >= 1,
        n < pow10(k),
    ensures
        dec_digits(n).len() <= k,
    decreases k,
{
    if n >= 10 {
        assert(k >= 2) by {
            reveal_with_fuel(pow10, 2);
            if k == 1 {
                assert(pow10(1) == 10);
            }
        }
        assert(n / 10 < pow10((k - 1) as nat)) by (nonlinear_arith)
            requires
                n < pow10(k),
                pow10(k) == 10 * pow10((k - 1) as nat),
                n >= 10,
        ;
        lemma_dec_digits_len(n / 10, (k - 1) as nat);
    }
}

/// Every `u32` has at most ten digits.
pub proof fn lemma_dec_digits_len10(n: u32)
    ensures
        dec_digits(n).len() <= 10,
{
    assert(pow10(10) == 10_000_000_000) by {
        reveal_with_fuel(pow10, 11);
    }
    lemma_dec_digits_len(n, 10);
}

/// A record over a small enough key and value fits its length prefix.
pub proof fn lemma_small_rec_fits(r: KvModel)
    requires
        encode_utf8(r.key).len() <= MAX_PART_BYTES,
        encode_utf8(r.value).len() <= MAX_PART_BYTES,
    ensures
        rec_fits(r),
{
    lemma_esc_len(encode_utf8(r.key));
    lemma_esc_len(encode_utf8(r.value));
    lemma_dec_digits_len10(r.version);
}

/// Rewriting a record that fits, with version 1 or as a tombstone with an
/// empty value, yields a record that fits.
pub proof fn lemma_rewrite_fits(old_r: KvModel, new_r: KvModel)
    requires
        rec_fits(old_r),
        new_r.key == old_r.key,
        new_r.value == old_r.value || new_r.value == Seq::<char>::empty(),
        dec_digits(new_r.version).len() == 1,
    ensures
        rec_fits(new_r),
{
    lemma_dec_digits_are_digits(old_r.version);
    if new_r.value == Seq::<char>::empty() {
        assert(encode_utf8(new_r.value) =~= Seq::<u8>::empty());
        assert(esc(encode_utf8(new_r.value)) =~= Seq::<u8>::empty());
        assert(esc(Seq::<u8>::empty()).len() == 0);
    }
}

/// Appending a record to the last segment appends it to the whole log.
pub proof fn lemma_all_recs_update_last(segs1: Seq<Segment>, segs2: Seq<Segment>, r: KvModel)
    requires
        segs1.len() >= 1,
        segs2.len() == segs1.len(),
        segs2.drop_last() == segs1.drop_last(),
        segs2.last().recs@ == segs1.last().recs@ + seq![r],
    ensures
        all_recs(segs2) == all_recs(segs1) + seq![r],
{
    assert(all_recs(segs2) =~= all_recs(segs1) + seq![r]);
}

/// Pushing a fresh, empty segment leaves the log's records unchanged.
pub proof fn lemma_all_recs_push_empty(segs: Seq<Segment>, s: Segment)
    requires
        s.recs@.len() == 0,
    ensures
        all_recs(segs.push(s)) == all_recs(segs),
{
    assert(segs.push(s).drop_last() =~= segs);
    assert(segs.push(s).last() == s);
    assert(all_recs(segs.push(s)) =~= all_recs(segs));
}

/// Replay of a log with one more record.
pub proof fn lemma_replay_push(recs: Seq<KvModel>, r: KvModel)
    ensures
        replay(recs.push(r)) == replay_step(replay(recs), r),
{
    assert(recs.push(r).drop_last() =~= recs);
    assert(recs.push(r).last() == r);
}

/// The directory image after the last segment's bytes change.
pub proof fn lemma_disk_of_update_last(segs1: Seq<Segment>, segs2: Seq<Segment>)
    requires
        segs1.len() >= 1,
        segs2.len() == segs1.len(),
        segs2.drop_last() == segs1.drop_last(),
        segs2.last().id == segs1.last().id,
    ensures
        disk_of(segs2) == disk_of(segs1).insert(segs2.last().id, segs2.last().data@),
{
    assert(disk_of(segs2) =~= disk_of(segs1).insert(segs2.last().id, segs2.last().data@));
}

/// The directory image after a new segment is pushed.
pub proof fn lemma_disk_of_push(segs: Seq<Segment>, s: Segment)
    ensures
        disk_of(segs.push(s)) == disk_of(segs).insert(s.id, s.data@),
{
    assert(segs.push(s).drop_last() =~= segs);
    assert(segs.push(s).last() == s);
}

/// The directory image binds the last segment's number to its bytes.
pub proof fn lemma_disk_of_last(segs: Seq<Segment>)
    requires
        segs.len() >= 1,
    ensures
        disk_of(segs).contains_key(segs.last().id),
        disk_of(segs)[segs.last().id] == segs.last().data@,
{
}

/// Applying one more queued operation.
pub proof fn lemma_apply_ops_push(m: Map<u64, Seq<u8>>, ops: Seq<DiskOp>, op: DiskOp)
    ensures
        apply_ops(m, ops.push(op)) == apply_op(apply_ops(m, ops), op),
{
    assert(ops.push(op).drop_last() =~= ops);
    assert(ops.push(op).last() == op);
}

/// Find the index entry for a key.
fn index_find(entries: &Vec<IndexEntry>, key: &String) -> (r: Option<usize>)
    ensures
        r matches Some(i) ==> 0 <= i < entries@.len() && entries@[i as int].key@ == key@,
        r is None ==> forall|t: int| 0 <= t < entries@.len() ==> (#[trigger] entries@[t].key)@
            != key@,
{
    let n = entries.len();
    let mut i: usize = 0;
    while i < n
        invariant
            0 <= i <= n,
            n == entries@.len(),
            forall|t: int| 0 <= t < i ==> (#[trigger] entries@[t].key)@ != key@,
        decreases n - i,
    {
        if entries[i].key == *key {
            return Some(i);
        }
        i = i + 1;
    }
    None
}

impl KvStore {
    /// Bind `key` to `value`.  A large backlog of overwritten or removed
    /// records triggers compaction first; then the record is appended to the
    /// active segment and the key is published in the index only afterwards.
    pub fn set(&mut self, key: String, value: String) -> (r: Result<(), KvsError>)
        requires
            old(self).wf(),
            can_put(key@, value@),
        ensures
            final(self).wf(),
            r is Ok,
            final(self)@ == old(self)@.insert(key@, value@),
    {
        if self.uncompacted > UNCOMPACTED_KEY_COUNTS {
            self.compaction();
        }
        self.put(key, value)
    }

    /// Append a record binding `key` to `value` and publish it in the index;
    /// the active segment rolls once it exceeds the size threshold.
    #[verifier::loop_isolation(false)]
    #[verifier::rlimit(100)]
    fn put(&mut self, key: String, value: String) -> (r: Result<(), KvsError>)
        requires
            old(self).wf(),
            can_put(key@, value@),
        ensures
            final(self).wf(),
            r is Ok,
            final(self)@ == old(self)@.insert(key@, value@),
    {
        let ghost gk = key@;
        let ghost gv = value@;
        let ghost segs0 = self.segments@;
        let ghost entries0 = self.entries@;
        let ghost state0 = self.state@;
        let ghost pending0 = self.pending@;
        // an overwrite counts toward the compaction budget
        let found = index_find(&self.entries, &key);
        if found.is_some() {
            if self.uncompacted < u64::MAX {
                self.uncompacted = self.uncompacted + 1;
            }
        }
        let kv = KV::new(key.clone(), value, 1);
        let ghost rm = kv@;
        proof {
            assert(dec_digits(1) == seq![0x31u8]);
            lemma_small_rec_fits(rm);
        }
        let mut frame: Vec<u8> = Vec::new();
        write_kv(&mut frame, kv);
        proof {
            assert(frame@ =~= rec_enc(rm));
        }
        // append the record to the active segment
        let n = self.segments.len();
        let mut seg = self.segments.pop().unwrap();
        let ghost oldrecs = seg.recs@;
        proof {
            assert(Self::seg_wf(segs0[n - 1]));
            assert(segs0.last() == segs0[n - 1]);
        }
        let off_usize = seg.data.len();
        let off = off_usize as u64;
        let sid = seg.id;
        append_bytes(&mut seg.data, &frame);
        proof {
            assert(oldrecs.push(rm).drop_last() =~= oldrecs);
            assert(concat_encs(oldrecs.push(rm)) == concat_encs(oldrecs) + rec_enc(rm));
        }
        seg.recs = Ghost(oldrecs.push(rm));
        self.segments.push(seg);
        let ghost segs1 = self.segments@;
        proof {
            assert(segs1.drop_last() =~= segs0.drop_last());
            assert(segs1.last().recs@ == oldrecs + seq![rm]) by {
                assert(oldrecs.push(rm) =~= oldrecs + seq![rm]);
            }
            lemma_all_recs_update_last(segs0, segs1, rm);
            lemma_replay_push(all_recs(segs0), rm);
            assert(all_recs(segs0) + seq![rm] =~= all_recs(segs0).push(rm));
            lemma_disk_of_update_last(segs0, segs1);
            lemma_disk_of_last(segs0);
        }
        // publish the key in the index
        match found {
            Some(i) => {
                self.entries.remove(i);
            },
            None => {},
        }
        let entry = IndexEntry {
            key,
            seg: sid,
            off,
            pos: Ghost(n - 1 as int),
            rec: Ghost(oldrecs.len() as int),
        };
        self.entries.push(entry);
        self.state = Ghost(self.state@.insert(gk, gv));
        self.pending.push(DiskOp::Append { seg: sid, bytes: frame });
        proof {
            lemma_apply_ops_push(self.base@, pending0, self.pending@.last());
            assert(self.pending@.drop_last() =~= pending0);
            assert(apply_ops(self.base@, self.pending@) == disk_of(segs1)) by {
                assert(disk_of(segs1) =~= disk_of(segs0).insert(
                    sid,
                    disk_of(segs0)[sid] + frame@,
                ));
            }
        }
        // roll the active segment once it has grown past the threshold
        if off > ONE_SST_FILE_MAX_SIZE && sid < u64::MAX {
            let fresh = Segment { id: sid + 1, data: Vec::new(), recs: Ghost(Seq::empty()) };
            proof {
                lemma_all_recs_push_empty(self.segments@, fresh);
                lemma_disk_of_push(self.segments@, fresh);
                assert(fresh.data@ =~= Seq::<u8>::empty());
            }
            let ghost pending1 = self.pending@;
            self.segments.push(fresh);
            self.pending.push(DiskOp::Create { seg: sid + 1 });
            proof {
                lemma_apply_ops_push(self.base@, pending1, self.pending@.last());
                assert(self.pending@.drop_last() =~= pending1);
            }
        }
        proof {
            self.lemma_set_wf(*old(self), segs0, segs1, entries0, state0, gk, gv, rm, n as int);
        }
        Ok(())
    }

    /// The well-formedness argument for `set`, shared by the rolled and
    /// unrolled endings.
    #[verifier::rlimit(100)]
    proof fn lemma_set_wf(
        &self,
        pre: KvStore,
        segs0: Seq<Segment>,
        segs1: Seq<Segment>,
        entries0: Seq<IndexEntry>,
        state0: Map<Seq<char>, Seq<char>>,
        gk: Seq<char>,
        gv: Seq<char>,
        rm: KvModel,
        n: int,
    )
        requires
            pre.wf(),
            segs0 == pre.segments@,
            entries0 == pre.entries@,
            state0 == pre.state@,
            n == segs0.len(),
            rm == (KvModel { version: 1u32, key: gk, value: gv }),
            rec_fits(rm),
            // the appended active segment
            segs1.len() == n,
            segs1.drop_last() == segs0.drop_last(),
            segs1.last().id == segs0.last().id,
            segs1.last().recs@ == segs0.last().recs@.push(rm),
            segs1.last().data@ == concat_encs(segs1.last().recs@),
            // the store now
            self.segments@ == segs1 || (self.segments@ == segs1.push(
                self.segments@.last(),
            ) && self.segments@.last().recs@.len() == 0 && self.segments@.last().data@.len() == 0
                && self.segments@.last().id > segs0.last().id),
            self.state@ == state0.insert(gk, gv),
            replay(all_recs(self.segments@)) == self.state@,
            apply_ops(self.base@, self.pending@) == disk_of(self.segments@),
            // the index now: the old entries, those for gk removed, then the new one
            self.entries@.len() >= 1,
            self.entries@.last().key@ == gk,
            self.entries@.last().seg == segs0.last().id,
            self.entries@.last().off == segs0.last().data@.len(),
            self.entries@.last().pos@ == n - 1,
            self.entries@.last().rec@ == segs0.last().recs@.len(),
            ({
                ||| (exists|i: int|
                    0 <= i < entries0.len() && entries0[i].key@ == gk && self.entries@ == entries0
                        .remove(i).push(self.entries@.last()))
                ||| (self.entries@ == entries0.push(self.entries@.last()) && forall|t: int|
                    0 <= t < entries0.len() ==> (#[trigger] entries0[t].key)@ != gk)
            }),
        ensures
            self.wf(),
    {
        let segs = self.segments@;
        let es0 = self.entries@;
        lemma_index_reshape(entries0, es0, state0, gk);
        let rolled = segs.len() > segs1.len();        let rolled = segs.len() > segs1.len();
        // relate the new segment list to the old one
        assert forall|i: int| 0 <= i < n - 1 implies #[trigger] segs[i] == segs0[i] by {
            if rolled {
                assert(segs == segs1.push(segs.last()));
                assert(segs[i] == segs1[i]);
            }
            assert(segs1[i] == segs1.drop_last()[i]);
            assert(segs0.drop_last()[i] == segs0[i]);
        }
        assert(segs[n - 1] == segs1.last()) by {
            if rolled {
                assert(segs == segs1.push(segs.last()));
                assert(segs[n - 1] == segs1[n - 1]);
            }
            assert(segs1[n - 1] == segs1.last());
        }
        // segment numbers stay strictly increasing
        assert forall|i: int, j: int| 0 <= i < j < segs.len() implies #[trigger] segs[i].id
            < #[trigger] segs[j].id by {
            if j < n {
                if j == n - 1 {
                    assert(segs[j].id == segs0[n - 1].id);
                }
                if i < n - 1 && j < n - 1 {
                    assert(segs0[i].id < segs0[j].id);
                } else {
                    assert(segs0[i].id < segs0[n - 1].id);
                }
            } else {
                // j is the freshly rolled segment
                assert(segs[j].id > segs0.last().id);
                if i < n - 1 {
                    assert(segs0[i].id < segs0[n - 1].id);
                } else {
                    assert(segs[i].id == segs0[n - 1].id);
                }
            }
        }
        // each segment still encodes its records
        assert forall|i: int| 0 <= i < segs.len() implies Self::seg_wf(#[trigger] segs[i]) by {
            if i < n - 1 {
                assert(segs[i] == segs0[i]);
                assert(Self::seg_wf(segs0[i]));
            } else if i == n - 1 {
                assert(all_fit(segs1.last().recs@)) by {
                    assert(forall|t: int|
                        0 <= t < segs0.last().recs@.len() ==> #[trigger] segs1.last().recs@[t]
                            == segs0.last().recs@[t]);
                }
            } else {
                assert(segs[i].recs@.len() == 0);
                assert(concat_encs(segs[i].recs@) =~= Seq::<u8>::empty());
                assert(segs[i].data@ =~= Seq::<u8>::empty());
            }
        }
        // each index entry still points at a live record for its key
        let es = self.entries@;
        assert forall|t: int| 0 <= t < es.len() implies self.entry_ok(#[trigger] es[t]) by {
            if t == es.len() - 1 {
                let e = es[t];
                assert(segs[n - 1].recs@[e.rec@] == rm);
                assert(rec_off(segs[n - 1].recs@, e.rec@) == e.off) by {
                    assert(segs[n - 1].recs@.take(segs0.last().recs@.len() as int)
                        =~= segs0.last().recs@);
                }
            } else {
                assert(entries_has(entries0, es[t]));
                let u = choose|u: int| 0 <= u < entries0.len() && entries0[u] == es[t];
                assert(pre.entry_ok(entries0[u]));
                let e = es[t];
                assert(e.key@ != gk);
                assert(self.state@[e.key@] == state0[e.key@]);
                if e.pos@ < n - 1 {
                    assert(segs[e.pos@] == segs0[e.pos@]);
                } else {
                    assert(e.pos@ == n - 1);
                    assert(segs[n - 1].id == segs0[n - 1].id);
                    assert(forall|w: int|
                        0 <= w < segs0.last().recs@.len() ==> #[trigger] segs[n - 1].recs@[w]
                            == segs0.last().recs@[w]);
                    assert(rec_off(segs[n - 1].recs@, e.rec@) == rec_off(
                        segs0.last().recs@,
                        e.rec@,
                    )) by {
                        assert(segs[n - 1].recs@.take(e.rec@) =~= segs0.last().recs@.take(e.rec@));
                    }
                }
            }
        }
        // index keys stay pairwise distinct
        assert forall|t: int, u: int| 0 <= t < u < es.len() implies (#[trigger] es[t].key)@ != (
        #[trigger] es[u].key)@ by {
            if u == es.len() - 1 {
                assert(es[t].key@ != gk);
            }
        }
        // every live key has an entry
        assert forall|k: Seq<char>| #[trigger] self.state@.contains_key(k) implies has_entry(
            es,
            k,
        ) by {
            if k == gk {
                assert(es[es.len() - 1].key@ == k);
            } else {
                assert(state0.contains_key(k));
                assert(has_entry(es.drop_last(), k));
                let t = choose|t: int|
                    0 <= t < es.drop_last().len() && es.drop_last()[t].key@ == k;
                assert(es[t].key@ == k);
            }
        }
    }
}

/// After a `set`, the index is the old one with any entry for the written
/// key removed and a fresh entry for it at the end.  This unpacks that shape
/// into per-entry facts.
proof fn lemma_index_reshape(
    entries0: Seq<IndexEntry>,
    es0: Seq<IndexEntry>,
    state0: Map<Seq<char>, Seq<char>>,
    gk: Seq<char>,
)
    requires
        es0.len() >= 1,
        forall|t: int, u: int|
            0 <= t < u < entries0.len() ==> (#[trigger] entries0[t].key)@ != (
            #[trigger] entries0[u].key)@,
        forall|k: Seq<char>| #[trigger] state0.contains_key(k) ==> has_entry(entries0, k),
        ({
            ||| (exists|i: int|
                0 <= i < entries0.len() && entries0[i].key@ == gk && es0 == entries0.remove(
                    i,
                ).push(es0.last()))
            ||| (es0 == entries0.push(es0.last()) && forall|t: int|
                0 <= t < entries0.len() ==> (#[trigger] entries0[t].key)@ != gk)
        }),
    ensures
        forall|t: int| 0 <= t < es0.len() - 1 ==> entries_has(entries0, #[trigger] es0[t]),
        forall|t: int| 0 <= t < es0.len() - 1 ==> (#[trigger] es0[t].key)@ != gk,
        forall|t: int, u: int|
            0 <= t < u < es0.len() - 1 ==> (#[trigger] es0[t].key)@ != (#[trigger] es0[u].key)@,
        forall|k: Seq<char>|
            #[trigger] state0.contains_key(k) && k != gk ==> has_entry(es0.drop_last(), k),
{
    // unpack the index shape into per-entry facts
        if exists|i: int|
            0 <= i < entries0.len() && entries0[i].key@ == gk && es0 == entries0.remove(i).push(
                es0.last(),
            ) {
            let i = choose|i: int|
                0 <= i < entries0.len() && entries0[i].key@ == gk && es0 == entries0.remove(
                    i,
                ).push(es0.last());
            entries0.remove_ensures(i);
            assert forall|t: int| 0 <= t < es0.len() - 1 implies #[trigger] es0[t] == (if t < i {
                entries0[t]
            } else {
                entries0[t + 1]
            }) by {
                assert(es0[t] == entries0.remove(i)[t]);
            }
            assert forall|t: int| 0 <= t < es0.len() - 1 implies entries_has(
                entries0,
                #[trigger] es0[t],
            ) by {
                if t < i {
                    assert(entries0[t] == es0[t]);
                } else {
                    assert(entries0[t + 1] == es0[t]);
                }
            }
            assert forall|t: int| 0 <= t < es0.len() - 1 implies (#[trigger] es0[t].key)@
                != gk by {
                if t < i {
                    assert(es0[t] == entries0[t]);
                    assert(entries0[t].key@ != entries0[i].key@);
                } else {
                    assert(es0[t] == entries0[t + 1]);
                    assert(entries0[i].key@ != entries0[t + 1].key@);
                }
            }
            assert forall|t: int, u: int| 0 <= t < u < es0.len() - 1 implies (
            #[trigger] es0[t].key)@ != (#[trigger] es0[u].key)@ by {
                let wt: int = if t < i {
                    t
                } else {
                    t + 1
                };
                let wu: int = if u < i {
                    u
                } else {
                    u + 1
                };
                assert(es0[t] == entries0[wt]);
                assert(es0[u] == entries0[wu]);
                assert(wt < wu);
            }
            assert forall|k: Seq<char>| #[trigger] state0.contains_key(k) && k != gk implies
                has_entry(es0.drop_last(), k) by {
                assert(has_entry(entries0, k));
                let w = choose|w: int| 0 <= w < entries0.len() && entries0[w].key@ == k;
                assert(w != i);
                if w < i {
                    assert(es0[w] == entries0[w]);
                    assert(es0.drop_last()[w] == es0[w]);
                } else {
                    assert(es0[w - 1] == entries0[w]);
                    assert(es0.drop_last()[w - 1] == es0[w - 1]);
                }
            }
        } else {
            assert(es0 == entries0.push(es0.last()));
            assert forall|t: int| 0 <= t < es0.len() - 1 implies #[trigger] es0[t]
                == entries0[t] by {}
            assert forall|t: int| 0 <= t < es0.len() - 1 implies entries_has(
                entries0,
                #[trigger] es0[t],
            ) by {
                assert(entries0[t] == es0[t]);
            }
            assert forall|t: int| 0 <= t < es0.len() - 1 implies (#[trigger] es0[t].key)@
                != gk by {
                assert(es0[t] == entries0[t]);
            }
            assert forall|t: int, u: int| 0 <= t < u < es0.len() - 1 implies (
            #[trigger] es0[t].key)@ != (#[trigger] es0[u].key)@ by {
                assert(es0[t] == entries0[t]);
                assert(es0[u] == entries0[u]);
            }
            assert forall|k: Seq<char>| #[trigger] state0.contains_key(k) && k != gk implies
                has_entry(es0.drop_last(), k) by {
                assert(has_entry(entries0, k));
                let w = choose|w: int| 0 <= w < entries0.len() && entries0[w].key@ == k;
                assert(es0[w] == entries0[w]);
                assert(es0.drop_last()[w] == es0[w]);
            }
        }
}

impl KvStore {
    /// Remove a key.  Appends a tombstone record and drops the key from the
    /// index; removing an absent key fails with `ErrKeyNotFound` and changes
    /// nothing.
    #[verifier::loop_isolation(false)]
    #[verifier::rlimit(100)]
    pub fn remove(&mut self, key: String) -> (r: Result<(), KvsError>)
        requires
            old(self).wf(),
        ensures
            final(self).wf(),
            old(self)@.contains_key(key@) ==> r is Ok && final(self)@ == old(self)@.remove(key@),
            !old(self)@.contains_key(key@) ==> r == Err::<(), KvsError>(KvsError::ErrKeyNotFound)
                && final(self)@ == old(self)@ && *final(self) == *old(self),
    {
        let ghost gk = key@;
        let ghost segs0 = self.segments@;
        let ghost entries0 = self.entries@;
        let ghost state0 = self.state@;
        let ghost pending0 = self.pending@;
        let found = index_find(&self.entries, &key);
        if found.is_none() {
            proof {
                if self@.contains_key(gk) {
                    assert(has_entry(entries0, gk));
                    let w = choose|w: int| 0 <= w < entries0.len() && entries0[w].key@ == gk;
                    assert(entries0[w].key@ != gk);
                }
            }
            return Err(KvsError::ErrKeyNotFound);
        }
        let i = found.unwrap();
        // a removal counts toward the compaction budget
        if self.uncompacted < u64::MAX {
            self.uncompacted = self.uncompacted + 1;
        }
        let kv = KV::new(key, String::new(), 0);
        let ghost rm = kv@;
        proof {
            assert(self.entry_ok(entries0[i as int]));
            let e = entries0[i as int];
            let oldrec = segs0[e.pos@].recs@[e.rec@];
            assert(Self::seg_wf(segs0[e.pos@]));
            assert(rec_fits(oldrec));
            assert(dec_digits(0) == seq![0x30u8]);
            assert(rm.value =~= Seq::<char>::empty());
            lemma_rewrite_fits(oldrec, rm);
        }
        let mut frame: Vec<u8> = Vec::new();
        write_kv(&mut frame, kv);
        proof {
            assert(frame@ =~= rec_enc(rm));
        }
        // append the tombstone to the active segment
        let n = self.segments.len();
        let mut seg = self.segments.pop().unwrap();
        let ghost oldrecs = seg.recs@;
        proof {
            assert(Self::seg_wf(segs0[n - 1]));
            assert(segs0.last() == segs0[n - 1]);
        }
        let sid = seg.id;
        append_bytes(&mut seg.data, &frame);
        proof {
            assert(oldrecs.push(rm).drop_last() =~= oldrecs);
            assert(concat_encs(oldrecs.push(rm)) == concat_encs(oldrecs) + rec_enc(rm));
        }
        seg.recs = Ghost(oldrecs.push(rm));
        self.segments.push(seg);
        let ghost segs1 = self.segments@;
        proof {
            assert(segs1.drop_last() =~= segs0.drop_last());
            assert(segs1.last().recs@ == oldrecs + seq![rm]) by {
                assert(oldrecs.push(rm) =~= oldrecs + seq![rm]);
            }
            lemma_all_recs_update_last(segs0, segs1, rm);
            lemma_replay_push(all_recs(segs0), rm);
            assert(all_recs(segs0) + seq![rm] =~= all_recs(segs0).push(rm));
            lemma_disk_of_update_last(segs0, segs1);
            lemma_disk_of_last(segs0);
        }
        // drop the key from the index
        self.entries.remove(i);
        self.state = Ghost(self.state@.remove(gk));
        self.pending.push(DiskOp::Append { seg: sid, bytes: frame });
        proof {
            lemma_apply_ops_push(self.base@, pending0, self.pending@.last());
            assert(self.pending@.drop_last() =~= pending0);
            assert(apply_ops(self.base@, self.pending@) == disk_of(segs1)) by {
                assert(disk_of(segs1) =~= disk_of(segs0).insert(
                    sid,
                    disk_of(segs0)[sid] + frame@,
                ));
            }
            self.lemma_remove_wf(*old(self), segs0, segs1, entries0, state0, gk, rm, i as int,
                n as int);
        }
        Ok(())
    }

    /// The well-formedness argument for `remove`.
    #[verifier::rlimit(100)]
    proof fn lemma_remove_wf(
        &self,
        pre: KvStore,
        segs0: Seq<Segment>,
        segs1: Seq<Segment>,
        entries0: Seq<IndexEntry>,
        state0: Map<Seq<char>, Seq<char>>,
        gk: Seq<char>,
        rm: KvModel,
        i: int,
        n: int,
    )
        requires
            pre.wf(),
            segs0 == pre.segments@,
            entries0 == pre.entries@,
            state0 == pre.state@,
            n == segs0.len(),
            rm.version == 0,
            rm.key == gk,
            rec_fits(rm),
            segs1.len() == n,
            segs1.drop_last() == segs0.drop_last(),
            segs1.last().id == segs0.last().id,
            segs1.last().recs@ == segs0.last().recs@.push(rm),
            segs1.last().data@ == concat_encs(segs1.last().recs@),
            self.segments@ == segs1,
            0 <= i < entries0.len(),
            entries0[i].key@ == gk,
            self.entries@ == entries0.remove(i),
            self.state@ == state0.remove(gk),
            replay(all_recs(segs1)) == self.state@,
            apply_ops(self.base@, self.pending@) == disk_of(segs1),
        ensures
            self.wf(),
    {
        let segs = self.segments@;
        let es = self.entries@;
        entries0.remove_ensures(i);
        assert forall|t: int| 0 <= t < es.len() implies #[trigger] es[t] == (if t < i {
            entries0[t]
        } else {
            entries0[t + 1]
        }) by {}
        // segments: only the last one changed, and only by an append
        assert forall|a: int, b: int| 0 <= a < b < segs.len() implies #[trigger] segs[a].id
            < #[trigger] segs[b].id by {
            if a < n - 1 {
                assert(segs[a] == segs1.drop_last()[a]);
                assert(segs0[a] == segs0.drop_last()[a]);
            }
            if b < n - 1 {
                assert(segs[b] == segs1.drop_last()[b]);
                assert(segs0[b] == segs0.drop_last()[b]);
            } else {
                assert(segs[b].id == segs0[n - 1].id);
            }
            assert(segs0[a].id < segs0[b].id);
        }
        assert forall|a: int| 0 <= a < segs.len() implies Self::seg_wf(#[trigger] segs[a]) by {
            if a < n - 1 {
                assert(segs[a] == segs1.drop_last()[a]);
                assert(segs0[a] == segs0.drop_last()[a]);
                assert(Self::seg_wf(segs0[a]));
            } else {
                assert(all_fit(segs[a].recs@)) by {
                    assert(forall|t: int|
                        0 <= t < segs0.last().recs@.len() ==> #[trigger] segs[a].recs@[t]
                            == segs0.last().recs@[t]);
                }
            }
        }
        // the surviving index entries still point at live records
        assert forall|t: int| 0 <= t < es.len() implies self.entry_ok(#[trigger] es[t]) by {
            let u: int = if t < i {
                t
            } else {
                t + 1
            };
            assert(es[t] == entries0[u]);
            assert(pre.entry_ok(entries0[u]));
            let e = es[t];
            assert(e.key@ != gk);
            assert(self.state@.contains_key(e.key@) && self.state@[e.key@] == state0[e.key@]);
            if e.pos@ < n - 1 {
                assert(segs[e.pos@] == segs1.drop_last()[e.pos@]);
                assert(segs0[e.pos@] == segs0.drop_last()[e.pos@]);
            } else {
                assert(e.pos@ == n - 1);
                assert(segs[n - 1].id == segs0[n - 1].id);
                assert(segs[n - 1] == segs1.last() && segs0[n - 1] == segs0.last());
                assert(forall|w: int|
                    0 <= w < segs0.last().recs@.len() ==> #[trigger] segs[n - 1].recs@[w]
                        == segs0.last().recs@[w]);
                assert(rec_off(segs[n - 1].recs@, e.rec@) == rec_off(
                    segs0.last().recs@,
                    e.rec@,
                )) by {
                    assert(segs[n - 1].recs@.take(e.rec@) =~= segs0.last().recs@.take(e.rec@));
                }
            }
        }
        assert forall|t: int, u: int| 0 <= t < u < es.len() implies (#[trigger] es[t].key)@ != (
        #[trigger] es[u].key)@ by {
            let wt: int = if t < i {
                t
            } else {
                t + 1
            };
            let wu: int = if u < i {
                u
            } else {
                u + 1
            };
            assert(es[t] == entries0[wt]);
            assert(es[u] == entries0[wu]);
            assert(wt < wu);
        }
        assert forall|k: Seq<char>| #[trigger] self.state@.contains_key(k) implies has_entry(
            es,
            k,
        ) by {
            assert(state0.contains_key(k) && k != gk);
            assert(has_entry(entries0, k));
            let w = choose|w: int| 0 <= w < entries0.len() && entries0[w].key@ == k;
            assert(w != i);
            if w < i {
                assert(es[w] == entries0[w]);
            } else {
                assert(es[w - 1] == entries0[w]);
            }
        }
    }
}

/// Record images are never empty.
pub proof fn lemma_concat_encs_empty(rs: Seq<KvModel>)
    requires
        concat_encs(rs).len() == 0,
    ensures
        rs.len() == 0,
{
    if rs.len() > 0 {
        assert(concat_encs(rs) == concat_encs(rs.drop_last()) + rec_enc(rs.last()));
        assert(rec_enc(rs.last()).len() >= 4);
    }
}

/// Scan one segment's bytes into records, stopping cleanly at a torn or
/// foreign tail, which is cut off.  On bytes that are exactly a record
/// sequence, the scan recovers exactly that sequence and cuts nothing.
#[verifier::loop_isolation(false)]
#[verifier::rlimit(100)]
fn scan_segment(data: &mut Vec<u8>) -> (recs: Ghost<Seq<KvModel>>)
    ensures
        final(data)@ == concat_encs(recs@),
        all_fit(recs@),
        forall|rs: Seq<KvModel>|
            #[trigger] full_match(old(data)@, rs) ==> recs@ == rs && final(data)@ == old(data)@,
{
    let len = data.len();
    let mut pos: usize = 0;
    let ghost mut recs: Seq<KvModel> = Seq::empty();
    proof {
        assert(data@.take(0) =~= Seq::<u8>::empty());
    }
    while pos < len
        invariant
            0 <= pos <= len,
            len == data@.len(),
            data@ == old(data)@,
            data@.take(pos as int) == concat_encs(recs),
            all_fit(recs),
            forall|rs: Seq<KvModel>|
                #[trigger] full_match(data@, rs) ==> recs.len() <= rs.len() && recs == rs.take(
                    recs.len() as int,
                ),
        decreases len - pos,
    {
        let ghost j = recs.len() as int;
        proof {
            assert forall|rs: Seq<KvModel>| #[trigger] full_match(data@, rs) implies j < rs.len()
                && record_at(data@, pos as int, rs[j]) && rec_off(rs, j) == pos by {
                assert(concat_encs(rs.take(j)) == concat_encs(recs));
                if j == rs.len() {
                    assert(rs.take(j) =~= rs);
                    assert(pos == data@.len());
                }
                lemma_concat_encs_split(rs, j);
                assert(bytes_at(data@, 0, concat_encs(rs))) by {
                    assert(data@.subrange(0, concat_encs(rs).len() as int) =~= concat_encs(rs));
                }
                lemma_bytes_at_split(
                    data@,
                    0,
                    concat_encs(rs.take(j)) + rec_enc(rs[j]),
                    concat_encs(rs.skip(j + 1)),
                );
                lemma_bytes_at_split(data@, 0, concat_encs(rs.take(j)), rec_enc(rs[j]));
            }
        }
        match read_record(data, pos) {
            Some(p) => {
                let (kv, next) = p;
                proof {
                    let ghost d = data@;
                    assert(d.take(next as int) =~= d.take(pos as int) + d.subrange(
                        pos as int,
                        pos + rec_enc(kv@).len(),
                    ));
                    assert(d.subrange(pos as int, pos + rec_enc(kv@).len()) =~= rec_enc(kv@)) by {
                        assert(bytes_at(d, pos as int, rec_enc(kv@)));
                    }
                    assert(concat_encs(recs.push(kv@)) == concat_encs(recs) + rec_enc(kv@)) by {
                        assert(recs.push(kv@).drop_last() =~= recs);
                    }
                    assert forall|rs: Seq<KvModel>| #[trigger] full_match(d, rs) implies recs.push(
                        kv@,
                    ) == rs.take(j + 1) by {
                        assert(kv@ == rs[j]);
                        assert(rs.take(j + 1) =~= rs.take(j).push(rs[j]));
                        assert(recs == rs.take(j));
                    }
                    recs = recs.push(kv@);
                }
                pos = next;
            },
            None => {
                proof {
                    assert forall|rs: Seq<KvModel>| !(#[trigger] full_match(data@, rs)) by {
                        if full_match(data@, rs) {
                            assert(record_at(data@, pos as int, rs[j]));
                        }
                    }
                }
                data.truncate(pos);
                proof {
                    assert(final(data)@ =~= old(data)@.take(pos as int));
                }
                return Ghost(recs);
            },
        }
    }
    proof {
        assert(data@.take(len as int) =~= data@);
        assert forall|rs: Seq<KvModel>| #[trigger] full_match(data@, rs) implies recs == rs by {
            assert(concat_encs(rs.take(recs.len() as int)) == concat_encs(recs));
            assert(concat_encs(rs).len() == data@.len());
            if recs.len() < rs.len() {
                lemma_concat_encs_split(rs, recs.len() as int);
                assert(rec_enc(rs[recs.len() as int]).len() >= 4);
                assert(concat_encs(rs).len() > concat_encs(rs.take(recs.len() as int)).len());
                assert(false);
            }
            assert(rs.take(rs.len() as int) =~= rs);
        }
    }
    Ghost(recs)
}

/// Inserting one live record's entry keeps the index well-formed.
#[verifier::rlimit(100)]
proof fn lemma_index_upsert(
    segs: Seq<Segment>,
    st0: Map<Seq<char>, Seq<char>>,
    entries0: Seq<IndexEntry>,
    es: Seq<IndexEntry>,
    rm: KvModel,
)
    requires
        forall|t: int|
            0 <= t < entries0.len() ==> entry_ok_for(segs, st0, #[trigger] entries0[t]),
        forall|t: int, u: int|
            0 <= t < u < entries0.len() ==> (#[trigger] entries0[t].key)@ != (
            #[trigger] entries0[u].key)@,
        forall|k: Seq<char>| #[trigger] st0.contains_key(k) ==> has_entry(entries0, k),
        rm.version != 0,
        es.len() >= 1,
        es.last().key@ == rm.key,
        0 <= es.last().pos@ < segs.len(),
        segs[es.last().pos@].id == es.last().seg,
        0 <= es.last().rec@ < segs[es.last().pos@].recs@.len(),
        segs[es.last().pos@].recs@[es.last().rec@] == rm,
        es.last().off == rec_off(segs[es.last().pos@].recs@, es.last().rec@),
        ({
            ||| (exists|i: int|
                0 <= i < entries0.len() && entries0[i].key@ == rm.key && es == entries0.remove(
                    i,
                ).push(es.last()))
            ||| (es == entries0.push(es.last()) && forall|t: int|
                0 <= t < entries0.len() ==> (#[trigger] entries0[t].key)@ != rm.key)
        }),
    ensures
        forall|t: int|
            0 <= t < es.len() ==> entry_ok_for(
                segs,
                st0.insert(rm.key, rm.value),
                #[trigger] es[t],
            ),
        forall|t: int, u: int|
            0 <= t < u < es.len() ==> (#[trigger] es[t].key)@ != (#[trigger] es[u].key)@,
        forall|k: Seq<char>|
            #[trigger] st0.insert(rm.key, rm.value).contains_key(k) ==> has_entry(es, k),
{
    lemma_index_reshape(entries0, es, st0, rm.key);
    let st = st0.insert(rm.key, rm.value);
    assert forall|t: int| 0 <= t < es.len() implies entry_ok_for(segs, st, #[trigger] es[t]) by {
        if t == es.len() - 1 {
            assert(entry_ok_for(segs, st, es.last()));
        } else {
            assert(entries_has(entries0, es[t]));
            let u = choose|u: int| 0 <= u < entries0.len() && entries0[u] == es[t];
            assert(entry_ok_for(segs, st0, entries0[u]));
            assert(es[t].key@ != rm.key);
        }
    }
    assert forall|t: int, u: int| 0 <= t < u < es.len() implies (#[trigger] es[t].key)@ != (
    #[trigger] es[u].key)@ by {
        if u == es.len() - 1 {
            assert(es[t].key@ != rm.key);
        }
    }
    assert forall|k: Seq<char>| #[trigger] st.contains_key(k) implies has_entry(es, k) by {
        if k == rm.key {
            assert(es[es.len() - 1].key@ == k);
        } else {
            assert(has_entry(es.drop_last(), k));
            let t = choose|t: int| 0 <= t < es.drop_last().len() && es.drop_last()[t].key@ == k;
            assert(es[t].key@ == k);
        }
    }
}

/// Dropping one key's entry keeps the index well-formed.
#[verifier::rlimit(100)]
proof fn lemma_index_removekey(
    segs: Seq<Segment>,
    st0: Map<Seq<char>, Seq<char>>,
    entries0: Seq<IndexEntry>,
    es: Seq<IndexEntry>,
    k: Seq<char>,
)
    requires
        forall|t: int|
            0 <= t < entries0.len() ==> entry_ok_for(segs, st0, #[trigger] entries0[t]),
        forall|t: int, u: int|
            0 <= t < u < entries0.len() ==> (#[trigger] entries0[t].key)@ != (
            #[trigger] entries0[u].key)@,
        forall|kk: Seq<char>| #[trigger] st0.contains_key(kk) ==> has_entry(entries0, kk),
        ({
            ||| (exists|i: int|
                0 <= i < entries0.len() && entries0[i].key@ == k && es == entries0.remove(i))
            ||| (es == entries0 && forall|t: int|
                0 <= t < entries0.len() ==> (#[trigger] entries0[t].key)@ != k)
        }),
    ensures
        forall|t: int|
            0 <= t < es.len() ==> entry_ok_for(segs, st0.remove(k), #[trigger] es[t]),
        forall|t: int, u: int|
            0 <= t < u < es.len() ==> (#[trigger] es[t].key)@ != (#[trigger] es[u].key)@,
        forall|kk: Seq<char>| #[trigger] st0.remove(k).contains_key(kk) ==> has_entry(es, kk),
{
    let st = st0.remove(k);
    if exists|i: int| 0 <= i < entries0.len() && entries0[i].key@ == k && es == entries0.remove(
        i,
    ) {
        let i = choose|i: int|
            0 <= i < entries0.len() && entries0[i].key@ == k && es == entries0.remove(i);
        entries0.remove_ensures(i);
        assert forall|t: int| 0 <= t < es.len() implies #[trigger] es[t] == (if t < i {
            entries0[t]
        } else {
            entries0[t + 1]
        }) by {}
        assert forall|t: int| 0 <= t < es.len() implies entry_ok_for(segs, st, #[trigger] es[t]) by {
            let u: int = if t < i {
                t
            } else {
                t + 1
            };
            assert(es[t] == entries0[u]);
            assert(entry_ok_for(segs, st0, entries0[u]));
            assert(es[t].key@ != k);
        }
        assert forall|t: int, u: int| 0 <= t < u < es.len() implies (#[trigger] es[t].key)@ != (
        #[trigger] es[u].key)@ by {
            let wt: int = if t < i {
                t
            } else {
                t + 1
            };
            let wu: int = if u < i {
                u
            } else {
                u + 1
            };
            assert(es[t] == entries0[wt]);
            assert(es[u] == entries0[wu]);
            assert(wt < wu);
        }
        assert forall|kk: Seq<char>| #[trigger] st.contains_key(kk) implies has_entry(es, kk) by {
            assert(st0.contains_key(kk) && kk != k);
            assert(has_entry(entries0, kk));
            let w = choose|w: int| 0 <= w < entries0.len() && entries0[w].key@ == kk;
            assert(w != i);
            if w < i {
                assert(es[w] == entries0[w]);
            } else {
                assert(es[w - 1] == entries0[w]);
            }
        }
    } else {
        assert(es == entries0);
        assert forall|t: int| 0 <= t < es.len() implies entry_ok_for(segs, st, #[trigger] es[t]) by {
            assert(entry_ok_for(segs, st0, entries0[t]));
            assert(es[t].key@ != k);
        }
        assert forall|kk: Seq<char>| #[trigger] st.contains_key(kk) implies has_entry(es, kk) by {
            assert(st0.contains_key(kk));
        }
    }
}

/// Rebuild the index by replaying every segment's records in order: later
/// records for a key overwrite earlier entries, tombstones drop them.
#[verifier::loop_isolation(false)]
#[verifier::rlimit(100)]
fn build_index(segments: &Vec<Segment>) -> (r: (Vec<IndexEntry>, Ghost<Map<Seq<char>, Seq<char>>>))
    requires
        forall|i: int|
            0 <= i < segments@.len() ==> KvStore::seg_wf(#[trigger] segments@[i]),
    ensures
        r.1@ == replay(all_recs(segments@)),
        forall|t: int|
            0 <= t < r.0@.len() ==> entry_ok_for(segments@, r.1@, #[trigger] r.0@[t]),
        forall|t: int, u: int|
            0 <= t < u < r.0@.len() ==> (#[trigger] r.0@[t].key)@ != (#[trigger] r.0@[u].key)@,
        forall|k: Seq<char>| #[trigger] r.1@.contains_key(k) ==> has_entry(r.0@, k),
{
    let n = segments.len();
    let mut entries: Vec<IndexEntry> = Vec::new();
    let ghost mut st: Map<Seq<char>, Seq<char>> = Map::empty();
    proof {
        assert(all_recs(segments@.take(0)) =~= Seq::<KvModel>::empty());
    }
    let mut s: usize = 0;
    while s < n
        invariant
            0 <= s <= n,
            n == segments@.len(),
            st == replay(all_recs(segments@.take(s as int))),
            forall|t: int|
                0 <= t < entries@.len() ==> entry_ok_for(segments@, st, #[trigger] entries@[t]),
            forall|t: int, u: int|
                0 <= t < u < entries@.len() ==> (#[trigger] entries@[t].key)@ != (
                #[trigger] entries@[u].key)@,
            forall|k: Seq<char>| #[trigger] st.contains_key(k) ==> has_entry(entries@, k),
        decreases n - s,
    {
        let seg = &segments[s];
        let dlen = seg.data.len();
        let ghost recs = seg.recs@;
        let ghost pre = all_recs(segments@.take(s as int));
        let mut pos: usize = 0;
        let ghost mut j: int = 0;
        proof {
            assert(recs.take(0) =~= Seq::<KvModel>::empty());
            assert(rec_off(recs, 0) == 0);
            assert(pre + recs.take(0) =~= pre);
        }
        while pos < dlen
            invariant
                0 <= j <= recs.len(),
                pos == rec_off(recs, j),
                pos <= dlen,
                st == replay(pre + recs.take(j)),
                forall|t: int|
                    0 <= t < entries@.len() ==> entry_ok_for(
                        segments@,
                        st,
                        #[trigger] entries@[t],
                    ),
                forall|t: int, u: int|
                    0 <= t < u < entries@.len() ==> (#[trigger] entries@[t].key)@ != (
                    #[trigger] entries@[u].key)@,
                forall|k: Seq<char>| #[trigger] st.contains_key(k) ==> has_entry(entries@, k),
            decreases dlen - pos,
        {
            proof {
                if j == recs.len() {
                    assert(recs.take(j) =~= recs);
                    assert(pos == dlen);
                }
                lemma_record_at_in_segment(segments@[s as int], j);
            }
            match read_record(&seg.data, pos) {
                Some(p) => {
                    let (kv, next) = p;
                    proof {
                        assert(kv@ == recs[j]);
                        assert(next == pos + rec_enc(recs[j]).len());
                        assert(rec_off(recs, j + 1) == next) by {
                            assert(recs.take(j + 1) =~= recs.take(j).push(recs[j]));
                            assert(concat_encs(recs.take(j + 1)) == concat_encs(recs.take(j))
                                + rec_enc(recs[j])) by {
                                assert(recs.take(j + 1).drop_last() =~= recs.take(j));
                            }
                        }
                    }
                    let found = index_find(&entries, &kv.key);
                    let ghost entries0 = entries@;
                    let ghost rm = kv@;
                    if kv.version != 0 {
                        match found {
                            Some(i) => {
                                entries.remove(i);
                            },
                            None => {},
                        }
                        entries.push(
                            IndexEntry {
                                key: kv.key,
                                seg: seg.id,
                                off: pos as u64,
                                pos: Ghost(s as int),
                                rec: Ghost(j),
                            },
                        );
                        proof {
                            lemma_index_upsert(segments@, st, entries0, entries@, rm);
                            st = st.insert(rm.key, rm.value);
                        }
                    } else {
                        match found {
                            Some(i) => {
                                entries.remove(i);
                            },
                            None => {},
                        }
                        proof {
                            lemma_index_removekey(segments@, st, entries0, entries@, rm.key);
                            st = st.remove(rm.key);
                        }
                    }
                    proof {
                        assert(recs.take(j + 1) =~= recs.take(j).push(recs[j]));
                        lemma_replay_push(pre + recs.take(j), recs[j]);
                        assert((pre + recs.take(j)).push(recs[j]) =~= pre + recs.take(j + 1));
                        assert(st == replay(pre + recs.take(j + 1)));
                        j = j + 1;
                    }
                    pos = next;
                },
                None => {
                    proof {
                        assert(false);
                    }
                },
            }
        }
        proof {
            assert(j == recs.len()) by {
                if j < recs.len() {
                    lemma_record_at_in_segment(segments@[s as int], j);
                    assert(rec_enc(recs[j]).len() >= 4);
                }
            }
            assert(recs.take(j) =~= recs);
            assert(all_recs(segments@.take(s + 1)) =~= pre + recs) by {
                assert(segments@.take(s + 1).drop_last() =~= segments@.take(s as int));
                assert(segments@.take(s + 1).last() == segments@[s as int]);
            }
        }
        s = s + 1;
    }
    proof {
        assert(segments@.take(n as int) =~= segments@);
    }
    (entries, Ghost(st))
}

impl KvStore {
    /// The store's directory image: segment number to segment bytes.
    pub closed spec fn disk(&self) -> Map<u64, Seq<u8>> {
        disk_of(self.segments@)
    }

    /// The directory image as the caller last saw it; the queued operations
    /// carry it to [`KvStore::disk`].
    pub closed spec fn synced(&self) -> Map<u64, Seq<u8>> {
        self.base@
    }

    /// Hand out the queued file operations.  Applying them, in order, to the
    /// directory as it stood after the last such call yields the store's
    /// current directory image.
    pub fn take_pending(&mut self) -> (ops: Vec<DiskOp>)
        requires
            old(self).wf(),
        ensures
            final(self).wf(),
            final(self)@ == old(self)@,
            final(self).disk() == old(self).disk(),
            apply_ops(old(self).synced(), ops@) == final(self).synced(),
            final(self).synced() == final(self).disk(),
    {
        let mut ops: Vec<DiskOp> = Vec::new();
        core::mem::swap(&mut ops, &mut self.pending);
        self.base = Ghost(disk_of(self.segments@));
        ops
    }

    /// Open a store over a directory image: each segment's number and bytes,
    /// in strictly increasing number order (the numeric order of the file
    /// names).  Every record found is replayed into the index; a torn tail is
    /// cut off; an empty directory starts with segment 1.  The store starts
    /// with an empty operation queue, so the caller should first bring its
    /// files in line with [`KvStore::dump`].
    #[verifier::loop_isolation(false)]
    #[verifier::rlimit(100)]
    pub fn open(files: Vec<(u64, Vec<u8>)>) -> (r: KvStore)
        requires
            forall|a: int, b: int|
                0 <= a < b < files@.len() ==> (#[trigger] files@[a]).0 < (#[trigger] files@[b]).0,
        ensures
            r.wf(),
            r.synced() == r.disk(),
            forall|gs: Seq<Seq<KvModel>>|
                #[trigger] disk_matches(files@, gs) ==> r@ == replay(flatten_recs(gs)),
    {
        let n = files.len();
        let mut segments: Vec<Segment> = Vec::new();
        let mut k: usize = 0;
        while k < n
            invariant
                0 <= k <= n,
                n == files@.len(),
                segments@.len() == k,
                forall|i: int| 0 <= i < k ==> (#[trigger] segments@[i]).id == files@[i].0,
                forall|i: int| 0 <= i < k ==> Self::seg_wf(#[trigger] segments@[i]),
                forall|gs: Seq<Seq<KvModel>>, i: int|
                    #[trigger] disk_matches(files@, gs) && 0 <= i < k ==> (
                    #[trigger] segments@[i]).recs@ == gs[i],
            decreases n - k,
        {
            let id = files[k].0;
            let mut data = files[k].1.clone();
            proof {
                assert(data@ =~= files@[k as int].1@);
            }
            let recs = scan_segment(&mut data);
            segments.push(Segment { id, data, recs });
            proof {
                assert forall|gs: Seq<Seq<KvModel>>, i: int|
                    #[trigger] disk_matches(files@, gs) && 0 <= i < k + 1 implies (
                #[trigger] segments@[i]).recs@ == gs[i] by {
                    if i == k {
                        assert(full_match(files@[i].1@, gs[i]));
                    }
                }
            }
            k = k + 1;
        }
        if segments.len() == 0 {
            let fresh = Segment { id: 1, data: Vec::new(), recs: Ghost(Seq::empty()) };
            proof {
                assert(concat_encs(fresh.recs@) =~= Seq::<u8>::empty());
                assert(fresh.data@ =~= Seq::<u8>::empty());
            }
            segments.push(fresh);
        }
        let idx = build_index(&segments);
        let entries = idx.0;
        let ghost st = idx.1@;
        let ghost dmap = disk_of(segments@);
        let r = KvStore {
            segments,
            entries,
            uncompacted: 0,
            pending: Vec::new(),
            base: Ghost(dmap),
            state: Ghost(st),
        };
        proof {
            assert(r.wf()) by {
                assert(apply_ops(r.base@, r.pending@) == disk_of(r.segments@));
            }
            assert forall|gs: Seq<Seq<KvModel>>| #[trigger] disk_matches(files@, gs) implies r@
                == replay(flatten_recs(gs)) by {
                if n == 0 {
                    assert(gs.len() == 0);
                    assert(flatten_recs(gs) =~= Seq::<KvModel>::empty());
                    assert(r.segments@.len() == 1 && r.segments@[0].recs@.len() == 0);
                    assert(all_recs(r.segments@.drop_last()) =~= Seq::<KvModel>::empty());
                    assert(all_recs(r.segments@) =~= Seq::<KvModel>::empty());
                } else {
                    lemma_all_recs_flatten(r.segments@, gs);
                }
            }
        }
        r
    }

    /// Open a second store over this store's own directory image.  The copy
    /// carries the same keys and values: what the store would read back after
    /// a shutdown and restart.
    pub fn reopen(&self) -> (r: KvStore)
        requires
            self.wf(),
        ensures
            r.wf(),
            r@ == self@,
    {
        let files = self.dump();
        proof {
            assert forall|a: int, b: int| 0 <= a < b < files@.len() implies (
            #[trigger] files@[a]).0 < (#[trigger] files@[b]).0 by {
                assert(files@[a].0 == self.segments@[a].id);
                assert(files@[b].0 == self.segments@[b].id);
            }
        }
        let r = Self::open(files);
        proof {
            let gs = Seq::new(self.segments@.len(), |i: int| self.segments@[i].recs@);
            assert(disk_matches(files@, gs)) by {
                assert forall|i: int| 0 <= i < files@.len() implies full_match(
                    (#[trigger] files@[i]).1@,
                    gs[i],
                ) by {
                    assert(files@[i].1@ == self.segments@[i].data@);
                    assert(Self::seg_wf(self.segments@[i]));
                }
            }
            lemma_all_recs_flatten(self.segments@, gs);
        }
        r
    }
}

impl KvStore {
    /// Compaction is attempted only once the active segment has grown past
    /// the size threshold (and a fresh segment number is still available).
    pub closed spec fn compaction_ready(&self) -> bool {
        self.segments@.last().data@.len() > ONE_SST_FILE_MAX_SIZE && self.segments@.last().id
            < u64::MAX
    }

    /// The log holds exactly one record per live key: nothing dead is left.
    pub closed spec fn compacted(&self) -> bool {
        &&& all_recs(self.segments@).len() == self.entries@.len()
        &&& forall|i: int|
            0 <= i < all_recs(self.segments@).len() ==> live_in(
                self.state@,
                #[trigger] all_recs(self.segments@)[i],
            )
    }

    /// Rewrite every live record into a fresh run of segments, swap the
    /// index over, and delete the old segments.  The store's keys and values
    /// are unchanged; afterwards the log carries no overwritten or removed
    /// record any more.
    #[verifier::loop_isolation(false)]
    #[verifier::rlimit(100)]
    pub fn compaction(&mut self)
        requires
            old(self).wf(),
        ensures
            final(self).wf(),
            final(self)@ == old(self)@,
            final(self).spec_len() == old(self).spec_len(),
            old(self).compaction_ready() ==> final(self).compacted(),
            !old(self).compaction_ready() ==> *final(self) == *old(self),
    {
        let n = self.segments.len();
        let last_id = self.segments[n - 1].id;
        if self.segments[n - 1].data.len() as u64 <= ONE_SST_FILE_MAX_SIZE
            || last_id == u64::MAX {
            return ;
        }
        let new_id = last_id + 1;
        let ghost segs0 = self.segments@;
        let ghost entries0 = self.entries@;
        let ghost state0 = self.state@;
        proof {
            assert(segs0.last() == segs0[n - 1]);
            assert forall|a: int| 0 <= a < n implies (#[trigger] segs0[a]).id < new_id by {
                if a < n - 1 {
                    assert(segs0[a].id < segs0[n - 1].id);
                }
            }
        }
        // the rewritten records go into a fresh run of segments
        let mut out: Vec<Segment> = Vec::new();
        let fresh0 = Segment { id: new_id, data: Vec::new(), recs: Ghost(Seq::empty()) };
        proof {
            assert(concat_encs(fresh0.recs@) =~= Seq::<u8>::empty());
            assert(fresh0.data@ =~= Seq::<u8>::empty());
        }
        out.push(fresh0);
        let mut new_entries: Vec<IndexEntry> = Vec::new();
        let ghost mut done: Map<Seq<char>, Seq<char>> = Map::empty();
        proof {
            assert(out@.drop_last() =~= Seq::<Segment>::empty());
            assert(all_recs(Seq::<Segment>::empty()) == Seq::<KvModel>::empty());
            assert(out@.last() == fresh0);
            assert(all_recs(out@) == all_recs(out@.drop_last()) + out@.last().recs@);
            assert(all_recs(out@) =~= Seq::<KvModel>::empty());
        }
        let total = self.entries.len();
        let mut i: usize = 0;
        while i < total
            invariant
                0 <= i <= total,
                total == entries0.len(),
                self.segments@ == segs0,
                self.entries@ == entries0,
                self.state@ == state0,
                self.wf(),
                out@.len() >= 1,
                forall|a: int, b: int|
                    0 <= a < b < out@.len() ==> (#[trigger] out@[a]).id < (#[trigger] out@[b]).id,
                forall|a: int| 0 <= a < out@.len() ==> (#[trigger] out@[a]).id >= new_id,
                forall|a: int| 0 <= a < out@.len() ==> Self::seg_wf(#[trigger] out@[a]),
                forall|t: int|
                    0 <= t < new_entries@.len() ==> entry_ok_for(
                        out@,
                        done,
                        #[trigger] new_entries@[t],
                    ),
                new_entries@.len() == i,
                forall|t: int|
                    0 <= t < i ==> (#[trigger] new_entries@[t].key)@ == entries0[t].key@,
                forall|k: Seq<char>|
                    #[trigger] done.contains_key(k) ==> exists|j: int|
                        0 <= j < i && (#[trigger] entries0[j].key)@ == k,
                forall|j: int| 0 <= j < i ==> done.contains_key((#[trigger] entries0[j].key)@),
                forall|k: Seq<char>|
                    #[trigger] done.contains_key(k) ==> done[k] == state0[k],
                replay(all_recs(out@)) == done,
                all_recs(out@).len() == i,
                forall|w: int|
                    0 <= w < all_recs(out@).len() ==> live_in(
                        state0,
                        #[trigger] all_recs(out@)[w],
                    ),
            decreases total - i,
        {
            let kv0 = self.read_entry(i);
            let key2 = self.entries[i].key.clone();
            let kv = KV::new(key2, kv0.value, 1);
            let ghost rm = kv@;
            proof {
                let e = entries0[i as int];
                assert(self.entry_ok(e));
                let oldrec = segs0[e.pos@].recs@[e.rec@];
                assert(Self::seg_wf(segs0[e.pos@]));
                assert(rec_fits(oldrec));
                assert(dec_digits(1) == seq![0x31u8]);
                lemma_rewrite_fits(oldrec, rm);
            }
            let mut frame: Vec<u8> = Vec::new();
            write_kv(&mut frame, kv);
            proof {
                assert(frame@ =~= rec_enc(rm));
            }
            // append the rewritten record to the output's active segment
            let oc = out.len();
            let ghost out_a = out@;
            let mut oseg = out.pop().unwrap();
            let ghost orecs = oseg.recs@;
            let off_usize = oseg.data.len();
            let oid = oseg.id;
            proof {
                assert(Self::seg_wf(out_a[oc - 1]));
            }
            append_bytes(&mut oseg.data, &frame);
            proof {
                assert(orecs.push(rm).drop_last() =~= orecs);
                assert(concat_encs(orecs.push(rm)) == concat_encs(orecs) + rec_enc(rm));
            }
            oseg.recs = Ghost(orecs.push(rm));
            out.push(oseg);
            let ghost out_b = out@;
            proof {
                assert(out_b.drop_last() =~= out_a.drop_last());
                assert(out_b.last().recs@ == orecs + seq![rm]) by {
                    assert(orecs.push(rm) =~= orecs + seq![rm]);
                }
                lemma_all_recs_update_last(out_a, out_b, rm);
                lemma_replay_push(all_recs(out_a), rm);
                assert(all_recs(out_a) + seq![rm] =~= all_recs(out_a).push(rm));
                lemma_entries_stable(out_a, out_b, done, new_entries@, rm);
                lemma_entries_stable_insert(out_b, done, new_entries@, rm.key, rm.value);
            }
            let key3 = self.entries[i].key.clone();
            let ne = IndexEntry {
                key: key3,
                seg: oid,
                off: off_usize as u64,
                pos: Ghost(oc - 1 as int),
                rec: Ghost(orecs.len() as int),
            };
            new_entries.push(ne);
            proof {
                done = done.insert(rm.key, rm.value);
                assert(entry_ok_for(out_b, done, new_entries@.last())) by {
                    assert(out_b[oc - 1].recs@[orecs.len() as int] == rm);
                    assert(rec_off(out_b[oc - 1].recs@, orecs.len() as int) == off_usize) by {
                        assert(out_b[oc - 1].recs@.take(orecs.len() as int) =~= orecs);
                    }
                }
                assert(state0.contains_key(rm.key) && state0[rm.key] == rm.value) by {
                    assert(self.entry_ok(entries0[i as int]));
                }
            }
            // roll the output segment once it has grown past the threshold
            if off_usize as u64 > ONE_SST_FILE_MAX_SIZE && out[out.len() - 1].id < u64::MAX {
                let tid = out[out.len() - 1].id + 1;
                let fresh = Segment { id: tid, data: Vec::new(), recs: Ghost(Seq::empty()) };
                proof {
                    assert(concat_encs(fresh.recs@) =~= Seq::<u8>::empty());
                    assert(fresh.data@ =~= Seq::<u8>::empty());
                    lemma_all_recs_push_empty(out@, fresh);
                    lemma_entries_stable_push(out@, fresh, done, new_entries@);
                    assert forall|a: int| 0 <= a < out@.len() implies (#[trigger] out@[a]).id
                        < tid by {
                        if a < out@.len() - 1 {
                            assert(out@[a].id < out@[out@.len() - 1].id);
                        }
                    }
                }
                out.push(fresh);
            }
            i = i + 1;
        }
        // everything live has been rewritten
        proof {
            assert(done =~= state0) by {
                assert forall|k: Seq<char>| state0.contains_key(k) implies done.contains_key(
                    k,
                ) by {
                    assert(has_entry(entries0, k));
                    let w = choose|w: int| 0 <= w < entries0.len() && entries0[w].key@ == k;
                    assert(done.contains_key(entries0[w].key@));
                }
            }
        }
        // queue the file operations: drop every old segment, then write the
        // fresh ones
        let mut ops: Vec<DiskOp> = Vec::new();
        proof {
            assert(segs0.skip(0) =~= segs0);
        }
        let mut d: usize = 0;
        while d < n
            invariant
                0 <= d <= n,
                n == segs0.len(),
                self.segments@ == segs0,
                apply_ops(disk_of(segs0), ops@) == disk_of(segs0.skip(d as int)),
            decreases n - d,
        {
            let ghost ops0 = ops@;
            ops.push(DiskOp::Delete { seg: self.segments[d].id });
            proof {
                lemma_apply_ops_push(disk_of(segs0), ops0, ops@.last());
                assert(ops@.drop_last() =~= ops0);
                let rest = segs0.skip(d as int);
                assert(rest[0] == segs0[d as int]);
                assert forall|a: int, b: int| 0 <= a < b < rest.len() implies (
                #[trigger] rest[a]).id < (#[trigger] rest[b]).id by {
                    assert(rest[a] == segs0[d + a] && rest[b] == segs0[d + b]);
                }
                lemma_disk_of_remove_first(rest);
                assert(rest.skip(1) =~= segs0.skip(d + 1));
            }
            d = d + 1;
        }
        proof {
            assert(segs0.skip(n as int) =~= Seq::<Segment>::empty());
            assert(disk_of(segs0.skip(n as int)) =~= Map::<u64, Seq<u8>>::empty());
            assert(disk_of(out@.take(0)) =~= Map::<u64, Seq<u8>>::empty());
        }
        let oc2 = out.len();
        let mut c: usize = 0;
        while c < oc2
            invariant
                0 <= c <= oc2,
                oc2 == out@.len(),
                apply_ops(disk_of(segs0), ops@) == disk_of(out@.take(c as int)),
            decreases oc2 - c,
        {
            let cid = out[c].id;
            let cdata = out[c].data.clone();
            let ghost ops1 = ops@;
            ops.push(DiskOp::Create { seg: cid });
            proof {
                lemma_apply_ops_push(disk_of(segs0), ops1, ops@.last());
                assert(ops@.drop_last() =~= ops1);
            }
            let ghost ops2 = ops@;
            ops.push(DiskOp::Append { seg: cid, bytes: cdata });
            proof {
                lemma_apply_ops_push(disk_of(segs0), ops2, ops@.last());
                assert(ops@.drop_last() =~= ops2);
                assert(disk_of(out@.take(c + 1)) =~= disk_of(out@.take(c as int)).insert(
                    cid,
                    out@[c as int].data@,
                )) by {
                    assert(out@.take(c + 1).drop_last() =~= out@.take(c as int));
                    assert(out@.take(c + 1).last() == out@[c as int]);
                }
                assert(apply_ops(disk_of(segs0), ops@) =~= disk_of(out@.take(c + 1))) by {
                    assert(Seq::<u8>::empty() + out@[c as int].data@ =~= out@[c as int].data@);
                }
            }
            c = c + 1;
        }
        proof {
            assert(out@.take(oc2 as int) =~= out@);
        }
        // swap the store over to the rewritten log
        let ghost opsv = ops@;
        let ghost pendpre = self.pending@;
        self.segments = out;
        self.entries = new_entries;
        self.uncompacted = 0;
        self.pending.append(&mut ops);
        proof {
            lemma_apply_ops_concat(self.base@, pendpre, opsv);
            assert(self.pending@ == pendpre + opsv);
            assert(apply_ops(self.base@, self.pending@) == disk_of(self.segments@));
            assert forall|t: int| 0 <= t < self.entries@.len() implies self.entry_ok(
                #[trigger] self.entries@[t],
            ) by {
                assert(entry_ok_for(self.segments@, done, self.entries@[t]));
            }
            assert forall|t: int, u: int| 0 <= t < u < self.entries@.len() implies (
            #[trigger] self.entries@[t].key)@ != (#[trigger] self.entries@[u].key)@ by {
                assert(self.entries@[t].key@ == entries0[t].key@);
                assert(self.entries@[u].key@ == entries0[u].key@);
            }
            assert forall|k: Seq<char>| #[trigger] self.state@.contains_key(k) implies has_entry(
                self.entries@,
                k,
            ) by {
                assert(done.contains_key(k));
                let j = choose|j: int| 0 <= j < total && (#[trigger] entries0[j].key)@ == k;
                assert(self.entries@[j].key@ == k);
            }
        }
    }
}

/// A record that is live under the given state: not a tombstone, and binding
/// its key to the key's current value.
pub open spec fn live_in(st: Map<Seq<char>, Seq<char>>, r: KvModel) -> bool {
    r.version != 0 && st.contains_key(r.key) && st[r.key] == r.value
}

/// Appending one record to the last segment disturbs no index entry.
proof fn lemma_entries_stable(
    segs1: Seq<Segment>,
    segs2: Seq<Segment>,
    st: Map<Seq<char>, Seq<char>>,
    entries: Seq<IndexEntry>,
    r: KvModel,
)
    requires
        forall|t: int|
            0 <= t < entries.len() ==> entry_ok_for(segs1, st, #[trigger] entries[t]),
        segs1.len() >= 1,
        segs2.len() == segs1.len(),
        segs2.drop_last() == segs1.drop_last(),
        segs2.last().id == segs1.last().id,
        segs2.last().recs@ == segs1.last().recs@.push(r),
    ensures
        forall|t: int|
            0 <= t < entries.len() ==> entry_ok_for(segs2, st, #[trigger] entries[t]),
{
    let n = segs1.len() as int;
    assert forall|t: int| 0 <= t < entries.len() implies entry_ok_for(
        segs2,
        st,
        #[trigger] entries[t],
    ) by {
        let e = entries[t];
        assert(entry_ok_for(segs1, st, e));
        if e.pos@ < n - 1 {
            assert(segs2[e.pos@] == segs2.drop_last()[e.pos@]);
            assert(segs1[e.pos@] == segs1.drop_last()[e.pos@]);
        } else {
            assert(segs2[n - 1] == segs2.last() && segs1[n - 1] == segs1.last());
            assert(forall|w: int|
                0 <= w < segs1.last().recs@.len() ==> #[trigger] segs2.last().recs@[w]
                    == segs1.last().recs@[w]);
            assert(rec_off(segs2.last().recs@, e.rec@) == rec_off(segs1.last().recs@, e.rec@)) by {
                assert(segs2.last().recs@.take(e.rec@) =~= segs1.last().recs@.take(e.rec@));
            }
        }
    }
}

/// Appending a whole new segment disturbs no index entry.
proof fn lemma_entries_stable_push(
    segs: Seq<Segment>,
    s: Segment,
    st: Map<Seq<char>, Seq<char>>,
    entries: Seq<IndexEntry>,
)
    requires
        forall|t: int| 0 <= t < entries.len() ==> entry_ok_for(segs, st, #[trigger] entries[t]),
    ensures
        forall|t: int|
            0 <= t < entries.len() ==> entry_ok_for(segs.push(s), st, #[trigger] entries[t]),
{
    assert forall|t: int| 0 <= t < entries.len() implies entry_ok_for(
        segs.push(s),
        st,
        #[trigger] entries[t],
    ) by {
        let e = entries[t];
        assert(entry_ok_for(segs, st, e));
        assert(segs.push(s)[e.pos@] == segs[e.pos@]);
    }
}

/// Binding a key that no entry carries disturbs no index entry.
proof fn lemma_entries_stable_insert(
    segs: Seq<Segment>,
    st: Map<Seq<char>, Seq<char>>,
    entries: Seq<IndexEntry>,
    k: Seq<char>,
    v: Seq<char>,
)
    requires
        forall|t: int| 0 <= t < entries.len() ==> entry_ok_for(segs, st, #[trigger] entries[t]),
        forall|t: int| 0 <= t < entries.len() ==> (#[trigger] entries[t].key)@ != k,
    ensures
        forall|t: int|
            0 <= t < entries.len() ==> entry_ok_for(segs, st.insert(k, v), #[trigger] entries[t]),
{
}

/// Deleting the first (smallest-numbered) segment from the image.
proof fn lemma_disk_of_remove_first(segs: Seq<Segment>)
    requires
        segs.len() >= 1,
        forall|a: int, b: int|
            0 <= a < b < segs.len() ==> (#[trigger] segs[a]).id < (#[trigger] segs[b]).id,
    ensures
        disk_of(segs).remove(segs[0].id) == disk_of(segs.skip(1)),
    decreases segs.len(),
{
    if segs.len() == 1 {
        assert(disk_of(segs.drop_last()) =~= Map::<u64, Seq<u8>>::empty());
        assert(segs.skip(1) =~= Seq::<Segment>::empty());
        assert(disk_of(segs).remove(segs[0].id) =~= disk_of(segs.skip(1)));
    } else {
        let dl = segs.drop_last();
        assert(dl[0] == segs[0]);
        lemma_disk_of_remove_first(dl);
        assert(segs[0].id != segs.last().id);
        assert(disk_of(segs).remove(segs[0].id) =~= disk_of(dl).remove(segs[0].id).insert(
            segs.last().id,
            segs.last().data@,
        ));
        assert(segs.skip(1).drop_last() =~= dl.skip(1));
        assert(segs.skip(1).len() >= 1);
        assert(segs.skip(1).last() == segs.last());
        assert(disk_of(segs.skip(1)) == disk_of(dl.skip(1)).insert(
            segs.last().id,
            segs.last().data@,
        ));
    }
}

/// Applying a concatenation of queues applies them one after the other.
proof fn lemma_apply_ops_concat(m: Map<u64, Seq<u8>>, a: Seq<DiskOp>, b: Seq<DiskOp>)
    ensures
        apply_ops(m, a + b) == apply_ops(apply_ops(m, a), b),
    decreases b.len(),
{
    if b.len() == 0 {
        assert(a + b =~= a);
    } else {
        lemma_apply_ops_concat(m, a, b.drop_last());
        assert((a + b).drop_last() =~= a + b.drop_last());
        assert((a + b).last() == b.last());
    }
}

/// Splitting the image of a record sequence around one record.
pub proof fn lemma_concat_encs_split(recs: Seq<KvModel>, i: int)
    requires
        0 <= i < recs.len(),
    ensures
        concat_encs(recs) == concat_encs(recs.take(i)) + rec_enc(recs[i]) + concat_encs(
            recs.skip(i + 1),
        ),
    decreases recs.len(),
{
    if i + 1 == recs.len() {
        assert(recs.take(i) =~= recs.drop_last());
        assert(recs.skip(i + 1) =~= Seq::<KvModel>::empty());
        assert(concat_encs(recs) =~= concat_encs(recs.take(i)) + rec_enc(recs[i]) + concat_encs(
            recs.skip(i + 1),
        ));
    } else {
        lemma_concat_encs_split(recs.drop_last(), i);
        assert(recs.drop_last().take(i) =~= recs.take(i));
        assert(recs.drop_last()[i] == recs[i]);
        assert(recs.drop_last().skip(i + 1) =~= recs.skip(i + 1).drop_last());
        assert(recs.skip(i + 1).len() > 0);
        assert(recs.skip(i + 1).last() == recs.last());
        assert(concat_encs(recs.skip(i + 1)) == concat_encs(recs.skip(i + 1).drop_last()) + rec_enc(
            recs.last(),
        ));
        assert(concat_encs(recs) =~= concat_encs(recs.take(i)) + rec_enc(recs[i]) + concat_encs(
            recs.skip(i + 1),
        ));
    }
}

/// Within a well-formed segment, record `i` stands at its offset.
pub proof fn lemma_record_at_in_segment(s: Segment, i: int)
    requires
        KvStore::seg_wf(s),
        0 <= i < s.recs@.len(),
    ensures
        rec_off(s.recs@, i) + rec_enc(s.recs@[i]).len() <= s.data@.len(),
        record_at(s.data@, rec_off(s.recs@, i), s.recs@[i]),
{
    lemma_concat_encs_split(s.recs@, i);
    let pre = concat_encs(s.recs@.take(i));
    let mid = rec_enc(s.recs@[i]);
    let post = concat_encs(s.recs@.skip(i + 1));
    assert(bytes_at(s.data@, 0, pre + mid + post)) by {
        assert(s.data@.subrange(0, (pre + mid + post).len() as int) =~= pre + mid + post);
    }
    lemma_bytes_at_split(s.data@, 0, pre + mid, post);
    lemma_bytes_at_split(s.data@, 0, pre, mid);
}

/// The total length of the images of a record sequence.
pub open spec fn sum_enc(recs: Seq<KvModel>) -> int
    decreases recs.len(),
{
    if recs.len() == 0 {
        0
    } else {
        sum_enc(recs.drop_last()) + rec_enc(recs.last()).len()
    }
}

/// The image of a record sequence is exactly as long as its records' images.
pub proof fn lemma_concat_encs_len(recs: Seq<KvModel>)
    ensures
        concat_encs(recs).len() == sum_enc(recs),
    decreases recs.len(),
{
    if recs.len() > 0 {
        lemma_concat_encs_len(recs.drop_last());
    }
}

/// The total byte length of a run of segments.
pub open spec fn seq_bytes(segs: Seq<Segment>) -> int
    decreases segs.len(),
{
    if segs.len() == 0 {
        0
    } else {
        seq_bytes(segs.drop_last()) + segs.last().data@.len()
    }
}

/// A well-formed run of segments is exactly as long as its records' images.
pub proof fn lemma_seq_bytes(segs: Seq<Segment>)
    requires
        forall|i: int| 0 <= i < segs.len() ==> KvStore::seg_wf(#[trigger] segs[i]),
    ensures
        seq_bytes(segs) == sum_enc(all_recs(segs)),
    decreases segs.len(),
{
    if segs.len() > 0 {
        assert(forall|i: int|
            0 <= i < segs.drop_last().len() ==> #[trigger] segs.drop_last()[i] == segs[i]);
        lemma_seq_bytes(segs.drop_last());
        lemma_concat_encs_len(segs.last().recs@);
        lemma_sum_enc_concat(all_recs(segs.drop_last()), segs.last().recs@);
        assert(KvStore::seg_wf(segs.last())) by {
            assert(segs[segs.len() - 1] == segs.last());
        }
    }
}

/// Summing images distributes over concatenation.
pub proof fn lemma_sum_enc_concat(a: Seq<KvModel>, b: Seq<KvModel>)
    ensures
        sum_enc(a + b) == sum_enc(a) + sum_enc(b),
    decreases b.len(),
{
    if b.len() == 0 {
        assert(a + b =~= a);
    } else {
        lemma_sum_enc_concat(a, b.drop_last());
        assert((a + b).drop_last() =~= a + b.drop_last());
        assert((a + b).last() == b.last());
    }
}

/// A sum of images, each bounded by `bound`, is at most `count * bound`.
pub proof fn lemma_sum_enc_bound(recs: Seq<KvModel>, bound: int)
    requires
        forall|i: int| 0 <= i < recs.len() ==> rec_enc(#[trigger] recs[i]).len() <= bound,
    ensures
        sum_enc(recs) <= recs.len() * bound,
        sum_enc(recs) >= 0,
    decreases recs.len(),
{
    if recs.len() > 0 {
        assert(forall|i: int|
            0 <= i < recs.drop_last().len() ==> #[trigger] recs.drop_last()[i] == recs[i]);
        lemma_sum_enc_bound(recs.drop_last(), bound);
        assert(rec_enc(recs.last()).len() <= bound) by {
            assert(recs[recs.len() - 1] == recs.last());
        }
        assert(recs.drop_last().len() * bound + bound == recs.len() * bound) by (nonlinear_arith)
            requires
                recs.len() >= 1,
                recs.drop_last().len() == recs.len() - 1,
        ;
    } else {
        assert(recs.len() * bound == 0) by (nonlinear_arith)
            requires
                recs.len() == 0,
        ;
    }
}

/// A record image is bounded by a constant plus six times the key and value
/// byte lengths.
pub proof fn lemma_rec_enc_len_bound(r: KvModel, kmax: int, vmax: int)
    requires
        encode_utf8(r.key).len() <= kmax,
        encode_utf8(r.value).len() <= vmax,
    ensures
        rec_enc(r).len() <= 46 + 6 * kmax + 6 * vmax,
{
    lemma_esc_len(encode_utf8(r.key));
    lemma_esc_len(encode_utf8(r.value));
    lemma_dec_digits_len10(r.version);
}

impl KvStore {
    /// The total number of bytes across all segments.
    pub closed spec fn disk_bytes(&self) -> int {
        seq_bytes(self.segments@)
    }

    /// After compaction, the directory holds one record per live key, so its
    /// total byte count is bounded by the number of live keys times the
    /// largest record image: every overwritten or removed byte is gone.
    pub proof fn lemma_compacted_bytes(&self, kmax: int, vmax: int)
        requires
            self.wf(),
            self.compacted(),
            0 <= kmax,
            0 <= vmax,
            forall|k: Seq<char>|
                #[trigger] self@.contains_key(k) ==> encode_utf8(k).len() <= kmax && encode_utf8(
                    self@[k],
                ).len() <= vmax,
        ensures
            self.disk_bytes() <= self.spec_len() * (46 + 6 * kmax + 6 * vmax),
    {
        let recs = all_recs(self.segments@);
        let bound = 46 + 6 * kmax + 6 * vmax;
        lemma_seq_bytes(self.segments@);
        assert forall|i: int| 0 <= i < recs.len() implies rec_enc(#[trigger] recs[i]).len()
            <= bound by {
            let r = recs[i];
            assert(live_in(self.state@, r));
            assert(self@.contains_key(r.key));
            assert(self@[r.key] == r.value);
            lemma_rec_enc_len_bound(r, kmax, vmax);
        }
        lemma_sum_enc_bound(recs, bound);
    }
}

} // verus!
