//! Byte-buffer reading helpers, the engine-kind check on a data directory's
//! file names, and the numeric ordering of segment file names.
use crate::codec::{dec_digits, digits_val, is_digit, lemma_dec_digits_are_digits,
    lemma_dec_digits_injective, lemma_digits_val_of_dec, lemma_digits_val_prefix_le, match_bytes};
use vstd::multiset::Multiset;
use vstd::prelude::*;
use vstd::seq_lib::*;
use vstd::string::StrSliceExecFns;
use vstd::utf8::encode_utf8;

verus! {


/// The byte image of a segment file name: the prefix, an underscore, and the
/// decimal digits of the segment number.
pub open spec fn seg_name_bytes(prefix: Seq<u8>, v: u32) -> Seq<u8> {
    prefix + seq![0x5f] + dec_digits(v)
}

/// Parse the numeric suffix of a segment file name.  Whenever the name is
/// the image of `prefix` and some number, the parse returns that number.
#[verifier::loop_isolation(false)]
#[verifier::rlimit(60)]
pub fn parse_segment_suffix(name: &String, prefix: &Vec<u8>) -> (r: Option<u32>)
    ensures
        forall|v: u32|
            encode_utf8(name@) == seg_name_bytes(prefix@, v) ==> r == Some(v),
{
    let nb = name.as_str().as_bytes_vec();
    let nlen = nb.len();
    let plen = prefix.len();
    proof {
        assert forall|v: u32| encode_utf8(name@) == seg_name_bytes(prefix@, v) implies {
            &&& crate::codec::bytes_at(nb@, 0, prefix@)
            &&& plen + 1 <= nlen
            &&& nb@[plen as int] == 0x5f
            &&& nb@.subrange(plen + 1, nlen as int) == dec_digits(v)
        } by {
            assert(crate::codec::bytes_at(nb@, 0, nb@)) by {
                assert(nb@.subrange(0, nb@.len() as int) =~= nb@);
            }
            crate::codec::lemma_bytes_at_split(nb@, 0, prefix@ + seq![0x5fu8], dec_digits(v));
            crate::codec::lemma_bytes_at_split(nb@, 0, prefix@, seq![0x5fu8]);
            assert(nb@[plen as int] == nb@.subrange(plen as int, plen + 1)[0]);
            assert(nb@.subrange(plen + 1, nlen as int) =~= dec_digits(v)) by {
                lemma_dec_digits_are_digits(v);
                assert(nb@.subrange(plen + 1, plen + 1 + dec_digits(v).len()) =~= dec_digits(v));
            }
        }
    }
    if !match_bytes(&nb, 0, prefix) {
        return None;
    }
    if nlen - plen < 2 {
        proof {
            assert forall|v: u32| encode_utf8(name@) != seg_name_bytes(prefix@, v) by {
                if encode_utf8(name@) == seg_name_bytes(prefix@, v) {
                    lemma_dec_digits_are_digits(v);
                }
            }
        }
        return None;
    }
    if nb[plen] != 0x5f {
        return None;
    }
    // the digits run to the end of the name
    let ghost cand: u32 = choose|v: u32| encode_utf8(name@) == seg_name_bytes(prefix@, v);
    let ghost has = encode_utf8(name@) == seg_name_bytes(prefix@, cand);
    let ghost digs = nb@.subrange(plen + 1, nlen as int);
    let mut i: usize = plen + 1;
    let mut acc: u64 = 0;
    while i < nlen
        invariant
            plen + 1 <= i <= nlen,
            acc <= u32::MAX,
            has ==> digs == dec_digits(cand),
            has ==> acc == digits_val(digs.take(i - plen - 1)),
        decreases nlen - i,
    {
        let b = nb[i];
        proof {
            if has {
                lemma_dec_digits_are_digits(cand);
                lemma_digits_val_of_dec(cand);
                assert(b == digs[i - plen - 1]);
                let t = digs.take(i - plen);
                assert(t.drop_last() =~= digs.take(i - plen - 1));
                assert(t.last() == digs[i - plen - 1]);
                lemma_digits_val_prefix_le(digs, i - plen);
            }
        }
        if b < 0x30 || b > 0x39 {
            proof {
                if has {
                    assert(false);
                }
            }
            return None;
        }
        let next = acc * 10 + (b - 0x30) as u64;
        if next > u32::MAX as u64 {
            proof {
                if has {
                    assert(false);
                }
            }
            return None;
        }
        acc = next;
        i = i + 1;
    }
    proof {
        if has {
            lemma_digits_val_of_dec(cand);
            assert(digs.take(nlen - plen - 1) =~= digs);
            assert forall|v: u32| encode_utf8(name@) == seg_name_bytes(prefix@, v) implies v
                == cand by {
                assert(seg_name_bytes(prefix@, v) == seg_name_bytes(prefix@, cand));
                assert(dec_digits(v) =~= dec_digits(cand)) by {
                    assert forall|t: int| 0 <= t < dec_digits(v).len() implies dec_digits(v)[t]
                        == dec_digits(cand)[t] by {
                        assert(dec_digits(v)[t] == seg_name_bytes(prefix@, v)[plen + 1 + t]);
                        assert(dec_digits(cand)[t] == seg_name_bytes(prefix@, cand)[plen + 1 + t]);
                    }
                }
                lemma_dec_digits_injective(v, cand);
            }
        }
    }
    Some(acc as u32)
}

/// Read exactly `n` bytes of `data` from `offset`.
pub fn read_n(data: &Vec<u8>, offset: usize, n: usize) -> (r: Vec<u8>)
    requires
        offset + n <= data@.len(),
    ensures
        r@ == data@.subrange(offset as int, offset + n),
{
    let dlen = data.len();
    let mut r: Vec<u8> = Vec::new();
    let mut i: usize = 0;
    while i < n
        invariant
            0 <= i <= n,
            dlen == data@.len(),
            offset + n <= dlen,
            r@ == data@.subrange(offset as int, offset + i),
        decreases n - i,
    {
        r.push(data[offset + i]);
        proof {
            assert(r@ =~= data@.subrange(offset as int, offset + i + 1));
        }
        i = i + 1;
    }
    r
}

/// One character sequence is a prefix of another.
pub open spec fn is_prefix(p: Seq<char>, s: Seq<char>) -> bool {
    p.len() <= s.len() && s.subrange(0, p.len() as int) == p
}

/// Whether `p` is a prefix of `s`.
pub fn str_has_prefix(s: &String, p: &String) -> (r: bool)
    ensures
        r == is_prefix(p@, s@),
{
    let slen = s.as_str().unicode_len();
    let plen = p.as_str().unicode_len();
    if plen > slen {
        proof {
            assert(!is_prefix(p@, s@));
        }
        return false;
    }
    let mut i: usize = 0;
    while i < plen
        invariant
            0 <= i <= plen,
            plen == p@.len(),
            plen <= slen == s@.len(),
            forall|t: int| 0 <= t < i ==> s@[t] == p@[t],
        decreases plen - i,
    {
        if s.as_str().get_char(i) != p.as_str().get_char(i) {
            proof {
                assert(s@.subrange(0, p@.len() as int)[i as int] != p@[i as int]);
            }
            return false;
        }
        i = i + 1;
    }
    proof {
        assert(s@.subrange(0, p@.len() as int) =~= p@);
    }
    true
}

/// Whether a directory with these file names may be claimed for the engine
/// kind `db_type`: it may not hold any file of the other engine kind.  The
/// caller creates the `db_type` marker file on success and must refuse to
/// run on failure.
pub fn own_dir_or_not(file_names: &Vec<String>, db_type: &str) -> (r: bool)
    ensures
        r <==> (forall|i: int|
            0 <= i < file_names@.len() ==> !((db_type@ == "kvs"@ && is_prefix(
                "sled"@,
                (#[trigger] file_names@[i])@,
            )) || (db_type@ == "sled"@ && is_prefix("kvs"@, file_names@[i]@)))),
{
    let n = file_names.len();
    let kind_kvs: bool = str_eq_x(db_type, "kvs");
    let kind_sled: bool = str_eq_x(db_type, "sled");
    let sled_name: String = "sled".to_owned();
    let kvs_name: String = "kvs".to_owned();
    let mut i: usize = 0;
    while i < n
        invariant
            0 <= i <= n,
            n == file_names@.len(),
            kind_kvs == (db_type@ == "kvs"@),
            kind_sled == (db_type@ == "sled"@),
            sled_name@ == "sled"@,
            kvs_name@ == "kvs"@,
            forall|t: int|
                0 <= t < i ==> !((db_type@ == "kvs"@ && is_prefix(
                    "sled"@,
                    (#[trigger] file_names@[t])@,
                )) || (db_type@ == "sled"@ && is_prefix("kvs"@, file_names@[t]@))),
        decreases n - i,
    {
        if kind_kvs && str_has_prefix(&file_names[i], &sled_name) {
            return false;
        }
        if kind_sled && str_has_prefix(&file_names[i], &kvs_name) {
            return false;
        }
        i = i + 1;
    }
    true
}

/// Whether two string slices hold the same characters.
pub fn str_eq_x(a: &str, b: &str) -> (r: bool)
    ensures
        r == (a@ == b@),
{
    let alen = a.unicode_len();
    let blen = b.unicode_len();
    if alen != blen {
        proof {
            assert(a@ != b@);
        }
        return false;
    }
    let mut i: usize = 0;
    while i < alen
        invariant
            0 <= i <= alen,
            alen == a@.len() == b@.len(),
            forall|t: int| 0 <= t < i ==> a@[t] == b@[t],
        decreases alen - i,
    {
        if a.get_char(i) != b.get_char(i) {
            return false;
        }
        i = i + 1;
    }
    proof {
        assert(a@ =~= b@);
    }
    true
}

/// An empty sequence carries an empty multiset.
proof fn lemma_to_multiset_empty(s: Seq<String>)
    requires
        s.len() == 0,
    ensures
        s.to_multiset() == Multiset::<String>::empty(),
{
    s.to_multiset_ensures();
    assert forall|x: String| s.to_multiset().count(x) == 0 by {
        if s.to_multiset().count(x) > 0 {
            assert(s.contains(x));
        }
    }
    assert(s.to_multiset() =~= Multiset::<String>::empty());
}

/// `name` is the segment file name for number `v` with this prefix.
pub open spec fn named(prefix: Seq<u8>, name: String, v: u32) -> bool {
    encode_utf8(name@) == seg_name_bytes(prefix, v)
}

/// The numeric suffix of a segment file name, as executable code; names
/// that do not parse sort last.
fn suffix_val_x(name: &String, prefix: &Vec<u8>) -> (r: u32)
    ensures
        forall|v: u32| named(prefix@, *name, v) ==> r == v,
{
    match parse_segment_suffix(name, prefix) {
        Some(v) => v,
        None => u32::MAX,
    }
}

/// The names that carry the prefix, with multiplicity.
pub open spec fn matching_names(files: Seq<String>, prefix: Seq<char>) -> Multiset<String>
    decreases files.len(),
{
    if files.len() == 0 {
        Multiset::empty()
    } else if is_prefix(prefix, files.last()@) {
        matching_names(files.drop_last(), prefix).insert(files.last())
    } else {
        matching_names(files.drop_last(), prefix)
    }
}

/// Keep the file names that carry the prefix, ordered by their numeric
/// suffix — the listing order of segment files, where `log_10` follows
/// `log_9` rather than `log_1`.
#[verifier::loop_isolation(false)]
#[verifier::rlimit(100)]
pub fn get_sst_from_dir_with_prefix(files: Vec<String>, prefix: String) -> (r: Vec<String>)
    ensures
        r@.to_multiset() == matching_names(files@, prefix@),
        forall|i: int, j: int, vi: u32, vj: u32|
            0 <= i < j < r@.len() && #[trigger] named(encode_utf8(prefix@), r@[i], vi)
                && #[trigger] named(encode_utf8(prefix@), r@[j], vj) ==> vi <= vj,
{
    let pb = prefix.as_str().as_bytes_vec();
    let ghost files0 = files@;
    // keep the names that carry the prefix
    let mut files = files;
    let mut work: Vec<String> = Vec::new();
    proof {
        lemma_to_multiset_empty(work@);
    }
    while files.len() > 0
        invariant
            matching_names(files0, prefix@) =~= matching_names(files@, prefix@).add(
                work@.to_multiset(),
            ),
            forall|t: int|
                0 <= t < work@.len() ==> is_prefix(prefix@, (#[trigger] work@[t])@),
        decreases files@.len(),
    {
        let ghost fpre = files@;
        let ghost wpre = work@;
        let n = files.pop().unwrap();
        if str_has_prefix(&n, &prefix) {
            work.push(n);
            proof {
                wpre.to_multiset_ensures();
                assert(matching_names(fpre, prefix@) =~= matching_names(files@, prefix@).insert(
                    fpre.last(),
                ));
                assert(work@.to_multiset() =~= wpre.to_multiset().insert(fpre.last()));
                assert(matching_names(files@, prefix@).add(work@.to_multiset())
                    =~= matching_names(fpre, prefix@).add(wpre.to_multiset()));
            }
        } else {
            proof {
                assert(matching_names(fpre, prefix@) =~= matching_names(files@, prefix@));
            }
        }
    }
    proof {
        assert(matching_names(files@, prefix@) =~= Multiset::<String>::empty());
        assert(matching_names(files0, prefix@) =~= work@.to_multiset());
    }
    // selection sort by numeric suffix
    let mut out: Vec<String> = Vec::new();
    proof {
        lemma_to_multiset_empty(out@);
        assert(out@.to_multiset().add(work@.to_multiset()) =~= work@.to_multiset());
    }
    while work.len() > 0
        invariant
            out@.to_multiset().add(work@.to_multiset()) =~= matching_names(files0, prefix@),
            forall|a: int, b: int, va: u32, vb: u32|
                0 <= a < b < out@.len() && #[trigger] named(pb@, out@[a], va) && #[trigger] named(
                    pb@,
                    out@[b],
                    vb,
                ) ==> va <= vb,
            forall|a: int, b: int, va: u32, vb: u32|
                0 <= a < out@.len() && 0 <= b < work@.len() && #[trigger] named(pb@, out@[a], va)
                    && #[trigger] named(pb@, work@[b], vb) ==> va <= vb,
        decreases work@.len(),
    {
        let wlen = work.len();
        let mut imin: usize = 0;
        let mut vmin: u32 = suffix_val_x(&work[0], &pb);
        let mut t: usize = 1;
        while t < wlen
            invariant
                0 <= imin < t <= wlen,
                wlen == work@.len(),
                forall|v: u32| #[trigger] named(pb@, work@[imin as int], v) ==> v == vmin,
                forall|b: int, v: u32|
                    0 <= b < t && #[trigger] named(pb@, work@[b], v) ==> vmin <= v,
            decreases wlen - t,
        {
            let val = suffix_val_x(&work[t], &pb);
            if val < vmin {
                imin = t;
                vmin = val;
            }
            t = t + 1;
        }
        let ghost wpre = work@;
        let ghost opre = out@;
        let name = work.remove(imin);
        out.push(name);
        proof {
            wpre.remove_ensures(imin as int);
            wpre.to_multiset_ensures();
            opre.to_multiset_ensures();
            assert(out@.to_multiset() =~= opre.to_multiset().insert(wpre[imin as int]));
            assert(work@.to_multiset() =~= wpre.to_multiset().remove(wpre[imin as int]));
            assert(out@.to_multiset().add(work@.to_multiset()) =~= opre.to_multiset().add(
                wpre.to_multiset(),
            )) by {
                assert(wpre.to_multiset().count(wpre[imin as int]) > 0) by {
                    assert(wpre.contains(wpre[imin as int]));
                }
            }
            assert forall|a: int, b: int, va: u32, vb: u32|
                0 <= a < out@.len() && 0 <= b < work@.len() && #[trigger] named(pb@, out@[a], va)
                    && #[trigger] named(pb@, work@[b], vb) implies va <= vb by {
                let wb: int = if b < imin {
                    b
                } else {
                    b + 1
                };
                assert(work@[b] == wpre[wb]);
                if a < opre.len() {
                    assert(out@[a] == opre[a]);
                } else {
                    assert(out@[a] == wpre[imin as int]);
                    assert(va == vmin);
                }
            }
            assert forall|a: int, b: int, va: u32, vb: u32|
                0 <= a < b < out@.len() && #[trigger] named(pb@, out@[a], va) && #[trigger] named(
                    pb@,
                    out@[b],
                    vb,
                ) implies va <= vb by {
                if b == out@.len() - 1 {
                    assert(out@[a] == opre[a]);
                    assert(out@[b] == wpre[imin as int]);
                    assert(vb == vmin);
                } else {
                    assert(out@[a] == opre[a] && out@[b] == opre[b]);
                }
            }
        }
    }
    proof {
        lemma_to_multiset_empty(work@);
        assert(out@.to_multiset() =~= matching_names(files0, prefix@));
    }
    out
}

} // verus!
