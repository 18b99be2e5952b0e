//! Byte-level primitives for the record and wire formats: the big-endian
//! length prefix, decimal numbers, and JSON string escaping.
//!
//! Every payload this crate writes is a JSON object built from these pieces,
//! so the encoders here are specified against spec-level byte sequences
//! (`be32`, `dec_digits`, `esc`) and the scanners are proved to invert them.
use vstd::prelude::*;

verus! {

/// Quotation mark `"`.
pub const B_QUOTE: u8 = 0x22;

/// Backslash `\`.
pub const B_BACKSLASH: u8 = 0x5c;

/// The four bytes of `n` in big-endian order.
pub open spec fn be32(n: u32) -> Seq<u8> {
    seq![
        (n >> 24) as u8,
        ((n >> 16) & 0xff) as u8,
        ((n >> 8) & 0xff) as u8,
        (n & 0xff) as u8,
    ]
}

/// Recombining the four big-endian bytes of a `u32` yields the original value,
/// so `be32` is injective.
pub proof fn lemma_be32_roundtrip(n: u32)
    ensures
        be32(n).len() == 4,
        ((be32(n)[0] as u32) << 24) | ((be32(n)[1] as u32) << 16) | ((be32(n)[2] as u32) << 8) | (
        be32(n)[3] as u32) == n,
{
    let b0 = (n >> 24) as u8;
    let b1 = ((n >> 16) & 0xff) as u8;
    let b2 = ((n >> 8) & 0xff) as u8;
    let b3 = (n & 0xff) as u8;
    assert(((b0 as u32) << 24) | ((b1 as u32) << 16) | ((b2 as u32) << 8) | (b3 as u32) == n)
        by (bit_vector)
        requires
            b0 == (n >> 24) as u8,
            b1 == ((n >> 16) & 0xff) as u8,
            b2 == ((n >> 8) & 0xff) as u8,
            b3 == (n & 0xff) as u8,
    ;
}

/// Two values with the same big-endian image are equal.
pub proof fn lemma_be32_injective(n1: u32, n2: u32)
    requires
        be32(n1) == be32(n2),
    ensures
        n1 == n2,
{
    lemma_be32_roundtrip(n1);
    lemma_be32_roundtrip(n2);
    assert(be32(n1)[0] == be32(n2)[0] && be32(n1)[1] == be32(n2)[1] && be32(n1)[2] == be32(n2)[2]
        && be32(n1)[3] == be32(n2)[3]);
}

/// Append the four big-endian bytes of `n` to `buf`.
pub fn push_be32(buf: &mut Vec<u8>, n: u32)
    ensures
        final(buf)@ == old(buf)@ + be32(n),
{
    buf.push((n >> 24) as u8);
    buf.push(((n >> 16) & 0xff) as u8);
    buf.push(((n >> 8) & 0xff) as u8);
    buf.push((n & 0xff) as u8);
    assert(final(buf)@ =~= old(buf)@ + be32(n));
}

/// Read four bytes in big-endian order as a `u32`; the result is the unique
/// value whose `be32` image is those bytes.
pub fn read_be32(data: &Vec<u8>, pos: usize) -> (n: u32)
    requires
        pos + 4 <= data@.len(),
    ensures
        be32(n) == data@.subrange(pos as int, pos as int + 4),
{
    let len = data.len();
    let b0 = data[pos];
    let b1 = data[pos + 1];
    let b2 = data[pos + 2];
    let b3 = data[pos + 3];
    let n = ((b0 as u32) << 24) | ((b1 as u32) << 16) | ((b2 as u32) << 8) | (b3 as u32);
    proof {
        assert((n >> 24) as u8 == b0 && ((n >> 16) & 0xff) as u8 == b1 && ((n >> 8) & 0xff) as u8
            == b2 && (n & 0xff) as u8 == b3) by (bit_vector)
            requires
                n == ((b0 as u32) << 24) | ((b1 as u32) << 16) | ((b2 as u32) << 8) | (b3 as u32),
        ;
        assert(be32(n) =~= data@.subrange(pos as int, pos as int + 4));
    }
    n
}

/// True for the bytes `'0'` through `'9'`.
pub open spec fn is_digit(b: u8) -> bool {
    0x30 <= b <= 0x39
}

/// The decimal digits of `n`, most significant first, without leading zeros.
pub open spec fn dec_digits(n: u32) -> Seq<u8>
    decreases n,
{
    if n < 10 {
        seq![(0x30 + n) as u8]
    } else {
        dec_digits(n / 10) + seq![(0x30 + n % 10) as u8]
    }
}

/// Every byte of `dec_digits(n)` is a decimal digit, and there is at least one.
pub proof fn lemma_dec_digits_are_digits(n: u32)
    ensures
        dec_digits(n).len() >= 1,
        n >= 10 ==> dec_digits(n).len() >= 2,
        forall|i: int| 0 <= i < dec_digits(n).len() ==> is_digit(#[trigger] dec_digits(n)[i]),
    decreases n,
{
    if n >= 10 {
        lemma_dec_digits_are_digits(n / 10);
    }
}

/// Two equal digit strings name the same number.
pub proof fn lemma_dec_digits_injective(a: u32, b: u32)
    requires
        dec_digits(a) == dec_digits(b),
    ensures
        a == b,
    decreases a,
{
    lemma_dec_digits_are_digits(a);
    lemma_dec_digits_are_digits(b);
    if a < 10 && b < 10 {
        assert(dec_digits(a) == seq![(0x30 + a) as u8]);
        assert(dec_digits(b) == seq![(0x30 + b) as u8]);
        assert(dec_digits(a)[0] == dec_digits(b)[0]);
        assert(seq![(0x30 + a) as u8][0] == (0x30 + a) as u8);
        assert(seq![(0x30 + b) as u8][0] == (0x30 + b) as u8);
        assert((0x30 + a) as u8 == (0x30 + b) as u8);
        assert(((0x30 + a) as u8) as int == 0x30 + a);
        assert(((0x30 + b) as u8) as int == 0x30 + b);
    } else if a >= 10 && b >= 10 {
        assert(dec_digits(a) == dec_digits(a / 10) + seq![(0x30 + a % 10) as u8]);
        assert(dec_digits(b) == dec_digits(b / 10) + seq![(0x30 + b % 10) as u8]);
        assert(dec_digits(a).last() == (0x30 + a % 10) as u8);
        assert(dec_digits(b).last() == (0x30 + b % 10) as u8);
        assert(dec_digits(a).drop_last() =~= dec_digits(a / 10));
        assert(dec_digits(b).drop_last() =~= dec_digits(b / 10));
        lemma_dec_digits_injective(a / 10, b / 10);
        assert(((0x30 + a % 10) as u8) as int == 0x30 + a % 10);
        assert(((0x30 + b % 10) as u8) as int == 0x30 + b % 10);
        assert(a % 10 == b % 10);
        assert(a == (a / 10) * 10 + a % 10);
        assert(b == (b / 10) * 10 + b % 10);
    } else {
        assert(dec_digits(a).len() == dec_digits(b).len());
        if a < 10 {
            assert(dec_digits(a) == seq![(0x30 + a) as u8]);
            assert(dec_digits(b) == dec_digits(b / 10) + seq![(0x30 + b % 10) as u8]);
            lemma_dec_digits_are_digits(b / 10);
        } else {
            assert(dec_digits(b) == seq![(0x30 + b) as u8]);
            assert(dec_digits(a) == dec_digits(a / 10) + seq![(0x30 + a % 10) as u8]);
            lemma_dec_digits_are_digits(a / 10);
        }
        assert(false);
    }
}

/// The value of a digit string, read left to right.
pub open spec fn digits_val(d: Seq<u8>) -> int
    decreases d.len(),
{
    if d.len() == 0 {
        0
    } else {
        digits_val(d.drop_last()) * 10 + (d.last() - 0x30)
    }
}

/// Reading back the digits of `n` yields `n`.
pub proof fn lemma_digits_val_of_dec(n: u32)
    ensures
        digits_val(dec_digits(n)) == n,
    decreases n,
{
    if n < 10 {
        assert(dec_digits(n) == seq![(0x30 + n) as u8]);
        assert(dec_digits(n).len() == 1);
        assert(dec_digits(n).drop_last() =~= Seq::<u8>::empty());
        assert(dec_digits(n).last() == (0x30 + n) as u8);
        assert(digits_val(Seq::<u8>::empty()) == 0);
        assert(digits_val(dec_digits(n)) == digits_val(dec_digits(n).drop_last()) * 10 + (
        dec_digits(n).last() - 0x30));
        assert(((0x30 + n) as u8) as int == 0x30 + n);
    } else {
        lemma_digits_val_of_dec(n / 10);
        assert(dec_digits(n) == dec_digits(n / 10) + seq![(0x30 + n % 10) as u8]);
        assert(dec_digits(n).drop_last() =~= dec_digits(n / 10));
        assert(dec_digits(n).last() == (0x30 + n % 10) as u8);
        assert(n == (n / 10) * 10 + n % 10);
    }
}

/// The value of a digit-string prefix never exceeds the value of the whole.
pub proof fn lemma_digits_val_prefix_le(d: Seq<u8>, k: int)
    requires
        0 <= k <= d.len(),
        forall|i: int| 0 <= i < d.len() ==> is_digit(#[trigger] d[i]),
    ensures
        0 <= digits_val(d.take(k)) <= digits_val(d),
    decreases d.len() - k,
{
    if k == d.len() {
        assert(d.take(k) =~= d);
        lemma_digits_val_nonneg(d);
    } else {
        lemma_digits_val_prefix_le(d, k + 1);
        assert(d.take(k + 1).drop_last() =~= d.take(k));
        assert(digits_val(d.take(k + 1)) == digits_val(d.take(k)) * 10 + (d[k] - 0x30));
        lemma_digits_val_nonneg(d.take(k));
    }
}

/// A digit string has a non-negative value.
pub proof fn lemma_digits_val_nonneg(d: Seq<u8>)
    requires
        forall|i: int| 0 <= i < d.len() ==> is_digit(#[trigger] d[i]),
    ensures
        digits_val(d) >= 0,
    decreases d.len(),
{
    if d.len() > 0 {
        lemma_digits_val_nonneg(d.drop_last());
    }
}

/// Append the decimal digits of `n` to `buf`.
pub fn push_dec(buf: &mut Vec<u8>, n: u32)
    ensures
        final(buf)@ == old(buf)@ + dec_digits(n),
    decreases n,
{
    if n < 10 {
        buf.push(0x30 + n as u8);
        assert(final(buf)@ =~= old(buf)@ + dec_digits(n));
    } else {
        push_dec(buf, n / 10);
        buf.push(0x30 + (n % 10) as u8);
        assert(final(buf)@ =~= old(buf)@ + dec_digits(n));
    }
}

/// `data` holds, from `pos`, the digits of `n` followed by a byte that is not
/// a digit (still within bounds).
pub open spec fn number_at(data: Seq<u8>, pos: int, n: u32) -> bool {
    &&& 0 <= pos
    &&& pos + dec_digits(n).len() < data.len()
    &&& data.subrange(pos, pos + dec_digits(n).len() as int) == dec_digits(n)
    &&& !is_digit(data[pos + dec_digits(n).len() as int])
}

/// At one position, at most one number can be read.
pub proof fn lemma_number_at_unique(data: Seq<u8>, pos: int, n1: u32, n2: u32)
    requires
        number_at(data, pos, n1),
        number_at(data, pos, n2),
    ensures
        n1 == n2,
{
    lemma_dec_digits_are_digits(n1);
    lemma_dec_digits_are_digits(n2);
    let l1 = dec_digits(n1).len() as int;
    let l2 = dec_digits(n2).len() as int;
    if l1 < l2 {
        assert(data[pos + l1] == dec_digits(n2)[l1]);
        assert(false);
    } else if l2 < l1 {
        assert(data[pos + l2] == dec_digits(n1)[l2]);
        assert(false);
    } else {
        assert(dec_digits(n1) =~= dec_digits(n2));
        lemma_dec_digits_injective(n1, n2);
    }
}

/// Scan a decimal number at `pos`: consume digits greedily and return the
/// value with the position just past it.  Whenever some `u32` stands at `pos`
/// in the sense of [`number_at`], the scan returns exactly that number.
pub fn scan_number(data: &Vec<u8>, pos: usize) -> (r: Option<(u32, usize)>)
    requires
        pos <= data@.len(),
    ensures
        r matches Some(p) ==> pos < p.1 <= data@.len(),
        forall|n: u32|
            number_at(data@, pos as int, n) ==> r == Some(
                (n, (pos + dec_digits(n).len()) as usize),
            ),
{
    let ghost cand: u32 = choose|n: u32| number_at(data@, pos as int, n);
    let ghost has_cand = number_at(data@, pos as int, cand);
    let len = data.len();
    let mut i: usize = pos;
    let mut acc: u64 = 0;
    while i < len && data[i] >= 0x30 && data[i] <= 0x39
        invariant
            pos <= i <= len,
            len == data@.len(),
            acc <= u32::MAX,
            has_cand == number_at(data@, pos as int, cand),
            has_cand <==> exists|n: u32| number_at(data@, pos as int, n),
            has_cand ==> i <= pos + dec_digits(cand).len(),
            has_cand ==> acc == digits_val(dec_digits(cand).take(i - pos)),
        decreases len - i,
    {
        proof {
            if has_cand {
                lemma_dec_digits_are_digits(cand);
                lemma_digits_val_of_dec(cand);
                if i - pos == dec_digits(cand).len() {
                    // the byte after the digits is not a digit, so the loop
                    // cannot still be running here
                    assert(data@[i as int] == data@[pos + dec_digits(cand).len() as int]);
                    assert(false);
                }
                assert(i - pos < dec_digits(cand).len());
                assert(data@[i as int] == dec_digits(cand)[i - pos]);
                let t = dec_digits(cand).take(i + 1 - pos);
                assert(t.drop_last() =~= dec_digits(cand).take(i - pos));
                assert(t.last() == dec_digits(cand)[i - pos]);
                assert(digits_val(t) == acc * 10 + (data@[i as int] - 0x30));
                lemma_digits_val_prefix_le(dec_digits(cand), i + 1 - pos);
            }
        }
        let d = data[i] - 0x30;
        if acc > 0xffff_ffffu64 / 10 {
            // too many digits for a u32; no number can stand here
            proof {
                if has_cand {
                    assert(false);
                }
            }
            return None;
        }
        let next = acc * 10 + d as u64;
        if next > u32::MAX as u64 {
            proof {
                if has_cand {
                    assert(false);
                }
            }
            return None;
        }
        acc = next;
        i = i + 1;
        proof {
            if has_cand {
                assert(dec_digits(cand).take(i - pos) == dec_digits(cand).take((i - 1 - pos) + 1));
            }
        }
    }
    if i == pos {
        // no digits at all
        proof {
            if has_cand {
                lemma_dec_digits_are_digits(cand);
                assert(data@[pos as int] == dec_digits(cand)[0]);
                assert(false);
            }
        }
        return None;
    }
    proof {
        if has_cand {
            lemma_dec_digits_are_digits(cand);
            lemma_digits_val_of_dec(cand);
            // the scan stopped exactly at the end of the candidate's digits
            if i - pos < dec_digits(cand).len() {
                assert(data@[i as int] == dec_digits(cand)[i - pos]);
                assert(false);
            }
            assert(dec_digits(cand).take(i - pos) =~= dec_digits(cand));
            assert forall|n: u32| number_at(data@, pos as int, n) implies n == cand by {
                lemma_number_at_unique(data@, pos as int, n, cand);
            }
        }
    }
    Some((acc as u32, i))
}

/// The hex digit (`'0'`–`'9'`, `'a'`–`'f'`) for a value below 16.
pub open spec fn hex_digit(n: int) -> u8 {
    if n < 10 {
        (0x30 + n) as u8
    } else {
        (0x57 + n) as u8
    }
}

/// Equal hex digits name the same value.
pub proof fn lemma_hex_digit_injective(x: int, y: int)
    requires
        0 <= x < 16,
        0 <= y < 16,
        hex_digit(x) == hex_digit(y),
    ensures
        x == y,
{
    assert(x < 10 ==> ((0x30 + x) as u8) as int == 0x30 + x);
    assert(x >= 10 ==> ((0x57 + x) as u8) as int == 0x57 + x);
    assert(y < 10 ==> ((0x30 + y) as u8) as int == 0x30 + y);
    assert(y >= 10 ==> ((0x57 + y) as u8) as int == 0x57 + y);
}

/// How one byte of a string is written inside a JSON string literal: quote
/// and backslash get a backslash escape, control bytes a `\u00XX` escape, and
/// every other byte stands as itself.
pub open spec fn esc_byte(b: u8) -> Seq<u8> {
    if b == B_QUOTE {
        seq![B_BACKSLASH, B_QUOTE]
    } else if b == B_BACKSLASH {
        seq![B_BACKSLASH, B_BACKSLASH]
    } else if b < 0x20 {
        seq![B_BACKSLASH, 0x75, 0x30, 0x30, hex_digit(b as int / 16), hex_digit(b as int % 16)]
    } else {
        seq![b]
    }
}

/// The JSON string-literal escaping of a whole byte string.
pub open spec fn esc(s: Seq<u8>) -> Seq<u8>
    decreases s.len(),
{
    if s.len() == 0 {
        Seq::empty()
    } else {
        esc_byte(s[0]) + esc(s.drop_first())
    }
}

/// Escaping distributes over concatenation.
pub proof fn lemma_esc_concat(a: Seq<u8>, b: Seq<u8>)
    ensures
        esc(a + b) == esc(a) + esc(b),
    decreases a.len(),
{
    if a.len() == 0 {
        assert(a + b =~= b);
        assert(esc(a) + esc(b) =~= esc(b));
    } else {
        assert((a + b).drop_first() =~= a.drop_first() + b);
        lemma_esc_concat(a.drop_first(), b);
        assert(esc(a + b) =~= esc(a) + esc(b));
    }
}

/// The escaping of one byte never starts with a quote, and starts with a
/// backslash exactly when the byte needed escaping.
pub proof fn lemma_esc_byte_shape(b: u8)
    ensures
        1 <= esc_byte(b).len() <= 6,
        esc_byte(b)[0] != B_QUOTE,
        esc_byte(b)[0] == B_BACKSLASH <==> (b == B_QUOTE || b == B_BACKSLASH || b < 0x20),
        esc_byte(b)[0] != B_BACKSLASH ==> esc_byte(b) == seq![b],
{
}

/// Within one escaped-string-plus-terminator image, the string is uniquely
/// determined: two strings that both stand escaped at `pos` are equal.
pub proof fn lemma_string_at_unique(data: Seq<u8>, pos: int, s1: Seq<u8>, s2: Seq<u8>)
    requires
        string_at(data, pos, s1),
        string_at(data, pos, s2),
    ensures
        s1 == s2,
    decreases s1.len(),
{
    let e1 = esc(s1);
    let e2 = esc(s2);
    if s1.len() == 0 {
        assert(esc(s1).len() == 0);
        assert((esc(s1) + seq![B_QUOTE])[0] == B_QUOTE);
        assert(data[pos] == data.subrange(pos, pos + esc(s1).len() + 1)[0]);
        assert(data[pos] == B_QUOTE);
        if s2.len() != 0 {
            lemma_esc_byte_shape(s2[0]);
            assert(data[pos] == (esc(s2) + seq![B_QUOTE])[0]);
            assert(data[pos] == esc_byte(s2[0])[0]);
            assert(false);
        }
    } else if s2.len() == 0 {
        assert(esc(s2).len() == 0);
        assert((esc(s2) + seq![B_QUOTE])[0] == B_QUOTE);
        assert(data[pos] == data.subrange(pos, pos + esc(s2).len() + 1)[0]);
        assert(data[pos] == B_QUOTE);
        lemma_esc_byte_shape(s1[0]);
        assert(data[pos] == (esc(s1) + seq![B_QUOTE])[0]);
        assert(data[pos] == esc_byte(s1[0])[0]);
        assert(false);
    } else {
        lemma_esc_byte_shape(s1[0]);
        lemma_esc_byte_shape(s2[0]);
        let h1 = esc_byte(s1[0]);
        let h2 = esc_byte(s2[0]);
        assert forall|j: int| 0 <= j < h1.len() implies data[pos + j] == h1[j] by {
            assert(h1[j] == (esc(s1) + seq![B_QUOTE])[j]);
            assert(data[pos + j] == (esc(s1) + seq![B_QUOTE])[j]);
        }
        assert forall|j: int| 0 <= j < h2.len() implies data[pos + j] == h2[j] by {
            assert(h2[j] == (esc(s2) + seq![B_QUOTE])[j]);
            assert(data[pos + j] == (esc(s2) + seq![B_QUOTE])[j]);
        }
        // the first byte classes agree, so both heads have the same shape
        assert(h1[0] == data[pos] && h2[0] == data[pos]);
        if h1[0] != B_BACKSLASH {
            assert(s1[0] == data[pos] && s2[0] == data[pos]);
            assert(h1.len() == 1 && h2.len() == 1);
        } else {
            // escaped head: the second byte tells the escape kind apart
            assert(h1.len() >= 2 && h2.len() >= 2);
            assert(h1[1] == data[pos + 1] && h2[1] == data[pos + 1]);
            if s1[0] == B_QUOTE {
                assert(h1[1] == B_QUOTE);
                assert(s2[0] == B_QUOTE);
            } else if s1[0] == B_BACKSLASH {
                assert(h1[1] == B_BACKSLASH);
                assert(s2[0] == B_BACKSLASH);
            } else {
                assert(h1[1] == 0x75);
                assert(s2[0] < 0x20 && s2[0] != B_QUOTE && s2[0] != B_BACKSLASH);
                assert(h1.len() == 6 && h2.len() == 6);
                assert(h1[4] == h2[4] && h1[5] == h2[5]);
                lemma_hex_digit_injective(s1[0] as int / 16, s2[0] as int / 16);
                lemma_hex_digit_injective(s1[0] as int % 16, s2[0] as int % 16);
                assert(s1[0] == (s1[0] as int / 16) * 16 + s1[0] as int % 16);
                assert(s2[0] == (s2[0] as int / 16) * 16 + s2[0] as int % 16);
            }
        }
        assert(s1[0] == s2[0]);
        let l = h1.len() as int;
        // the suffixes stand escaped at pos + l, so induction applies
        assert(esc(s1) == h1 + esc(s1.drop_first()));
        assert(esc(s2) == h1 + esc(s2.drop_first()));
        assert(string_at(data, pos + l, s1.drop_first())) by {
            assert(data.subrange(pos + l, pos + l + esc(s1.drop_first()).len() + 1) =~= (esc(s1)
                + seq![B_QUOTE]).subrange(l, l + esc(s1.drop_first()).len() + 1));
            assert((esc(s1) + seq![B_QUOTE]).subrange(l, l + esc(s1.drop_first()).len() + 1) =~= esc(
                s1.drop_first(),
            ) + seq![B_QUOTE]);
        }
        assert(string_at(data, pos + l, s2.drop_first())) by {
            assert(data.subrange(pos + l, pos + l + esc(s2.drop_first()).len() + 1) =~= (esc(s2)
                + seq![B_QUOTE]).subrange(l, l + esc(s2.drop_first()).len() + 1));
            assert((esc(s2) + seq![B_QUOTE]).subrange(l, l + esc(s2.drop_first()).len() + 1) =~= esc(
                s2.drop_first(),
            ) + seq![B_QUOTE]);
        }
        lemma_string_at_unique(data, pos + l, s1.drop_first(), s2.drop_first());
        assert(s1 =~= seq![s1[0]] + s1.drop_first());
        assert(s2 =~= seq![s2[0]] + s2.drop_first());
    }
}

/// `data` holds, from `pos`, the escaping of `s` followed by a closing quote.
pub open spec fn string_at(data: Seq<u8>, pos: int, s: Seq<u8>) -> bool {
    &&& 0 <= pos
    &&& pos + esc(s).len() + 1 <= data.len()
    &&& data.subrange(pos, pos + esc(s).len() + 1) == esc(s) + seq![B_QUOTE]
}

/// The hex digit for a value below 16, as executable code.
fn hex_digit_x(n: u8) -> (r: u8)
    requires
        n < 16,
    ensures
        r == hex_digit(n as int),
{
    if n < 10 {
        0x30 + n
    } else {
        0x57 + n
    }
}

/// Append the JSON string-literal escaping of `s` to `buf`.
pub fn push_escaped(buf: &mut Vec<u8>, s: &Vec<u8>)
    ensures
        final(buf)@ == old(buf)@ + esc(s@),
{
    let slen = s.len();
    let mut i: usize = 0;
    while i < slen
        invariant
            0 <= i <= slen,
            slen == s@.len(),
            buf@ == old(buf)@ + esc(s@.take(i as int)),
        decreases slen - i,
    {
        let b = s[i];
        if b == B_QUOTE {
            buf.push(B_BACKSLASH);
            buf.push(B_QUOTE);
        } else if b == B_BACKSLASH {
            buf.push(B_BACKSLASH);
            buf.push(B_BACKSLASH);
        } else if b < 0x20 {
            buf.push(B_BACKSLASH);
            buf.push(0x75);
            buf.push(0x30);
            buf.push(0x30);
            buf.push(hex_digit_x(b / 16));
            buf.push(hex_digit_x(b % 16));
        } else {
            buf.push(b);
        }
        proof {
            assert(s@.take(i + 1) =~= s@.take(i as int) + seq![s@[i as int]]);
            lemma_esc_concat(s@.take(i as int), seq![s@[i as int]]);
            assert(seq![s@[i as int]][0] == s@[i as int]);
            assert(seq![s@[i as int]].drop_first() =~= Seq::<u8>::empty());
            assert(esc(Seq::<u8>::empty()) == Seq::<u8>::empty());
            assert(esc(seq![s@[i as int]]) =~= esc_byte(s@[i as int]));
            assert(buf@ =~= old(buf)@ + esc(s@.take(i + 1)));
        }
        i = i + 1;
    }
    proof {
        assert(s@.take(slen as int) =~= s@);
    }
}

/// Scan an escaped string at `pos`, up to an unescaped closing quote.
/// Whenever some string stands escaped at `pos` in the sense of
/// [`string_at`], the scan returns exactly that string and the position just
/// past its closing quote.
pub fn scan_string(data: &Vec<u8>, pos: usize) -> (r: Option<(Vec<u8>, usize)>)
    requires
        pos <= data@.len(),
    ensures
        r matches Some(p) ==> pos < p.1 <= data@.len(),
        forall|s: Seq<u8>|
            string_at(data@, pos as int, s) ==> (r matches Some(p) && p.0@ == s && p.1 == pos + esc(
                s,
            ).len() + 1),
{
    let ghost cand: Seq<u8> = choose|s: Seq<u8>| string_at(data@, pos as int, s);
    let ghost has_cand = string_at(data@, pos as int, cand);
    let len = data.len();
    let mut out: Vec<u8> = Vec::new();
    let mut i: usize = pos;
    let ghost mut k: int = 0;
    loop
        invariant
            pos <= i <= len,
            len == data@.len(),
            has_cand == string_at(data@, pos as int, cand),
            has_cand <==> exists|s: Seq<u8>| string_at(data@, pos as int, s),
            has_cand ==> 0 <= k <= cand.len(),
            has_cand ==> out@ == cand.take(k),
            has_cand ==> i == pos + esc(cand.take(k)).len(),
        decreases len - i,
    {
        proof {
            if has_cand {
                // the remaining input starts with the escaping of the
                // remaining candidate bytes, then the closing quote
                assert(cand =~= cand.take(k) + cand.skip(k));
                lemma_esc_concat(cand.take(k), cand.skip(k));
                assert(esc(cand) == esc(cand.take(k)) + esc(cand.skip(k)));
                assert forall|j: int| 0 <= j < esc(cand.skip(k)).len() + 1 implies data@[i + j] == (
                esc(cand.skip(k)) + seq![B_QUOTE])[j] by {
                    assert(data@[i + j] == data@.subrange(
                        pos as int,
                        pos + esc(cand).len() + 1,
                    )[i - pos + j]);
                }
                if cand.skip(k).len() > 0 {
                    lemma_esc_byte_shape(cand.skip(k)[0]);
                    assert(esc(cand.skip(k)) == esc_byte(cand.skip(k)[0]) + esc(
                        cand.skip(k).drop_first(),
                    ));
                    assert forall|j: int| 0 <= j < esc_byte(cand.skip(k)[0]).len() implies data@[i
                        + j] == esc_byte(cand.skip(k)[0])[j] by {
                        assert((esc(cand.skip(k)) + seq![B_QUOTE])[j] == esc_byte(
                            cand.skip(k)[0],
                        )[j]);
                    }
                }
            }
        }
        if i >= len {
            proof {
                if has_cand {
                    assert(pos + esc(cand).len() + 1 <= len);
                    if cand.skip(k).len() == 0 {
                        assert(esc(cand.skip(k)).len() == 0);
                    } else {
                        lemma_esc_byte_shape(cand.skip(k)[0]);
                    }
                    assert(i < len);
                    assert(false);
                }
            }
            return None;
        }
        let b = data[i];
        if b == B_QUOTE {
            proof {
                if has_cand {
                    if cand.skip(k).len() > 0 {
                        assert(data@[i as int] == esc_byte(cand.skip(k)[0])[0]);
                        assert(false);
                    }
                    assert(cand.take(k) =~= cand);
                    assert forall|s: Seq<u8>| string_at(data@, pos as int, s) implies s == cand by {
                        lemma_string_at_unique(data@, pos as int, s, cand);
                    }
                }
            }
            return Some((out, i + 1));
        } else if b == B_BACKSLASH {
            proof {
                if has_cand {
                    if cand.skip(k).len() == 0 {
                        assert(data@[i as int] == (esc(cand.skip(k)) + seq![B_QUOTE])[0]);
                        assert(false);
                    }
                }
            }
            if len - i < 2 {
                proof {
                    if has_cand {
                        lemma_esc_byte_shape(cand.skip(k)[0]);
                        assert(esc_byte(cand.skip(k)[0]).len() >= 2);
                        assert(false);
                    }
                }
                return None;
            }
            let c = data[i + 1];
            let ghost head = esc_byte(cand.skip(k)[0]);
            if c == B_QUOTE || c == B_BACKSLASH {
                out.push(c);
                i = i + 2;
                proof {
                    if has_cand {
                        assert(head[1] == data@[i - 1]);
                        assert(cand.skip(k)[0] == c);
                        assert(cand.skip(k)[0] == cand[k]);
                        assert(head.len() == 2);
                        assert(out@ =~= cand.take(k + 1));
                        assert(cand.take(k + 1) =~= cand.take(k) + seq![cand[k]]);
                        lemma_esc_concat(cand.take(k), seq![cand[k]]);
                        assert(seq![cand[k]][0] == cand[k]);
                        assert(seq![cand[k]].drop_first() =~= Seq::<u8>::empty());
                        assert(esc(Seq::<u8>::empty()) == Seq::<u8>::empty());
                        assert(esc(seq![cand[k]]) =~= esc_byte(cand[k]));
                        k = k + 1;
                    }
                }
            } else if c == 0x75 {
                if len - i < 6 {
                    proof {
                        if has_cand {
                            lemma_esc_byte_shape(cand.skip(k)[0]);
                            assert(head[1] == data@[i + 1]);
                            assert(head.len() == 6);
                            assert(false);
                        }
                    }
                    return None;
                }
                let h0 = data[i + 2];
                let h1 = data[i + 3];
                let h2 = data[i + 4];
                let h3 = data[i + 5];
                proof {
                    if has_cand {
                        assert(head[1] == data@[i + 1]);
                        assert(head.len() == 6);
                        assert(head[2] == data@[i + 2] && head[3] == data@[i + 3] && head[4]
                            == data@[i + 4] && head[5] == data@[i + 5]);
                    }
                }
                if h0 == 0x30 && h1 == 0x30 && (h2 == 0x30 || h2 == 0x31) && (is_hex_x(h3)) {
                    proof {
                        assert(hex_digit(0) == 0x30 && hex_digit(1) == 0x31);
                    }
                    let v = hex_val_x(h2) * 16 + hex_val_x(h3);
                    out.push(v);
                    i = i + 6;
                    proof {
                        if has_cand {
                            let cb = cand.skip(k)[0];
                            assert(cb < 0x20);
                            assert(hex_digit(cb as int / 16) == h2 && hex_digit(cb as int % 16)
                                == h3);
                            lemma_hex_digit_injective(cb as int / 16, v as int / 16);
                            lemma_hex_digit_injective(cb as int % 16, v as int % 16);
                            assert(cb == (cb as int / 16) * 16 + cb as int % 16);
                            assert(v == (v as int / 16) * 16 + v as int % 16);
                            assert(cb == v);
                            assert(cand.skip(k)[0] == cand[k]);
                            assert(out@ =~= cand.take(k + 1));
                            assert(cand.take(k + 1) =~= cand.take(k) + seq![cand[k]]);
                            lemma_esc_concat(cand.take(k), seq![cand[k]]);
                            assert(seq![cand[k]][0] == cand[k]);
                            assert(seq![cand[k]].drop_first() =~= Seq::<u8>::empty());
                            assert(esc(Seq::<u8>::empty()) == Seq::<u8>::empty());
                            assert(esc(seq![cand[k]]) =~= esc_byte(cand[k]));
                            k = k + 1;
                        }
                    }
                } else {
                    proof {
                        if has_cand {
                            let cb = cand.skip(k)[0];
                            assert(cb < 0x20);
                            assert(hex_digit(cb as int / 16) == h2);
                            assert(hex_digit(cb as int % 16) == h3);
                            assert(false);
                        }
                    }
                    return None;
                }
            } else {
                proof {
                    if has_cand {
                        lemma_esc_byte_shape(cand.skip(k)[0]);
                        assert(head[1] == data@[i + 1]);
                        assert(false);
                    }
                }
                return None;
            }
        } else if b < 0x20 {
            proof {
                if has_cand {
                    if cand.skip(k).len() == 0 {
                        assert(data@[i as int] == (esc(cand.skip(k)) + seq![B_QUOTE])[0]);
                        assert(false);
                    } else {
                        lemma_esc_byte_shape(cand.skip(k)[0]);
                        assert(data@[i as int] == esc_byte(cand.skip(k)[0])[0]);
                        assert(false);
                    }
                }
            }
            return None;
        } else {
            out.push(b);
            i = i + 1;
            proof {
                if has_cand {
                    assert(cand.skip(k).len() > 0) by {
                        if cand.skip(k).len() == 0 {
                            assert(data@[i - 1] == (esc(cand.skip(k)) + seq![B_QUOTE])[0]);
                        }
                    }
                    lemma_esc_byte_shape(cand.skip(k)[0]);
                    assert(esc_byte(cand.skip(k)[0])[0] == data@[i - 1]);
                    assert(esc_byte(cand.skip(k)[0]) == seq![cand.skip(k)[0]]);
                    assert(cand.skip(k)[0] == b);
                    assert(cand.skip(k)[0] == cand[k]);
                    assert(out@ =~= cand.take(k + 1));
                    assert(cand.take(k + 1) =~= cand.take(k) + seq![cand[k]]);
                    lemma_esc_concat(cand.take(k), seq![cand[k]]);
                    assert(seq![cand[k]][0] == cand[k]);
                    assert(seq![cand[k]].drop_first() =~= Seq::<u8>::empty());
                    assert(esc(Seq::<u8>::empty()) == Seq::<u8>::empty());
                    assert(esc(seq![cand[k]]) =~= esc_byte(cand[k]));
                    k = k + 1;
                }
            }
        }
    }
}

/// True for a lower-case hex digit byte.
fn is_hex_x(b: u8) -> (r: bool)
    ensures
        r <==> exists|n: int| 0 <= n < 16 && hex_digit(n) == b,
{
    let r = (0x30 <= b && b <= 0x39) || (0x61 <= b && b <= 0x66);
    proof {
        if r {
            if b <= 0x39 {
                assert(hex_digit((b - 0x30) as int) == b);
            } else {
                assert(hex_digit((b - 0x57) as int) == b);
            }
        } else {
            assert forall|n: int| 0 <= n < 16 implies hex_digit(n) != b by {
                assert(n < 10 ==> ((0x30 + n) as u8) as int == 0x30 + n);
                assert(n >= 10 ==> ((0x57 + n) as u8) as int == 0x57 + n);
            }
        }
    }
    r
}

/// The value of a hex digit byte.
fn hex_val_x(b: u8) -> (r: u8)
    requires
        exists|n: int| 0 <= n < 16 && hex_digit(n) == b,
    ensures
        r < 16,
        hex_digit(r as int) == b,
{
    let ghost n0 = choose|n: int| 0 <= n < 16 && hex_digit(n) == b;
    proof {
        assert(n0 < 10 ==> ((0x30 + n0) as u8) as int == 0x30 + n0);
        assert(n0 >= 10 ==> ((0x57 + n0) as u8) as int == 0x57 + n0);
    }
    if b <= 0x39 {
        b - 0x30
    } else {
        b - 0x57
    }
}

/// `data` holds the byte string `pat` at `pos`.
pub open spec fn bytes_at(data: Seq<u8>, pos: int, pat: Seq<u8>) -> bool {
    &&& 0 <= pos
    &&& pos + pat.len() <= data.len()
    &&& data.subrange(pos, pos + pat.len()) == pat
}

/// A concatenation standing at `pos` splits into its two halves.
pub proof fn lemma_bytes_at_split(data: Seq<u8>, pos: int, x: Seq<u8>, y: Seq<u8>)
    requires
        bytes_at(data, pos, x + y),
    ensures
        bytes_at(data, pos, x),
        bytes_at(data, pos + x.len(), y),
{
    assert forall|j: int| 0 <= j < (x + y).len() implies data[pos + j] == (x + y)[j] by {
        assert(data[pos + j] == data.subrange(pos, pos + (x + y).len())[j]);
    }
    assert forall|j: int| 0 <= j < y.len() implies data[pos + x.len() + j] == y[j] by {
        assert(data[pos + x.len() + j] == (x + y)[x.len() + j]);
    }
    assert(data.subrange(pos, pos + x.len()) =~= x);
    assert(data.subrange(pos + x.len(), pos + x.len() + y.len()) =~= y);
}

/// Two adjacent byte strings join into their concatenation.
pub proof fn lemma_bytes_at_join(data: Seq<u8>, pos: int, x: Seq<u8>, y: Seq<u8>)
    requires
        bytes_at(data, pos, x),
        bytes_at(data, pos + x.len(), y),
    ensures
        bytes_at(data, pos, x + y),
{
    assert forall|j: int| 0 <= j < x.len() implies data[pos + j] == x[j] by {
        assert(data[pos + j] == data.subrange(pos, pos + x.len())[j]);
    }
    assert forall|j: int| 0 <= j < y.len() implies data[pos + x.len() + j] == y[j] by {
        assert(data[pos + x.len() + j] == data.subrange(pos + x.len(), pos + x.len() + y.len())[j]);
    }
    assert(data.subrange(pos, pos + (x + y).len()) =~= x + y);
}

/// Compare the bytes at `pos` against `pat`.
pub fn match_bytes(data: &Vec<u8>, pos: usize, pat: &Vec<u8>) -> (r: bool)
    requires
        pos <= data@.len(),
    ensures
        r == bytes_at(data@, pos as int, pat@),
{
    let len = data.len();
    let plen = pat.len();
    if len - pos < plen {
        return false;
    }
    let mut j: usize = 0;
    while j < plen
        invariant
            0 <= j <= plen,
            plen == pat@.len(),
            len == data@.len(),
            pos + plen <= len,
            forall|t: int| 0 <= t < j ==> data@[pos + t] == pat@[t],
        decreases plen - j,
    {
        if data[pos + j] != pat[j] {
            proof {
                assert(data@.subrange(pos as int, pos + pat@.len())[j as int] != pat@[j as int]);
            }
            return false;
        }
        j = j + 1;
    }
    proof {
        assert(data@.subrange(pos as int, pos + pat@.len()) =~= pat@);
    }
    true
}

/// Append all of `src` to `buf`.
pub fn append_bytes(buf: &mut Vec<u8>, src: &Vec<u8>)
    ensures
        final(buf)@ == old(buf)@ + src@,
{
    let slen = src.len();
    let mut i: usize = 0;
    while i < slen
        invariant
            0 <= i <= slen,
            slen == src@.len(),
            buf@ == old(buf)@ + src@.take(i as int),
        decreases slen - i,
    {
        buf.push(src[i]);
        proof {
            assert(src@.take(i + 1) =~= src@.take(i as int) + seq![src@[i as int]]);
            assert(buf@ =~= old(buf)@ + src@.take(i + 1));
        }
        i = i + 1;
    }
    proof {
        assert(src@.take(slen as int) =~= src@);
    }
}

} // verus!
