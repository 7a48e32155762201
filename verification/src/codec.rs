//! Deterministic byte encoding.
//!
//! Tree nodes and commit records are written in one length-prefixed
//! little-endian format.  Encoders are verified to produce exactly the
//! spec encoding; decoders are verified sound (whatever they accept
//! re-encodes to exactly the consumed bytes) and complete (a miss means no
//! valid encoding starts at the position); and each encoding is proved
//! unambiguous, so two values with the same encoding are the same value.
//! Content hashes of serialized nodes are taken over this format.

use vstd::prelude::*;

verus! {

// ---------------------------------------------------------------------
// 64-bit and 32-bit little-endian words
// ---------------------------------------------------------------------
/// A u64 as 8 bytes, least significant first.
pub open spec fn le8(v: u64) -> Seq<u8> {
    Seq::new(8, |i: int| ((v >> ((8 * i) as u64)) & 0xff) as u8)
}

/// The u64 held by 8 little-endian bytes.
pub open spec fn u64_of_le8(s: Seq<u8>) -> u64 {
    ((s[0] as u64) | ((s[1] as u64) << 8u64) | ((s[2] as u64) << 16u64) | ((s[3] as u64)
        << 24u64) | ((s[4] as u64) << 32u64) | ((s[5] as u64) << 40u64) | ((s[6] as u64)
        << 48u64) | ((s[7] as u64) << 56u64)) as u64
}

/// A u32 as 4 bytes, least significant first.
pub open spec fn le4(v: u32) -> Seq<u8> {
    Seq::new(4, |i: int| ((v >> ((8 * i) as u32)) & 0xff) as u8)
}

/// The u32 held by 4 little-endian bytes.
pub open spec fn u32_of_le4(s: Seq<u8>) -> u32 {
    ((s[0] as u32) | ((s[1] as u32) << 8u32) | ((s[2] as u32) << 16u32) | ((s[3] as u32)
        << 24u32)) as u32
}

proof fn lemma_low_byte_u64(x: u64)
    ensures
        x & 0xff < 256,
    decreases 0int,
{
    assert(x & 0xff < 256) by (bit_vector);
}

proof fn lemma_low_byte_u32(x: u32)
    ensures
        x & 0xff < 256,
{
    assert(x & 0xff < 256) by (bit_vector);
}

/// Reading back the 8 bytes of a u64 yields the u64.
pub proof fn lemma_le8_round_trip(v: u64)
    ensures
        u64_of_le8(le8(v)) == v,
{
    let s = le8(v);
    assert(s[0] == ((v >> 0u64) & 0xff) as u8);
    assert(s[1] == ((v >> 8u64) & 0xff) as u8);
    assert(s[2] == ((v >> 16u64) & 0xff) as u8);
    assert(s[3] == ((v >> 24u64) & 0xff) as u8);
    assert(s[4] == ((v >> 32u64) & 0xff) as u8);
    assert(s[5] == ((v >> 40u64) & 0xff) as u8);
    assert(s[6] == ((v >> 48u64) & 0xff) as u8);
    assert(s[7] == ((v >> 56u64) & 0xff) as u8);
    assert((((((v >> 0u64) & 0xff) as u8) as u64) | ((((v >> 8u64) & 0xff) as u8) as u64)
        << 8u64 | ((((v >> 16u64) & 0xff) as u8) as u64) << 16u64 | ((((v >> 24u64) & 0xff)
        as u8) as u64) << 24u64 | ((((v >> 32u64) & 0xff) as u8) as u64) << 32u64 | ((((v
        >> 40u64) & 0xff) as u8) as u64) << 40u64 | ((((v >> 48u64) & 0xff) as u8) as u64)
        << 48u64 | ((((v >> 56u64) & 0xff) as u8) as u64) << 56u64) == v) by (bit_vector);
}

/// Every 8-byte sequence is the encoding of the u64 it holds.
pub proof fn lemma_le8_of_bytes(s: Seq<u8>)
    requires
        s.len() == 8,
    ensures
        le8(u64_of_le8(s)) =~= s,
{
    let b0 = s[0];
    let b1 = s[1];
    let b2 = s[2];
    let b3 = s[3];
    let b4 = s[4];
    let b5 = s[5];
    let b6 = s[6];
    let b7 = s[7];
    let v = u64_of_le8(s);
    assert({
        let x = ((b0 as u64) | ((b1 as u64) << 8u64) | ((b2 as u64) << 16u64) | ((b3 as u64)
            << 24u64) | ((b4 as u64) << 32u64) | ((b5 as u64) << 40u64) | ((b6 as u64)
            << 48u64) | ((b7 as u64) << 56u64)) as u64;
        ((x >> 0u64) & 0xff) == b0 as u64 && ((x >> 8u64) & 0xff) == b1 as u64 && ((x
            >> 16u64) & 0xff) == b2 as u64 && ((x >> 24u64) & 0xff) == b3 as u64 && ((x
            >> 32u64) & 0xff) == b4 as u64 && ((x >> 40u64) & 0xff) == b5 as u64 && ((x
            >> 48u64) & 0xff) == b6 as u64 && ((x >> 56u64) & 0xff) == b7 as u64
    }) by (bit_vector);
}

/// Distinct u64 values have distinct encodings.
pub proof fn lemma_le8_injective(a: u64, b: u64)
    requires
        le8(a) == le8(b),
    ensures
        a == b,
{
    lemma_le8_round_trip(a);
    lemma_le8_round_trip(b);
}

/// Reading back the 4 bytes of a u32 yields the u32.
pub proof fn lemma_le4_round_trip(v: u32)
    ensures
        u32_of_le4(le4(v)) == v,
{
    let s = le4(v);
    assert(s[0] == ((v >> 0u32) & 0xff) as u8);
    assert(s[1] == ((v >> 8u32) & 0xff) as u8);
    assert(s[2] == ((v >> 16u32) & 0xff) as u8);
    assert(s[3] == ((v >> 24u32) & 0xff) as u8);
    assert((((((v >> 0u32) & 0xff) as u8) as u32) | ((((v >> 8u32) & 0xff) as u8) as u32)
        << 8u32 | ((((v >> 16u32) & 0xff) as u8) as u32) << 16u32 | ((((v >> 24u32) & 0xff)
        as u8) as u32) << 24u32) == v) by (bit_vector);
}

/// Every 4-byte sequence is the encoding of the u32 it holds.
pub proof fn lemma_le4_of_bytes(s: Seq<u8>)
    requires
        s.len() == 4,
    ensures
        le4(u32_of_le4(s)) =~= s,
{
    let b0 = s[0];
    let b1 = s[1];
    let b2 = s[2];
    let b3 = s[3];
    assert({
        let x = ((b0 as u32) | ((b1 as u32) << 8u32) | ((b2 as u32) << 16u32) | ((b3 as u32)
            << 24u32)) as u32;
        ((x >> 0u32) & 0xff) == b0 as u32 && ((x >> 8u32) & 0xff) == b1 as u32 && ((x
            >> 16u32) & 0xff) == b2 as u32 && ((x >> 24u32) & 0xff) == b3 as u32
    }) by (bit_vector);
}

/// A character is determined by its unicode scalar value.
pub proof fn lemma_char_injective(a: char, b: char)
    requires
        a as u32 == b as u32,
    ensures
        a == b,
{
}

/// Distinct u32 values have distinct encodings.
pub proof fn lemma_le4_injective(a: u32, b: u32)
    requires
        le4(a) == le4(b),
    ensures
        a == b,
{
    lemma_le4_round_trip(a);
    lemma_le4_round_trip(b);
}

/// Append the 8 little-endian bytes of `v`.
pub fn push_u64(out: &mut Vec<u8>, v: u64)
    ensures
        final(out)@ == old(out)@ + le8(v),
{
    proof {
        lemma_low_byte_u64(v >> 0u64);
        lemma_low_byte_u64(v >> 8u64);
        lemma_low_byte_u64(v >> 16u64);
        lemma_low_byte_u64(v >> 24u64);
        lemma_low_byte_u64(v >> 32u64);
        lemma_low_byte_u64(v >> 40u64);
        lemma_low_byte_u64(v >> 48u64);
        lemma_low_byte_u64(v >> 56u64);
    }
    out.push(((v >> 0u64) & 0xff) as u8);
    out.push(((v >> 8u64) & 0xff) as u8);
    out.push(((v >> 16u64) & 0xff) as u8);
    out.push(((v >> 24u64) & 0xff) as u8);
    out.push(((v >> 32u64) & 0xff) as u8);
    out.push(((v >> 40u64) & 0xff) as u8);
    out.push(((v >> 48u64) & 0xff) as u8);
    out.push(((v >> 56u64) & 0xff) as u8);
    proof {
        assert(out@ =~= old(out)@ + le8(v));
    }
}

/// Append the 4 little-endian bytes of `v`.
pub fn push_u32(out: &mut Vec<u8>, v: u32)
    ensures
        final(out)@ == old(out)@ + le4(v),
{
    proof {
        lemma_low_byte_u32(v >> 0u32);
        lemma_low_byte_u32(v >> 8u32);
        lemma_low_byte_u32(v >> 16u32);
        lemma_low_byte_u32(v >> 24u32);
    }
    out.push(((v >> 0u32) & 0xff) as u8);
    out.push(((v >> 8u32) & 0xff) as u8);
    out.push(((v >> 16u32) & 0xff) as u8);
    out.push(((v >> 24u32) & 0xff) as u8);
    proof {
        assert(out@ =~= old(out)@ + le4(v));
    }
}

/// Read a u64 at `pos`; the consumed bytes are exactly its encoding.
pub fn read_u64(data: &Vec<u8>, pos: usize) -> (r: Option<(u64, usize)>)
    ensures
        match r {
            Some((v, p)) => p == pos + 8 && pos + 8 <= data@.len() && data@.subrange(
                pos as int,
                p as int,
            ) =~= le8(v),
            None => pos + 8 > data@.len(),
        },
{
    if pos >= data.len() || data.len() - pos < 8 {
        return None;
    }
    let v: u64 = (data[pos] as u64) | ((data[pos + 1] as u64) << 8u64) | ((data[pos + 2]
        as u64) << 16u64) | ((data[pos + 3] as u64) << 24u64) | ((data[pos + 4] as u64)
        << 32u64) | ((data[pos + 5] as u64) << 40u64) | ((data[pos + 6] as u64) << 48u64) | (
    (data[pos + 7] as u64) << 56u64);
    proof {
        let s = data@.subrange(pos as int, pos as int + 8);
        assert(v == u64_of_le8(s));
        lemma_le8_of_bytes(s);
    }
    Some((v, pos + 8))
}

/// Read a u32 at `pos`; the consumed bytes are exactly its encoding.
pub fn read_u32(data: &Vec<u8>, pos: usize) -> (r: Option<(u32, usize)>)
    ensures
        match r {
            Some((v, p)) => p == pos + 4 && pos + 4 <= data@.len() && data@.subrange(
                pos as int,
                p as int,
            ) =~= le4(v),
            None => pos + 4 > data@.len(),
        },
{
    if pos >= data.len() || data.len() - pos < 4 {
        return None;
    }
    let v: u32 = (data[pos] as u32) | ((data[pos + 1] as u32) << 8u32) | ((data[pos + 2]
        as u32) << 16u32) | ((data[pos + 3] as u32) << 24u32);
    proof {
        let s = data@.subrange(pos as int, pos as int + 4);
        assert(v == u32_of_le4(s));
        lemma_le4_of_bytes(s);
    }
    Some((v, pos + 4))
}

// ---------------------------------------------------------------------
// Strings: length prefix, then each character as a u32
// ---------------------------------------------------------------------
pub open spec fn enc_chars(s: Seq<char>) -> Seq<u8>
    decreases s.len(),
{
    if s.len() == 0 {
        Seq::empty()
    } else {
        enc_chars(s.drop_last()) + le4(s.last() as u32)
    }
}

/// The encoding of a string: character count, then each scalar value.
pub open spec fn enc_str(s: Seq<char>) -> Seq<u8> {
    le8(s.len() as u64) + enc_chars(s)
}

pub proof fn lemma_enc_chars_len(s: Seq<char>)
    ensures
        enc_chars(s).len() == 4 * s.len(),
    decreases s.len(),
{
    if s.len() > 0 {
        lemma_enc_chars_len(s.drop_last());
    }
}

/// Character streams of equal length with equal encodings are equal.
pub proof fn lemma_enc_chars_injective(a: Seq<char>, b: Seq<char>)
    requires
        a.len() == b.len(),
        enc_chars(a) == enc_chars(b),
    ensures
        a == b,
    decreases a.len(),
{
    if a.len() > 0 {
        lemma_enc_chars_len(a.drop_last());
        lemma_enc_chars_len(b.drop_last());
        let ea = enc_chars(a);
        let eb = enc_chars(b);
        assert(enc_chars(a.drop_last()) =~= ea.subrange(0, ea.len() as int - 4));
        assert(enc_chars(b.drop_last()) =~= eb.subrange(0, eb.len() as int - 4));
        lemma_enc_chars_injective(a.drop_last(), b.drop_last());
        assert(le4(a.last() as u32) =~= ea.subrange(ea.len() as int - 4, ea.len() as int));
        assert(le4(b.last() as u32) =~= eb.subrange(eb.len() as int - 4, eb.len() as int));
        assert(le4(a.last() as u32) == le4(b.last() as u32));
        lemma_le4_injective(a.last() as u32, b.last() as u32);
        assert(a.last() as u32 == b.last() as u32);
        lemma_char_injective(a.last(), b.last());
        assert(a.last() == b.last());
        assert forall|i: int| 0 <= i < a.len() implies a[i] == b[i] by {
            if i < a.len() - 1 {
                assert(a[i] == a.drop_last()[i]);
                assert(b[i] == b.drop_last()[i]);
            } else {
                assert(a[i] == a.last());
                assert(b[i] == b.last());
            }
        }
        assert(a =~= b);
    } else {
        assert(a =~= b);
    }
}

/// The encoding of the `k`-th character sits at offset `4 * k`.
pub proof fn lemma_enc_chars_at(s: Seq<char>, k: int)
    requires
        0 <= k < s.len(),
    ensures
        enc_chars(s).subrange(4 * k, 4 * k + 4) == le4(s[k] as u32),
    decreases s.len(),
{
    lemma_enc_chars_len(s);
    lemma_enc_chars_len(s.drop_last());
    if k == s.len() - 1 {
        assert(enc_chars(s).subrange(4 * k, 4 * k + 4) =~= le4(s.last() as u32));
    } else {
        lemma_enc_chars_at(s.drop_last(), k);
        assert(enc_chars(s).subrange(4 * k, 4 * k + 4) =~= enc_chars(s.drop_last()).subrange(
            4 * k,
            4 * k + 4,
        ));
    }
}

/// Every character is a unicode scalar value.
pub proof fn lemma_char_scalar(c: char)
    ensures
        is_scalar_value(c as u32),
{
}

/// A string's encoding costs its length prefix plus four bytes per
/// character.
pub proof fn lemma_enc_str_len(s: Seq<char>)
    ensures
        enc_str(s).len() == 8 + 4 * s.len(),
{
    lemma_enc_chars_len(s);
    assert(le8(s.len() as u64).len() == 8);
    assert(enc_str(s) == le8(s.len() as u64) + enc_chars(s));
}

/// A string encoding followed by anything determines the string and the rest.
pub proof fn lemma_enc_str_unambiguous(a: Seq<char>, b: Seq<char>, ra: Seq<u8>, rb: Seq<u8>)
    requires
        a.len() < 0x10000000000000000,
        b.len() < 0x10000000000000000,
        enc_str(a) + ra == enc_str(b) + rb,
    ensures
        a == b,
        ra == rb,
{
    lemma_enc_chars_len(a);
    lemma_enc_chars_len(b);
    let ta = enc_str(a) + ra;
    let tb = enc_str(b) + rb;
    assert(le8(a.len() as u64) =~= ta.subrange(0, 8));
    assert(le8(b.len() as u64) =~= tb.subrange(0, 8));
    lemma_le8_injective(a.len() as u64, b.len() as u64);
    assert(enc_chars(a) =~= ta.subrange(8, 8 + 4 * a.len() as int));
    assert(enc_chars(b) =~= tb.subrange(8, 8 + 4 * b.len() as int));
    lemma_enc_chars_injective(a, b);
    assert(ra =~= ta.subrange(8 + 4 * a.len() as int, ta.len() as int));
    assert(rb =~= tb.subrange(8 + 4 * b.len() as int, tb.len() as int));
}

/// Append the encoding of a string.
pub fn push_string(out: &mut Vec<u8>, s: &str)
    ensures
        final(out)@ == old(out)@ + enc_str(s@),
        s@.len() < 0x10000000000000000,
{
    let n: usize = s.unicode_len();
    push_u64(out, n as u64);
    let ghost mid = out@;
    let mut i: usize = 0;
    while i < n
        invariant
            0 <= i <= n,
            n == s@.len(),
            out@ == mid + enc_chars(s@.subrange(0, i as int)),
            mid == old(out)@ + le8(s@.len() as u64),
        decreases n - i,
    {
        let c: char = s.get_char(i);
        push_u32(out, c as u32);
        proof {
            let pre = s@.subrange(0, i as int);
            let post = s@.subrange(0, i as int + 1);
            assert(post.drop_last() =~= pre);
            assert(post.last() == c);
            assert(out@ =~= mid + enc_chars(post));
        }
        i = i + 1;
    }
    proof {
        assert(s@.subrange(0, s@.len() as int) =~= s@);
        assert(out@ =~= old(out)@ + enc_str(s@));
    }
}

pub open spec fn is_scalar_value(v: u32) -> bool {
    v <= 0x10FFFF && !(0xD800 <= v && v <= 0xDFFF)
}

/// Relies on char::from_u32: `Some` exactly on valid unicode scalar values,
/// and the returned character carries that scalar value.
#[verifier::external_body]
fn char_from_u32(v: u32) -> (r: Option<char>)
    ensures
        match r {
            Some(c) => c as u32 == v,
            None => !is_scalar_value(v),
        },
        is_scalar_value(v) ==> r is Some,
{
    char::from_u32(v)
}

/// Relies on char::to_string: a string holding exactly that one character.
#[verifier::external_body]
pub(crate) fn char_to_string(c: char) -> (r: String)
    ensures
        r@ =~= seq![c],
{
    c.to_string()
}

/// Read a string at `pos`: the consumed bytes are exactly its encoding,
/// and a miss means no string encoding starts at `pos`.
pub fn read_string(data: &Vec<u8>, pos: usize) -> (r: Option<(String, usize)>)
    ensures
        match r {
            Some((s, p)) => pos <= p <= data@.len() && data@.subrange(pos as int, p as int)
                =~= enc_str(s@) && s@.len() < 0x10000000000000000,
            None => forall|s: Seq<char>, p: int|
                pos <= p <= data@.len() && s.len() < 0x10000000000000000
                    ==> data@.subrange(pos as int, p) != enc_str(s),
        },
{
    let (n, mut p) = match read_u64(data, pos) {
        Some(x) => x,
        None => {
            proof {
                assert forall|s: Seq<char>, p2: int|
                    pos <= p2 <= data@.len() && s.len()
                        < 0x10000000000000000 implies data@.subrange(pos as int, p2)
                    != enc_str(s) by {
                    lemma_enc_chars_len(s);
                    assert(le8(s.len() as u64).len() == 8);
                    if data@.subrange(pos as int, p2) == enc_str(s) {
                        assert(p2 - pos == enc_str(s).len());
                        assert(enc_str(s).len() >= 8);
                        assert(false);
                    }
                }
            }
            return None;
        },
    };
    if n > ((data.len() - p) / 4) as u64 {
        proof {
            let l = data@.len() as int - p as int;
            vstd::arithmetic::div_mod::lemma_fundamental_div_mod(l, 4);
            assert forall|s: Seq<char>, p2: int|
                pos <= p2 <= data@.len() && s.len()
                    < 0x10000000000000000 implies data@.subrange(pos as int, p2) != enc_str(
                s,
            ) by {
                if data@.subrange(pos as int, p2) == enc_str(s) {
                    lemma_enc_chars_len(s);
                    assert(le8(s.len() as u64).len() == 8);
                    assert(enc_str(s).len() == 8 + 4 * s.len());
                    assert(p2 - pos == 8 + 4 * s.len());
                    assert(data@.subrange(pos as int, p2).subrange(0, 8) =~= data@.subrange(
                        pos as int,
                        pos as int + 8,
                    ));
                    assert(enc_str(s).subrange(0, 8) =~= le8(s.len() as u64));
                    lemma_le8_injective(n, s.len() as u64);
                    assert(s.len() == n as int);
                    assert(false);
                }
            }
        }
        return None;
    }
    let count: usize = n as usize;
    proof {
        assert(4 * ((data@.len() - p as int) / 4) <= data@.len() - p as int);
    }
    let mut s = String::new();
    let ghost chars_start = p as int;
    let mut i: usize = 0;
    while i < count
        invariant
            0 <= i <= count,
            s@.len() == i,
            8 <= chars_start,
            chars_start == pos as int + 8,
            count == n,
            data@.subrange(pos as int, pos as int + 8) =~= le8(n),
            p as int == chars_start + 4 * i,
            chars_start + 4 * count <= data@.len(),
            data@.subrange(chars_start, p as int) =~= enc_chars(s@),
        decreases count - i,
    {
        proof {
            assert(chars_start <= p as int);
            assert((p as int) < data@.len());
        }
        let (v, p2) = match read_u32(data, p) {
            Some(x) => x,
            None => {
                proof {
                    assert(false);
                }
                return None;
            },
        };
        let c = match char_from_u32(v) {
            Some(c) => c,
            None => {
                proof {
                    assert forall|s2: Seq<char>, q: int|
                        pos <= q <= data@.len() && s2.len()
                            < 0x10000000000000000 implies data@.subrange(pos as int, q)
                        != enc_str(s2) by {
                        if data@.subrange(pos as int, q) == enc_str(s2) {
                            lemma_enc_chars_len(s2);
                            assert(le8(s2.len() as u64).len() == 8);
                            assert(enc_str(s2).len() == 8 + 4 * s2.len());
                            assert(q - pos == 8 + 4 * s2.len());
                            assert(data@.subrange(pos as int, q).subrange(0, 8)
                                =~= data@.subrange(pos as int, pos as int + 8));
                            assert(enc_str(s2).subrange(0, 8) =~= le8(s2.len() as u64));
                            lemma_le8_injective(n, s2.len() as u64);
                            assert(s2.len() == n as int);
                            assert(enc_chars(s2) =~= data@.subrange(pos as int, q).subrange(
                                8,
                                q - pos as int,
                            ));
                            assert(data@.subrange(pos as int, q).subrange(8, q - pos as int)
                                =~= data@.subrange(chars_start, q));
                            assert(enc_chars(s2) =~= data@.subrange(chars_start, q));
                            lemma_enc_chars_at(s2, i as int);
                            assert(data@.subrange(p as int, p as int + 4) =~= enc_chars(
                                s2,
                            ).subrange(4 * i, 4 * i + 4));
                            lemma_le4_injective(v, s2[i as int] as u32);
                            lemma_char_scalar(s2[i as int]);
                            assert(false);
                        }
                    }
                }
                return None;
            },
        };
        let cs = char_to_string(c);
        let ghost prev = s@;
        s.append(cs.as_str());
        proof {
            lemma_enc_chars_len(prev);
            assert(s@.drop_last() =~= prev);
            assert(s@.last() == c);
            assert(chars_start <= p as int);
            assert(p as int <= p2 as int);
            assert(p2 as int <= data@.len());
            assert(data@.subrange(chars_start, p2 as int) =~= data@.subrange(
                chars_start,
                p as int,
            ) + data@.subrange(p as int, p2 as int));
            assert(enc_chars(s@) =~= enc_chars(prev) + le4(c as u32));
        }
        p = p2;
        i = i + 1;
    }
    proof {
        assert(n == s@.len() as u64);
        assert(data@.subrange(pos as int, p as int) =~= data@.subrange(pos as int, pos as int
            + 8) + data@.subrange(chars_start, p as int));
    }
    Some((s, p))
}

} // verus!

verus! {

// ---------------------------------------------------------------------
// Lists: element count, then each element's encoding in order
// ---------------------------------------------------------------------
/// The concatenation of the encodings of the items, first to last.
pub open spec fn enc_each<T>(items: Seq<T>, f: spec_fn(T) -> Seq<u8>) -> Seq<u8>
    decreases items.len(),
{
    if items.len() == 0 {
        Seq::empty()
    } else {
        f(items.first()) + enc_each(items.drop_first(), f)
    }
}

/// The encoding of a list: item count, then the items in order.
pub open spec fn enc_list<T>(items: Seq<T>, f: spec_fn(T) -> Seq<u8>) -> Seq<u8> {
    le8(items.len() as u64) + enc_each(items, f)
}

/// An item encoding that determines the item and the remainder of the
/// stream: no encoding of one value is a prefix of an encoding of another.
pub open spec fn pair_unamb<T>(f: spec_fn(T) -> Seq<u8>, x: T, y: T) -> bool {
    forall|rx: Seq<u8>, ry: Seq<u8>| #[trigger] (f(x) + rx) == #[trigger] (f(y) + ry) ==> x == y && rx == ry
}

/// Appending one item appends its encoding.
pub proof fn lemma_enc_each_push<T>(items: Seq<T>, x: T, f: spec_fn(T) -> Seq<u8>)
    ensures
        enc_each(items.push(x), f) == enc_each(items, f) + f(x),
    decreases items.len(),
{
    if items.len() == 0 {
        let s = items.push(x);
        assert(s.first() == x);
        assert(s.drop_first() =~= Seq::<T>::empty());
        assert(enc_each(s, f) == f(s.first()) + enc_each(s.drop_first(), f));
        assert(enc_each(Seq::<T>::empty(), f) == Seq::<u8>::empty());
        assert(enc_each(s, f) =~= f(x));
        assert(enc_each(items, f) + f(x) =~= f(x));
    } else {
        assert(items.push(x).drop_first() =~= items.drop_first().push(x));
        lemma_enc_each_push(items.drop_first(), x, f);
        assert(enc_each(items.push(x), f) =~= enc_each(items, f) + f(x));
    }
}

/// Item streams of equal count with pairwise unambiguous encodings are
/// determined by their concatenated encodings.
pub proof fn lemma_enc_each_unambiguous<T>(
    f: spec_fn(T) -> Seq<u8>,
    a: Seq<T>,
    b: Seq<T>,
    ra: Seq<u8>,
    rb: Seq<u8>,
)
    requires
        a.len() == b.len(),
        forall|i: int, j: int|
            0 <= i < a.len() && 0 <= j < b.len() ==> pair_unamb(f, #[trigger] a[i], #[trigger] b[j]),
        enc_each(a, f) + ra == enc_each(b, f) + rb,
    ensures
        a == b,
        ra == rb,
    decreases a.len(),
{
    if a.len() == 0 {
        assert(a =~= b);
        assert(enc_each(a, f) =~= Seq::<u8>::empty());
        assert(enc_each(b, f) =~= Seq::<u8>::empty());
        assert(ra =~= enc_each(a, f) + ra);
        assert(rb =~= enc_each(b, f) + rb);
    } else {
        let ta = enc_each(a.drop_first(), f) + ra;
        let tb = enc_each(b.drop_first(), f) + rb;
        assert(f(a.first()) + ta =~= enc_each(a, f) + ra);
        assert(f(b.first()) + tb =~= enc_each(b, f) + rb);
        assert(pair_unamb(f, a[0], b[0]));
        assert((f(a.first()) + ta) == (f(b.first()) + tb));
        assert(a.first() == b.first() && ta == tb);
        assert(forall|i: int, j: int|
            0 <= i < a.drop_first().len() && 0 <= j < b.drop_first().len() ==> pair_unamb(
                f,
                #[trigger] a.drop_first()[i],
                #[trigger] b.drop_first()[j],
            ));
        lemma_enc_each_unambiguous(f, a.drop_first(), b.drop_first(), ra, rb);
        assert forall|i: int| 0 <= i < a.len() implies a[i] == b[i] by {
            if i == 0 {
                assert(a[0] == a.first());
            } else {
                assert(a[i] == a.drop_first()[i - 1]);
                assert(b[i] == b.drop_first()[i - 1]);
            }
        }
        assert(a =~= b);
    }
}

/// A list encoding followed by anything determines the list and the rest.
pub proof fn lemma_enc_list_unambiguous<T>(
    f: spec_fn(T) -> Seq<u8>,
    a: Seq<T>,
    b: Seq<T>,
    ra: Seq<u8>,
    rb: Seq<u8>,
)
    requires
        a.len() < 0x10000000000000000,
        b.len() < 0x10000000000000000,
        forall|i: int, j: int|
            0 <= i < a.len() && 0 <= j < b.len() ==> pair_unamb(f, #[trigger] a[i], #[trigger] b[j]),
        enc_list(a, f) + ra == enc_list(b, f) + rb,
    ensures
        a == b,
        ra == rb,
{
    let ta = enc_list(a, f) + ra;
    let tb = enc_list(b, f) + rb;
    assert(le8(a.len() as u64) =~= ta.subrange(0, 8));
    assert(le8(b.len() as u64) =~= tb.subrange(0, 8));
    lemma_le8_injective(a.len() as u64, b.len() as u64);
    assert(enc_each(a, f) + ra =~= ta.subrange(8, ta.len() as int));
    assert(enc_each(b, f) + rb =~= tb.subrange(8, tb.len() as int));
    lemma_enc_each_unambiguous(f, a, b, ra, rb);
}

/// The encoding function for one string, as a value.
pub open spec fn enc_str_fn() -> spec_fn(Seq<char>) -> Seq<u8> {
    |s: Seq<char>| enc_str(s)
}

/// The encoding of a list of strings.
pub open spec fn enc_str_list(items: Seq<Seq<char>>) -> Seq<u8> {
    enc_list(items, enc_str_fn())
}

/// Every string in a list costs at least its length prefix.
pub proof fn lemma_enc_each_str_min(items: Seq<Seq<char>>)
    ensures
        enc_each(items, enc_str_fn()).len() >= 8 * items.len(),
    decreases items.len(),
{
    if items.len() > 0 {
        lemma_enc_each_str_min(items.drop_first());
        assert(enc_str_fn()(items.first()) == enc_str(items.first()));
        lemma_enc_chars_len(items.first());
        assert(le8(items.first().len() as u64).len() == 8);
    }
}

/// A decoded prefix of an encoded string list aligns with it: the stream
/// after the prefix is the encoding of the remaining items.
pub proof fn lemma_enc_each_str_prefix(
    a: Seq<Seq<char>>,
    b: Seq<Seq<char>>,
    ra: Seq<u8>,
    rb: Seq<u8>,
)
    requires
        a.len() <= b.len(),
        forall|k: int| 0 <= k < a.len() ==> (#[trigger] a[k]).len() < 0x10000000000000000,
        forall|k: int| 0 <= k < b.len() ==> (#[trigger] b[k]).len() < 0x10000000000000000,
        enc_each(a, enc_str_fn()) + ra == enc_each(b, enc_str_fn()) + rb,
    ensures
        ra == enc_each(b.skip(a.len() as int), enc_str_fn()) + rb,
    decreases a.len(),
{
    if a.len() == 0 {
        assert(enc_each(a, enc_str_fn()) =~= Seq::<u8>::empty());
        assert(b.skip(0) =~= b);
        assert(ra =~= enc_each(a, enc_str_fn()) + ra);
    } else {
        let ta = enc_each(a.drop_first(), enc_str_fn()) + ra;
        let tb = enc_each(b.drop_first(), enc_str_fn()) + rb;
        assert(enc_str_fn()(a.first()) == enc_str(a.first()));
        assert(enc_str_fn()(b.first()) == enc_str(b.first()));
        assert(enc_str(a.first()) + ta =~= enc_each(a, enc_str_fn()) + ra);
        assert(enc_str(b.first()) + tb =~= enc_each(b, enc_str_fn()) + rb);
        lemma_enc_str_unambiguous(a.first(), b.first(), ta, tb);
        assert(forall|k: int|
            0 <= k < a.drop_first().len() ==> (#[trigger] a.drop_first()[k]).len()
                < 0x10000000000000000);
        assert(forall|k: int|
            0 <= k < b.drop_first().len() ==> (#[trigger] b.drop_first()[k]).len()
                < 0x10000000000000000);
        lemma_enc_each_str_prefix(a.drop_first(), b.drop_first(), ra, rb);
        assert(b.drop_first().skip(a.len() - 1) =~= b.skip(a.len() as int));
    }
}

/// String encodings never run into one another.
pub proof fn lemma_str_pair_unamb(x: Seq<char>, y: Seq<char>)
    requires
        x.len() < 0x10000000000000000,
        y.len() < 0x10000000000000000,
    ensures
        pair_unamb(enc_str_fn(), x, y),
{
    let f = enc_str_fn();
    assert forall|rx: Seq<u8>, ry: Seq<u8>| #[trigger] (f(x) + rx) == #[trigger] (f(y) + ry)
        implies x == y && rx == ry by {
        lemma_enc_str_unambiguous(x, y, rx, ry);
    }
}

/// Append the encoding of a list of strings.
pub fn push_str_list(out: &mut Vec<u8>, items: &Vec<String>)
    ensures
        final(out)@ == old(out)@ + enc_str_list(items.deep_view()),
        items.deep_view().len() < 0x10000000000000000,
        forall|i: int|
            0 <= i < items.deep_view().len() ==> #[trigger] items.deep_view()[i].len()
                < 0x10000000000000000,
{
    push_u64(out, items.len() as u64);
    let ghost dv = items.deep_view();
    let mut i: usize = 0;
    while i < items.len()
        invariant
            0 <= i <= items@.len(),
            dv == items.deep_view(),
            dv.len() == items@.len(),
            out@ == old(out)@ + le8(items@.len() as u64) + enc_each(
                dv.subrange(0, i as int),
                enc_str_fn(),
            ),
            forall|k: int| 0 <= k < i ==> #[trigger] dv[k].len() < 0x10000000000000000,
        decreases items@.len() - i,
    {
        let n: usize = items[i].as_str().unicode_len();
        push_string(out, items[i].as_str());
        proof {
            assert(dv[i as int] == items@[i as int]@);
            assert(dv[i as int].len() == n);
            let pre = dv.subrange(0, i as int);
            let post = dv.subrange(0, i as int + 1);
            assert(post.drop_last() =~= pre);
            assert(post.last() == dv[i as int]);
            lemma_enc_each_push(pre, dv[i as int], enc_str_fn());
            assert(post =~= pre.push(dv[i as int]));
            assert(enc_str_fn()(dv[i as int]) == enc_str(dv[i as int]));
            assert(out@ =~= old(out)@ + le8(items@.len() as u64) + enc_each(post, enc_str_fn()));
        }
        i = i + 1;
    }
    proof {
        assert(dv.subrange(0, dv.len() as int) =~= dv);
        assert(out@ =~= old(out)@ + enc_str_list(dv));
    }
}

/// Read a list of strings; the consumed bytes are exactly its encoding.
pub fn read_str_list(data: &Vec<u8>, pos: usize) -> (r: Option<(Vec<String>, usize)>)
    ensures
        match r {
            Some((items, p)) => pos <= p <= data@.len() && data@.subrange(pos as int, p as int)
                =~= enc_str_list(items.deep_view()) && items.deep_view().len()
                < 0x10000000000000000 && (forall|k: int|
                0 <= k < items.deep_view().len() ==> (#[trigger] items.deep_view()[k]).len()
                    < 0x10000000000000000),
            None => forall|items: Seq<Seq<char>>, q: int|
                pos <= q <= data@.len() && items.len() < 0x10000000000000000 && (forall|k: int|
                    0 <= k < items.len() ==> (#[trigger] items[k]).len()
                        < 0x10000000000000000) ==> data@.subrange(pos as int, q)
                    != enc_str_list(items),
        },
{
    let (n, mut p) = match read_u64(data, pos) {
        Some(x) => x,
        None => {
            proof {
                assert forall|items: Seq<Seq<char>>, q: int|
                    pos <= q <= data@.len() && items.len() < 0x10000000000000000 && (forall|
                        k: int,
                    |
                        0 <= k < items.len() ==> (#[trigger] items[k]).len()
                            < 0x10000000000000000) implies data@.subrange(pos as int, q)
                    != enc_str_list(items) by {
                    assert(le8(items.len() as u64).len() == 8);
                    if data@.subrange(pos as int, q) == enc_str_list(items) {
                        assert(enc_str_list(items) == le8(items.len() as u64) + enc_each(
                            items,
                            enc_str_fn(),
                        ));
                        assert(enc_str_list(items).len() == 8 + enc_each(
                            items,
                            enc_str_fn(),
                        ).len());
                        assert(q - pos >= 8);
                        assert(false);
                    }
                }
            }
            return None;
        },
    };
    if n > data.len() as u64 {
        proof {
            assert forall|items: Seq<Seq<char>>, q: int|
                pos <= q <= data@.len() && items.len() < 0x10000000000000000 && (forall|k: int|
                    0 <= k < items.len() ==> (#[trigger] items[k]).len()
                        < 0x10000000000000000) implies data@.subrange(pos as int, q)
                != enc_str_list(items) by {
                if data@.subrange(pos as int, q) == enc_str_list(items) {
                    assert(le8(items.len() as u64).len() == 8);
                    assert(enc_str_list(items) == le8(items.len() as u64) + enc_each(
                        items,
                        enc_str_fn(),
                    ));
                    assert(enc_str_list(items).len() == 8 + enc_each(
                        items,
                        enc_str_fn(),
                    ).len());
                    assert(q - pos >= 8);
                    assert(data@.subrange(pos as int, q).subrange(0, 8) =~= data@.subrange(
                        pos as int,
                        pos as int + 8,
                    ));
                    assert(enc_str_list(items).subrange(0, 8) =~= le8(items.len() as u64));
                    lemma_le8_injective(n, items.len() as u64);
                    assert(items.len() == n as int);
                    lemma_enc_each_str_min(items);
                    assert(q - pos == 8 + enc_each(items, enc_str_fn()).len());
                    assert(false);
                }
            }
        }
        return None;
    }
    let count: usize = n as usize;
    let mut items: Vec<String> = Vec::new();
    let mut i: usize = 0;
    while i < count
        invariant
            0 <= i <= count,
            items@.len() == i,
            items.deep_view().len() == i,
            count == n,
            pos + 8 <= p <= data@.len(),
            data@.subrange(pos as int, pos as int + 8) =~= le8(n),
            data@.subrange(pos as int + 8, p as int) =~= enc_each(
                items.deep_view(),
                enc_str_fn(),
            ),
            forall|k: int|
                0 <= k < i ==> (#[trigger] items.deep_view()[k]).len() < 0x10000000000000000,
        decreases count - i,
    {
        let (s, p2) = match read_string(data, p) {
            Some(x) => x,
            None => {
                proof {
                    let iv = items.deep_view();
                    assert forall|items2: Seq<Seq<char>>, q: int|
                        pos <= q <= data@.len() && items2.len() < 0x10000000000000000 && (
                        forall|k: int|
                            0 <= k < items2.len() ==> (#[trigger] items2[k]).len()
                                < 0x10000000000000000) implies data@.subrange(pos as int, q)
                        != enc_str_list(items2) by {
                        if data@.subrange(pos as int, q) == enc_str_list(items2) {
                            assert(le8(items2.len() as u64).len() == 8);
                            assert(enc_str_list(items2) == le8(items2.len() as u64)
                                + enc_each(items2, enc_str_fn()));
                            assert(enc_str_list(items2).len() == 8 + enc_each(
                                items2,
                                enc_str_fn(),
                            ).len());
                            assert(data@.subrange(pos as int, q).subrange(0, 8)
                                =~= data@.subrange(pos as int, pos as int + 8));
                            assert(enc_str_list(items2).subrange(0, 8) =~= le8(
                                items2.len() as u64,
                            ));
                            lemma_le8_injective(n, items2.len() as u64);
                            assert(items2.len() == n as int);
                            assert(q - pos >= 8);
                            assert(enc_each(items2, enc_str_fn()) =~= data@.subrange(
                                pos as int,
                                q,
                            ).subrange(8, q - pos as int));
                            assert(data@.subrange(pos as int, q).subrange(8, q - pos as int)
                                =~= data@.subrange(pos as int + 8, q));
                            let dlen = data@.len() as int;
                            assert(enc_each(iv, enc_str_fn()) + data@.subrange(p as int, dlen)
                                =~= data@.subrange(pos as int + 8, dlen));
                            assert(enc_each(items2, enc_str_fn()) + data@.subrange(q, dlen)
                                =~= data@.subrange(pos as int + 8, dlen));
                            lemma_enc_each_str_prefix(
                                iv,
                                items2,
                                data@.subrange(p as int, dlen),
                                data@.subrange(q, dlen),
                            );
                            let tail = items2.skip(i as int);
                            assert(tail.first() == items2[i as int]);
                            assert(tail.drop_first() =~= items2.skip(i as int + 1));
                            assert(enc_str_fn()(tail.first()) == enc_str(items2[i as int]));
                            assert(data@.subrange(p as int, dlen) =~= enc_str(
                                items2[i as int],
                            ) + (enc_each(items2.skip(i as int + 1), enc_str_fn())
                                + data@.subrange(q, dlen)));
                            lemma_enc_chars_len(items2[i as int]);
                            assert(le8(items2[i as int].len() as u64).len() == 8);
                            let el = 8 + 4 * items2[i as int].len() as int;
                            assert(p + el <= dlen);
                            assert(data@.subrange(p as int, p as int + el) =~= data@.subrange(
                                p as int,
                                dlen,
                            ).subrange(0, el));
                            assert(data@.subrange(p as int, p as int + el) =~= enc_str(
                                items2[i as int],
                            ));
                            assert(false);
                        }
                    }
                }
                return None;
            },
        };
        let ghost prev = items.deep_view();
        items.push(s);
        proof {
            assert(items.deep_view() =~= prev.push(s@));
            lemma_enc_each_push(prev, s@, enc_str_fn());
            assert(enc_str_fn()(s@) == enc_str(s@));
            assert(data@.subrange(pos as int + 8, p2 as int) =~= data@.subrange(
                pos as int + 8,
                p as int,
            ) + data@.subrange(p as int, p2 as int));
        }
        p = p2;
        i = i + 1;
    }
    proof {
        assert(items.deep_view().len() == count);
        assert(data@.subrange(pos as int, p as int) =~= data@.subrange(pos as int, pos as int
            + 8) + data@.subrange(pos as int + 8, p as int));
    }
    Some((items, p))
}

} // verus!
