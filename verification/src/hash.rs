//! Stable content hashing.
//!
//! Every object in the repository — file bytes, tree nodes, commits — is
//! addressed by a 128-bit content hash written as 32 lowercase hex
//! characters: the first sixteen bytes of the SHA-256 digest of the input.
//! The digest comes from an outside implementation and is only named here;
//! the truncation and the hex rendering are verified.

use vstd::prelude::*;

use crate::codec;

verus! {

/// The SHA-256 digest of a byte sequence.  The digest is a pure function
/// of the input bytes, the same in every process and on every platform.
pub uninterp spec fn sha256_of(bytes: Seq<u8>) -> Seq<u8>;

/// Relies on sha2::Sha256 (FIPS 180-4 as implemented by RustCrypto): the
/// digest is 32 bytes long and depends on the input bytes alone.
#[verifier::external_body]
fn sha256(bytes: &[u8]) -> (r: Vec<u8>)
    ensures
        r@ == sha256_of(bytes@),
        r@.len() == 32,
{
    <sha2::Sha256 as sha2::Digest>::digest(bytes).to_vec()
}

/// The lowercase hex digit for a value in 0..16.
pub open spec fn hex_digit(n: int) -> char {
    if n == 0 { '0' }
    else if n == 1 { '1' }
    else if n == 2 { '2' }
    else if n == 3 { '3' }
    else if n == 4 { '4' }
    else if n == 5 { '5' }
    else if n == 6 { '6' }
    else if n == 7 { '7' }
    else if n == 8 { '8' }
    else if n == 9 { '9' }
    else if n == 10 { 'a' }
    else if n == 11 { 'b' }
    else if n == 12 { 'c' }
    else if n == 13 { 'd' }
    else if n == 14 { 'e' }
    else { 'f' }
}

/// One byte as two lowercase hex characters, high nibble first.
pub open spec fn byte_hex(b: u8) -> Seq<char> {
    seq![hex_digit(b as int / 16), hex_digit(b as int % 16)]
}

/// A byte sequence as lowercase hex, left to right.
pub open spec fn bytes_hex(bs: Seq<u8>) -> Seq<char>
    decreases bs.len(),
{
    if bs.len() == 0 {
        Seq::empty()
    } else {
        bytes_hex(bs.drop_last()) + byte_hex(bs.last())
    }
}

/// The content hash of a byte sequence: the first sixteen digest bytes,
/// hex-encoded.
pub open spec fn hash_of_bytes(bytes: Seq<u8>) -> Seq<char> {
    bytes_hex(sha256_of(bytes).take(16))
}

/// The content hash of a character sequence: the hash of its canonical
/// little-endian scalar encoding (used for paths and field lists).
pub open spec fn hash_of_chars(s: Seq<char>) -> Seq<char> {
    hash_of_bytes(codec::enc_chars(s))
}

pub open spec fn is_hex_char(c: char) -> bool {
    ('0' <= c && c <= '9') || ('a' <= c && c <= 'f')
}

/// A well-formed hash string: 32 lowercase hex characters.
pub open spec fn is_hash(s: Seq<char>) -> bool {
    s.len() == 32 && forall|i: int| 0 <= i < 32 ==> is_hex_char(#[trigger] s[i])
}

/// Two distinct inputs that the hash sends to one address.  Content
/// addressing is sound exactly as long as no such pair turns up; the
/// store operations report Corruption only on witnessing one.
pub open spec fn hash_collision() -> bool {
    exists|a: Seq<u8>, b: Seq<u8>| a != b && hash_of_bytes(a) == hash_of_bytes(b)
}

proof fn lemma_hex_digit_is_hex(n: int)
    ensures
        is_hex_char(hex_digit(n)),
{
}

/// Hex rendering yields two hex characters per byte.
pub proof fn lemma_bytes_hex_shape(bs: Seq<u8>)
    ensures
        bytes_hex(bs).len() == 2 * bs.len(),
        forall|i: int|
            0 <= i < bytes_hex(bs).len() ==> is_hex_char(#[trigger] bytes_hex(bs)[i]),
    decreases bs.len(),
{
    if bs.len() > 0 {
        lemma_bytes_hex_shape(bs.drop_last());
        let b = bs.last();
        lemma_hex_digit_is_hex(b as int / 16);
        lemma_hex_digit_is_hex(b as int % 16);
    }
}

/// Hashing is a pure function of the input bytes: equal byte sequences
/// hash to equal hex strings, in every process and on every platform.
pub proof fn lemma_hash_deterministic(a: Seq<u8>, b: Seq<u8>)
    requires
        a == b,
    ensures
        hash_of_bytes(a) == hash_of_bytes(b),
{
}

fn hex_char_str(n: u8) -> (r: &'static str)
    requires
        n < 16,
    ensures
        r@ =~= seq![hex_digit(n as int)],
        r@.len() == 1,
{
    proof {
        reveal_strlit("0");
        reveal_strlit("1");
        reveal_strlit("2");
        reveal_strlit("3");
        reveal_strlit("4");
        reveal_strlit("5");
        reveal_strlit("6");
        reveal_strlit("7");
        reveal_strlit("8");
        reveal_strlit("9");
        reveal_strlit("a");
        reveal_strlit("b");
        reveal_strlit("c");
        reveal_strlit("d");
        reveal_strlit("e");
        reveal_strlit("f");
    }
    if n == 0 { "0" }
    else if n == 1 { "1" }
    else if n == 2 { "2" }
    else if n == 3 { "3" }
    else if n == 4 { "4" }
    else if n == 5 { "5" }
    else if n == 6 { "6" }
    else if n == 7 { "7" }
    else if n == 8 { "8" }
    else if n == 9 { "9" }
    else if n == 10 { "a" }
    else if n == 11 { "b" }
    else if n == 12 { "c" }
    else if n == 13 { "d" }
    else if n == 14 { "e" }
    else { "f" }
}

/// The hash of a byte slice as a 32-character hex string.
pub fn hash_bytes(bytes: &[u8]) -> (r: String)
    ensures
        r@ == hash_of_bytes(bytes@),
        is_hash(r@),
{
    let digest = sha256(bytes);
    let mut out = String::new();
    let mut i: usize = 0;
    while i < 16
        invariant
            0 <= i <= 16,
            digest@ == sha256_of(bytes@),
            digest@.len() == 32,
            out@ == bytes_hex(digest@.subrange(0, i as int)),
        decreases 16 - i,
    {
        let b: u8 = digest[i];
        out.append(hex_char_str(b / 16));
        out.append(hex_char_str(b % 16));
        proof {
            let pre = digest@.subrange(0, i as int);
            let post = digest@.subrange(0, i as int + 1);
            assert(post.drop_last() =~= pre);
            assert(post.last() == b);
            assert(out@ =~= bytes_hex(pre) + byte_hex(b));
        }
        i = i + 1;
    }
    proof {
        assert(digest@.subrange(0, 16) =~= sha256_of(bytes@).take(16));
        lemma_bytes_hex_shape(sha256_of(bytes@).take(16));
    }
    out
}

/// The hash of a string's characters as a 32-character hex string.
pub fn hash_str(s: &str) -> (r: String)
    ensures
        r@ == hash_of_chars(s@),
        is_hash(r@),
{
    let n: usize = s.unicode_len();
    let mut buf: Vec<u8> = Vec::new();
    let mut i: usize = 0;
    while i < n
        invariant
            0 <= i <= n,
            n == s@.len(),
            buf@ == codec::enc_chars(s@.subrange(0, i as int)),
        decreases n - i,
    {
        let c: char = s.get_char(i);
        codec::push_u32(&mut buf, c as u32);
        proof {
            let pre = s@.subrange(0, i as int);
            let post = s@.subrange(0, i as int + 1);
            assert(post.drop_last() =~= pre);
            assert(post.last() == c);
        }
        i = i + 1;
    }
    proof {
        assert(s@.subrange(0, s@.len() as int) =~= s@);
    }
    hash_bytes(buf.as_slice())
}

} // verus!
