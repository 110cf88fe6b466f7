//! The content hash: a 64-bit multiply-by-33 hash over UTF-8 bytes, shown as 16 hex digits.

use vstd::prelude::*;
use vstd::utf8::encode_utf8;
use crate::text::{hex_digits, hex_chars, from_chars, hex_char};

verus! {

/// The hash state after the first `n` bytes: starts at 5381, then `h * 33 + b` modulo 2^64.
pub open spec fn hash_upto(bytes: Seq<u8>, n: int) -> u64
    decreases n,
{
    if n <= 0 {
        5381
    } else {
        hash_upto(bytes, n - 1).wrapping_mul(33).wrapping_add(bytes[n - 1] as u64)
    }
}

/// The hash of a byte sequence.
pub open spec fn hash_bytes(bytes: Seq<u8>) -> u64 {
    hash_upto(bytes, bytes.len() as int)
}

/// The content hash of a text: the hash of its UTF-8 bytes as 16 lower-case hex digits.
pub open spec fn spec_content_hash(s: Seq<char>) -> Seq<char> {
    hex_digits(hash_bytes(encode_utf8(s)) as nat, 16)
}

/// The hash of a byte slice.
pub fn hash_of_bytes(b: &[u8]) -> (h: u64)
    ensures
        h == hash_bytes(b@),
{
    let mut h: u64 = 5381;
    let mut i: usize = 0;
    while i < b.len()
        invariant
            i <= b@.len(),
            h == hash_upto(b@, i as int),
        decreases b@.len() - i,
    {
        h = h.wrapping_mul(33).wrapping_add(b[i] as u64);
        i += 1;
    }
    h
}

/// Hash of `s`, as 16 lower-case hexadecimal digits.
pub fn content_hash(s: &str) -> (r: String)
    ensures
        r@ == spec_content_hash(s@),
        r@.len() == 16,
        forall|i: int| 0 <= i < 16 ==> is_lower_hex_digit(#[trigger] r@[i]),
{
    let h = hash_of_bytes(s.as_bytes());
    let v = hex_chars(h, 16);
    proof {
        lemma_hex_digits_shape(h as nat, 16);
    }
    from_chars(&v)
}

pub open spec fn is_lower_hex_digit(c: char) -> bool {
    ('0' <= c <= '9') || ('a' <= c <= 'f')
}

pub proof fn lemma_hex_digits_shape(n: nat, count: nat)
    ensures
        hex_digits(n, count).len() == count,
        forall|i: int| 0 <= i < count ==> is_lower_hex_digit(#[trigger] hex_digits(n, count)[i]),
    decreases count,
{
    if count > 0 {
        lemma_hex_digits_shape(n / 16, (count - 1) as nat);
        let d = n % 16;
        assert(is_lower_hex_digit(hex_char(d)));
    }
}

} // verus!
