//! Content digests: the hash of a text or of bytes, and its hexadecimal form.
use vstd::prelude::*;

use crate::json::hex_digit;
use crate::text::{cat2, chars, gather};

verus! {

/// The BLAKE3 hash of a sequence of bytes.
pub uninterp spec fn blake3_hash(bytes: Seq<u8>) -> Seq<u8>;

/// `blake3::hash` is a function of the bytes; `Hash::as_bytes` gives its 32 bytes.
#[verifier::external_body]
pub(crate) fn hash_bytes(bytes: &[u8]) -> (r: [u8; 32])
    ensures
        r@ == blake3_hash(bytes@),
{
    *blake3::hash(bytes).as_bytes()
}

/// The two hexadecimal digits of each byte.
pub open spec fn hex_pairs(bytes: Seq<u8>) -> spec_fn(int) -> Seq<char> {
    |i: int| seq![hex_digit(bytes[i] as int / 16), hex_digit(bytes[i] as int % 16)]
}

/// Bytes in hexadecimal, two digits for each.
pub open spec fn hex(bytes: Seq<u8>) -> Seq<char> {
    gather(bytes.len() as int, hex_pairs(bytes))
}

/// The value of a hexadecimal digit.
pub open spec fn nibble(c: char) -> Option<int> {
    if '0' <= c <= '9' {
        Some(c as u32 - 48)
    } else if 'a' <= c <= 'f' {
        Some(c as u32 - 87)
    } else if 'A' <= c <= 'F' {
        Some(c as u32 - 55)
    } else {
        None
    }
}

/// The byte that two hexadecimal digits write.
pub open spec fn byte_of(a: char, b: char) -> Option<u8> {
    match (nibble(a), nibble(b)) {
        (Some(x), Some(y)) => Some((16 * x + y) as u8),
        _ => None,
    }
}

/// The 32 bytes that 64 hexadecimal digits write.
pub open spec fn unhex(s: Seq<char>) -> Option<Seq<u8>> {
    if s.len() == 64 && forall|i: int|
        0 <= i < 32 ==> (#[trigger] byte_of(s[2 * i], s[2 * i + 1])) is Some {
        Some(Seq::new(32, |i: int| byte_of(s[2 * i], s[2 * i + 1])->0))
    } else {
        None
    }
}

/// The digest of a text, as `b3:` and the hexadecimal form of the hash of its UTF-8 bytes.
pub open spec fn digest(text: Seq<char>) -> Seq<char> {
    "b3:"@ + hex(blake3_hash(vstd::utf8::encode_utf8(text)))
}

fn hex_char(d: u8) -> (r: char)
    requires
        d < 16,
    ensures
        r == hex_digit(d as int),
{
    match d {
        0 => '0',
        1 => '1',
        2 => '2',
        3 => '3',
        4 => '4',
        5 => '5',
        6 => '6',
        7 => '7',
        8 => '8',
        9 => '9',
        10 => 'a',
        11 => 'b',
        12 => 'c',
        13 => 'd',
        14 => 'e',
        _ => 'f',
    }
}

/// A hash in hexadecimal.
pub fn hash_to_hex(h: &[u8; 32]) -> (r: String)
    ensures
        r@ == hex(h@),
{
    let mut r = String::new();
    let mut i: usize = 0;
    while i < 32
        invariant
            i <= 32,
            r@ =~= gather(i as int, hex_pairs(h@)),
        decreases 32 - i,
    {
        r.push(hex_char(h[i] / 16));
        r.push(hex_char(h[i] % 16));
        i += 1;
    }
    r
}

fn nibble_of(c: char) -> (r: Option<u8>)
    ensures
        match r {
            Some(d) => nibble(c) == Some(d as int) && d < 16,
            None => nibble(c) is None,
        },
{
    let n: u32 = c as u32;
    if '0' <= c && c <= '9' {
        Some((n - 48) as u8)
    } else if 'a' <= c && c <= 'f' {
        Some((n - 87) as u8)
    } else if 'A' <= c && c <= 'F' {
        Some((n - 55) as u8)
    } else {
        None
    }
}

fn pair_byte(a: char, b: char) -> (r: Option<u8>)
    ensures
        r == byte_of(a, b),
{
    match (nibble_of(a), nibble_of(b)) {
        (Some(x), Some(y)) => Some(16 * x + y),
        _ => None,
    }
}

/// The hash that 64 hexadecimal digits write; nothing where the text is malformed.
pub fn hex_to_hash(s: &str) -> (r: Option<[u8; 32]>)
    ensures
        match r {
            Some(h) => unhex(s@) == Some(h@),
            None => unhex(s@) is None,
        },
{
    let a = chars(s);
    if a.len() != 64 {
        return None;
    }
    let mut h: [u8; 32] = [0u8; 32];
    let mut i: usize = 0;
    while i < 32
        invariant
            i <= 32,
            a@ == s@,
            a.len() == 64,
            forall|j: int|
                0 <= j < i ==> (#[trigger] byte_of(a@[2 * j], a@[2 * j + 1])) == Some(h@[j]),
        decreases 32 - i,
    {
        match pair_byte(a[2 * i], a[2 * i + 1]) {
            Some(b) => {
                h[i] = b;
            },
            None => {
                assert(byte_of(s@[2 * (i as int)], s@[2 * (i as int) + 1]) is None);
                return None;
            },
        }
        i += 1;
    }
    assert(unhex(s@)->0 =~= h@);
    Some(h)
}

/// The digest of a text.
pub fn digest_of(text: &str) -> (r: String)
    ensures
        r@ == digest(text@),
{
    let h = hash_bytes(text.as_bytes());
    cat2("b3:", hash_to_hex(&h).as_str())
}

/// The digest of bytes.
pub fn digest_of_bytes(bytes: &[u8]) -> (r: String)
    ensures
        r@ == "b3:"@ + hex(blake3_hash(bytes@)),
{
    let h = hash_bytes(bytes);
    cat2("b3:", hash_to_hex(&h).as_str())
}

proof fn hex_at(bytes: Seq<u8>, n: int, i: int)
    requires
        0 <= i < n <= bytes.len(),
    ensures
        gather(n, hex_pairs(bytes)).len() == 2 * n,
        gather(n, hex_pairs(bytes))[2 * i] == hex_digit(bytes[i] as int / 16),
        gather(n, hex_pairs(bytes))[2 * i + 1] == hex_digit(bytes[i] as int % 16),
    decreases n,
{
    if n > 1 {
        hex_at(bytes, n - 1, if i < n - 1 { i } else { 0 });
    } else {
        assert(gather(0, hex_pairs(bytes)).len() == 0);
    }
}

/// A text writes a hash if and only if it is 64 hexadecimal digits.
pub proof fn hashes_are_digits(s: Seq<char>)
    ensures
        unhex(s) is Some <==> s.len() == 64 && forall|i: int|
            0 <= i < 64 ==> nibble(#[trigger] s[i]) is Some,
{
    if unhex(s) is Some {
        assert forall|i: int| 0 <= i < 64 implies nibble(#[trigger] s[i]) is Some by {
            let k = i / 2;
            assert(byte_of(s[2 * k], s[2 * k + 1]) is Some);
            assert(i == 2 * k || i == 2 * k + 1);
        }
    }
    if s.len() == 64 && forall|i: int| 0 <= i < 64 ==> nibble(#[trigger] s[i]) is Some {
        assert forall|i: int| 0 <= i < 32 implies (#[trigger] byte_of(s[2 * i], s[2 * i + 1])) is Some by {
            assert(nibble(s[2 * i]) is Some);
            assert(nibble(s[2 * i + 1]) is Some);
        }
    }
}

/// Writing a hash in hexadecimal and reading it back gives the hash.
pub proof fn hex_round_trip(h: Seq<u8>)
    requires
        h.len() == 32,
    ensures
        unhex(hex(h)) == Some(h),
{
    hex_at(h, 32, 0);
    assert forall|i: int| 0 <= i < 32 implies #[trigger] byte_of(hex(h)[2 * i], hex(h)[2 * i + 1])
        == Some(h[i]) by {
        hex_at(h, 32, i);
        let b = h[i];
        assert(nibble(hex_digit(b as int / 16)) == Some(b as int / 16));
        assert(nibble(hex_digit(b as int % 16)) == Some(b as int % 16));
    }
    assert(Seq::new(32, |i: int| byte_of(hex(h)[2 * i], hex(h)[2 * i + 1])->0) =~= h);
}

} // verus!
