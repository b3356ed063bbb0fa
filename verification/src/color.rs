//! Content-derived color selection: a byte buffer is mapped
//! deterministically to a primary color by hashing it and reading the first
//! three bytes of the digest.  The same input always yields the same color;
//! an empty input yields black.

use vstd::prelude::*;

verus! {

/// The SHA-256 digest of `data`, encoded as lowercase hexadecimal
/// characters.  A fixed mathematical function of the bytes alone; its value
/// on given bytes is known only through `sha256_hex`.
pub uninterp spec fn sha256_hex_of(data: Seq<u8>) -> Seq<char>;

/// Relies on `crypto_hash::hex_digest` with `Algorithm::SHA256`: it returns
/// the SHA-256 digest of the bytes, hex-encoded, so 64 characters for the
/// 32 digest bytes, and depends on the bytes alone.
#[verifier::external_body]
fn sha256_hex(data: &[u8]) -> (r: String)
    ensures
        r@ == sha256_hex_of(data@),
        r@.len() == 64,
{
    crypto_hash::hex_digest(crypto_hash::Algorithm::SHA256, data)
}

/// Numeric value of a lowercase hexadecimal digit character, 0 for any
/// other character.
pub open spec fn hex_digit_val(c: char) -> u8 {
    if c == '0' {
        0
    } else if c == '1' {
        1
    } else if c == '2' {
        2
    } else if c == '3' {
        3
    } else if c == '4' {
        4
    } else if c == '5' {
        5
    } else if c == '6' {
        6
    } else if c == '7' {
        7
    } else if c == '8' {
        8
    } else if c == '9' {
        9
    } else if c == 'a' {
        10
    } else if c == 'b' {
        11
    } else if c == 'c' {
        12
    } else if c == 'd' {
        13
    } else if c == 'e' {
        14
    } else if c == 'f' {
        15
    } else {
        0
    }
}

/// The byte written as the two hexadecimal digits `hi``lo`.
pub open spec fn hex_pair_val(hi: char, lo: char) -> u8 {
    (hex_digit_val(hi) as int * 16 + hex_digit_val(lo) as int) as u8
}

/// The primary color derived from a byte buffer: black for empty input,
/// otherwise the first three bytes of the buffer's SHA-256 digest, read as
/// three pairs of hex digits of the digest's hex encoding.
pub open spec fn pick_color_spec(data: Seq<u8>) -> (u8, u8, u8) {
    if data.len() == 0 {
        (0, 0, 0)
    } else {
        let h = sha256_hex_of(data);
        (hex_pair_val(h[0], h[1]), hex_pair_val(h[2], h[3]), hex_pair_val(h[4], h[5]))
    }
}

fn hex_digit(c: char) -> (v: u8)
    ensures
        v == hex_digit_val(c),
        v <= 15,
{
    match c {
        '0' => 0,
        '1' => 1,
        '2' => 2,
        '3' => 3,
        '4' => 4,
        '5' => 5,
        '6' => 6,
        '7' => 7,
        '8' => 8,
        '9' => 9,
        'a' => 10,
        'b' => 11,
        'c' => 12,
        'd' => 13,
        'e' => 14,
        'f' => 15,
        _ => 0,
    }
}

fn hex_pair(hi: char, lo: char) -> (v: u8)
    ensures
        v == hex_pair_val(hi, lo),
{
    hex_digit(hi) * 16 + hex_digit(lo)
}

/// Derives the color for a byte buffer.  Deterministic: the result is a
/// function of the bytes alone, so equal buffers always color alike.
/// Empty input maps to black.
pub fn pick_color(data: &[u8]) -> (color: (u8, u8, u8))
    ensures
        color == pick_color_spec(data@),
{
    if data.len() == 0 {
        return (0, 0, 0);
    }
    let hash = sha256_hex(data);
    let h = hash.as_str();
    let color1 = hex_pair(h.get_char(0), h.get_char(1));
    let color2 = hex_pair(h.get_char(2), h.get_char(3));
    let color3 = hex_pair(h.get_char(4), h.get_char(5));
    (color1, color2, color3)
}

} // verus!
