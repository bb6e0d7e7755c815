//! Hexadecimal encoding and decoding of identifiers.
//!
//! Commit and object identifiers travel over HTTP as hex strings and are
//! stored as raw bytes; these codecs state and prove the exact byte-level
//! correspondence, including the round trip.

use vstd::prelude::*;

verus! {

/// The lowercase hex digit (as an ASCII byte) for a value below 16.
pub open spec fn hex_digit(v: u8) -> u8
    recommends
        v < 16,
{
    if v < 10 {
        (0x30 + v) as u8
    } else {
        (0x57 + v) as u8
    }
}

/// Lowercase hex encoding of a byte sequence: two digits per byte.
pub open spec fn hex_of(bytes: Seq<u8>) -> Seq<u8>
    decreases bytes.len(),
{
    if bytes.len() == 0 {
        Seq::empty()
    } else {
        seq![
            hex_digit((bytes.first() / 16) as u8),
            hex_digit((bytes.first() % 16) as u8),
        ] + hex_of(bytes.drop_first())
    }
}

/// The value of one hex digit byte, accepting both cases; `None` for a
/// byte that is no hex digit.
pub open spec fn hex_val(c: u8) -> Option<u8> {
    if 0x30 <= c <= 0x39 {
        Some((c - 0x30) as u8)
    } else if 0x61 <= c <= 0x66 {
        Some((c - 0x57) as u8)
    } else if 0x41 <= c <= 0x46 {
        Some((c - 0x37) as u8)
    } else {
        None
    }
}

/// Decoding of a hex string to bytes: `None` on odd length or any byte
/// that is no hex digit.
pub open spec fn hex_decoded(s: Seq<u8>) -> Option<Seq<u8>>
    decreases s.len(),
{
    if s.len() == 0 {
        Some(Seq::empty())
    } else if s.len() == 1 {
        None
    } else {
        match (hex_val(s[0]), hex_val(s[1])) {
            (Some(hi), Some(lo)) => match hex_decoded(s.skip(2)) {
                Some(rest) => Some(seq![(hi * 16 + lo) as u8] + rest),
                None => None,
            },
            _ => None,
        }
    }
}

/// Encode bytes as a lowercase hex string.
pub fn hex_encode(bytes: &[u8]) -> (r: Vec<u8>)
    ensures
        r@ == hex_of(bytes@),
        r@.len() == 2 * bytes@.len(),
{
    let mut out: Vec<u8> = Vec::new();
    let n = bytes.len();
    assert(bytes@.skip(0) == bytes@);
    for i in 0..n
        invariant
            n == bytes@.len(),
            out@.len() == 2 * i,
            hex_of(bytes@) =~= out@ + hex_of(bytes@.skip(i as int)),
    {
        let b = bytes[i];
        let hi = b / 16;
        let lo = b % 16;
        out.push(if hi < 10 { 0x30 + hi } else { 0x57 + hi });
        out.push(if lo < 10 { 0x30 + lo } else { 0x57 + lo });
        assert(bytes@.skip(i as int).drop_first() == bytes@.skip(i + 1));
    }
    assert(bytes@.skip(n as int) =~= Seq::<u8>::empty());
    out
}

/// Decode a hex string to bytes; `None` exactly where [`hex_decoded`]
/// says so.
pub fn hex_decode(s: &[u8]) -> (r: Option<Vec<u8>>)
    ensures
        match r {
            Some(v) => hex_decoded(s@) == Some(v@),
            None => hex_decoded(s@) is None,
        },
{
    let mut out: Vec<u8> = Vec::new();
    let n = s.len();
    let mut i: usize = 0;
    assert(s@.skip(0) == s@);
    while i + 1 < n
        invariant
            n == s@.len(),
            i % 2 == 0,
            i <= n,
            hex_decoded(s@) == match hex_decoded(s@.skip(i as int)) {
                Some(rest) => Some(out@ + rest),
                None => None::<Seq<u8>>,
            },
        decreases n - i,
    {
        let hi = match hex_val_exec(s[i]) {
            Some(v) => v,
            None => {
                return None;
            },
        };
        let lo = match hex_val_exec(s[i + 1]) {
            Some(v) => v,
            None => {
                return None;
            },
        };
        assert(s@.skip(i as int).skip(2) == s@.skip(i + 2));
        out.push(hi * 16 + lo);
        i = i + 2;
    }
    if i < n {
        assert(s@.skip(i as int).len() == 1);
        return None;
    }
    assert(s@.skip(i as int) =~= Seq::<u8>::empty());
    assert(out@ + Seq::<u8>::empty() =~= out@);
    Some(out)
}

/// The value of one hex digit byte.
pub fn hex_val_exec(c: u8) -> (r: Option<u8>)
    ensures
        r == hex_val(c),
{
    if 0x30 <= c && c <= 0x39 {
        Some(c - 0x30)
    } else if 0x61 <= c && c <= 0x66 {
        Some(c - 0x57)
    } else if 0x41 <= c && c <= 0x46 {
        Some(c - 0x37)
    } else {
        None
    }
}

/// Decoding inverts encoding: the hex string of any byte sequence
/// decodes back to exactly that sequence.
pub proof fn lemma_hex_round_trip(bytes: Seq<u8>)
    ensures
        hex_decoded(hex_of(bytes)) == Some(bytes),
    decreases bytes.len(),
{
    if bytes.len() == 0 {
        assert(hex_of(bytes) =~= Seq::<u8>::empty());
    } else {
        let b = bytes.first();
        let enc = hex_of(bytes);
        lemma_hex_round_trip(bytes.drop_first());
        assert(enc.skip(2) =~= hex_of(bytes.drop_first()));
        assert(hex_val(hex_digit((b / 16) as u8)) == Some((b / 16) as u8));
        assert(hex_val(hex_digit((b % 16) as u8)) == Some((b % 16) as u8));
        assert((b / 16) * 16 + (b % 16) == b) by {
            vstd::arithmetic::div_mod::lemma_fundamental_div_mod(b as int, 16);
        };
        assert(seq![b] + bytes.drop_first() =~= bytes);
    }
}

} // verus!
