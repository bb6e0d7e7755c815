//! Percent-encoding of manifest paths.
//!
//! A file's manifest path is built by percent-encoding each path segment
//! independently and prefixing every segment with `/`, so a segment
//! containing `/` or other reserved bytes cannot escape its slot. The
//! deploy client reverses the encoding when it reopens a file for
//! upload; the round trip is proved below. Decoding is lenient: a `%`
//! that does not start a valid escape passes through verbatim.

use vstd::prelude::*;

use crate::hexcode::hex_val;

verus! {

/// The `%` byte.
pub const PERCENT: u8 = 0x25;

/// The `/` byte.
pub const SLASH: u8 = 0x2f;

/// Bytes the encoder keeps verbatim: ASCII alphanumerics and
/// `-`, `.`, `_`, `~`.
pub open spec fn is_unreserved(b: u8) -> bool {
    (0x30 <= b <= 0x39) || (0x41 <= b <= 0x5a) || (0x61 <= b <= 0x7a) || b == 0x2d || b == 0x2e
        || b == 0x5f || b == 0x7e
}

/// The uppercase hex digit (as an ASCII byte) for a value below 16.
pub open spec fn hex_digit_upper(v: u8) -> u8
    recommends
        v < 16,
{
    if v < 10 {
        (0x30 + v) as u8
    } else {
        (0x37 + v) as u8
    }
}

/// Percent-encoding of a byte sequence: unreserved bytes stay, every
/// other byte becomes `%` and two uppercase hex digits.
pub open spec fn percent_encoded(s: Seq<u8>) -> Seq<u8>
    decreases s.len(),
{
    if s.len() == 0 {
        Seq::empty()
    } else {
        (if is_unreserved(s.first()) {
            seq![s.first()]
        } else {
            seq![
                PERCENT,
                hex_digit_upper((s.first() / 16) as u8),
                hex_digit_upper((s.first() % 16) as u8),
            ]
        }) + percent_encoded(s.drop_first())
    }
}

/// Percent-decoding of a byte sequence. A `%` followed by two hex
/// digits becomes one byte; any malformed escape is passed through
/// byte for byte.
pub open spec fn percent_decoded(s: Seq<u8>) -> Seq<u8>
    decreases s.len(),
{
    if s.len() == 0 {
        Seq::empty()
    } else if s.first() != PERCENT {
        seq![s.first()] + percent_decoded(s.drop_first())
    } else if s.len() == 1 {
        seq![PERCENT]
    } else if hex_val(s[1]) is None {
        seq![PERCENT] + percent_decoded(s.drop_first())
    } else if s.len() == 2 {
        seq![PERCENT, s[1]]
    } else if hex_val(s[2]) is Some {
        seq![((hex_val(s[1]).unwrap() * 16 + hex_val(s[2]).unwrap()) as u8)] + percent_decoded(
            s.skip(3),
        )
    } else {
        seq![PERCENT, s[1]] + percent_decoded(s.skip(2))
    }
}

/// The manifest path of a file: each segment percent-encoded, each
/// prefixed by `/`.
pub open spec fn manifest_path_of(segs: Seq<Seq<u8>>) -> Seq<u8>
    decreases segs.len(),
{
    if segs.len() == 0 {
        Seq::empty()
    } else {
        seq![SLASH] + percent_encoded(segs.first()) + manifest_path_of(segs.drop_first())
    }
}

/// The filesystem-relative path of a file: its segments joined by `/`.
pub open spec fn joined_path_of(segs: Seq<Seq<u8>>) -> Seq<u8>
    decreases segs.len(),
{
    if segs.len() == 0 {
        Seq::empty()
    } else if segs.len() == 1 {
        segs.first()
    } else {
        segs.first() + seq![SLASH] + joined_path_of(segs.drop_first())
    }
}

/// Percent-encode one path segment.
pub fn encode_segment(seg: &[u8]) -> (r: Vec<u8>)
    ensures
        r@ == percent_encoded(seg@),
{
    let mut out: Vec<u8> = Vec::new();
    let n = seg.len();
    assert(seg@.skip(0) =~= seg@);
    for i in 0..n
        invariant
            n == seg@.len(),
            percent_encoded(seg@) =~= out@ + percent_encoded(seg@.skip(i as int)),
    {
        let b = seg[i];
        if (0x30 <= b && b <= 0x39) || (0x41 <= b && b <= 0x5a) || (0x61 <= b && b <= 0x7a) || b
            == 0x2d || b == 0x2e || b == 0x5f || b == 0x7e {
            out.push(b);
        } else {
            let hi = b / 16;
            let lo = b % 16;
            out.push(PERCENT);
            out.push(if hi < 10 { 0x30 + hi } else { 0x37 + hi });
            out.push(if lo < 10 { 0x30 + lo } else { 0x37 + lo });
        }
        assert(seg@.skip(i as int).drop_first() =~= seg@.skip(i + 1));
        assert(seg@.skip(i as int).first() == seg@[i as int]);
    }
    assert(seg@.skip(n as int) =~= Seq::<u8>::empty());
    out
}

/// Percent-decode a byte string; malformed escapes pass through.
pub fn percent_decode(s: &[u8]) -> (r: Vec<u8>)
    ensures
        r@ == percent_decoded(s@),
{
    let mut out: Vec<u8> = Vec::new();
    let n = s.len();
    let mut i: usize = 0;
    assert(s@.skip(0) =~= s@);
    while i < n
        invariant
            i <= n == s@.len(),
            percent_decoded(s@) =~= out@ + percent_decoded(s@.skip(i as int)),
        decreases n - i,
    {
        let ghost tail = s@.skip(i as int);
        proof {
            assert(tail.first() == s@[i as int]);
            assert(tail.drop_first() =~= s@.skip(i + 1));
            if tail.len() >= 2 {
                assert(tail[1] == s@[i + 1]);
                assert(tail.skip(2) =~= s@.skip(i + 2));
            }
            if tail.len() >= 3 {
                assert(tail[2] == s@[i + 2]);
                assert(tail.skip(3) =~= s@.skip(i + 3));
            }
        }
        let b = s[i];
        if b != PERCENT {
            out.push(b);
            i = i + 1;
        } else if i + 1 >= n {
            out.push(PERCENT);
            i = i + 1;
        } else {
            let d1 = crate::hexcode::hex_val_exec(s[i + 1]);
            match d1 {
                None => {
                    out.push(PERCENT);
                    i = i + 1;
                },
                Some(hi) => {
                    if i + 2 >= n {
                        out.push(PERCENT);
                        out.push(s[i + 1]);
                        i = i + 2;
                    } else {
                        match crate::hexcode::hex_val_exec(s[i + 2]) {
                            Some(lo) => {
                                out.push(hi * 16 + lo);
                                i = i + 3;
                            },
                            None => {
                                out.push(PERCENT);
                                out.push(s[i + 1]);
                                i = i + 2;
                            },
                        }
                    }
                },
            }
        }
    }
    assert(s@.skip(n as int) =~= Seq::<u8>::empty());
    out
}

/// Build the manifest path from a file's path segments.
pub fn manifest_path(segments: &Vec<Vec<u8>>) -> (r: Vec<u8>)
    ensures
        r@ == manifest_path_of(segments@.map_values(|v: Vec<u8>| v@)),
{
    let ghost views = segments@.map_values(|v: Vec<u8>| v@);
    let mut out: Vec<u8> = Vec::new();
    let n = segments.len();
    assert(views.skip(0) =~= views);
    for i in 0..n
        invariant
            n == segments@.len(),
            views == segments@.map_values(|v: Vec<u8>| v@),
            manifest_path_of(views) =~= out@ + manifest_path_of(views.skip(i as int)),
    {
        out.push(SLASH);
        let mut enc = encode_segment(segments[i].as_slice());
        out.append(&mut enc);
        proof {
            assert(views.skip(i as int).first() == views[i as int]);
            assert(views[i as int] == segments@[i as int]@);
            assert(views.skip(i as int).drop_first() =~= views.skip(i + 1));
        }
    }
    assert(views.skip(n as int) =~= Seq::<Seq<u8>>::empty());
    out
}

/// Decoding inverts encoding in front of any remainder: the parse
/// consumes exactly the escape sequences the encoder wrote.
pub proof fn lemma_decode_encode_prefix(x: Seq<u8>, rest: Seq<u8>)
    ensures
        percent_decoded(percent_encoded(x) + rest) == x + percent_decoded(rest),
    decreases x.len(),
{
    if x.len() == 0 {
        assert(percent_encoded(x) + rest =~= rest);
        assert(x + percent_decoded(rest) =~= percent_decoded(rest));
    } else {
        let b = x.first();
        let tail_enc = percent_encoded(x.drop_first()) + rest;
        lemma_decode_encode_prefix(x.drop_first(), rest);
        if is_unreserved(b) {
            let whole = percent_encoded(x) + rest;
            assert(whole =~= seq![b] + tail_enc);
            assert(whole.first() == b);
            assert(b != PERCENT);
            assert(whole.drop_first() =~= tail_enc);
            assert(seq![b] + (x.drop_first() + percent_decoded(rest)) =~= x + percent_decoded(
                rest,
            ));
        } else {
            let d1 = hex_digit_upper((b / 16) as u8);
            let d2 = hex_digit_upper((b % 16) as u8);
            let whole = percent_encoded(x) + rest;
            assert(whole =~= seq![PERCENT, d1, d2] + tail_enc);
            assert(whole.first() == PERCENT);
            assert(whole.len() >= 3);
            assert(whole[1] == d1 && whole[2] == d2);
            assert(hex_val(d1) == Some((b / 16) as u8));
            assert(hex_val(d2) == Some((b % 16) as u8));
            assert(whole.skip(3) =~= tail_enc);
            assert((b / 16) * 16 + (b % 16) == b) by {
                vstd::arithmetic::div_mod::lemma_fundamental_div_mod(b as int, 16);
            };
            assert(seq![b] + (x.drop_first() + percent_decoded(rest)) =~= x + percent_decoded(
                rest,
            ));
        }
    }
}

/// Decoding inverts encoding.
pub proof fn lemma_percent_round_trip(x: Seq<u8>)
    ensures
        percent_decoded(percent_encoded(x)) == x,
{
    lemma_decode_encode_prefix(x, Seq::empty());
    assert(percent_encoded(x) + Seq::<u8>::empty() =~= percent_encoded(x));
    assert(x + percent_decoded(Seq::<u8>::empty()) =~= x);
}

/// The path-encoding round trip: decoding a manifest path (after its
/// leading `/`) yields the original segments joined by `/`, whatever
/// bytes the segments held.
pub proof fn lemma_manifest_path_round_trip(segs: Seq<Seq<u8>>)
    requires
        segs.len() >= 1,
    ensures
        percent_decoded(manifest_path_of(segs).skip(1)) == joined_path_of(segs),
    decreases segs.len(),
{
    let first = segs.first();
    let path = manifest_path_of(segs);
    assert(path =~= seq![SLASH] + percent_encoded(first) + manifest_path_of(segs.drop_first()));
    if segs.len() == 1 {
        assert(manifest_path_of(segs.drop_first()) =~= Seq::<u8>::empty());
        assert(path.skip(1) =~= percent_encoded(first));
        lemma_percent_round_trip(first);
    } else {
        let rest = segs.drop_first();
        assert(path.skip(1) =~= percent_encoded(first) + manifest_path_of(rest));
        lemma_decode_encode_prefix(first, manifest_path_of(rest));
        // the rest starts with its own `/`, which decodes verbatim
        let rp = manifest_path_of(rest);
        assert(rp =~= seq![SLASH] + percent_encoded(rest.first()) + manifest_path_of(
            rest.drop_first(),
        ));
        assert(rp.first() == SLASH);
        assert(SLASH != PERCENT);
        assert(percent_decoded(rp) == seq![SLASH] + percent_decoded(rp.drop_first()));
        assert(rp.drop_first() =~= rp.skip(1));
        lemma_manifest_path_round_trip(rest);
        assert(first + (seq![SLASH] + joined_path_of(rest)) =~= first + seq![SLASH]
            + joined_path_of(rest));
    }
}

} // verus!
