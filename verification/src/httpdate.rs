//! RFC-2822 dates on the wire: the conditional-GET header and the
//! `Last-Modified` header.
//!
//! Instants are Unix timestamps in nanoseconds. Parsing and formatting
//! are the time crate's; their results are named, not restated, and
//! everything decided on them is verified.

use vstd::prelude::*;
use vstd::utf8::{decode_utf8, valid_utf8};

use time::format_description::well_known::Rfc2822;
use time::OffsetDateTime;

verus! {

/// The instant an RFC-2822 date string denotes, in Unix nanoseconds;
/// nothing for a string that is no RFC-2822 date. A function of the
/// characters alone.
pub uninterp spec fn rfc2822_instant(s: Seq<char>) -> Option<i128>;

/// The RFC-2822 text of an instant, rendered at UTC; nothing for an
/// instant out of the representable range. A function of the timestamp
/// alone.
pub uninterp spec fn rfc2822_text(t: i128) -> Option<Seq<u8>>;

/// Relies on std's `str::from_utf8`: it succeeds exactly on valid
/// UTF-8 and yields the decoded characters.
#[verifier::external_body]
pub(crate) fn bytes_as_str(b: &[u8]) -> (r: Option<&str>)
    ensures
        r is Some <==> valid_utf8(b@),
        r matches Some(s) ==> s@ == decode_utf8(b@),
{
    std::str::from_utf8(b).ok()
}

/// Relies on time's `OffsetDateTime::parse` with the RFC-2822 format:
/// whether and to what instant a string parses depends on its
/// characters alone. The instant is taken as Unix nanoseconds.
#[verifier::external_body]
pub(crate) fn parse_rfc2822(s: &str) -> (r: Option<i128>)
    ensures
        r == rfc2822_instant(s@),
{
    OffsetDateTime::parse(s, &Rfc2822).ok().map(|t| t.unix_timestamp_nanos())
}

/// Relies on time's RFC-2822 formatting of the instant at UTC: the text
/// depends on the timestamp alone; an instant outside the representable
/// range yields nothing.
#[verifier::external_body]
pub(crate) fn format_rfc2822(t: i128) -> (r: Option<Vec<u8>>)
    ensures
        match r {
            Some(v) => rfc2822_text(t) == Some(v@),
            None => rfc2822_text(t) is None,
        },
{
    match OffsetDateTime::from_unix_timestamp_nanos(t) {
        Ok(dt) => dt.format(&Rfc2822).ok().map(|s| s.into_bytes()),
        Err(_) => None,
    }
}

/// The HTTP form of an RFC-2822 date: the trailing ` +0000` numeric
/// offset gives way to `GMT`, per the standard HTTP date convention.
pub open spec fn http_date_of(f: Seq<u8>) -> Seq<u8> {
    if f.len() >= 5 {
        f.take(f.len() - 5) + seq![0x47u8, 0x4du8, 0x54u8]
    } else {
        f + seq![0x47u8, 0x4du8, 0x54u8]
    }
}

/// Turn an RFC-2822 date at UTC into its HTTP form.
pub fn http_date(f: &[u8]) -> (r: Vec<u8>)
    ensures
        r@ == http_date_of(f@),
{
    let keep = if f.len() >= 5 {
        f.len() - 5
    } else {
        f.len()
    };
    let mut out = crate::bytes::bytes_slice(f, 0, keep);
    out.push(0x47);
    out.push(0x4d);
    out.push(0x54);
    proof {
        if f@.len() >= 5 {
            assert(f@.subrange(0, f@.len() - 5) =~= f@.take(f@.len() - 5));
        } else {
            assert(f@.subrange(0, f@.len() as int) =~= f@);
        }
        assert(out@ =~= http_date_of(f@));
    }
    out
}

} // verus!
