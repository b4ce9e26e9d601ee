//! The parts of the standard library that the DNS logic calls and that
//! Verus knows nothing of: UTF-8 decoding of raw bytes, the monotonic
//! clock, and a number written in decimal. Each item here states, unproved,
//! what the standard library documents of the function it calls; of the
//! clock's reading nothing is stated, as it depends on the time of the call.

use std::string::FromUtf8Error;
use std::time::{Duration, Instant};
use vstd::prelude::*;
use vstd::utf8::{decode_utf8, valid_utf8};

verus! {

/// The error of `String::from_utf8`; opaque here.
#[verifier::external_type_specification]
#[verifier::external_body]
pub struct ExFromUtf8Error(FromUtf8Error);

/// A reading of the monotonic clock; opaque here.
#[verifier::external_type_specification]
#[verifier::external_body]
pub struct ExInstant(Instant);

/// `Instant` is `Copy`: its clone is the same reading.
pub assume_specification[ <Instant as Clone>::clone ](t: &Instant) -> (res: Instant)
    ensures
        res == *t,
;

/// The text that `String::from_utf8_lossy` makes of a byte sequence, with
/// U+FFFD in place of each invalid sequence.
pub uninterp spec fn utf8_lossy(bytes: Seq<u8>) -> Seq<char>;

/// Calls `String::from_utf8`. Trusted: it succeeds exactly on valid UTF-8,
/// and the string then holds the characters that the bytes encode.
#[verifier::external_body]
pub(crate) fn string_from_utf8(bytes: Vec<u8>) -> (res: Result<String, FromUtf8Error>)
    ensures
        res is Ok <==> valid_utf8(bytes@),
        res matches Ok(s) ==> s@ == decode_utf8(bytes@),
{
    String::from_utf8(bytes)
}

/// Calls `String::from_utf8_lossy`. Trusted: the result is the lossy
/// decoding of the bytes, which on valid UTF-8 is the plain decoding.
#[verifier::external_body]
pub(crate) fn string_from_utf8_lossy(bytes: &[u8]) -> (res: String)
    ensures
        res@ == utf8_lossy(bytes@),
        valid_utf8(bytes@) ==> res@ == decode_utf8(bytes@),
{
    String::from_utf8_lossy(bytes).into_owned()
}

/// Calls `Instant::now`. Nothing is stated of the reading: it depends on
/// the time of the call.
#[verifier::external_body]
pub(crate) fn instant_now() -> (res: Instant) {
    Instant::now()
}

/// Whether the instant `a` is later than the instant `b`, in the order of
/// `Instant`.
pub uninterp spec fn instant_later(a: Instant, b: Instant) -> bool;

/// The instant `secs` seconds after `t`, or nothing when `Instant` cannot
/// represent it.
pub uninterp spec fn instant_plus_secs(t: Instant, secs: u64) -> Option<Instant>;

/// The whole seconds from `earlier` to `later`, zero when `earlier` is the
/// later of the two.
pub uninterp spec fn secs_between(later: Instant, earlier: Instant) -> u64;

/// Calls `Instant::checked_add` with `Duration::from_secs`. Trusted: the
/// result depends on the instant and the seconds alone.
#[verifier::external_body]
pub(crate) fn instant_after_secs(t: &Instant, secs: u64) -> (res: Option<Instant>)
    ensures
        res == instant_plus_secs(*t, secs),
{
    t.checked_add(Duration::from_secs(secs))
}

/// Calls `Instant::saturating_duration_since` and `Duration::as_secs`.
/// Trusted: the result depends on the two instants alone.
#[verifier::external_body]
pub(crate) fn whole_secs_between(later: &Instant, earlier: &Instant) -> (res: u64)
    ensures
        res == secs_between(*later, *earlier),
{
    later.saturating_duration_since(*earlier).as_secs()
}

/// Calls `Instant > Instant`. Trusted: the result depends on the two
/// instants alone.
#[verifier::external_body]
pub(crate) fn instant_is_after(a: &Instant, b: &Instant) -> (res: bool)
    ensures
        res == instant_later(*a, *b),
{
    *a > *b
}

/// The decimal digit `d`, below ten.
pub open spec fn digit_char(d: nat) -> char {
    (48 + d) as char
}

/// The decimal digits of `v`, most significant first, without leading
/// zeros.
pub open spec fn decimal(v: nat) -> Seq<char>
    decreases v,
{
    if v < 10 {
        seq![digit_char(v)]
    } else {
        decimal(v / 10) + seq![digit_char(v % 10)]
    }
}

/// The description of an unexpected byte value: a fixed sentence, then the
/// value in decimal.
pub open spec fn unexpected_value_text(v: u8) -> Seq<char> {
    "This value should not happen: "@ + decimal(v as nat)
}

/// Calls `format!` to describe an unexpected byte value. Trusted: `u8` is
/// written in decimal after the sentence, as its `Display` does.
#[verifier::external_body]
pub(crate) fn unexpected_value_message(v: u8) -> (res: String)
    ensures
        res@ == unexpected_value_text(v),
{
    format!("This value should not happen: {v}")
}

} // verus!
