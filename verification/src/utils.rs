//! The two things the library asks of the outside world in the middle of its
//! work: a digest and the time.

use vstd::prelude::*;

verus! {

/// The MD5 digest of a text's UTF-8 bytes, as 32 lower-case hexadecimal digits.
pub uninterp spec fn md5_hex(content: Seq<char>) -> Seq<char>;

/// `md5::compute` digests the bytes of `content`, and the digest's `LowerHex`
/// form writes each of its sixteen bytes as two hexadecimal digits. The result
/// depends on the text alone, so it is named: `md5_hex`.
#[verifier::external_body]
pub(crate) fn get_md5(content: &str) -> (r: String)
    ensures
        r@ == md5_hex(content@),
{
    format!("{:x}", md5::compute(content))
}

/// `chrono::Local::now` read as milliseconds since the Unix epoch by
/// `timestamp_millis`. Nothing is promised of a clock reading. On a machine
/// whose clock stands before the epoch `chrono` gives no reading at all.
#[verifier::external_body]
pub(crate) fn clock_millis() -> (t: i64) {
    chrono::Local::now().timestamp_millis()
}

/// The current time in milliseconds since the Unix epoch, as the clock
/// reading stands for it.
pub fn now_millis() -> (t: u64)
    ensures
        exists|reading: i64| t == millis_since_epoch(reading),
{
    let reading = clock_millis();
    let t = clamp_reading(reading);
    assert(t == millis_since_epoch(reading));
    t
}

/// The time that a clock reading stands for, in milliseconds since the Unix
/// epoch: the reading itself, or zero for a reading before the epoch.
pub open spec fn millis_since_epoch(reading: i64) -> u64 {
    if reading < 0 {
        0
    } else {
        reading as u64
    }
}

/// The time that a clock reading stands for.
pub fn clamp_reading(reading: i64) -> (t: u64)
    ensures
        t == millis_since_epoch(reading),
{
    if reading < 0 {
        0
    } else {
        reading as u64
    }
}

} // verus!
