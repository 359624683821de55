//! Identity and clock sources. Both answers come from outside the program's
//! inputs (the operating system's random source, the system clock), and both
//! can be unavailable: each source says so with `None` instead of failing.

use vstd::prelude::*;
use crate::model::Timestamp;

verus! {

/// Declares `std::time::SystemTime` (opaque).
#[verifier::external_type_specification]
#[verifier::external_body]
pub struct ExSystemTime(std::time::SystemTime);

/// Calls `getrandom::fill` on a 16-byte buffer: the bytes, or `None` when
/// the operating system's random source fails. The bytes are random: no
/// property of them is claimed.
#[verifier::external_body]
fn random_bytes() -> Option<[u8; 16]> {
    let mut bytes = [0u8; 16];
    match getrandom::fill(&mut bytes) {
        Ok(()) => Some(bytes),
        Err(_) => None,
    }
}

/// Bytes read as one big-endian number.
pub open spec fn big_endian(b: Seq<u8>) -> nat
    decreases b.len(),
{
    if b.len() == 0 {
        0
    } else {
        big_endian(b.drop_last()) * 256 + b.last() as nat
    }
}

/// The bytes of a version-4 UUID made from random bytes: the version nibble
/// (high half of byte 6) set to 4, and the variant bits (top two of byte 8)
/// set to `10`.
pub open spec fn uuid_v4_bytes(b: Seq<u8>) -> Seq<u8> {
    b.update(6, ((b[6] & 0x0f) | 0x40) as u8).update(8, ((b[8] & 0x3f) | 0x80) as u8)
}

/// The identifier a version-4 UUID made from `bytes` holds, as a number.
pub open spec fn uuid_v4_value(bytes: Seq<u8>) -> nat {
    big_endian(uuid_v4_bytes(bytes))
}

/// Calls `uuid::Builder::from_random_bytes` (which sets the version and
/// variant bits of the given bytes) and hands back the UUID's 128 bits
/// (`Uuid::as_u128`, the bytes read big-endian).
#[verifier::external_body]
fn uuid_from_random(bytes: [u8; 16]) -> (r: u128)
    ensures
        r == uuid_v4_value(bytes@),
{
    uuid::Builder::from_random_bytes(bytes).into_uuid().as_u128()
}

/// A fresh random version-4 identifier, or `None` when no random bytes could
/// be had.
pub(crate) fn new_id() -> (r: Option<u128>)
    ensures
        r matches Some(id) ==> exists|b: Seq<u8>| b.len() == 16 && id == #[trigger] uuid_v4_value(b),
{
    match random_bytes() {
        Some(bytes) => Some(uuid_from_random(bytes)),
        None => None,
    }
}

/// Calls `std::time::SystemTime::now`. The value depends on the system
/// clock: no property of it is claimed.
#[verifier::external_body]
fn system_now() -> std::time::SystemTime {
    std::time::SystemTime::now()
}

/// Calls `SystemTime::duration_since(UNIX_EPOCH)` and hands back how far
/// the time lies from the epoch: whether it lies before it (the error case,
/// whose `SystemTimeError::duration` is the distance back), the whole seconds,
/// and the nanoseconds within that second (`Duration::subsec_nanos`,
/// documented as always below one billion).
#[verifier::external_body]
fn since_unix_epoch(t: &std::time::SystemTime) -> (r: (bool, u64, u32))
    ensures
        r.2 < 1_000_000_000,
{
    match t.duration_since(std::time::UNIX_EPOCH) {
        Ok(d) => (false, d.as_secs(), d.subsec_nanos()),
        Err(e) => (true, e.duration().as_secs(), e.duration().subsec_nanos()),
    }
}

/// The point in time `secs` seconds and `nanos` nanoseconds after the epoch
/// (`before` false) or before it (`before` true), as whole seconds (rounded
/// down) and the nanoseconds after them.
pub open spec fn timestamp_of(before: bool, secs: nat, nanos: nat) -> (int, int) {
    if !before {
        (secs as int, nanos as int)
    } else if nanos == 0 {
        (-(secs as int), 0)
    } else {
        (-(secs as int) - 1, 1_000_000_000 - nanos)
    }
}

/// Computes `timestamp_of`; `None` when the seconds do not fit an `i64`.
fn to_timestamp(before: bool, secs: u64, nanos: u32) -> (r: Option<Timestamp>)
    requires
        nanos < 1_000_000_000,
    ensures
        r matches Some(t) ==> (t.secs as int, t.nanos as int) == timestamp_of(before, secs as nat, nanos as nat),
        r is None <==> (secs as int) > (if before && nanos > 0 { i64::MAX - 1 } else { i64::MAX as int }),
{
    if !before {
        if secs <= 9223372036854775807u64 {
            Some(Timestamp { secs: secs as i64, nanos })
        } else {
            None
        }
    } else if nanos == 0 {
        if secs <= 9223372036854775807u64 {
            Some(Timestamp { secs: -(secs as i64), nanos: 0 })
        } else {
            None
        }
    } else if secs <= 9223372036854775806u64 {
        Some(Timestamp { secs: -(secs as i64) - 1, nanos: 1_000_000_000 - nanos })
    } else {
        None
    }
}

/// The current time, before or after the epoch; `None` only when the system
/// clock reads a time more than `i64::MAX` seconds away from the epoch.
pub(crate) fn now() -> (r: Option<Timestamp>)
    ensures
        r matches Some(t) ==> t.nanos < 1_000_000_000,
{
    let t = system_now();
    let (before, secs, nanos) = since_unix_epoch(&t);
    to_timestamp(before, secs, nanos)
}

} // verus!
