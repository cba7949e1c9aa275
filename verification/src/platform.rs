//! What the library takes from `std` on trust: text building, durations,
//! the clock, the hasher behind the jitter, and UTF-8 decoding.

use std::collections::hash_map::DefaultHasher;
use std::collections::hash_map::RandomState;
use std::hash::BuildHasher;
use std::hash::Hasher;
use std::time::Duration;
use vstd::prelude::*;

verus! {

/// `String::push` appends one character.
pub assume_specification[ std::string::String::push ](s: &mut std::string::String, c: char)
    ensures
        final(s)@ == old(s)@.push(c),
;

/// `String::push_str` appends all characters of a string slice.
pub assume_specification[ std::string::String::push_str ](s: &mut std::string::String, other: &str)
    ensures
        final(s)@ == old(s)@ + other@,
;

/// `char::from_u32` gives the character with that number, and `None` exactly
/// for the numbers that are not Unicode scalar values.
pub assume_specification[ char::from_u32 ](n: u32) -> (c: Option<char>)
    ensures
        c is Some <==> vstd::utf8::is_scalar(n),
        c matches Some(found) ==> found as u32 == n,
;

/// The length of a `Duration` in nanoseconds.
pub uninterp spec fn duration_nanos(d: Duration) -> u128;

/// The longest `Duration`: `u64::MAX` whole seconds and 999,999,999
/// nanoseconds.
pub const MAX_DURATION_NANOS: u128 = 18_446_744_073_709_551_615_999_999_999;

/// `Duration::as_nanos` is the duration's length in nanoseconds, which is at
/// most that of the longest duration.
pub assume_specification[ Duration::as_nanos ](d: &Duration) -> (n: u128)
    ensures
        n == duration_nanos(*d),
        n <= MAX_DURATION_NANOS,
;

/// `Duration::from_nanos` makes a duration of that many nanoseconds.
pub assume_specification[ Duration::from_nanos ](nanos: u64) -> (d: Duration)
    ensures
        duration_nanos(d) == nanos,
;

/// `Duration::from_millis` makes a duration of that many milliseconds.
pub assume_specification[ Duration::from_millis ](millis: u64) -> (d: Duration)
    ensures
        duration_nanos(d) == millis * 1_000_000,
;

/// `Duration::from_secs` makes a duration of that many seconds.
pub assume_specification[ Duration::from_secs ](secs: u64) -> (d: Duration)
    ensures
        duration_nanos(d) == secs * 1_000_000_000,
;

/// `Duration::new` makes a duration of whole seconds and nanoseconds.
pub assume_specification[ Duration::new ](secs: u64, nanos: u32) -> (d: Duration)
    requires
        nanos < 1_000_000_000,
    ensures
        duration_nanos(d) == secs * 1_000_000_000 + nanos,
;

/// `Duration::checked_mul` multiplies, and gives `None` exactly when the
/// product is longer than the longest duration.
pub assume_specification[ Duration::checked_mul ](d: Duration, factor: u32) -> (product: Option<
    Duration,
>)
    ensures
        product matches Some(p) ==> duration_nanos(p) == duration_nanos(d) * factor,
        product is None <==> duration_nanos(d) * factor > MAX_DURATION_NANOS,
;

/// `std::time::SystemTime`.
#[verifier::external_type_specification]
#[verifier::external_body]
pub struct ExSystemTime(std::time::SystemTime);

/// `SystemTime::now` reads the clock. Nothing is known of the reading.
#[verifier::external_body]
fn system_time() -> std::time::SystemTime {
    std::time::SystemTime::now()
}

/// How long after the Unix epoch a time is, or, as an error, how long before
/// it.
pub uninterp spec fn time_since_epoch(time: std::time::SystemTime) -> std::result::Result<
    Duration,
    Duration,
>;

/// `SystemTime::duration_since`, asked for the time since the Unix epoch; its
/// error, for a time before the epoch, is handed on as the duration that it
/// holds. The result depends on the time alone.
#[verifier::external_body]
fn since_epoch(time: std::time::SystemTime) -> (elapsed: std::result::Result<Duration, Duration>)
    ensures
        elapsed == time_since_epoch(time),
{
    time.duration_since(std::time::UNIX_EPOCH).map_err(|e| e.duration())
}

/// A time in nanoseconds since the Unix epoch: negative before it.
pub open spec fn epoch_nanos(time: std::time::SystemTime) -> int {
    match time_since_epoch(time) {
        Ok(elapsed) => duration_nanos(elapsed) as int,
        Err(missing) => -(duration_nanos(missing) as int),
    }
}

/// Whether `now` is what some reading of the clock comes to.
pub open spec fn clock_shows(now: i128) -> bool {
    exists|reading: std::time::SystemTime| now == #[trigger] epoch_nanos(reading)
}

/// A reading of the clock, in nanoseconds since the Unix epoch.
fn unix_nanos_of(reading: std::time::SystemTime) -> (nanos: i128)
    ensures
        nanos == epoch_nanos(reading),
{
    match since_epoch(reading) {
        Ok(elapsed) => elapsed.as_nanos() as i128,
        Err(missing) => 0 - missing.as_nanos() as i128,
    }
}

/// The clock, in nanoseconds since the Unix epoch. What the clock reads is
/// not known.
pub(crate) fn unix_nanos() -> (now: i128)
    ensures
        clock_shows(now),
{
    let reading = system_time();
    let now = unix_nanos_of(reading);
    assert(now == epoch_nanos(reading));
    now
}

/// `RandomState::new` takes seeds that differ from one process to the next.
/// Nothing is known of them.
#[verifier::external_body]
fn random_state() -> RandomState {
    RandomState::new()
}

/// `BuildHasher::build_hasher` makes a hasher with a state's seeds. Nothing
/// is known of the hasher's state.
#[verifier::external_body]
fn built_hasher(state: &RandomState) -> DefaultHasher {
    state.build_hasher()
}

/// A hasher with seeds of its own.
pub(crate) fn seeded_hasher() -> DefaultHasher {
    built_hasher(&random_state())
}

/// `Hasher::write_u128` mixes a number into a hasher's state. `Hasher`
/// guarantees nothing of how that is done, so nothing is known of the new
/// state.
#[verifier::external_body]
pub(crate) fn hash_u128(hasher: &mut DefaultHasher, n: u128) {
    hasher.write_u128(n)
}

/// What `FromUtf8Error` displays for bytes that are not UTF-8.
pub uninterp spec fn utf8_error_text(bytes: Seq<u8>) -> Seq<char>;

/// `String::from_utf8` succeeds exactly on valid UTF-8, and then gives the
/// characters that the bytes encode. An error is handed on as the text that
/// it displays.
#[verifier::external_body]
pub(crate) fn text_from_utf8(bytes: Vec<u8>) -> (text: Result<String, String>)
    ensures
        text is Ok <==> vstd::utf8::valid_utf8(bytes@),
        text matches Ok(s) ==> s@ == vstd::utf8::decode_utf8(bytes@),
        text matches Err(e) ==> e@ == utf8_error_text(bytes@),
{
    String::from_utf8(bytes).map_err(|e| e.to_string())
}

/// `std::io::Error`.
#[verifier::external_type_specification]
#[verifier::external_body]
pub struct ExIoError(std::io::Error);

/// `ToString::to_string` on an I/O error. Its text depends on the machine:
/// nothing is known of it.
#[verifier::external_body]
pub(crate) fn io_error_text(e: &std::io::Error) -> String {
    e.to_string()
}

/// What `Option<char>` prints under `{:?}`.
pub uninterp spec fn debug_char_text(c: Option<char>) -> Seq<char>;

/// `format!` with `{:?}` on an optional character.
#[verifier::external_body]
pub(crate) fn debug_char(c: Option<char>) -> (text: String)
    ensures
        text@ == debug_char_text(c),
{
    format!("{c:?}")
}

/// A time after the epoch by so much is at so much; a time before it by so much
/// reaches the epoch when so much has passed.
pub proof fn law_clock_counts_from_the_epoch(time: std::time::SystemTime)
    ensures
        time_since_epoch(time) matches Ok(elapsed) ==> epoch_nanos(time) - duration_nanos(elapsed)
            == 0,
        time_since_epoch(time) matches Err(missing) ==> epoch_nanos(time) + duration_nanos(missing)
            == 0,
{
}

} // verus!
