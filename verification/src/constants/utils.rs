use vstd::prelude::*;
use sha2::Digest;
use crate::blockchain::block::{spec_block_hash, Block};

verus! {

/// What SHA-256 yields for a byte sequence.
pub uninterp spec fn spec_sha256(data: Seq<u8>) -> Seq<u8>;

/// What SHA-1 yields for a byte sequence.
pub uninterp spec fn spec_sha1(data: Seq<u8>) -> Seq<u8>;

/// What SHA3-256 yields for a byte sequence.
pub uninterp spec fn spec_sha3_256(data: Seq<u8>) -> Seq<u8>;

/// The UTF-8 bytes of a string.
pub open spec fn utf8(s: Seq<char>) -> Seq<u8> {
    vstd::utf8::encode_utf8(s)
}

/// The ASCII digit for a value below ten.
pub open spec fn digit_char(d: nat) -> char {
    (d + 48) as char
}

/// The decimal notation of a natural number, without leading zeros
/// (what `format!("{}", n)` writes for an unsigned integer).
pub open spec fn decimal_chars(n: nat) -> Seq<char>
    decreases n,
{
    if n < 10 {
        seq![digit_char(n)]
    } else {
        decimal_chars(n / 10).push(digit_char(n % 10))
    }
}

/// The lowercase hexadecimal digit for a value below sixteen.
pub open spec fn hex_char(n: nat) -> char {
    if n < 10 {
        (n + 48) as char
    } else {
        (n + 87) as char
    }
}

/// Lowercase hexadecimal encoding: two digits per byte, high nibble first.
pub open spec fn spec_hex(data: Seq<u8>) -> Seq<char> {
    Seq::new(
        2 * data.len(),
        |i: int|
            if i % 2 == 0 {
                hex_char((data[i / 2] / 16) as nat)
            } else {
                hex_char((data[i / 2] % 16) as nat)
            },
    )
}

/// Whether every character of `s` is a lowercase hexadecimal digit.
pub open spec fn is_lower_hex(s: Seq<char>) -> bool {
    forall|i: int| 0 <= i < s.len() ==> ('0' <= #[trigger] s[i] <= '9' || 'a' <= s[i] <= 'f')
}

/// The hex encoding of `data` has two lowercase hexadecimal digits per byte.
pub proof fn lemma_hex_shape(data: Seq<u8>)
    ensures
        spec_hex(data).len() == 2 * data.len(),
        is_lower_hex(spec_hex(data)),
{
    let h = spec_hex(data);
    assert forall|i: int| 0 <= i < h.len() implies ('0' <= #[trigger] h[i] <= '9' || 'a' <= h[i]
        <= 'f') by {
        let b = data[i / 2];
        let n: nat = if i % 2 == 0 { (b / 16) as nat } else { (b % 16) as nat };
        assert(n < 16);
        assert(h[i] == hex_char(n));
    }
}

/// `sha2::Sha256::digest`: the SHA-256 digest of `data`, which is 32 bytes long.
#[verifier::external_body]
fn sha256_digest(data: &[u8]) -> (res: Vec<u8>)
    ensures
        res@ == spec_sha256(data@),
        res@.len() == 32,
{
    sha2::Sha256::digest(data).to_vec()
}

/// `sha1::Sha1::digest`: the SHA-1 digest of `data`, which is 20 bytes long.
#[verifier::external_body]
fn sha1_digest(data: &[u8]) -> (res: Vec<u8>)
    ensures
        res@ == spec_sha1(data@),
        res@.len() == 20,
{
    sha1::Sha1::digest(data).to_vec()
}

/// `sha3::Sha3_256::digest`: the SHA3-256 digest of `data`, which is 32 bytes long.
#[verifier::external_body]
pub(crate) fn sha3_256_digest(data: &[u8]) -> (res: Vec<u8>)
    ensures
        res@ == spec_sha3_256(data@),
        res@.len() == 32,
{
    sha3::Sha3_256::digest(data).to_vec()
}

/// `hex::encode`: the lowercase hexadecimal encoding of `data`, two digits
/// per byte, high nibble first.
#[verifier::external_body]
pub(crate) fn hex_encode(data: &[u8]) -> (res: String)
    ensures
        res@ == spec_hex(data@),
{
    hex::encode(data)
}

/// The system clock's time type.
#[verifier::external_type_specification]
#[verifier::external_body]
pub struct ExSystemTime(std::time::SystemTime);

/// The error of a time taken before another.
#[verifier::external_type_specification]
#[verifier::external_body]
pub struct ExSystemTimeError(std::time::SystemTimeError);

/// `SystemTime::now()`: the current time of the system clock. Nothing is
/// promised of it.
#[verifier::external_body]
fn system_time_now() -> std::time::SystemTime {
    std::time::SystemTime::now()
}

/// `SystemTime::duration_since(UNIX_EPOCH)`: the time from the Unix epoch to
/// `t`, or an error where `t` is earlier. Nothing is promised of the value.
#[verifier::external_body]
fn since_unix_epoch(t: &std::time::SystemTime) -> Result<
    core::time::Duration,
    std::time::SystemTimeError,
> {
    t.duration_since(std::time::UNIX_EPOCH)
}

/// `Duration::as_secs`: the whole seconds of `d`. Nothing is promised of the
/// value: a duration is opaque here.
#[verifier::external_body]
fn whole_seconds(d: &core::time::Duration) -> u64 {
    d.as_secs()
}

/// `Duration::as_millis`: the whole milliseconds of `d`. Nothing is promised
/// of the value: a duration is opaque here.
#[verifier::external_body]
fn whole_milliseconds(d: &core::time::Duration) -> u128 {
    d.as_millis()
}

/// `Duration::as_nanos`: the whole nanoseconds of `d`. Nothing is promised of
/// the value: a duration is opaque here.
#[verifier::external_body]
fn whole_nanoseconds(d: &core::time::Duration) -> u128 {
    d.as_nanos()
}

/// The timestamp for a clock reading of `reading` nanoseconds since the Unix
/// epoch (`None` for a clock before the epoch): 0 before the epoch,
/// `u64::MAX` past what 64 bits hold, and the reading itself otherwise.
pub open spec fn spec_timestamp_from_nanos(reading: Option<u128>) -> u64 {
    match reading {
        None => 0,
        Some(n) => if n > u64::MAX {
            u64::MAX
        } else {
            n as u64
        },
    }
}

/// The timestamp for a clock reading in nanoseconds (see
/// `spec_timestamp_from_nanos`).
pub fn timestamp_from_nanos(reading: Option<u128>) -> (t: u64)
    ensures
        t == spec_timestamp_from_nanos(reading),
{
    match reading {
        None => 0,
        Some(n) => if n > 0xffff_ffff_ffff_ffffu128 {
            u64::MAX
        } else {
            n as u64
        },
    }
}

/// The seconds for a clock reading of `reading` whole seconds since the Unix
/// epoch (`None` for a clock before the epoch): 0 before the epoch, the
/// reading itself otherwise.
pub open spec fn spec_seconds_from_reading(reading: Option<u64>) -> u64 {
    match reading {
        None => 0,
        Some(s) => s,
    }
}

/// The seconds for a clock reading in seconds (see
/// `spec_seconds_from_reading`).
pub fn seconds_from_reading(reading: Option<u64>) -> (s: u64)
    ensures
        s == spec_seconds_from_reading(reading),
{
    match reading {
        None => 0,
        Some(s) => s,
    }
}

/// The milliseconds for a clock reading of `reading` whole milliseconds
/// since the Unix epoch (`None` for a clock before the epoch): 0 before the
/// epoch, the reading cut to its low 64 bits otherwise.
pub open spec fn spec_milliseconds_from_reading(reading: Option<u128>) -> u64 {
    match reading {
        None => 0,
        Some(m) => (m % 0x1_0000_0000_0000_0000) as u64,
    }
}

/// The milliseconds for a clock reading in milliseconds (see
/// `spec_milliseconds_from_reading`).
pub fn milliseconds_from_reading(reading: Option<u128>) -> (ms: u64)
    ensures
        ms == spec_milliseconds_from_reading(reading),
{
    match reading {
        None => 0,
        Some(m) => (m % 0x1_0000_0000_0000_0000u128) as u64,
    }
}

/// The current time in nanoseconds since the Unix epoch by the system clock,
/// turned into a timestamp by `timestamp_from_nanos`. Nothing is promised of
/// the reading: it depends on the clock.
pub fn get_timestamp_now() -> u64 {
    let now = system_time_now();
    let reading = match since_unix_epoch(&now) {
        Ok(d) => Some(whole_nanoseconds(&d)),
        Err(_) => None,
    };
    timestamp_from_nanos(reading)
}

/// Whole seconds since the Unix epoch by the system clock, turned into a
/// count by `seconds_from_reading`. Nothing is promised of the reading: it
/// depends on the clock.
pub(crate) fn seconds_since_epoch() -> u64 {
    let now = system_time_now();
    let reading = match since_unix_epoch(&now) {
        Ok(d) => Some(whole_seconds(&d)),
        Err(_) => None,
    };
    seconds_from_reading(reading)
}

/// Whole milliseconds since the Unix epoch by the system clock, turned into a
/// count by `milliseconds_from_reading`. Nothing is promised of the reading:
/// it depends on the clock.
pub(crate) fn milliseconds_since_epoch() -> u64 {
    let now = system_time_now();
    let reading = match since_unix_epoch(&now) {
        Ok(d) => Some(whole_milliseconds(&d)),
        Err(_) => None,
    };
    milliseconds_from_reading(reading)
}

/// SHA-256 of the UTF-8 bytes of `value`.
pub fn calculate_sha256(value: &String) -> (res: Vec<u8>)
    ensures
        res@ == spec_sha256(utf8(value@)),
        res@.len() == 32,
{
    sha256_digest(value.as_str().as_bytes())
}

/// SHA-1 of the UTF-8 bytes of `value`.
pub fn calculate_sha1(value: &String) -> (res: Vec<u8>)
    ensures
        res@ == spec_sha1(utf8(value@)),
        res@.len() == 20,
{
    sha1_digest(value.as_str().as_bytes())
}

/// The hash of a block: the lowercase hex SHA-256 of its index, version,
/// timestamp, previous hash, Merkle root and nonce written one after another.
pub fn calculate_block_hash(block: &Block) -> (res: String)
    ensures
        res@ == spec_block_hash(block.header@),
        res@.len() == 64,
        is_lower_hex(res@),
{
    let h = &block.header;
    let mut data = String::new();
    push_decimal(&mut data, h.index as u128);
    push_decimal(&mut data, h.version as u128);
    push_decimal(&mut data, h.timestamp as u128);
    data.append(h.previous_hash.as_str());
    data.append(h.merkle_root.as_str());
    push_decimal(&mut data, h.nonce);
    let hash = calculate_sha256(&data);
    proof {
        lemma_hex_shape(hash@);
    }
    hex_encode(hash.as_slice())
}

/// The one-character string of a decimal digit.
fn digit_str(d: u8) -> (s: &'static str)
    requires
        d < 10,
    ensures
        s@ == seq![digit_char(d as nat)],
{
    proof {
        reveal_strlit("0");
        reveal_strlit("1");
        reveal_strlit("2");
        reveal_strlit("3");
        reveal_strlit("4");
        reveal_strlit("5");
        reveal_strlit("6");
        reveal_strlit("7");
        reveal_strlit("8");
        reveal_strlit("9");
    }
    match d {
        0 => "0",
        1 => "1",
        2 => "2",
        3 => "3",
        4 => "4",
        5 => "5",
        6 => "6",
        7 => "7",
        8 => "8",
        _ => "9",
    }
}

/// Appends the decimal notation of `n` to `out`.
pub fn push_decimal(out: &mut String, n: u128)
    ensures
        final(out)@ == old(out)@ + decimal_chars(n as nat),
    decreases n,
{
    if n < 10 {
        out.append(digit_str(n as u8));
    } else {
        push_decimal(out, n / 10);
        out.append(digit_str((n % 10) as u8));
        assert(decimal_chars(n as nat) == decimal_chars((n / 10) as nat).push(
            digit_char((n % 10) as nat),
        ));
    }
}

} // verus!
