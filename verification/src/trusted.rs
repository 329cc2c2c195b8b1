//! The library's trusted boundary: small wrappers around outside crates
//! whose contracts Verus believes without proof. Each wrapper names the
//! outside function it relies on and states only what that function's
//! source or documentation plainly gives.
use chrono::TimeZone;
use hmac::Mac;
use sha2::Digest;
use vstd::prelude::*;

verus! {

/// The lowercase hexadecimal SHA-256 digest of a byte sequence.
pub uninterp spec fn sha256_hex_of(bytes: Seq<u8>) -> Seq<char>;

/// Relies on sha2::Sha256: the digest is a function of the bytes alone,
/// 32 bytes rendered as 64 lowercase hex characters.
#[verifier::external_body]
pub fn sha256_hex(bytes: &[u8]) -> (r: String)
    ensures
        r@ == sha256_hex_of(bytes@),
        r@.len() == 64,
{
    let mut hasher = sha2::Sha256::new();
    hasher.update(bytes);
    format!("{:x}", hasher.finalize())
}

/// The lowercase hexadecimal SHA-512 digest of a byte sequence.
pub uninterp spec fn sha512_hex_of(bytes: Seq<u8>) -> Seq<char>;

/// Relies on sha2::Sha512: the digest is a function of the bytes alone,
/// 64 bytes rendered as 128 lowercase hex characters.
#[verifier::external_body]
pub fn sha512_hex(bytes: &[u8]) -> (r: String)
    ensures
        r@ == sha512_hex_of(bytes@),
        r@.len() == 128,
{
    let mut hasher = sha2::Sha512::new();
    hasher.update(bytes);
    format!("{:x}", hasher.finalize())
}

/// The HMAC-SHA256 tag over a message under a key.
pub uninterp spec fn hmac_sha256_of(key: Seq<u8>, msg: Seq<u8>) -> Seq<u8>;

/// Relies on hmac::Hmac with sha2::Sha256: the 32-byte tag is a function
/// of key and message alone; any key length is accepted.
#[verifier::external_body]
pub fn hmac_sha256(key: &[u8], msg: &[u8]) -> (r: Vec<u8>)
    ensures
        r@ == hmac_sha256_of(key@, msg@),
        r@.len() == 32,
{
    let mut mac = <hmac::Hmac<sha2::Sha256> as hmac::Mac>::new_from_slice(key)
        .expect("HMAC accepts any key length");
    mac.update(msg);
    mac.finalize().into_bytes().to_vec()
}

/// Relies on chrono::Utc::now: the current wall-clock time in milliseconds
/// since the epoch. Nothing is promised of the value.
#[verifier::external_body]
pub fn now_millis() -> i64 {
    chrono::Utc::now().timestamp_millis()
}

/// The RFC 3339 rendering chrono gives a UTC timestamp in milliseconds.
pub uninterp spec fn rfc3339_utc_of(ms: int) -> Seq<char>;

/// What chrono's RFC 3339 parser reads out of a string, as milliseconds
/// since the epoch; `None` when the string is not a valid timestamp.
pub uninterp spec fn rfc3339_parse_ms_of(s: Seq<char>) -> Option<int>;

/// Relies on chrono::DateTime::to_rfc3339 over chrono::Utc: rendering is a
/// function of the timestamp alone, and chrono's own RFC 3339 parser reads
/// the rendered text back to the same instant. The bound keeps the year
/// below 10000: past that, chrono renders a signed five-digit year that its
/// RFC 3339 parser does not read back.
#[verifier::external_body]
pub fn format_rfc3339_ms(ms: i64) -> (r: String)
    requires
        0 <= ms < 253_402_300_800_000,
    ensures
        r@ == rfc3339_utc_of(ms as int),
        rfc3339_parse_ms_of(r@) == Option::<int>::Some(ms as int),
{
    match chrono::Utc.timestamp_millis_opt(ms) {
        chrono::LocalResult::Single(dt) => dt.to_rfc3339(),
        _ => String::new(),
    }
}

/// Relies on chrono::DateTime::parse_from_rfc3339: parsing is a function of
/// the text alone; chrono timestamps always fit i64 milliseconds.
#[verifier::external_body]
pub fn parse_rfc3339_ms(s: &str) -> (r: Option<i64>)
    ensures
        match r {
            Option::Some(t) => rfc3339_parse_ms_of(s@) == Option::<int>::Some(t as int),
            Option::None => rfc3339_parse_ms_of(s@) is None,
        },
{
    match chrono::DateTime::parse_from_rfc3339(s) {
        Ok(dt) => Option::Some(dt.with_timezone(&chrono::Utc).timestamp_millis()),
        Err(_) => Option::None,
    }
}

/// Relies on chrono::Utc::now and to_rfc3339: the current time rendered as
/// RFC 3339 text. Nothing is promised of the value.
#[verifier::external_body]
pub fn now_iso() -> String {
    chrono::Utc::now().to_rfc3339()
}

/// Relies on uuid::Uuid::new_v4: a freshly drawn random identifier in the
/// 36-character hyphenated rendering. Nothing is promised of its value.
#[verifier::external_body]
pub fn fresh_uuid() -> (r: String)
    ensures
        r@.len() == 36,
{
    uuid::Uuid::new_v4().to_string()
}

/// Whether every pattern in the list is a well-formed glob.
pub uninterp spec fn glob_pats_ok(pats: Seq<Seq<char>>) -> bool;

/// Whether a glob set built from the patterns matches the path.
pub uninterp spec fn glob_match_of(pats: Seq<Seq<char>>, path: Seq<char>) -> bool;

/// Relies on globset::Glob::new, GlobSetBuilder::build and GlobSet::is_match:
/// building succeeds exactly when every pattern is a well-formed glob, and
/// matching is a function of patterns and path alone. Backslashes are
/// excluded because globset treats them differently across operating
/// systems; every caller normalizes paths and patterns to forward slashes
/// first, so matching is machine-independent on the admitted inputs.
#[verifier::external_body]
pub fn glob_set_is_match(patterns: &Vec<String>, path: &str) -> (r: Result<bool, String>)
    requires
        !path@.contains('\\'),
        forall|i: int|
            0 <= i < patterns@.len() ==> !(#[trigger] patterns@[i])@.contains('\\'),
    ensures
        r is Ok <==> glob_pats_ok(patterns.deep_view()),
        r matches Ok(b) ==> b == glob_match_of(patterns.deep_view(), path@),
{
    let mut builder = globset::GlobSetBuilder::new();
    for pattern in patterns {
        let glob = globset::Glob::new(pattern).map_err(|e| {
            format!("invalid allowlist glob '{pattern}': {e}")
        })?;
        builder.add(glob);
    }
    let set = builder.build().map_err(|e| format!("build allowlist globset failed: {e}"))?;
    Ok(set.is_match(path))
}

/// Relies on String::from_utf8: it succeeds exactly on valid UTF-8 and
/// returns the string whose encoding is the given bytes.
#[verifier::external_body]
pub fn utf8_to_string(bytes: Vec<u8>) -> (r: Result<String, ()>)
    ensures
        r is Ok <==> vstd::utf8::valid_utf8(bytes@),
        r matches Ok(s) ==> vstd::utf8::encode_utf8(s@) == bytes@,
{
    match String::from_utf8(bytes) {
        Ok(s) => Ok(s),
        Err(_) => Err(()),
    }
}

} // verus!
