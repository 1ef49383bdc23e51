//! Hashing, keyed hashing, hex rendering, content types and timestamps, each
//! computed by an outside crate behind a stated contract.
use vstd::prelude::*;
use hmac::digest::KeyInit;
use hmac::{Hmac, Mac};
use sha2::{Digest, Sha256};

verus! {

/// The SHA-256 digest of `data`.
pub uninterp spec fn sha256_of(data: Seq<u8>) -> Seq<u8>;

/// The HMAC-SHA256 tag of `msg` under `key`.
pub uninterp spec fn hmac_sha256_of(key: Seq<u8>, msg: Seq<u8>) -> Seq<u8>;

/// The content type guessed from the extension of an object key.
pub uninterp spec fn content_type_of(key: Seq<u8>) -> Seq<u8>;

/// `secs` seconds and `nanos` nanoseconds after the Unix epoch, rendered as an
/// ISO-8601 UTC instant with milliseconds (`2024-01-02T03:04:05.678Z`), or
/// `None` where the instant is out of the representable range.
pub uninterp spec fn timestamp_text_of(secs: int, nanos: int) -> Option<Seq<u8>>;

/// The lowercase hexadecimal digit for a value below sixteen.
pub open spec fn hex_digit(n: u8) -> u8 {
    if n < 10 {
        (0x30 + n) as u8
    } else {
        (0x61 + n - 10) as u8
    }
}

/// `b` in lowercase hexadecimal, two digits per byte, high half first.
pub open spec fn hex_of(b: Seq<u8>) -> Seq<u8>
    decreases b.len(),
{
    if b.len() == 0 {
        Seq::empty()
    } else {
        hex_of(b.drop_last()) + seq![hex_digit(b.last() / 16), hex_digit(b.last() % 16)]
    }
}

/// Hex text has two digits per byte.
pub proof fn lemma_hex_len(b: Seq<u8>)
    ensures
        hex_of(b).len() == 2 * b.len(),
    decreases b.len(),
{
    if b.len() > 0 {
        lemma_hex_len(b.drop_last());
    }
}

/// Relies on `sha2::Sha256::digest`: the 32-byte SHA-256 digest of `data`.
#[verifier::external_body]
pub(crate) fn sha256(data: &[u8]) -> (r: Vec<u8>)
    ensures
        r@ == sha256_of(data@),
        r@.len() == 32,
{
    Sha256::digest(data).to_vec()
}

/// Relies on `hmac::Hmac<Sha256>`: `new_from_slice` (which accepts a key of any
/// length), `update` with `msg`, and `finalize`, giving the 32-byte tag.
#[verifier::external_body]
pub(crate) fn hmac_sha256(key: &[u8], msg: &[u8]) -> (r: Vec<u8>)
    ensures
        r@ == hmac_sha256_of(key@, msg@),
        r@.len() == 32,
{
    let mut mac = <Hmac<Sha256> as KeyInit>::new_from_slice(key).unwrap();
    mac.update(msg);
    mac.finalize().into_bytes().to_vec()
}

/// Relies on `hex::encode`: two lowercase digits per byte, high half first.
#[verifier::external_body]
pub(crate) fn hex_encode(b: &[u8]) -> (r: Vec<u8>)
    ensures
        r@ == hex_of(b@),
{
    hex::encode(b).into_bytes()
}

/// Relies on `mime_guess::from_path(..).first_or_octet_stream()`: the first
/// content type registered for the key's extension, else
/// `application/octet-stream`.
#[verifier::external_body]
pub(crate) fn guess_content_type(key: &[u8]) -> (r: Vec<u8>)
    ensures
        r@ == content_type_of(key@),
{
    let path = String::from_utf8_lossy(key).into_owned();
    mime_guess::from_path(&path).first_or_octet_stream().as_ref().as_bytes().to_vec()
}

/// Relies on `chrono::DateTime::<Utc>::from_timestamp`, which is `None` out of
/// range, and on `format("%Y-%m-%dT%H:%M:%S%.3fZ")`.
#[verifier::external_body]
pub(crate) fn format_timestamp(secs: i64, nanos: u32) -> (r: Option<Vec<u8>>)
    ensures
        r == None::<Vec<u8>> <==> timestamp_text_of(secs as int, nanos as int) is None,
        r matches Some(t) ==> timestamp_text_of(secs as int, nanos as int) == Some(t@),
{
    match chrono::DateTime::<chrono::Utc>::from_timestamp(secs, nanos) {
        Some(t) => Some(t.format("%Y-%m-%dT%H:%M:%S%.3fZ").to_string().into_bytes()),
        None => None,
    }
}

} // verus!
