//! The crate's trusted boundary: each function here wraps one call into an
//! outside crate (or a part of std that vstd leaves unspecified) and states,
//! without proof, only what that call's own source or documentation shows.
use vstd::prelude::*;

verus! {

/// What the MD5 digest of a string is: fixed by the characters alone.
pub uninterp spec fn md5_chars(s: Seq<char>) -> Seq<u8>;

/// What the CRC-32 (IEEE) checksum of a byte string is: fixed by the bytes alone.
pub uninterp spec fn crc32_of(bytes: Seq<u8>) -> u32;

/// Relies on md5::compute: the 16-byte MD5 digest of the input, a pure
/// function of the input bytes (here: the UTF-8 bytes of `s`).
#[verifier::external_body]
pub(crate) fn md5_of_str(s: &str) -> (r: [u8; 16])
    ensures
        r@ == md5_chars(s@),
{
    md5::compute(s.as_bytes()).0
}

/// Relies on crc32fast::hash: the CRC-32 (IEEE) checksum of the input bytes,
/// a pure function of the input.
#[verifier::external_body]
pub(crate) fn crc32(data: &[u8]) -> (r: u32)
    ensures
        r == crc32_of(data@),
{
    crc32fast::hash(data)
}

/// Relies on rand::thread_rng and rand::RngCore::fill_bytes: three bytes from
/// the thread-local generator.  Nothing is promised of their values.
#[verifier::external_body]
pub(crate) fn random_bytes3() -> (r: [u8; 3]) {
    let mut buff = [0u8; 3];
    rand::RngCore::fill_bytes(&mut rand::thread_rng(), &mut buff);
    buff
}

/// Relies on gethostname::gethostname: the machine's hostname, `None` where
/// it is not valid UTF-8.  Nothing is promised of its value.
#[verifier::external_body]
pub(crate) fn hostname() -> (r: Option<String>) {
    gethostname::gethostname().into_string().ok()
}

/// Relies on std::time::SystemTime::now and SystemTime::duration_since:
/// whole seconds since the Unix epoch, `None` where the clock reads earlier
/// than the epoch.  Nothing is promised of the value.
#[verifier::external_body]
pub(crate) fn unix_now() -> (r: Option<u64>) {
    match std::time::SystemTime::now().duration_since(std::time::UNIX_EPOCH) {
        Ok(d) => Some(d.as_secs()),
        Err(_) => None,
    }
}

/// Relies on String::from_utf8: ASCII bytes decode to exactly those
/// characters (UTF-8 is the identity on values below 128).
#[verifier::external_body]
pub(crate) fn ascii_to_string(bytes: Vec<u8>) -> (r: String)
    requires
        forall|i: int| 0 <= i < bytes@.len() ==> bytes@[i] < 128,
    ensures
        r@.len() == bytes@.len(),
        forall|i: int| 0 <= i < bytes@.len() ==> r@[i] == bytes@[i] as char,
{
    match String::from_utf8(bytes) {
        Ok(s) => s,
        Err(_) => String::new(),
    }
}

} // verus!
