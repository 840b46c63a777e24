//! Content hashing: the SHA-1 digest of a byte buffer and its hex form.
//!
//! The digest itself comes from the `sha1` crate and is only named, never
//! restated: `sha1_of` stands for the 20-byte digest of a byte sequence.

use crate::hex::{ascii_seq, bytes_to_hex, bytes_to_hex_bytes, utf8_bytes};
use sha1::Digest;
use vstd::prelude::*;

verus! {

/// The 20-byte SHA-1 digest of a byte sequence.
pub uninterp spec fn sha1_of(data: Seq<u8>) -> Seq<u8>;

/// Relies on sha1::Sha1 (through the Digest trait): the digest is 20 bytes
/// and depends on the input bytes alone.
#[verifier::external_body]
fn sha1_digest(data: &[u8]) -> (r: Vec<u8>)
    ensures
        r@ == sha1_of(data@),
        r@.len() == 20,
{
    let mut hasher = sha1::Sha1::new();
    hasher.update(data);
    hasher.finalize().to_vec()
}

/// The lowercase hex text of the SHA-1 digest of a byte sequence.
pub open spec fn sha1_hex_bytes(data: Seq<u8>) -> Seq<u8> {
    bytes_to_hex_bytes(sha1_of(data))
}

/// Hashes a byte buffer and returns the digest as lowercase hex text:
/// the content address of a blob with these bytes.
pub fn sha1_hex(data: &[u8]) -> (r: String)
    ensures
        utf8_bytes(r@) == sha1_hex_bytes(data@),
        r@ == ascii_seq(sha1_hex_bytes(data@)),
        r@.len() == 40,
        sha1_hex_bytes(data@).len() == 40,
{
    let digest = sha1_digest(data);
    bytes_to_hex(digest.as_slice())
}

} // verus!
