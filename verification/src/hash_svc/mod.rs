//! The content-identity computation: a 128-bit digest of a file's bytes,
//! recorded in a compact text form.

use vstd::prelude::*;

use base64::Engine;

verus! {

/// The 16-byte message digest the outside hasher computes for a byte
/// string; it depends on the bytes alone.
pub uninterp spec fn md5_of(data: Seq<u8>) -> Seq<u8>;

/// The text the outside encoder gives a byte string; it depends on the
/// bytes alone.
pub uninterp spec fn b64_of(data: Seq<u8>) -> Seq<char>;

/// Relies on md5::compute: a 16-byte digest of the input bytes.
#[verifier::external_body]
fn md5_digest(data: &Vec<u8>) -> (r: Vec<u8>)
    ensures
        r@ == md5_of(data@),
        r@.len() == 16,
{
    md5::compute(data.as_slice()).0.to_vec()
}

/// Relies on base64's standard-alphabet engine: the padded base64 text of
/// the input bytes.
#[verifier::external_body]
fn b64_encode(data: &Vec<u8>) -> (r: String)
    ensures
        r@ == b64_of(data@),
{
    base64::engine::general_purpose::STANDARD.encode(data.as_slice())
}

/// The digest text recorded for a file's content: its 128-bit digest,
/// encoded as base64 text.
pub open spec fn content_digest(data: Seq<u8>) -> Seq<char> {
    b64_of(md5_of(data))
}

/// Computes the digest text under which a file's bytes are recognised
/// between runs.
pub fn hash_content(data: &Vec<u8>) -> (r: String)
    ensures
        r@ == content_digest(data@),
{
    let digest = md5_digest(data);
    b64_encode(&digest)
}

} // verus!
