//! The id-addressed compressed artifact store: where an artifact lives and
//! what bytes it holds.

pub mod error;

use vstd::prelude::*;

use std::io::Write;
use vstd::string::StringExecFns;

use error::Error;

verus! {

/// What the outside compressor produces for a byte string at best
/// compression; it depends on the bytes alone.
pub uninterp spec fn gzip_of(data: Seq<u8>) -> Seq<u8>;

/// What the outside decompressor recovers from a compressed byte string.
pub uninterp spec fn gunzip_of(data: Seq<u8>) -> Seq<u8>;

/// Relies on flate2's write::GzEncoder at Compression::best, driven with
/// write_all and finish.  The encoder writes a fixed header (zero mtime,
/// unknown-system byte), so the stream depends on the bytes alone, and
/// gzip is lossless, so decompressing the stream recovers the input.
/// Compressing in-memory bytes cannot fail: the underlying `Vec` writer is
/// infallible and the deflate backend reports no error on valid input, so
/// the `io::Result`s are unwrapped.
#[verifier::external_body]
fn gzip_compress(data: &Vec<u8>) -> (r: Vec<u8>)
    ensures
        r@ == gzip_of(data@),
        gunzip_of(r@) == data@,
{
    let mut enc = flate2::write::GzEncoder::new(std::vec::Vec::new(), flate2::Compression::best());
    enc.write_all(data.as_slice()).unwrap();
    enc.finish().unwrap()
}

/// The decimal digit for a value below ten.
pub open spec fn dec_digit(d: int) -> char {
    ((d + 48) as u8) as char
}

/// The decimal digits of a non-negative value, most significant first.
pub open spec fn dec_of(n: int) -> Seq<char>
    decreases n,
{
    if n < 10 {
        seq![dec_digit(if n >= 0 { n } else { 0 })]
    } else {
        dec_of(n / 10).push(dec_digit(n % 10))
    }
}

/// Relies on the standard decimal formatting of i64: a non-negative value
/// prints as its base-10 digits, most significant first, with no sign and
/// no padding.
#[verifier::external_body]
fn i64_to_dec(n: i64) -> (r: String)
    requires
        n >= 0,
    ensures
        r@ == dec_of(n as int),
{
    format!("{}", n)
}

/// The path an artifact id is stored under: a shard directory named by
/// `id div 100000`, holding the file `{id}.gz`, below the store's root.
pub open spec fn target_path(root: Seq<char>, id: int) -> Seq<char> {
    root + seq!['/'] + dec_of(id / 100000) + seq!['/'] + dec_of(id) + seq!['.', 'g', 'z']
}

/// The artifact store under a root directory.  It derives where each
/// artifact lives and what bytes are written there; the surrounding
/// program performs the reads and writes.
pub struct FileBackupService {
    backup_file_path: String,
}

impl FileBackupService {
    /// The root directory the artifacts live under.
    pub closed spec fn root(self) -> Seq<char> {
        self.backup_file_path@
    }

    pub fn new(backup_file_path: String) -> (r: Self)
        ensures
            r.root() == backup_file_path@,
    {
        Self { backup_file_path }
    }

    /// The path under which the artifact for `id` is stored.
    pub fn backup_target_path(&self, id: i64) -> (r: String)
        requires
            id >= 0,
        ensures
            r@ == target_path(self.root(), id as int),
    {
        let mut out = self.backup_file_path.clone();
        out.append("/");
        let shard = i64_to_dec(id / 100000);
        out.append(shard.as_str());
        out.append("/");
        let name = i64_to_dec(id);
        out.append(name.as_str());
        out.append(".gz");
        proof {
            reveal_strlit("/");
            reveal_strlit(".gz");
            assert(out@ =~= target_path(self.root(), id as int));
        }
        out
    }

    /// Everything a backup of `content` under `id` consists of: the path
    /// the artifact belongs at, and the compressed bytes to put there.
    /// Decompressing those bytes recovers `content` exactly.  Compressing
    /// in-memory bytes cannot fail, so success is always returned.
    pub fn backup_data(&self, id: i64, content: &Vec<u8>) -> (r: Result<(String, Vec<u8>), Error>)
        requires
            id >= 0,
        ensures
            r is Ok,
            r matches Ok(p) ==> {
                &&& p.0@ == target_path(self.root(), id as int)
                &&& p.1@ == gzip_of(content@)
                &&& gunzip_of(p.1@) == content@
            },
    {
        let path = self.backup_target_path(id);
        let gz = gzip_compress(content);
        Ok((path, gz))
    }

    /// The path to remove when the artifact for `id` is dropped; it is the
    /// same path a backup of `id` was stored under.
    pub fn delete_backup_path(&self, id: i64) -> (r: String)
        requires
            id >= 0,
        ensures
            r@ == target_path(self.root(), id as int),
    {
        self.backup_target_path(id)
    }
}

} // verus!
