use vstd::prelude::*;

use sha2::Digest;

verus! {

/// The SHA-256 digest of `data`, written as 64 lower-case hexadecimal digits.
pub uninterp spec fn sha256_hex(data: Seq<u8>) -> Seq<char>;

/// One fingerprinted file: where it lives, how many bytes it holds, and the
/// hexadecimal SHA-256 digest of its content.
#[derive(Debug)]
pub struct FileInfo {
    pub path: String,
    pub size: u64,
    pub hash: String,
}

impl FileInfo {
    /// A copy of this record, field for field.
    pub fn duplicate(&self) -> (r: FileInfo)
        ensures
            r == *self,
    {
        FileInfo { path: self.path.clone(), size: self.size, hash: self.hash.clone() }
    }
}

/// Relies on sha2's `Sha256::digest` for the digest of the whole content, and on
/// generic-array's `LowerHex` to write it as two lower-case digits per byte.
#[verifier::external_body]
fn calculate_hash(contents: &[u8]) -> (r: String)
    ensures
        r@ == sha256_hex(contents@),
        r@.len() == 64,
{
    format!("{:x}", sha2::Sha256::digest(contents))
}

/// The record of a file of `size` bytes at `path` whose content is `contents`,
/// or `None` for an empty file, which can carry no wasted space.
pub fn process_file(path: String, size: u64, contents: &[u8]) -> (r: Option<FileInfo>)
    ensures
        size == 0 ==> r is None,
        size != 0 ==> r == Some(FileInfo { path, size, hash: r->Some_0.hash }),
        size != 0 ==> r->Some_0.hash@ == sha256_hex(contents@),
{
    if size == 0 {
        return None;
    }
    let hash = calculate_hash(contents);
    Some(FileInfo { path, size, hash })
}

} // verus!
