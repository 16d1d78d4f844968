//! The two content digests of a file: one over a bounded prefix, one over
//! all of its bytes.
use vstd::prelude::*;

verus! {

/// Number of leading bytes that the short digest covers.
pub const SHORT_SIZE: usize = 1_000_000;

/// The MD5 digest of a byte sequence, as 16 bytes.
pub uninterp spec fn md5_of(data: Seq<u8>) -> Seq<u8>;

/// Relies on `md5::compute`: the 16-byte MD5 digest of `data`, which depends
/// on the bytes alone.
#[verifier::external_body]
fn md5_compute(data: &[u8]) -> (r: [u8; 16])
    ensures
        r@ == md5_of(data@),
{
    md5::compute(data).0
}

/// The bytes that the short digest covers: the first `SHORT_SIZE` bytes, or
/// all of them when there are fewer.
pub open spec fn short_prefix(data: Seq<u8>) -> Seq<u8> {
    if data.len() <= SHORT_SIZE {
        data
    } else {
        data.subrange(0, SHORT_SIZE as int)
    }
}

/// Short digest of a file's content: the digest of its first `SHORT_SIZE`
/// bytes.
pub open spec fn short_digest(data: Seq<u8>) -> Seq<u8> {
    md5_of(short_prefix(data))
}

/// Full digest of a file's content.
pub open spec fn full_digest(data: Seq<u8>) -> Seq<u8> {
    md5_of(data)
}

#[must_use]
pub fn short_hash_of(file_contents: &[u8]) -> (r: [u8; 16])
    ensures
        r@ == short_digest(file_contents@),
{
    let n: usize = if file_contents.len() < SHORT_SIZE {
        file_contents.len()
    } else {
        SHORT_SIZE
    };
    let prefix = &file_contents[0..n];
    assert(prefix@ =~= short_prefix(file_contents@));
    md5_compute(prefix)
}

#[must_use]
pub fn full_hash_of(file_contents: &[u8]) -> (r: [u8; 16])
    ensures
        r@ == full_digest(file_contents@),
{
    md5_compute(file_contents)
}

/// Both digests of a file's content: `(short, full)`.
#[must_use]
pub fn hashes_of(full_data: &[u8]) -> (r: ([u8; 16], [u8; 16]))
    ensures
        r.0@ == short_digest(full_data@),
        r.1@ == full_digest(full_data@),
{
    (short_hash_of(full_data), full_hash_of(full_data))
}

/// Whether two digests hold the same bytes.
pub fn same_digest(a: &[u8; 16], b: &[u8; 16]) -> (r: bool)
    ensures
        r == (a@ == b@),
{
    let mut i: usize = 0;
    while i < 16
        invariant
            0 <= i <= 16,
            a@.len() == 16,
            b@.len() == 16,
            forall|k: int| 0 <= k < i ==> a@[k] == b@[k],
        decreases 16 - i,
    {
        if a[i] != b[i] {
            return false;
        }
        i = i + 1;
    }
    assert(a@ =~= b@);
    true
}

/// The digests are functions of the content alone, and a content of at most
/// `SHORT_SIZE` bytes has equal short and full digests.
pub proof fn lemma_digest_determinism(a: Seq<u8>, b: Seq<u8>)
    ensures
        a == b ==> short_digest(a) == short_digest(b) && full_digest(a) == full_digest(b),
        a.len() <= SHORT_SIZE ==> short_digest(a) == full_digest(a),
{
}

} // verus!
