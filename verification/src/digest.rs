//! The digests in a DEX header.
use sha1::{Digest, Sha1};
use vstd::prelude::*;

verus! {

/// The SHA-1 digest of some bytes, as the crate `sha1` computes it.
pub uninterp spec fn sha1_of(data: Seq<u8>) -> [u8; 20];

/// Calls `sha1::Sha1::digest`: its 20 bytes depend on the data alone. Which bytes they
/// are is left open.
#[verifier::external_body]
pub(crate) fn sha1_digest(data: &[u8]) -> (r: [u8; 20])
    ensures
        r@ == sha1_of(data@)@,
{
    Sha1::digest(data).into()
}

/// The two sums of Adler-32: the first adds up the bytes from one on, the second adds
/// up the first, both modulo 65521.
pub open spec fn adler_sums(data: Seq<u8>) -> (int, int)
    decreases data.len(),
{
    if data.len() == 0 {
        (1, 0)
    } else {
        let (a, b) = adler_sums(data.drop_last());
        let next = (a + data.last()) % 65521;
        (next, (b + next) % 65521)
    }
}

/// The Adler-32 checksum: the second sum in the high half, the first in the low one.
pub open spec fn adler32_of(data: Seq<u8>) -> u32 {
    let (a, b) = adler_sums(data);
    (b * 0x1_0000 + a) as u32
}

/// Calls `adler2::adler32_slice`, which computes the checksum that `adler32_of` states.
#[verifier::external_body]
pub(crate) fn adler32(data: &[u8]) -> (r: u32)
    ensures
        r == adler32_of(data@),
{
    adler2::adler32_slice(data)
}

} // verus!
