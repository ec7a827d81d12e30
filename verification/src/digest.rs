//! BLAKE3 block hashes and MD5 entity tags.

use md5::Digest;
use vstd::prelude::*;

verus! {

/// The 32-byte BLAKE3 digest of `data`.
pub uninterp spec fn blake3_digest(data: Seq<u8>) -> Seq<u8>;

/// `blake3::hash`: the 32-byte BLAKE3 digest of its input.
#[verifier::external_body]
pub(crate) fn blake3_of(data: &[u8]) -> (r: [u8; 32])
    ensures
        r@ == blake3_digest(data@),
{
    *blake3::hash(data).as_bytes()
}

/// The BLAKE3 digest of `data`, as the hash of a block.
pub fn block_hash(data: &[u8]) -> (r: Vec<u8>)
    ensures
        r@ == blake3_digest(data@),
        r@.len() == 32,
{
    let digest = blake3_of(data);
    let mut out: Vec<u8> = Vec::new();
    let mut i: usize = 0;
    while i < 32
        invariant
            i <= 32,
            out@ == digest@.take(i as int),
        decreases 32 - i,
    {
        out.push(digest[i]);
        assert(digest@.take(i as int).push(digest@[i as int]) =~= digest@.take(i + 1));
        i += 1;
    }
    assert(digest@.take(32) =~= digest@);
    out
}

/// An MD5 computation in progress, over the hasher `md5::Md5`.
#[verifier::external_body]
pub struct Md5State {
    inner: md5::Md5,
}

/// The bytes that an MD5 computation has taken in so far.
pub uninterp spec fn md5_input(state: Md5State) -> Seq<u8>;

/// The 16-byte MD5 digest of `data`.
pub uninterp spec fn md5_digest(data: Seq<u8>) -> Seq<u8>;

/// `Md5::new`: a computation that has taken in nothing.
#[verifier::external_body]
pub(crate) fn md5_start() -> (r: Md5State)
    ensures
        md5_input(r) == Seq::<u8>::empty(),
{
    Md5State { inner: md5::Md5::new() }
}

/// `Digest::update`: takes in `data` after what was taken in before.
#[verifier::external_body]
pub(crate) fn md5_update(state: &mut Md5State, data: &[u8])
    ensures
        md5_input(*final(state)) == md5_input(*old(state)) + data@,
{
    state.inner.update(data)
}

/// `Digest::finalize`: the MD5 digest of everything taken in.
#[verifier::external_body]
pub(crate) fn md5_finish(state: Md5State) -> (r: [u8; 16])
    ensures
        r@ == md5_digest(md5_input(state)),
{
    state.inner.finalize().into()
}

} // verus!
