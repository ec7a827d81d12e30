//! Taking in the body of an object: cutting it into blocks while its entity tag is computed.

use bytes::{Bytes, BytesMut};
use vstd::prelude::*;

use crate::buffers;
use crate::chunking;
use crate::chunking::{Chunker, ChunkingStrategy, Scheme};
use crate::codec;
use crate::digest;
use crate::digest::Md5State;
use crate::seqs;

verus! {

/// A block to be stored under its hash.
pub struct Block {
    pub hash: Vec<u8>,
    pub data: Bytes,
}

/// The contents of a list of blocks.
pub open spec fn block_data(blocks: Seq<Block>) -> Seq<Seq<u8>> {
    blocks.map_values(|b: Block| buffers::bytes_seq(b.data))
}

/// Each block goes by the digest of its contents.
pub open spec fn addressed(blocks: Seq<Block>) -> bool {
    forall|i: int|
        0 <= i < blocks.len() ==> (#[trigger] blocks[i]).hash@ == digest::blake3_digest(
            buffers::bytes_seq(blocks[i].data),
        )
}

/// The digests of a list of blocks.
pub open spec fn digests(blocks: Seq<Seq<u8>>) -> Seq<Seq<u8>> {
    blocks.map_values(|b: Seq<u8>| digest::blake3_digest(b))
}

/// The entity tag of a body.
pub open spec fn etag_of(body: Seq<u8>) -> Seq<char> {
    codec::hex_text(digest::md5_digest(body))
}

/// The entity tag of a body whose MD5 digest is `digest`.
pub fn etag_text(digest: &[u8; 16]) -> (r: String)
    ensures
        r@ == codec::hex_text(digest@),
{
    codec::hex_encode(digest)
}

/// An upload in progress.
pub struct Upload {
    chunker: Chunker,
    current: BytesMut,
    md5: Md5State,
    hashes: Vec<Vec<u8>>,
    total_size: i64,
    blocks: Ghost<Seq<Seq<u8>>>,
}

/// What an upload comes to.
pub struct Finished {
    /// What is left to be stored.
    pub last: Option<Block>,
    pub hashes: Vec<Vec<u8>>,
    pub total_size: i64,
    pub etag: String,
}

fn make_block(data: Bytes) -> (r: Block)
    ensures
        r.data == data,
        r.hash@ == digest::blake3_digest(buffers::bytes_seq(data)),
        r.hash@.len() == 32,
{
    let hash = digest::block_hash(buffers::bytes_slice(&data));
    Block { hash, data }
}

fn copy_hash(h: &Vec<u8>) -> (r: Vec<u8>)
    ensures
        r@ == h@,
{
    vstd::slice::slice_to_vec(h.as_slice())
}

/// The same bytes once more, without a copy.
fn share(data: &Bytes) -> (r: Bytes)
    ensures
        buffers::bytes_seq(r) == buffers::bytes_seq(*data),
{
    let r = buffers::bytes_range(data, 0, buffers::bytes_len(data));
    assert(buffers::bytes_seq(r) =~= buffers::bytes_seq(*data));
    r
}

impl Upload {
    /// How the body is cut.
    pub closed spec fn scheme(self) -> Scheme {
        self.chunker.scheme()
    }

    /// The bytes taken in so far.
    pub closed spec fn input(self) -> Seq<u8> {
        digest::md5_input(self.md5)
    }

    /// The blocks handed out so far.
    pub closed spec fn handed_out(self) -> Seq<Seq<u8>> {
        self.blocks@
    }

    /// The bytes that wait for their block to be complete.
    pub closed spec fn waiting(self) -> Seq<u8> {
        buffers::buffer_seq(self.current)
    }

    /// What has been taken in is what has been handed out and what waits.
    pub closed spec fn wf(self) -> bool {
        &&& chunking::joined(self.blocks@) + buffers::buffer_seq(self.current)
            == digest::md5_input(self.md5)
        &&& seqs::views(self.hashes@) == digests(self.blocks@)
        &&& self.total_size == chunking::joined(self.blocks@).len()
        &&& forall|i: int| 0 <= i < self.hashes@.len() ==> (#[trigger] self.hashes@[i])@.len() == 32
    }

    /// Nothing taken in is lost or changed.
    pub proof fn lemma_input(self)
        requires
            self.wf(),
        ensures
            chunking::joined(self.handed_out()) + self.waiting() == self.input(),
    {
    }

    /// Starts an upload with a buffer for `capacity` bytes.
    pub fn new(chunker: Chunker, capacity: usize) -> (r: Upload)
        ensures
            r.wf(),
            r.scheme() == chunker.scheme(),
            r.input() == Seq::<u8>::empty(),
            r.handed_out() == Seq::<Seq<u8>>::empty(),
            r.waiting() == Seq::<u8>::empty(),
    {
        let r = Upload {
            chunker,
            current: buffers::buffer_with_capacity(capacity),
            md5: digest::md5_start(),
            hashes: Vec::new(),
            total_size: 0,
            blocks: Ghost(Seq::empty()),
        };
        proof {
            assert(chunking::joined(r.blocks@) =~= Seq::<u8>::empty());
            assert(chunking::joined(r.blocks@) + buffers::buffer_seq(r.current) =~= Seq::<
                u8,
            >::empty());
            assert(seqs::views(r.hashes@) =~= digests(r.blocks@));
        }
        r
    }

    /// Counts `data` as the next block.
    fn hand_out(&mut self, data: Bytes) -> (r: Block)
        requires
            seqs::views(old(self).hashes@) == digests(old(self).blocks@),
            old(self).total_size == chunking::joined(old(self).blocks@).len(),
            forall|i: int|
                0 <= i < old(self).hashes@.len() ==> (#[trigger] old(self).hashes@[i])@.len()
                    == 32,
            old(self).total_size + buffers::bytes_seq(data).len() <= i64::MAX,
        ensures
            r.data == data,
            r.hash@ == digest::blake3_digest(buffers::bytes_seq(data)),
            final(self).blocks@ == old(self).blocks@.push(buffers::bytes_seq(data)),
            seqs::views(final(self).hashes@) == digests(final(self).blocks@),
            final(self).total_size == chunking::joined(final(self).blocks@).len(),
            forall|i: int|
                0 <= i < final(self).hashes@.len() ==> (#[trigger] final(self).hashes@[i])@.len()
                    == 32,
            final(self).chunker == old(self).chunker,
            final(self).current == old(self).current,
            final(self).md5 == old(self).md5,
    {
        let len: usize = buffers::bytes_len(&data);
        let block = make_block(data);
        let hash = copy_hash(&block.hash);
        proof {
            let part = buffers::bytes_seq(data);
            chunking::lemma_joined_push(self.blocks@, part);
            seqs::lemma_views_push(self.hashes@, hash);
            assert(digests(self.blocks@.push(part)) =~= digests(self.blocks@).push(hash@));
        }
        self.hashes.push(hash);
        self.total_size = self.total_size + len as i64;
        self.blocks = Ghost(self.blocks@.push(buffers::bytes_seq(data)));
        block
    }

    /// Whether the block sizes allow to take in `chunk` next.
    pub fn can_feed(&self, chunk: &[u8]) -> (r: bool)
        ensures
            r == chunking::cuts_bytes(self.scheme(), (self.waiting() + chunk@).len()),
    {
        let len: u128 = buffers::buffer_len(&self.current) as u128 + chunk.len() as u128;
        self.chunker.can_cut(len)
    }

    /// Takes in more of the body, and hands out the blocks that are complete with it.
    pub fn feed(&mut self, chunk: &[u8]) -> (r: Vec<Block>)
        requires
            old(self).wf(),
            chunking::cuts_bytes(old(self).scheme(), (old(self).waiting() + chunk@).len()),
            old(self).input().len() + chunk@.len() <= i64::MAX,
        ensures
            final(self).wf(),
            final(self).scheme() == old(self).scheme(),
            final(self).input() == old(self).input() + chunk@,
            final(self).waiting() == chunking::remainder(
                old(self).scheme(),
                old(self).waiting() + chunk@,
            ),
            block_data(r@) == chunking::complete_chunks(
                old(self).scheme(),
                old(self).waiting() + chunk@,
            ),
            final(self).handed_out() == old(self).handed_out() + block_data(r@),
            addressed(r@),
    {
        let ghost scheme = self.scheme();
        let ghost was = *self;
        let ghost pending = self.waiting() + chunk@;
        digest::md5_update(&mut self.md5, chunk);
        buffers::buffer_extend(&mut self.current, chunk);
        let pieces = self.chunker.process(&mut self.current);
        let ghost parts = chunking::contents(pieces@);
        proof {
            chunking::lemma_chunks_reassemble(scheme, pending);
            chunking::lemma_joined_add(was.blocks@, parts);
            let head = chunking::joined(was.blocks@);
            assert(self.input() == (head + was.waiting()) + chunk@);
            assert(chunking::joined(parts) + self.waiting() == pending);
            assert(chunking::joined(was.blocks@ + parts) + self.waiting() =~= head + pending);
            assert(head + pending =~= self.input());
            assert(was.blocks@ + parts.take(0) =~= was.blocks@);
        }
        let mut out: Vec<Block> = Vec::new();
        let mut i: usize = 0;
        assert(block_data(out@) =~= parts.take(0));
        while i < pieces.len()
            invariant
                i <= pieces@.len(),
                parts == chunking::contents(pieces@),
                chunking::joined(was.blocks@ + parts).len() <= i64::MAX,
                self.chunker == was.chunker,
                self.waiting() == chunking::remainder(scheme, pending),
                self.input() == was.input() + chunk@,
                self.blocks@ == was.blocks@ + parts.take(i as int),
                seqs::views(self.hashes@) == digests(self.blocks@),
                self.total_size == chunking::joined(self.blocks@).len(),
                forall|j: int|
                    0 <= j < self.hashes@.len() ==> (#[trigger] self.hashes@[j])@.len() == 32,
                block_data(out@) == parts.take(i as int),
                addressed(out@),
            decreases pieces@.len() - i,
        {
            let data = share(&pieces[i]);
            let ghost part = buffers::bytes_seq(data);
            proof {
                assert(part == parts[i as int]);
                let all = was.blocks@ + parts;
                let front = was.blocks@ + parts.take(i as int);
                assert(all =~= front + parts.skip(i as int));
                assert(parts.skip(i as int) =~= seq![part] + parts.skip(i + 1));
                chunking::lemma_joined_add(front, parts.skip(i as int));
                chunking::lemma_joined_add(seq![part], parts.skip(i + 1));
                chunking::lemma_joined_push(Seq::empty(), part);
                assert(Seq::<Seq<u8>>::empty().push(part) =~= seq![part]);
                assert(chunking::joined(Seq::<Seq<u8>>::empty()) =~= Seq::<u8>::empty());
                assert(parts.take(i + 1) =~= parts.take(i as int).push(part));
                assert(was.blocks@ + parts.take(i + 1) =~= front.push(part));
            }
            let block = self.hand_out(data);
            assert(block_data(out@.push(block)) =~= block_data(out@).push(part));
            out.push(block);
            i += 1;
        }
        proof {
            assert(parts.take(parts.len() as int) =~= parts);
        }
        out
    }

    /// Ends the upload: what still waits becomes the last block.
    pub fn finish(self) -> (r: Finished)
        requires
            self.wf(),
            self.input().len() <= i64::MAX,
        ensures
            r.last is Some == (self.waiting().len() > 0),
            r.last matches Some(b) ==> buffers::bytes_seq(b.data) == self.waiting() && b.hash@
                == digest::blake3_digest(self.waiting()),
            ({
                let blocks = if self.waiting().len() > 0 {
                    self.handed_out().push(self.waiting())
                } else {
                    self.handed_out()
                };
                seqs::views(r.hashes@) == digests(blocks) && chunking::joined(blocks)
                    == self.input()
            }),
            forall|i: int| 0 <= i < r.hashes@.len() ==> (#[trigger] r.hashes@[i])@.len() == 32,
            r.total_size == self.input().len(),
            r.etag@ == etag_of(self.input()),
    {
        let mut this = self;
        let ghost was = self;
        let rest = this.chunker.finalize(&mut this.current);
        proof {
            chunking::lemma_joined_push(was.blocks@, was.waiting());
            assert(was.waiting().len() == 0 ==> chunking::joined(was.blocks@) =~= was.input());
        }
        let last = match rest {
            Some(data) => Some(this.hand_out(data)),
            None => None,
        };
        let etag = etag_text(&digest::md5_finish(this.md5));
        Finished { last, hashes: this.hashes, total_size: this.total_size, etag }
    }
}

} // verus!
