//! Cutting a stream of bytes into blocks.

use bytes::{Bytes, BytesMut};
use vstd::prelude::*;

use crate::buffers;

verus! {

/// A way to cut a byte stream.
pub enum Scheme {
    /// Every `chunk_size` bytes.
    Fixed { chunk_size: usize },
    /// Where the content says so, between `min_size` and `max_size` bytes apart.
    Cdc { min_size: usize, avg_size: usize, max_size: usize },
}

/// Where FastCDC makes its first cut in `data`: the length of the first chunk.
pub uninterp spec fn cdc_first_cut(data: Seq<u8>, min: u32, avg: u32, max: u32) -> nat;

/// The sizes that FastCDC accepts.
pub open spec fn cdc_sizes(min: int, avg: int, max: int) -> bool {
    64 <= min <= 1_048_576 && 256 <= avg <= 4_194_304 && 1024 <= max <= 16_777_216
}

/// `fastcdc::v2020::FastCDC::new` on `data`, and its first chunk as `(offset, length)`. There
/// is a chunk wherever there is data; the first one starts at offset zero, is not empty and
/// ends within the data, and within `max` bytes where `min` is not above `max`. Sizes outside
/// the accepted ranges panic, and so may an average above the maximum on data that is longer
/// than the maximum.
#[verifier::external_body]
fn first_chunk(data: &[u8], min: u32, avg: u32, max: u32) -> (r: Option<(usize, usize)>)
    requires
        cdc_sizes(min as int, avg as int, max as int),
        avg <= max || data@.len() <= max,
    ensures
        r is Some == (data@.len() > 0),
        r matches Some((offset, length)) ==> {
            &&& offset == 0
            &&& length == cdc_first_cut(data@, min, avg, max)
            &&& 0 < length <= data@.len()
            &&& min <= max ==> length <= max
        },
{
    fastcdc::v2020::FastCDC::new(data, min, avg, max).next().map(|c| (c.offset, c.length))
}

/// The parameters of a scheme are such that it can cut `len` bytes. Content-defined cutting
/// does not look at data below the minimum size.
pub open spec fn cuts_bytes(scheme: Scheme, len: nat) -> bool {
    match scheme {
        Scheme::Fixed { chunk_size } => chunk_size > 0,
        Scheme::Cdc { min_size, avg_size, max_size } => len < min_size || (cdc_sizes(
            min_size as int,
            avg_size as int,
            max_size as int,
        ) && (avg_size <= max_size || len <= max_size)),
    }
}

/// A chunk of `n` bytes at the start of `len` bytes is complete: it ends before they do, or it
/// has the maximum size.
pub open spec fn complete(n: int, len: int, max_size: int) -> bool {
    n < len || n >= max_size
}

/// Whether a chunk of `n` bytes at the start of `len` bytes is complete. A chunk that reaches
/// the end of the buffer may be the start of a larger one, unless it has the maximum size
/// already.
pub fn is_complete(n: usize, len: usize, max_size: usize) -> (r: bool)
    ensures
        r == complete(n as int, len as int, max_size as int),
{
    n < len || n >= max_size
}

/// The length of the first complete chunk of `data`, where there is one. Content-defined
/// cutting leaves a chunk that reaches the end of the data open, unless it has the maximum
/// size: more data could still move its end.
pub open spec fn next_cut(scheme: Scheme, data: Seq<u8>) -> Option<int> {
    match scheme {
        Scheme::Fixed { chunk_size } => if data.len() >= chunk_size {
            Some(chunk_size as int)
        } else {
            None
        },
        Scheme::Cdc { min_size, avg_size, max_size } => if data.len() < min_size {
            None
        } else {
            let n = cdc_first_cut(data, min_size as u32, avg_size as u32, max_size as u32);
            if complete(n as int, data.len() as int, max_size as int) {
                Some(n as int)
            } else {
                None
            }
        },
    }
}

/// The complete chunks of `data`, in order.
pub open spec fn complete_chunks(scheme: Scheme, data: Seq<u8>) -> Seq<Seq<u8>>
    decreases data.len(),
{
    match next_cut(scheme, data) {
        Some(n) => if 0 < n <= data.len() {
            seq![data.take(n)] + complete_chunks(scheme, data.skip(n))
        } else {
            seq![]
        },
        None => seq![],
    }
}

/// What is left of `data` behind its complete chunks.
pub open spec fn remainder(scheme: Scheme, data: Seq<u8>) -> Seq<u8>
    decreases data.len(),
{
    match next_cut(scheme, data) {
        Some(n) => if 0 < n <= data.len() {
            remainder(scheme, data.skip(n))
        } else {
            data
        },
        None => data,
    }
}

/// The parts, one after the other.
pub open spec fn joined(parts: Seq<Seq<u8>>) -> Seq<u8>
    decreases parts.len(),
{
    if parts.len() == 0 {
        seq![]
    } else {
        joined(parts.drop_last()) + parts.last()
    }
}

/// One more piece comes last.
pub proof fn lemma_joined_push(parts: Seq<Seq<u8>>, part: Seq<u8>)
    ensures
        joined(parts.push(part)) == joined(parts) + part,
{
    assert(parts.push(part).drop_last() =~= parts);
}

/// Joining two lists of pieces one after the other.
pub proof fn lemma_joined_add(a: Seq<Seq<u8>>, b: Seq<Seq<u8>>)
    ensures
        joined(a + b) == joined(a) + joined(b),
    decreases b.len(),
{
    if b.len() == 0 {
        assert(a + b =~= a);
        assert(joined(b) =~= seq![]);
        assert(joined(a) + joined(b) =~= joined(a));
    } else {
        lemma_joined_add(a, b.drop_last());
        assert((a + b).drop_last() =~= a + b.drop_last());
        assert(joined(a + b) =~= joined(a) + joined(b));
    }
}

/// Cutting loses nothing: the complete chunks and what is left make up the data.
pub proof fn lemma_chunks_reassemble(scheme: Scheme, data: Seq<u8>)
    ensures
        joined(complete_chunks(scheme, data)) + remainder(scheme, data) == data,
    decreases data.len(),
{
    let none: Seq<Seq<u8>> = seq![];
    assert(joined(none) =~= seq![]);
    match next_cut(scheme, data) {
        Some(n) => {
            if 0 < n <= data.len() {
                let head = seq![data.take(n)];
                lemma_chunks_reassemble(scheme, data.skip(n));
                lemma_joined_add(head, complete_chunks(scheme, data.skip(n)));
                assert(head.drop_last() =~= none);
                assert(joined(head) =~= data.take(n));
                assert(data.take(n) + data.skip(n) =~= data);
                assert(joined(complete_chunks(scheme, data)) + remainder(scheme, data) =~= data.take(
                    n,
                ) + (joined(complete_chunks(scheme, data.skip(n))) + remainder(
                    scheme,
                    data.skip(n),
                )));
            } else {
                assert(joined(none) + data =~= data);
            }
        },
        None => {
            assert(joined(none) + data =~= data);
        },
    }
}

/// Fixed-size cutting gives chunks of exactly that size, and leaves less than one chunk.
pub proof fn lemma_fixed_chunk_sizes(chunk_size: usize, data: Seq<u8>)
    requires
        chunk_size > 0,
    ensures
        ({
            let scheme = Scheme::Fixed { chunk_size };
            &&& remainder(scheme, data).len() == data.len() % (chunk_size as nat)
            &&& complete_chunks(scheme, data).len() == data.len() / (chunk_size as nat)
            &&& forall|i: int|
                0 <= i < complete_chunks(scheme, data).len() ==> (
                #[trigger] complete_chunks(scheme, data)[i]).len() == chunk_size
        }),
    decreases data.len(),
{
    let scheme = Scheme::Fixed { chunk_size };
    let n = chunk_size as int;
    if data.len() >= n {
        let rest = data.skip(n);
        lemma_fixed_chunk_sizes(chunk_size, rest);
        vstd::arithmetic::div_mod::lemma_fundamental_div_mod(rest.len() as int, n);
        let q = rest.len() as int / n;
        assert(n * (q + 1) == n * q + n) by (nonlinear_arith);
        assert((q + 1) * n == n * (q + 1)) by (nonlinear_arith);
        vstd::arithmetic::div_mod::lemma_fundamental_div_mod_converse(
            data.len() as int,
            n,
            q + 1,
            rest.len() as int % n,
        );
        assert forall|i: int| 0 <= i < complete_chunks(scheme, data).len() implies (
        #[trigger] complete_chunks(scheme, data)[i]).len() == chunk_size by {
            if i > 0 {
                assert(complete_chunks(scheme, data)[i] == complete_chunks(scheme, rest)[i - 1]);
            }
        }
    } else {
        vstd::arithmetic::div_mod::lemma_fundamental_div_mod_converse(
            data.len() as int,
            n,
            0,
            data.len() as int,
        );
    }
}

/// Feeding the data in two pieces cuts it at the same places as feeding it at once, where the
/// cuts are at fixed distances.
pub proof fn lemma_fixed_incremental(chunk_size: usize, a: Seq<u8>, b: Seq<u8>)
    requires
        chunk_size > 0,
    ensures
        ({
            let scheme = Scheme::Fixed { chunk_size };
            let left = remainder(scheme, a);
            &&& complete_chunks(scheme, a + b) == complete_chunks(scheme, a) + complete_chunks(
                scheme,
                left + b,
            )
            &&& remainder(scheme, a + b) == remainder(scheme, left + b)
        }),
    decreases a.len(),
{
    let scheme = Scheme::Fixed { chunk_size };
    let n = chunk_size as int;
    let left = remainder(scheme, a);
    if a.len() >= n {
        lemma_fixed_incremental(chunk_size, a.skip(n), b);
        assert((a + b).take(n) =~= a.take(n));
        assert((a + b).skip(n) =~= a.skip(n) + b);
        assert(complete_chunks(scheme, a + b) =~= complete_chunks(scheme, a) + complete_chunks(
            scheme,
            left + b,
        ));
    } else {
        assert(complete_chunks(scheme, a) =~= Seq::<Seq<u8>>::empty());
        assert(complete_chunks(scheme, a + b) =~= complete_chunks(scheme, a) + complete_chunks(
            scheme,
            left + b,
        ));
    }
}

/// The contents of a list of buffers.
pub open spec fn contents(chunks: Seq<Bytes>) -> Seq<Seq<u8>> {
    chunks.map_values(|b: Bytes| buffers::bytes_seq(b))
}

pub trait ChunkingStrategy: Send + Sync {
    /// How the strategy cuts.
    spec fn scheme(&self) -> Scheme;

    /// Processes incoming data and returns a vector of completed chunks.
    /// Any incomplete data remains in the buffer.
    fn process(&self, buffer: &mut BytesMut) -> (r: Vec<Bytes>)
        requires
            cuts_bytes(self.scheme(), buffers::buffer_seq(*old(buffer)).len()),
        ensures
            contents(r@) == complete_chunks(self.scheme(), buffers::buffer_seq(*old(buffer))),
            buffers::buffer_seq(*final(buffer)) == remainder(
                self.scheme(),
                buffers::buffer_seq(*old(buffer)),
            ),
    ;

    /// Finalizes the process and returns the final chunk if any data remains.
    fn finalize(&self, buffer: &mut BytesMut) -> (r: Option<Bytes>)
        ensures
            r is Some == (buffers::buffer_seq(*old(buffer)).len() > 0),
            r matches Some(b) ==> buffers::bytes_seq(b) == buffers::buffer_seq(*old(buffer)),
            buffers::buffer_seq(*final(buffer)) == Seq::<u8>::empty(),
    ;
}

/// Takes everything out of the buffer, where it holds anything.
fn take_rest(buffer: &mut BytesMut) -> (r: Option<Bytes>)
    ensures
        r is Some == (buffers::buffer_seq(*old(buffer)).len() > 0),
        r matches Some(b) ==> buffers::bytes_seq(b) == buffers::buffer_seq(*old(buffer)),
        buffers::buffer_seq(*final(buffer)) == Seq::<u8>::empty(),
{
    if buffers::buffer_len(buffer) > 0 {
        let rest = buffers::buffer_split(buffer);
        Some(buffers::buffer_freeze(rest))
    } else {
        assert(buffers::buffer_seq(*buffer) =~= Seq::<u8>::empty());
        None
    }
}

/// Takes the first `n` bytes out of the buffer, as the next of the chunks in `out`.
fn take_chunk(scheme: Ghost<Scheme>, buffer: &mut BytesMut, n: usize, out: &mut Vec<Bytes>)
    requires
        0 < n <= buffers::buffer_seq(*old(buffer)).len(),
        next_cut(scheme@, buffers::buffer_seq(*old(buffer))) == Some(n as int),
    ensures
        buffers::buffer_seq(*final(buffer)) == buffers::buffer_seq(*old(buffer)).skip(n as int),
        final(out)@.len() == old(out)@.len() + 1,
        buffers::bytes_seq(final(out)@.last()).len() == n,
        forall|i: int| 0 <= i < old(out)@.len() ==> final(out)@[i] == old(out)@[i],
        contents(final(out)@) + complete_chunks(scheme@, buffers::buffer_seq(*final(buffer)))
            == contents(old(out)@) + complete_chunks(scheme@, buffers::buffer_seq(*old(buffer))),
        remainder(scheme@, buffers::buffer_seq(*final(buffer))) == remainder(
            scheme@,
            buffers::buffer_seq(*old(buffer)),
        ),
{
    let ghost before = contents(out@);
    let ghost data = buffers::buffer_seq(*buffer);
    let head = buffers::buffer_split_to(buffer, n);
    let chunk = buffers::buffer_freeze(head);
    out.push(chunk);
    proof {
        assert(contents(out@) =~= before.push(data.take(n as int)));
        assert(contents(out@) + complete_chunks(scheme@, data.skip(n as int)) =~= before
            + complete_chunks(scheme@, data));
    }
}

pub struct FixedSizeStrategy {
    pub chunk_size: usize,
}

impl ChunkingStrategy for FixedSizeStrategy {
    open spec fn scheme(&self) -> Scheme {
        Scheme::Fixed { chunk_size: self.chunk_size }
    }

    fn process(&self, buffer: &mut BytesMut) -> (r: Vec<Bytes>) {
        let ghost scheme = self.scheme();
        let ghost data = buffers::buffer_seq(*buffer);
        let mut completed_chunks: Vec<Bytes> = Vec::new();
        assert(contents(completed_chunks@) + complete_chunks(scheme, data) =~= complete_chunks(
            scheme,
            data,
        ));
        while buffers::buffer_len(buffer) >= self.chunk_size
            invariant
                self.chunk_size > 0,
                scheme == self.scheme(),
                contents(completed_chunks@) + complete_chunks(
                    scheme,
                    buffers::buffer_seq(*buffer),
                ) == complete_chunks(scheme, data),
                remainder(scheme, buffers::buffer_seq(*buffer)) == remainder(scheme, data),
            decreases buffers::buffer_seq(*buffer).len(),
        {
            take_chunk(Ghost(scheme), buffer, self.chunk_size, &mut completed_chunks);
        }
        assert(contents(completed_chunks@) =~= complete_chunks(scheme, data));
        completed_chunks
    }

    fn finalize(&self, buffer: &mut BytesMut) -> (r: Option<Bytes>) {
        take_rest(buffer)
    }
}

pub struct DynamicCDCStrategy {
    pub min_size: usize,
    pub avg_size: usize,
    pub max_size: usize,
}

impl ChunkingStrategy for DynamicCDCStrategy {
    open spec fn scheme(&self) -> Scheme {
        Scheme::Cdc { min_size: self.min_size, avg_size: self.avg_size, max_size: self.max_size }
    }

    /// No chunk is larger than the maximum size, and neither is what stays in the buffer.
    fn process(&self, buffer: &mut BytesMut) -> (r: Vec<Bytes>)
        ensures
            self.min_size <= self.max_size ==> forall|i: int|
                0 <= i < r@.len() ==> buffers::bytes_seq(#[trigger] r@[i]).len() <= self.max_size,
            self.min_size <= self.max_size ==> buffers::buffer_seq(*final(buffer)).len()
                < self.max_size,
    {
        let ghost scheme = self.scheme();
        let ghost data = buffers::buffer_seq(*buffer);
        let mut completed_chunks: Vec<Bytes> = Vec::new();
        assert(contents(completed_chunks@) + complete_chunks(scheme, data) =~= complete_chunks(
            scheme,
            data,
        ));
        let min: u32 = self.min_size as u32;
        let avg: u32 = self.avg_size as u32;
        let max: u32 = self.max_size as u32;
        loop
            invariant
                cuts_bytes(scheme, data.len()),
                buffers::buffer_seq(*buffer).len() <= data.len(),
                scheme == self.scheme(),
                data.len() >= self.min_size ==> min == self.min_size && avg == self.avg_size && max
                    == self.max_size,
                contents(completed_chunks@) + complete_chunks(
                    scheme,
                    buffers::buffer_seq(*buffer),
                ) == complete_chunks(scheme, data),
                remainder(scheme, buffers::buffer_seq(*buffer)) == remainder(scheme, data),
                self.min_size <= self.max_size ==> forall|i: int|
                    0 <= i < completed_chunks@.len() ==> buffers::bytes_seq(
                        #[trigger] completed_chunks@[i],
                    ).len() <= self.max_size,
            ensures
                next_cut(scheme, buffers::buffer_seq(*buffer)) is None,
                self.min_size <= self.max_size ==> buffers::buffer_seq(*buffer).len()
                    < self.max_size,
            decreases buffers::buffer_seq(*buffer).len(),
        {
            let len: usize = buffers::buffer_len(buffer);
            if len < self.min_size {
                break;
            }
            match first_chunk(buffers::buffer_slice(buffer), min, avg, max) {
                Some((offset, length)) => {
                    let end: usize = offset + length;
                    if is_complete(end, len, self.max_size) {
                        take_chunk(Ghost(scheme), buffer, end, &mut completed_chunks);
                    } else {
                        break;
                    }
                },
                None => {
                    break;
                },
            }
        }
        assert(contents(completed_chunks@) =~= complete_chunks(scheme, data));
        completed_chunks
    }

    fn finalize(&self, buffer: &mut BytesMut) -> (r: Option<Bytes>) {
        take_rest(buffer)
    }
}

/// The strategy of a node, as configured.
pub enum Chunker {
    Fixed(FixedSizeStrategy),
    Cdc(DynamicCDCStrategy),
}

impl Chunker {
    /// Whether the sizes allow to cut `len` bytes.
    pub fn can_cut(&self, len: u128) -> (r: bool)
        ensures
            r == cuts_bytes(self.scheme(), len as nat),
    {
        match self {
            Chunker::Fixed(s) => s.chunk_size > 0,
            Chunker::Cdc(s) => len < s.min_size as u128 || (64 <= s.min_size && s.min_size
                <= 1_048_576 && 256 <= s.avg_size && s.avg_size <= 4_194_304 && 1024
                <= s.max_size && s.max_size <= 16_777_216 && (s.avg_size <= s.max_size || len
                <= s.max_size as u128)),
        }
    }
}

impl ChunkingStrategy for Chunker {
    open spec fn scheme(&self) -> Scheme {
        match self {
            Chunker::Fixed(s) => s.scheme(),
            Chunker::Cdc(s) => s.scheme(),
        }
    }

    fn process(&self, buffer: &mut BytesMut) -> (r: Vec<Bytes>) {
        match self {
            Chunker::Fixed(s) => s.process(buffer),
            Chunker::Cdc(s) => s.process(buffer),
        }
    }

    fn finalize(&self, buffer: &mut BytesMut) -> (r: Option<Bytes>) {
        match self {
            Chunker::Fixed(s) => s.finalize(buffer),
            Chunker::Cdc(s) => s.finalize(buffer),
        }
    }
}

} // verus!
