//! How a body is cut into blocks, and where the range of a prefix ends.

use vstd::prelude::*;

use crate::chunking;
use crate::chunking::Scheme;
use crate::config::ChunkingConfig;
use crate::hashing;
use crate::storage;

verus! {

// ── blocks ───────────────────────────────────────────────────────────────────

/// Blocks of a fixed size: as long as there is enough data the next block is the front of it, and
/// what is too short for a block is left.
pub proof fn lemma_fixed(size: usize, data: Seq<u8>)
    requires
        size > 0,
    ensures
        ({
            let s = Scheme::Fixed { chunk_size: size };
            &&& data.len() >= size ==> {
                let rest = data.skip(size as int);
                &&& chunking::complete_chunks(s, data) == seq![data.take(size as int)]
                    + chunking::complete_chunks(s, rest)
                &&& chunking::remainder(s, data) == chunking::remainder(s, rest)
            }
            &&& data.len() < size ==> chunking::complete_chunks(s, data).len() == 0
                && chunking::remainder(s, data) == data
        }),
{
}

/// Blocks that follow the content: data shorter than the smallest block waits; else it is cut where
/// the content says, unless the cut is at the end of the data, where more might move it, and the
/// block is not of the largest size.
pub proof fn lemma_content_defined(min: usize, avg: usize, max: usize, data: Seq<u8>)
    requires
        min > 0,
        0 < chunking::cdc_first_cut(data, min as u32, avg as u32, max as u32) <= data.len(),
    ensures
        ({
            let s = Scheme::Cdc { min_size: min, avg_size: avg, max_size: max };
            let n = chunking::cdc_first_cut(data, min as u32, avg as u32, max as u32) as int;
            let waits = data.len() < min || (n == data.len() && n < max);
            &&& waits ==> chunking::complete_chunks(s, data).len() == 0 && chunking::remainder(
                s,
                data,
            ) == data
            &&& !waits ==> chunking::complete_chunks(s, data) == seq![data.take(n)]
                + chunking::complete_chunks(s, data.skip(n)) && chunking::remainder(s, data)
                == chunking::remainder(s, data.skip(n))
        }),
{
}

/// Every fixed size but zero can cut, and so can all sizes in their limits where the average is
/// not above the largest.
pub proof fn lemma_can_cut(size: usize, min: usize, avg: usize, max: usize, len: nat)
    ensures
        size > 0 ==> chunking::cuts_bytes(Scheme::Fixed { chunk_size: size }, len),
        64 <= min <= 1024 * 1024 && 256 <= avg <= 4 * 1024 * 1024 && 1024 <= max <= 16 * 1024 * 1024
            && avg <= max ==> chunking::cuts_bytes(
            Scheme::Cdc { min_size: min, avg_size: avg, max_size: max },
            len,
        ),
        len < min ==> chunking::cuts_bytes(
            Scheme::Cdc { min_size: min, avg_size: avg, max_size: max },
            len,
        ),
{
}

/// The scheme is the one of the configuration, with its sizes.
pub proof fn lemma_scheme(min: usize, avg: usize, max: usize)
    ensures
        storage::scheme_of(ChunkingConfig::Fixed { max_block_size: max }) == (Scheme::Fixed {
            chunk_size: max,
        }),
        storage::scheme_of(
            ChunkingConfig::Cdc {
                min_block_size: min,
                avg_block_size: avg,
                max_block_size: max,
            },
        ) == (Scheme::Cdc { min_size: min, avg_size: avg, max_size: max }),
{
}

// ── ranges ───────────────────────────────────────────────────────────────────

/// The bytes behind a prefix: the last byte that can be raised is raised, and what follows it is
/// dropped; where none can be there is no end.
pub proof fn lemma_incremented(bytes: Seq<u8>, k: int)
    ensures
        0 <= k < bytes.len() && bytes[k] < 255 && (forall|i: int|
            k < i < bytes.len() ==> #[trigger] bytes[i] == 255) ==> hashing::incremented(bytes)
            == Some(bytes.take(k).push((bytes[k] + 1) as u8)),
        (forall|i: int| 0 <= i < bytes.len() ==> #[trigger] bytes[i] == 255)
            ==> hashing::incremented(bytes) is None,
    decreases bytes.len(),
{
    if bytes.len() > 0 {
        let front = bytes.drop_last();
        lemma_incremented(front, k);
        assert(bytes.last() == bytes[bytes.len() - 1]);
        assert(forall|i: int| 0 <= i < front.len() ==> #[trigger] front[i] == bytes[i]);
        if 0 <= k < bytes.len() - 1 {
            assert(front.take(k) =~= bytes.take(k));
        } else if k == bytes.len() - 1 {
            assert(front =~= bytes.take(k));
        }
    }
}

/// The keys behind a prefix, in the same way over characters: the one behind the last character
/// below the surrogates is the first one above them.
pub proof fn lemma_upper_bound(prefix: Seq<char>, k: int)
    ensures
        0 <= k < prefix.len() && (prefix[k] as int) < 0x10FFFF && (forall|i: int|
            k < i < prefix.len() ==> (#[trigger] prefix[i]) as int == 0x10FFFF)
            ==> hashing::upper_bound(prefix) == Some(
            prefix.take(k).push(
                (if prefix[k] as int == 0xD7FF {
                    0xE000
                } else {
                    prefix[k] as int + 1
                }) as char,
            ),
        ),
        (forall|i: int| 0 <= i < prefix.len() ==> (#[trigger] prefix[i]) as int == 0x10FFFF)
            ==> hashing::upper_bound(prefix) is None,
    decreases prefix.len(),
{
    if prefix.len() > 0 {
        let front = prefix.drop_last();
        lemma_upper_bound(front, k);
        assert(prefix.last() == prefix[prefix.len() - 1]);
        assert(forall|i: int| 0 <= i < front.len() ==> #[trigger] front[i] == prefix[i]);
        if 0 <= k < prefix.len() - 1 {
            assert(front.take(k) =~= prefix.take(k));
        } else if k == prefix.len() - 1 {
            assert(front =~= prefix.take(k));
        }
    }
}

} // verus!
