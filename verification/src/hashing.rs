//! Shard numbers and key ranges.

use vstd::prelude::*;
use vstd::string::*;
use vstd::utf8::*;

use crate::digest;
use crate::order;
use crate::order::KeyOrder;
use crate::text;

verus! {

pub const NUM_SHARDS: i32 = 64;

/// The shard of a digest: its first byte, modulo the number of shards.
pub open spec fn digest_shard(digest: Seq<u8>) -> i32 {
    (digest[0] % 64) as i32
}

/// The shard of `key`: that of the BLAKE3 digest of its UTF-8 bytes.
pub open spec fn shard_of(key: Seq<char>) -> i32 {
    digest_shard(digest::blake3_digest(encode_utf8(key)))
}

/// The shard index of a digest, in `[0, 63]`.
pub fn shard_of_digest(digest: &[u8; 32]) -> (r: i32)
    ensures
        r == digest_shard(digest@),
        0 <= r < NUM_SHARDS,
{
    let b: u8 = digest[0];
    assert(b % 64 < 64);
    (b % 64) as i32
}

/// Derives a shard index in `[0, 63]` from a key using the first byte
/// of its blake3 digest. Uniform distribution follows from blake3's avalanche.
pub fn compute_shard_id(key: &str) -> (r: i32)
    ensures
        r == shard_of(key@),
        0 <= r < NUM_SHARDS,
{
    shard_of_digest(&digest::blake3_of(key.as_bytes()))
}

/// The scalar value after `c`, which is not the last one. Surrogates are none.
pub open spec fn next_char(c: char) -> char {
    if c as int == 0xD7FF {
        '\u{E000}'
    } else {
        (c as int + 1) as char
    }
}

proof fn lemma_next_char(c: char)
    requires
        (c as int) < 0x10FFFF,
    ensures
        next_char(c) as int == (if c as int == 0xD7FF {
            0xE000
        } else {
            c as int + 1
        }),
        (c as u32) as int == c as int,
        c as int <= 0xD7FF || 0xE000 <= c as int,
{
}

/// The smallest text after every text that starts with `prefix`: the last character that has
/// one gives way to the next scalar value, and what follows it is dropped. There is none where
/// no character has a next one.
pub open spec fn upper_bound(prefix: Seq<char>) -> Option<Seq<char>>
    decreases prefix.len(),
{
    if prefix.len() == 0 {
        None
    } else if (prefix.last() as int) < 0x10FFFF {
        Some(prefix.drop_last().push(next_char(prefix.last())))
    } else {
        upper_bound(prefix.drop_last())
    }
}

/// `key` is in the range from `prefix` up to its upper bound.
pub open spec fn in_range(key: Seq<char>, prefix: Seq<char>) -> bool {
    !key.before(prefix) && match upper_bound(prefix) {
        Some(u) => key.before(u),
        None => true,
    }
}

/// Returns `(lower, upper)` bounds for a `key >= lower AND key < upper`
/// range query that matches all keys with the given prefix.
/// `upper` is `None` when the prefix covers through the end of the key-space.
pub fn prefix_key_range(prefix: &str) -> (r: (String, Option<String>))
    ensures
        r.0@ == prefix@,
        r.1 is Some == upper_bound(prefix@) is Some,
        r.1 matches Some(u) ==> upper_bound(prefix@) == Some(u@),
        forall|key: Seq<char>| #[trigger] in_range(key, prefix@) == prefix@.is_prefix_of(key),
{
    proof {
        assert forall|key: Seq<char>| #[trigger] in_range(key, prefix@) == prefix@.is_prefix_of(
            key,
        ) by {
            lemma_prefix_range(prefix@, key);
        }
    }
    (prefix.to_string(), increment_prefix(prefix))
}

/// The smallest text after every text that starts with `prefix`.
pub fn increment_prefix(prefix: &str) -> (r: Option<String>)
    ensures
        r is Some == upper_bound(prefix@) is Some,
        r matches Some(u) ==> upper_bound(prefix@) == Some(u@),
{
    let v = text::chars_of(prefix);
    let mut n: usize = v.len();
    assert(v@.take(n as int) =~= prefix@);
    while n > 0
        invariant
            n <= v@.len(),
            upper_bound(prefix@) == upper_bound(v@.take(n as int)),
        decreases n,
    {
        let last: char = v[n - 1];
        let c: u32 = last as u32;
        proof {
            text::lemma_char_code(last);
            assert(v@.take(n as int).drop_last() =~= v@.take(n - 1));
            assert(v@.take(n as int).last() == last);
        }
        if c < 0x10FFFF {
            proof {
                lemma_next_char(last);
            }
            let code: u32 = if c == 0xD7FF {
                0xE000
            } else {
                c + 1
            };
            match char::from_u32(code) {
                Some(next) => {
                    let mut out = text::text_of(v.as_slice(), 0, n - 1);
                    out.push(next);
                    proof {
                        text::lemma_char_code(next);
                    }
                    assert(out@ =~= v@.take(n - 1).push(next_char(last)));
                    return Some(out);
                },
                None => {
                    assert(false);
                },
            }
        }
        n -= 1;
    }
    None
}

/// The byte string with its trailing `0xFF` bytes dropped and the last byte that remains
/// incremented; nothing where no byte remains.
pub open spec fn incremented(bytes: Seq<u8>) -> Option<Seq<u8>>
    decreases bytes.len(),
{
    if bytes.len() == 0 {
        None
    } else if bytes.last() < 0xFF {
        Some(bytes.drop_last().push((bytes.last() + 1) as u8))
    } else {
        incremented(bytes.drop_last())
    }
}

/// The smallest byte string after every byte string that starts with `prefix`.
pub fn increment_bytes(prefix: &[u8]) -> (r: Option<Vec<u8>>)
    ensures
        r is Some == incremented(prefix@) is Some,
        r matches Some(v) ==> incremented(prefix@) == Some(v@),
{
    let mut n: usize = prefix.len();
    assert(prefix@.take(n as int) =~= prefix@);
    while n > 0
        invariant
            n <= prefix.len(),
            incremented(prefix@) == incremented(prefix@.take(n as int)),
        decreases n,
    {
        let last: u8 = prefix[n - 1];
        assert(prefix@.take(n as int).drop_last() =~= prefix@.take(n - 1));
        if last < 0xFF {
            let mut out: Vec<u8> = Vec::new();
            let mut i: usize = 0;
            while i < n - 1
                invariant
                    1 <= n <= prefix.len(),
                    i <= n - 1,
                    out@ == prefix@.take(i as int),
                decreases n - i,
            {
                out.push(prefix[i]);
                assert(prefix@.take(i as int).push(prefix@[i as int]) =~= prefix@.take(i + 1));
                i += 1;
            }
            out.push(last + 1);
            return Some(out);
        }
        n -= 1;
    }
    None
}

/// The half-open range that `prefix_key_range` gives holds exactly the keys with the prefix.
pub proof fn lemma_prefix_range(prefix: Seq<char>, key: Seq<char>)
    ensures
        in_range(key, prefix) == prefix.is_prefix_of(key),
    decreases prefix.len(),
{
    let n = prefix.len() as int;
    let i = order::lemma_first_difference(key, prefix);
    order::lemma_lex_at(key, prefix, i);
    if prefix.is_prefix_of(key) {
        assert forall|x: int| 0 <= x < n implies key[x] == prefix[x] by {
            assert(key.subrange(0, n)[x] == key[x]);
        }
        assert(i == n);
    }
    if i == n {
        assert(key.subrange(0, n) =~= prefix);
    }
    if n == 0 {
    } else if (prefix.last() as int) < 0x10FFFF {
        lemma_range_at_last(prefix, key, i);
    } else {
        let front = prefix.drop_last();
        lemma_prefix_range(front, key);
        let j = order::lemma_first_difference(key, front);
        order::lemma_lex_at(key, front, j);
        lemma_next_char_bound(prefix.last());
        if prefix.is_prefix_of(key) {
            assert(key.subrange(0, n - 1) =~= front);
        } else if in_range(key, prefix) {
            // The first difference to the prefix lies inside it, and the key is larger there.
            assert(i < n);
            assert(key[i] > prefix[i]);
            if i < n - 1 {
                assert(order::first_difference(key, front, i));
                order::lemma_lex_at(key, front, i);
                assert(front.is_prefix_of(key));
                assert(key.subrange(0, n - 1)[i] == key[i]);
                assert(false);
            } else {
                lemma_next_char_bound(key[n - 1]);
                assert(false);
            }
        }
    }
}

/// No scalar value is larger than the last one.
proof fn lemma_next_char_bound(c: char)
    ensures
        c as int <= 0x10FFFF,
{
}

/// The range of a prefix whose last character has a next one.
proof fn lemma_range_at_last(prefix: Seq<char>, key: Seq<char>, i: int)
    requires
        prefix.len() > 0,
        (prefix.last() as int) < 0x10FFFF,
        order::first_difference(key, prefix, i),
        prefix.is_prefix_of(key) == (i == prefix.len()),
    ensures
        in_range(key, prefix) == prefix.is_prefix_of(key),
{
    let n = prefix.len() as int;
    let up = prefix.drop_last().push(next_char(prefix.last()));
    let j = order::lemma_first_difference(key, up);
    order::lemma_lex_at(key, prefix, i);
    order::lemma_lex_at(key, up, j);
    lemma_next_char(prefix.last());
    assert forall|x: int| 0 <= x < n - 1 implies up[x] == prefix[x] by {}
    if i == n {
        assert(key[n - 1] == prefix[n - 1]);
        assert(key[n - 1] != up[n - 1]);
        assert(j == n - 1) by {
            if j < n - 1 {
                assert(key[j] == up[j]);
            }
            if j > n - 1 {
                assert(key[n - 1] == up[n - 1]);
            }
        }
    } else if !key.before(prefix) && key.before(up) {
        assert(i < n);
        assert(key[i] > prefix[i]);
        if i < n - 1 {
            assert(order::first_difference(key, up, i));
            order::lemma_lex_at(key, up, i);
            assert(false);
        } else {
            char_is_scalar(key[n - 1]);
            assert(key[n - 1] as int >= up[n - 1] as int);
            if key[n - 1] != up[n - 1] {
                assert(order::first_difference(key, up, n - 1));
                order::lemma_lex_at(key, up, n - 1);
                assert(false);
            } else {
                assert(j >= n) by {
                    if j < n - 1 {
                        assert(key[j] == prefix[j]);
                    }
                }
                assert(false);
            }
        }
    }
}

proof fn lemma_encode_push(s: Seq<char>, c: char)
    ensures
        encode_utf8(s.push(c)) == encode_utf8(s) + encode_scalar(c as u32),
    decreases s.len(),
{
    let t = s.push(c);
    if s.len() == 0 {
        assert(t.drop_first() =~= Seq::<char>::empty());
        assert(encode_utf8(t.drop_first()) =~= Seq::<u8>::empty());
        assert(encode_utf8(s) =~= Seq::<u8>::empty());
        assert(encode_utf8(t) =~= encode_scalar(c as u32));
    } else {
        lemma_encode_push(s.drop_first(), c);
        assert(t.drop_first() =~= s.drop_first().push(c));
        assert(encode_utf8(t) =~= encode_utf8(s) + encode_scalar(c as u32));
    }
}

proof fn lemma_last_byte(c: u32, d: u32)
    by (bit_vector)
    requires
        d == c + 1,
        c < 0x7F || (c >= 0x80 && c % 64 != 63),
        c < 0x110000,
    ensures
        c < 0x7F ==> (d & 0x7F) as u8 == (c & 0x7F) as u8 + 1,
        c >= 0x80 ==> 0x80u8 | (d & 0x3F) as u8 == (0x80u8 | (c & 0x3F) as u8) + 1,
        c >= 0x80 ==> d >> 6 == c >> 6 && d >> 12 == c >> 12 && d >> 18 == c >> 18,
{
}

/// Whether the last UTF-8 byte of `c` can be incremented without leaving UTF-8: it is neither
/// `0x7F` nor `0xBF`.
pub open spec fn char_increments(c: char) -> bool {
    (c as int) < 0x7F || ((c as int) >= 0x80 && (c as int) % 64 != 63)
}

/// The upper bound is what incrementing the last UTF-8 byte of the prefix gives, where that
/// is UTF-8.
pub proof fn lemma_upper_bound_increments_last_byte(prefix: Seq<char>)
    requires
        prefix.len() > 0,
        char_increments(prefix.last()),
    ensures
        upper_bound(prefix) is Some,
        incremented(encode_utf8(prefix)) == Some(encode_utf8(upper_bound(prefix).unwrap())),
{
    let c = prefix.last();
    let d = next_char(c);
    let front = encode_utf8(prefix.drop_last());
    lemma_next_char_bound(c);
    assert(0x10FFFFint % 64 == 63);
    assert(0xD7FFint % 64 == 63);
    lemma_next_char(c);
    lemma_encode_push(prefix.drop_last(), c);
    lemma_encode_push(prefix.drop_last(), d);
    assert(prefix.drop_last().push(c) =~= prefix);
    char_is_scalar(c);
    char_is_scalar(d);
    lemma_last_byte(c as u32, d as u32);
    let e = encode_scalar(c as u32);
    let f = encode_scalar(d as u32);
    assert(f =~= e.drop_last().push((e.last() + 1) as u8));
    let b = encode_utf8(prefix);
    assert(b.last() == e.last());
    assert(b.drop_last() =~= front + e.drop_last());
    assert(front + f =~= b.drop_last().push((b.last() + 1) as u8));
}

} // verus!
