//! Multipart uploads: what the parts of an upload come to.

use vstd::prelude::*;

use crate::codec;
use crate::digest;
use crate::laws::collection::hash_at;
use crate::laws::writes::overtakes;
use crate::multipart;
use crate::multipart::PartInfo;
use crate::order::KeyOrder;
use crate::parts;
use crate::parts::{CompleteOutput, PartsOutput, UploadsOutput};
use crate::s3::{ErrorView, S3Code, S3Error};
use crate::seqs;
use crate::storage::StorageBackend;
use crate::store::StoreView;
use crate::table;
use crate::text;

verus! {

// ── the parts together ───────────────────────────────────────────────────────

/// The bodies one after the other are as long as all of them together.
proof fn lemma_flatten_last<A>(s: Seq<Seq<A>>)
    requires
        s.len() > 0,
    ensures
        s.flatten() == s.drop_last().flatten() + s.last(),
{
    s.lemma_flatten_and_flatten_alt_are_equivalent();
    s.drop_last().lemma_flatten_and_flatten_alt_are_equivalent();
}

/// The size of a completed upload is the length of the bodies of all its parts together, however
/// many there are.
pub proof fn lemma_total_size(infos: Seq<PartInfo>, bodies: Seq<Seq<u8>>)
    requires
        infos.len() == bodies.len(),
        forall|i: int| 0 <= i < infos.len() ==> (#[trigger] infos[i]).size == bodies[i].len(),
        bodies.flatten().len() <= i64::MAX,
    ensures
        parts::sum_sizes(infos) == bodies.flatten().len(),
    decreases infos.len(),
{
    if infos.len() > 0 {
        let a = infos.drop_last();
        let b = bodies.drop_last();
        lemma_flatten_last(bodies);
        assert forall|i: int| 0 <= i < a.len() implies (#[trigger] a[i]).size == b[i].len() by {
            assert(a[i] == infos[i]);
        }
        lemma_total_size(a, b);
        assert(infos[infos.len() - 1].size == bodies[bodies.len() - 1].len());
    }
}

/// The blocks of a completed upload are those of all its parts, one part after the other.
pub proof fn lemma_all_blocks(infos: Seq<PartInfo>)
    ensures
        parts::all_blocks(infos) == infos.map_values(|p: PartInfo| p.blocks).flatten(),
    decreases infos.len(),
{
    let m = infos.map_values(|p: PartInfo| p.blocks);
    if infos.len() > 0 {
        lemma_all_blocks(infos.drop_last());
        lemma_flatten_last(m);
        assert(m.drop_last() =~= infos.drop_last().map_values(|p: PartInfo| p.blocks));
        assert(m.last() == infos.last().blocks);
    }
}

/// Quotes around an etag are taken off, and nothing else.
pub proof fn lemma_unquoted(t: Seq<char>)
    requires
        t.len() == 0 || (t[0] != '"' && t.last() != '"'),
    ensures
        parts::unquoted(t) == t,
        parts::unquoted(seq!['"'] + t + seq!['"']) == t,
{
    let q = seq!['"'] + t + seq!['"'];
    assert(q[0] == '"');
    let a = q.drop_first();
    assert(a =~= t + seq!['"']);
    if t.len() > 0 {
        assert(a[0] == t[0]);
    }
    assert(a.last() == '"');
    assert(a.drop_last() =~= t);
    reveal_with_fuel(parts::unquoted, 3);
    if t.len() == 0 {
        assert(a[0] == '"');
        assert(a.drop_first() =~= t);
    }
}

/// Hexadecimal text is no quote anywhere.
proof fn lemma_hex_unquoted(d: Seq<u8>)
    ensures
        parts::unquoted(codec::hex_text(d)) == codec::hex_text(d),
        parts::unquoted(seq!['"'] + codec::hex_text(d) + seq!['"']) == codec::hex_text(d),
{
    let t = codec::hex_text(d);
    codec::lemma_hex_round_trip(d);
    if t.len() > 0 {
        assert(codec::is_hex_digit(t[0]));
        assert(codec::is_hex_digit(t[t.len() - 1]));
        assert(t.last() == t[t.len() - 1]);
    }
    lemma_unquoted(t);
}

/// `etag` writes `d` in hexadecimal, with or without quotes.
pub open spec fn writes_digest(etag: Seq<char>, d: Seq<u8>) -> bool {
    etag == codec::hex_text(d) || etag == seq!['"'] + codec::hex_text(d) + seq!['"']
}

/// The etag of a completed upload: the MD5 digest of the digests of all its parts, one after the
/// other, in hexadecimal, and behind a hyphen the number of its blocks.
pub proof fn lemma_combined_etag(infos: Seq<PartInfo>, digests: Seq<Seq<u8>>)
    requires
        infos.len() == digests.len(),
        forall|i: int|
            0 <= i < infos.len() ==> writes_digest((#[trigger] infos[i]).etag, digests[i]),
    ensures
        parts::readable_etags(infos),
        parts::combined_etag(infos) == codec::hex_text(digest::md5_digest(digests.flatten()))
            + seq!['-'] + text::decimal_text(
            infos.map_values(|p: PartInfo| p.blocks).flatten().len(),
        ),
{
    lemma_etag_bytes(infos, digests);
    lemma_all_blocks(infos);
    assert forall|i: int| 0 <= i < infos.len() implies codec::is_hex(
        parts::unquoted(#[trigger] infos[i].etag),
    ) by {
        lemma_hex_unquoted(digests[i]);
        codec::lemma_hex_round_trip(digests[i]);
        assert(writes_digest(infos[i].etag, digests[i]));
    }
    reveal_strlit("-");
    assert("-"@ =~= seq!['-']);
}

proof fn lemma_etag_bytes(infos: Seq<PartInfo>, digests: Seq<Seq<u8>>)
    requires
        infos.len() == digests.len(),
        forall|i: int|
            0 <= i < infos.len() ==> writes_digest((#[trigger] infos[i]).etag, digests[i]),
    ensures
        parts::etag_bytes(infos) == digests.flatten(),
    decreases infos.len(),
{
    if infos.len() > 0 {
        let a = infos.drop_last();
        let b = digests.drop_last();
        assert forall|i: int| 0 <= i < a.len() implies writes_digest((#[trigger] a[i]).etag, b[i]) by {
            assert(a[i] == infos[i]);
        }
        lemma_etag_bytes(a, b);
        lemma_flatten_last(digests);
        let d = digests.last();
        assert(writes_digest(infos[infos.len() - 1].etag, digests[infos.len() - 1]));
        lemma_hex_unquoted(d);
        codec::lemma_hex_round_trip(d);
    }
}

// ── the parts of an upload ───────────────────────────────────────────────────

/// The rows of `s` say of part `n` of an upload what `p` says.
pub open spec fn part_as(s: StoreView, bucket: Seq<char>, id: Seq<char>, p: PartInfo) -> bool {
    let k = ((bucket, id), p.number);
    &&& s.parts.dom().contains(k)
    &&& p.size == s.parts[k].size
    &&& p.etag == s.parts[k].etag
    &&& p.blocks.len() == s.parts[k].blocks.len() / 32
    &&& forall|i: int|
        0 <= i < p.blocks.len() ==> #[trigger] p.blocks[i] == hash_at(s.parts[k].blocks, i)
}

/// The parts of an upload are all that were recorded for it and no others, each once, in the order
/// of their numbers.
pub proof fn lemma_upload_parts(s: StoreView, bucket: Seq<char>, id: Seq<char>)
    requires
        table::enumerates(table::ordered(s.parts), s.parts),
    ensures
        ({
            let all = parts::upload_parts(s, bucket, id);
            &&& forall|i: int| 0 <= i < all.len() ==> part_as(s, bucket, id, #[trigger] all[i])
            &&& forall|i: int, j: int|
                0 <= i < j < all.len() ==> (#[trigger] all[i]).number < (#[trigger] all[j]).number
            &&& forall|n: i32|
                #![trigger s.parts[((bucket, id), n)]]
                s.parts.dom().contains(((bucket, id), n)) ==> exists|i: int|
                    0 <= i < all.len() && (#[trigger] all[i]).number == n
        }),
{
    let rows = table::ordered(s.parts);
    let p = multipart::of_upload(bucket, id);
    let f = multipart::as_info();
    let kept = rows.filter(p);
    let all = parts::upload_parts(s, bucket, id);
    table::lemma_filter_ascending(rows, p);
    assert forall|i: int| 0 <= i < all.len() implies part_as(s, bucket, id, #[trigger] all[i])
        && all[i].number == kept[i].0.1 && kept[i].0.0 == (bucket, id) by {
        assert(kept.contains(kept[i]));
        seqs::lemma_filter_members(rows, p, kept[i]);
    }
    assert forall|i: int, j: int| 0 <= i < j < all.len() implies (#[trigger] all[i]).number < (
    #[trigger] all[j]).number by {
        assert(kept[i].0.before(kept[j].0));
        assert(all[i].number == kept[i].0.1 && all[j].number == kept[j].0.1);
        <(Seq<char>, Seq<char>) as KeyOrder>::before_irreflexive(kept[i].0.0);
    }
    assert forall|n: i32|
        #![trigger s.parts[((bucket, id), n)]]
        s.parts.dom().contains(((bucket, id), n)) implies exists|i: int|
        0 <= i < all.len() && (#[trigger] all[i]).number == n by {
        let x = choose|x: int| 0 <= x < rows.len() && (#[trigger] rows[x]).0 == ((bucket, id), n);
        assert(p(rows[x]));
        seqs::lemma_filter_members(rows, p, rows[x]);
        assert(kept.contains(rows[x]));
        let i = choose|i: int| 0 <= i < kept.len() && kept[i] == rows[x];
        assert(all[i].number == n);
    }
}

/// An upload that is gone takes its parts with it, and nothing else.
pub proof fn lemma_upload_gone(
    s: StoreView,
    bucket: Seq<char>,
    id: Seq<char>,
    u: (Seq<char>, Seq<char>),
    n: i32,
)
    ensures
        ({
            let t = parts::upload_gone(s, bucket, id);
            &&& t.uploads.dom().contains(u) == (s.uploads.dom().contains(u) && u != (bucket, id))
            &&& t.uploads.dom().contains(u) ==> t.uploads[u] == s.uploads[u]
            &&& t.parts.dom().contains((u, n)) == (s.parts.dom().contains((u, n)) && u != (
                bucket,
                id,
            ))
            &&& t.parts.dom().contains((u, n)) ==> t.parts[(u, n)] == s.parts[(u, n)]
            &&& t == (StoreView { uploads: t.uploads, parts: t.parts, ..s })
        }),
{
}

/// Completing an upload leaves an object whose size is the length of the bodies of all parts
/// together and whose manifest names the blocks of all parts, one part after the other. The upload
/// and its parts are gone, and everything else is as it was.
pub proof fn lemma_completed(
    b: StorageBackend,
    s: StoreView,
    bucket: Seq<char>,
    key: Seq<char>,
    upload_id: Seq<char>,
    id: Seq<char>,
    ts: i64,
    out: CompleteOutput,
    bodies: Seq<Seq<u8>>,
    digests: Seq<Seq<u8>>,
)
    requires
        b.completed(s, bucket, key, upload_id, id, ts, out),
        s.last_seq < i64::MAX,
        overtakes(s.objects, (bucket, key), ts),
        ({
            let all = parts::upload_parts(s, bucket, id);
            &&& bodies.len() == all.len()
            &&& digests.len() == all.len()
            &&& forall|i: int|
                0 <= i < all.len() ==> (#[trigger] all[i]).size == bodies[i].len() && all[i].etag
                    == codec::hex_text(digests[i])
            &&& forall|i: int, j: int|
                0 <= i < all.len() && 0 <= j < all[i].blocks.len() ==> (
                #[trigger] all[i].blocks[j]).len() == 32
        }),
        bodies.flatten().len() <= i64::MAX,
    ensures
        ({
            let all = parts::upload_parts(s, bucket, id);
            let hashes = all.map_values(|p: PartInfo| p.blocks).flatten();
            let etag = codec::hex_text(digest::md5_digest(digests.flatten())) + seq!['-']
                + text::decimal_text(hashes.len());
            let t = b.db@;
            let row = t.objects[(bucket, key)];
            &&& t.objects.dom().contains((bucket, key))
            &&& !row.deleted
            &&& row.size == bodies.flatten().len()
            &&& row.updated_at == ts
            &&& row.etag == etag
            &&& row.blocks.len() == 32 * hashes.len()
            &&& forall|i: int|
                0 <= i < hashes.len() ==> #[trigger] hash_at(row.blocks, i) == hashes[i]
            &&& out.e_tag@ == seq!['"'] + etag + seq!['"']
            &&& seqs::views(out.taken.hashes@) == hashes
            &&& seqs::views(out.dropped.hashes@) == hashes
            &&& !t.uploads.dom().contains((bucket, id))
            &&& forall|n: i32| !(#[trigger] t.parts.dom().contains(((bucket, id), n)))
            &&& forall|u: (Seq<char>, Seq<char>)|
                u != (bucket, id) && s.uploads.dom().contains(u) ==> #[trigger] t.uploads[u]
                    == s.uploads[u]
            &&& forall|k: (Seq<char>, Seq<char>)|
                k != (bucket, key) && s.objects.dom().contains(k) ==> #[trigger] t.objects[k]
                    == s.objects[k]
        }),
{
    let all = parts::upload_parts(s, bucket, id);
    lemma_total_size(all, bodies);
    lemma_all_blocks(all);
    lemma_combined_etag(all, digests);
    let hashes = parts::all_blocks(all);
    lemma_hash_lengths(all);
    crate::laws::writes::lemma_put(
        s,
        bucket,
        crate::hashing::shard_of(key),
        key,
        hashes,
        parts::sum_sizes(all),
        parts::combined_etag(all),
        ts,
    );
    reveal_strlit("\"");
    assert("\""@ =~= seq!['"']);
}

proof fn lemma_hash_lengths(all: Seq<PartInfo>)
    requires
        forall|i: int, j: int|
            0 <= i < all.len() && 0 <= j < all[i].blocks.len() ==> (
            #[trigger] all[i].blocks[j]).len() == 32,
    ensures
        forall|i: int|
            0 <= i < parts::all_blocks(all).len() ==> (
            #[trigger] parts::all_blocks(all)[i]).len() == 32,
    decreases all.len(),
{
    if all.len() > 0 {
        let front = all.drop_last();
        assert forall|i: int, j: int| 0 <= i < front.len() && 0 <= j
            < front[i].blocks.len() implies (#[trigger] front[i].blocks[j]).len() == 32 by {
            assert(all[i].blocks[j].len() == 32);
        }
        lemma_hash_lengths(front);
        let a = parts::all_blocks(front);
        let z = all.last().blocks;
        assert forall|i: int| 0 <= i < (a + z).len() implies (#[trigger] (a + z)[i]).len() == 32 by {
            if i >= a.len() {
                assert(all[all.len() - 1].blocks[i - a.len()].len() == 32);
            }
        }
    }
}

// ── listings ─────────────────────────────────────────────────────────────────

/// How many rows a page may have: what was asked for, at least one; a thousand where nothing was
/// asked for.
pub open spec fn page_size(max: Option<i32>) -> int {
    match max {
        None => 1000,
        Some(n) => if n < 1 {
            1
        } else {
            n as int
        },
    }
}

/// ListParts lists the parts behind the marker in their order, as many as a page may have; says
/// that there are more exactly where there are; and then names the last part listed, behind which
/// the next page starts.
pub proof fn lemma_parts_page(
    all: Seq<PartInfo>,
    marker: Option<Seq<char>>,
    max_parts: Option<i32>,
    out: PartsOutput,
)
    requires
        parts::parts_answer(all, marker, max_parts, out),
    ensures
        ({
            let m = parts::marker_number(marker);
            let rest = all.filter(|p: PartInfo| p.number > m);
            let n = page_size(max_parts);
            &&& out.parts@.len() == (if rest.len() <= n {
                rest.len() as int
            } else {
                n
            })
            &&& forall|i: int|
                0 <= i < out.parts@.len() ==> (#[trigger] out.parts@[i]).0 == rest[i].number
                    && out.parts@[i].1 == rest[i].size && out.parts@[i].2@ == seq!['"']
                    + rest[i].etag + seq!['"']
            &&& out.is_truncated == (rest.len() > n)
            &&& out.max_parts == n
            &&& out.next_part_number_marker is Some == out.is_truncated
            &&& out.is_truncated ==> out.next_part_number_marker->0@ == text::signed_text(
                rest[n - 1].number as int,
            )
        }),
        parts::marker_number(None) == 0,
        marker matches Some(t) ==> (text::decimal_value(t, true) matches Some(v) ==> i32::MIN <= v
            <= i32::MAX ==> parts::marker_number(marker) == v),
{
    let m = parts::marker_number(marker);
    let q = |p: PartInfo| p.number > m;
    crate::laws::pulls::lemma_same_filter(all, parts::behind_part(m), q);
    let rest = all.filter(q);
    let rows = seqs::pick(all, parts::behind_part(m), parts::part_row());
    let kept = seqs::views(out.parts@);
    reveal_strlit("\"");
    assert("\""@ =~= seq!['"']);
    assert(rows.len() == rest.len());
    assert forall|i: int| 0 <= i < out.parts@.len() implies (#[trigger] out.parts@[i]).0
        == rest[i].number && out.parts@[i].1 == rest[i].size && out.parts@[i].2@ == seq!['"']
        + rest[i].etag + seq!['"'] by {
        assert(kept[i] == out.parts@[i]@);
        assert(kept[i] == rows[i]);
    }
}

/// ListMultipartUploads lists the first uploads of the listing, as many as a page may have, and
/// says whether there are more.
pub proof fn lemma_uploads_page(
    all: Seq<(Seq<char>, Seq<char>)>,
    max_uploads: Option<i32>,
    out: UploadsOutput,
)
    requires
        parts::uploads_answer(all, max_uploads, out),
    ensures
        ({
            let n = page_size(max_uploads);
            let shown = match out.uploads {
                Some(v) => seqs::views(v@),
                None => seq![],
            };
            &&& out.uploads is Some == (all.len() > 0)
            &&& shown.len() == (if all.len() <= n {
                all.len() as int
            } else {
                n
            })
            &&& forall|i: int| 0 <= i < shown.len() ==> #[trigger] shown[i] == all[i]
            &&& out.max_uploads == n
            &&& out.is_truncated == (all.len() > n)
            &&& out.next_key_marker is Some == out.is_truncated
            &&& out.is_truncated ==> out.next_key_marker->0@ == all[n - 1].0
        }),
{
}

/// The listing of uploads has the uploads of the bucket whose keys start with the prefix and are
/// behind the marker, each once, in the order of key and id.
pub proof fn lemma_upload_listing(
    uploads: Map<(Seq<char>, Seq<char>), Seq<char>>,
    bucket: Seq<char>,
    prefix: Option<Seq<char>>,
    marker: Option<Seq<char>>,
    key: Seq<char>,
    id: Seq<char>,
)
    requires
        table::enumerates(table::ordered(uploads), uploads),
    ensures
        ({
            let all = multipart::upload_listing(uploads, bucket, prefix, marker).map_values(
                multipart::listed_upload(),
            );
            &&& all.contains((key, id)) == (uploads.dom().contains((bucket, id)) && uploads[(
                bucket,
                id,
            )] == key && (prefix matches Some(p) ==> p.is_prefix_of(key)) && (marker matches Some(
                m,
            ) ==> m.before(key)))
            &&& forall|i: int, j: int|
                0 <= i < j < all.len() ==> (#[trigger] all[i]).before(#[trigger] all[j])
        }),
{
    let rows = table::ordered(uploads);
    let p = multipart::in_upload_listing(bucket, prefix, marker);
    let f = multipart::by_key();
    let picked = seqs::pick(rows, p, f);
    let kept = rows.filter(p);
    table::lemma_filter_ascending(rows, p);
    assert forall|i: int, j: int| 0 <= i < j < picked.len() implies (#[trigger] picked[i]).0 != (
    #[trigger] picked[j]).0 by {
        assert(kept.contains(kept[i]) && kept.contains(kept[j]));
        seqs::lemma_filter_members(rows, p, kept[i]);
        seqs::lemma_filter_members(rows, p, kept[j]);
        assert(kept[i].0.before(kept[j].0));
        <(Seq<char>, Seq<char>) as KeyOrder>::before_irreflexive(kept[i].0);
        assert(picked[i].0 == (kept[i].1, kept[i].0.1));
        assert(picked[j].0 == (kept[j].1, kept[j].0.1));
    }
    table::lemma_sort_distinct(picked);
    let sorted = table::stable_sort(picked);
    let all = sorted.map_values(multipart::listed_upload());
    let e = ((key, id), ());
    seqs::lemma_pick_members(rows, p, f, e);
    assert(sorted.contains(e) == picked.contains(e));
    if all.contains((key, id)) {
        let i = choose|i: int| 0 <= i < all.len() && all[i] == (key, id);
        assert(sorted[i] == e);
    }
    if sorted.contains(e) {
        let i = choose|i: int| 0 <= i < sorted.len() && sorted[i] == e;
        assert(all[i] == (key, id));
    }
    if uploads.dom().contains((bucket, id)) && uploads[(bucket, id)] == key {
        let x = choose|x: int| 0 <= x < rows.len() && (#[trigger] rows[x]).0 == (bucket, id);
        assert(f(rows[x]) == e);
    }
    assert forall|i: int, j: int| 0 <= i < j < all.len() implies (#[trigger] all[i]).before(
        #[trigger] all[j],
    ) by {
        assert(sorted[i].0.before(sorted[j].0));
    }
}

// ── the range of a copied part ───────────────────────────────────────────────

/// A part copies the bytes that `first-last` names, with or without `bytes=` in front; all of the
/// source where no range is given.
pub proof fn lemma_copied_range(
    first: Seq<char>,
    last: Seq<char>,
    a: u64,
    b: u64,
    src_size: i64,
    r: Result<(u64, u64), S3Error>,
)
    requires
        text::decimal_value(first, false) == Some(a as int),
        text::decimal_value(last, false) == Some(b as int),
    ensures
        parts::copy_range_answer(Some(first + seq!['-'] + last), src_size, r) ==> r == Ok::<
            (u64, u64),
            S3Error,
        >((a, b)),
        parts::copy_range_answer(
            Some("bytes="@ + (first + seq!['-'] + last)),
            src_size,
            r,
        ) ==> r == Ok::<(u64, u64), S3Error>((a, b)),
        parts::copy_range_answer(None, src_size, r) && src_size > 0 ==> (r matches Ok(x) && x.0 == 0
            && x.1 == src_size - 1),
        parts::copy_range_answer(None, src_size, r) && src_size == 0 ==> (r matches Ok(x) && x.0
            == 0 && x.1 == 0),
{
    let t = first + seq!['-'] + last;
    reveal_strlit("bytes=");
    lemma_no_hyphen(first);
    assert(t[first.len() as int] == '-');
    assert forall|i: int| 0 <= i < first.len() implies t[i] != '-' by {
        assert(t[i] == first[i]);
    }
    assert(t.contains('-'));
    t.index_of_first_ensures('-');
    let at = t.index_of_first('-').unwrap();
    assert(at == first.len());
    assert(t.take(at) =~= first);
    assert(t.skip(at + 1) =~= last);
    let p = "bytes="@;
    assert((p + t).skip(p.len() as int) =~= t);
    assert(p.is_prefix_of(p + t));
    if p.is_prefix_of(t) {
        assert(t[0] == p[0]);
        if first.len() > 0 {
            assert(t[0] == first[0]);
            if first[0] == '+' {
            } else {
                assert(text::all_digits(first));
                assert(text::is_digit(first[0]));
            }
        }
        assert(false);
    }
}

proof fn lemma_no_hyphen(s: Seq<char>)
    requires
        text::decimal_value(s, false) is Some,
    ensures
        s.len() > 0,
        forall|i: int| 0 <= i < s.len() ==> #[trigger] s[i] != '-',
{
    let digits = if s[0] == '+' {
        s.drop_first()
    } else {
        s
    };
    assert(text::all_digits(digits));
    assert forall|i: int| 0 <= i < s.len() implies #[trigger] s[i] != '-' by {
        if s[0] == '+' {
            if i > 0 {
                assert(digits[i - 1] == s[i]);
                assert(text::is_digit(digits[i - 1]));
            }
        } else {
            assert(text::is_digit(digits[i]));
        }
    }
}

/// The size of an upload grows by the size of each part, whatever the sizes, as long as it fits.
pub proof fn lemma_sizes_add(infos: Seq<PartInfo>, last: PartInfo)
    ensures
        parts::sum_sizes(seq![]) == 0,
        i64::MIN <= parts::sum_sizes(infos) + last.size <= i64::MAX ==> parts::sum_sizes(
            infos.push(last),
        ) == parts::sum_sizes(infos) + last.size,
{
    assert(infos.push(last).drop_last() =~= infos);
}

/// A range with no hyphen, or with something else than a number on either side of its first one, is
/// refused.
pub proof fn lemma_range_refused(
    first: Seq<char>,
    last: Seq<char>,
    src_size: i64,
    r: Result<(u64, u64), S3Error>,
)
    requires
        !first.contains('-'),
    ensures
        ({
            let p = "bytes="@;
            let a = text::decimal_value(first, false);
            let b = text::decimal_value(last, false);
            &&& parts::copy_range_answer(Some(p + first), src_size, r) ==> (r matches Err(e) && e@
                == (ErrorView {
                code: S3Code::InvalidArgument,
                message: Some("Invalid copy source range"@),
            }))
            &&& parts::copy_range_answer(Some(p + (first + seq!['-'] + last)), src_size, r) && (a
                is None || a.unwrap() > u64::MAX) ==> (r matches Err(e) && e@ == (ErrorView {
                code: S3Code::InvalidArgument,
                message: Some("Invalid range start"@),
            }))
            &&& parts::copy_range_answer(Some(p + (first + seq!['-'] + last)), src_size, r) && (a
                matches Some(n) && n <= u64::MAX) && (b is None || b.unwrap() > u64::MAX) ==> (r
                matches Err(e) && e@ == (ErrorView {
                code: S3Code::InvalidArgument,
                message: Some("Invalid range end"@),
            }))
        }),
{
    let p = "bytes="@;
    let t = first + seq!['-'] + last;
    assert((p + first).skip(p.len() as int) =~= first);
    assert((p + first).subrange(0, p.len() as int) =~= p);
    assert((p + t).skip(p.len() as int) =~= t);
    assert((p + t).subrange(0, p.len() as int) =~= p);
    assert(t[first.len() as int] == '-');
    assert forall|i: int| 0 <= i < first.len() implies t[i] != '-' by {
        assert(t[i] == first[i]);
        assert(first.contains(first[i]));
    }
    assert(t.contains('-'));
    t.index_of_first_ensures('-');
    let at = t.index_of_first('-').unwrap();
    assert(at == first.len());
    assert(t.take(at) =~= first);
    assert(t.skip(at + 1) =~= last);
}

/// An upload that is put together is gone, even where a newer object keeps its place.
pub proof fn lemma_completed_late(
    b: StorageBackend,
    s: StoreView,
    bucket: Seq<char>,
    key: Seq<char>,
    upload_id: Seq<char>,
    id: Seq<char>,
    ts: i64,
    out: CompleteOutput,
)
    requires
        b.completed(s, bucket, key, upload_id, id, ts, out),
        s.last_seq < i64::MAX,
        !overtakes(s.objects, (bucket, key), ts),
    ensures
        b.db@.objects == s.objects,
        !b.db@.uploads.dom().contains((bucket, id)),
        forall|n: i32| !(#[trigger] b.db@.parts.dom().contains(((bucket, id), n))),
        b.db@.last_seq == s.last_seq + 1,
{
}

} // verus!
