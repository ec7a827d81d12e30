//! Multipart uploads in progress.

use vstd::prelude::*;

use crate::blockmeta::Present;
use crate::listing;
use crate::order;
use crate::order::{KeyOrder, Rank, TableKey};
use crate::rows::{PartRow, PartView};
use crate::seqs;
use crate::store;
use crate::store::{Store, StoreView};
use crate::table;
use crate::text;

verus! {

// ── upload ids ───────────────────────────────────────────────────────────────

/// The error of `Uuid::parse_str`.
#[verifier::external_type_specification]
#[verifier::external_body]
pub struct ExUuidError(uuid::Error);

/// The hyphenated lower-case text of the UUID that a text writes, where it writes one.
pub uninterp spec fn canonical_uuid(s: Seq<char>) -> Option<Seq<char>>;

/// `Uuid::parse_str`, and the hyphenated lower-case text of the UUID.
#[verifier::external_body]
fn parse_uuid(s: &str) -> (r: Result<String, uuid::Error>)
    ensures
        r is Ok == canonical_uuid(s@) is Some,
        r matches Ok(t) ==> canonical_uuid(s@) == Some(t@),
{
    uuid::Uuid::parse_str(s).map(|u| u.to_string())
}

/// `Uuid::new_v4`: a random UUID, as hyphenated lower-case text, which is how it is parsed and
/// written again. Which one is left to chance.
#[verifier::external_body]
pub(crate) fn random_uuid() -> (r: String)
    ensures
        canonical_uuid(r@) == Some(r@),
{
    uuid::Uuid::new_v4().to_string()
}

/// The id that a request names, in the form in which the store keeps ids.
pub fn parse_upload_id(s: &str) -> (r: Option<String>)
    ensures
        r is Some == canonical_uuid(s@) is Some,
        r matches Some(t) ==> canonical_uuid(s@) == Some(t@),
{
    match parse_uuid(s) {
        Ok(t) => Some(t),
        Err(_) => None,
    }
}

// ── uploads and parts ────────────────────────────────────────────────────────

/// The number, block hashes, size and etag of a part.
pub type PartTuple = (i32, Vec<Vec<u8>>, i64, String);

pub struct PartInfo {
    pub number: i32,
    pub blocks: Seq<Seq<u8>>,
    pub size: i64,
    pub etag: Seq<char>,
}

/// The contents of a part.
pub open spec fn part_info(t: PartTuple) -> PartInfo {
    PartInfo { number: t.0, blocks: seqs::views(t.1@), size: t.2, etag: t.3@ }
}

/// The contents of a list of parts.
pub open spec fn part_infos(v: Seq<PartTuple>) -> Seq<PartInfo> {
    Seq::new(v.len(), |i: int| part_info(v[i]))
}

/// A part row with its key.
pub type PartEntry = (((Seq<char>, Seq<char>), i32), PartView);

/// The parts of an upload.
pub open spec fn of_upload(bucket: Seq<char>, upload_id: Seq<char>) -> spec_fn(PartEntry) -> bool {
    |e: PartEntry| e.0.0 == (bucket, upload_id)
}

/// What a list of parts says of a part.
pub open spec fn as_info() -> spec_fn(PartEntry) -> PartInfo {
    |e: PartEntry|
        PartInfo {
            number: e.0.1,
            blocks: store::decoded(e.1.blocks),
            size: e.1.size,
            etag: e.1.etag,
        }
}

/// The parts of an upload in the order of their numbers.
pub open spec fn parts_of(
    parts: Map<((Seq<char>, Seq<char>), i32), PartView>,
    bucket: Seq<char>,
    upload_id: Seq<char>,
) -> Seq<PartInfo> {
    seqs::pick(table::ordered(parts), of_upload(bucket, upload_id), as_info())
}

/// With an upload started for a key.
pub open spec fn with_upload(
    s: StoreView,
    bucket: Seq<char>,
    upload_id: Seq<char>,
    key: Seq<char>,
) -> StoreView {
    StoreView { uploads: s.uploads.insert((bucket, upload_id), key), ..s }
}

/// The key that an upload is for.
pub open spec fn key_of(s: StoreView, bucket: Seq<char>, upload_id: Seq<char>) -> Option<
    Seq<char>,
> {
    if s.uploads.dom().contains((bucket, upload_id)) {
        Some(s.uploads[(bucket, upload_id)])
    } else {
        None
    }
}

/// With a part of an upload stored under its number.
pub open spec fn with_part(
    s: StoreView,
    bucket: Seq<char>,
    upload_id: Seq<char>,
    part_number: i32,
    hashes: Seq<Seq<u8>>,
    size: i64,
    etag: Seq<char>,
) -> StoreView {
    StoreView {
        parts: s.parts.insert(
            ((bucket, upload_id), part_number),
            PartView { blocks: crate::chunking::joined(hashes), size, etag },
        ),
        ..s
    }
}

/// The parts of all other uploads.
pub open spec fn without_parts(
    parts: Map<((Seq<char>, Seq<char>), i32), PartView>,
    bucket: Seq<char>,
    upload_id: Seq<char>,
) -> Map<((Seq<char>, Seq<char>), i32), PartView> {
    Map::new(
        |k: ((Seq<char>, Seq<char>), i32)| parts.dom().contains(k) && k.0 != (bucket, upload_id),
        |k: ((Seq<char>, Seq<char>), i32)| parts[k],
    )
}

/// An upload row with its key: bucket and upload id.
pub type UploadEntry = ((Seq<char>, Seq<char>), Seq<char>);

/// The uploads of a bucket behind the marker whose keys start with the prefix.
pub open spec fn in_upload_listing(
    bucket: Seq<char>,
    prefix: Option<Seq<char>>,
    key_marker: Option<Seq<char>>,
) -> spec_fn(UploadEntry) -> bool {
    |e: UploadEntry|
        {
            &&& e.0.0 == bucket
            &&& match prefix {
                Some(p) => p.is_prefix_of(e.1),
                None => true,
            }
            &&& match key_marker {
                Some(m) => m.before(e.1),
                None => true,
            }
        }
}

/// An upload by its key and id.
pub open spec fn by_key() -> spec_fn(UploadEntry) -> ((Seq<char>, Seq<char>), ()) {
    |e: UploadEntry| ((e.1, e.0.1), ())
}

/// What a listing says of an upload: its key and id.
pub open spec fn listed_upload() -> spec_fn(((Seq<char>, Seq<char>), ())) -> (Seq<char>, Seq<char>) {
    |e: ((Seq<char>, Seq<char>), ())| e.0
}

/// The uploads of a listing, in the order of their keys and ids.
pub open spec fn upload_listing(
    uploads: Map<(Seq<char>, Seq<char>), Seq<char>>,
    bucket: Seq<char>,
    prefix: Option<Seq<char>>,
    key_marker: Option<Seq<char>>,
) -> Seq<((Seq<char>, Seq<char>), ())> {
    table::stable_sort(
        seqs::pick(
            table::ordered(uploads),
            in_upload_listing(bucket, prefix, key_marker),
            by_key(),
        ),
    )
}

fn upload_key(bucket: &str, upload_id: &str) -> (r: (String, String))
    ensures
        r@ == (bucket@, upload_id@),
{
    (bucket.to_string(), upload_id.to_string())
}

impl Store {
    /// Records a new upload of `key`.
    pub fn insert_multipart(&mut self, bucket: &str, upload_id: &str, key: &str)
        ensures
            final(self)@ == with_upload(old(self)@, bucket@, upload_id@, key@),
            final(self).clock == old(self).clock,
    {
        self.multipart_uploads.insert(upload_key(bucket, upload_id), key.to_string());
    }

    /// The key that an upload is for.
    pub fn get_multipart_key(&self, bucket: &str, upload_id: &str) -> (r: Option<String>)
        ensures
            r is Some == key_of(self@, bucket@, upload_id@) is Some,
            r matches Some(k) ==> key_of(self@, bucket@, upload_id@) == Some(k@),
    {
        match self.multipart_uploads.get(&upload_key(bucket, upload_id)) {
            Some(k) => Some(k.clone()),
            None => None,
        }
    }

    /// Forgets an upload and its parts.
    pub fn delete_multipart_upload(&mut self, bucket: &str, upload_id: &str)
        ensures
            final(self)@ == (StoreView {
                uploads: old(self)@.uploads.remove((bucket@, upload_id@)),
                parts: without_parts(old(self)@.parts, bucket@, upload_id@),
                ..old(self)@
            }),
            final(self).clock == old(self).clock,
    {
        self.multipart_uploads.remove(&upload_key(bucket, upload_id));
        self.delete_parts(bucket, upload_id);
    }

    /// Forgets the parts of an upload.
    pub fn delete_parts(&mut self, bucket: &str, upload_id: &str)
        ensures
            final(self)@ == (StoreView {
                parts: without_parts(old(self)@.parts, bucket@, upload_id@),
                ..old(self)@
            }),
            final(self).clock == old(self).clock,
    {
        let ghost before = self@;
        let ghost target = (bucket@, upload_id@);
        let total: usize = self.parts.len();
        let mut i: usize = 0;
        while i < self.parts.len()
            invariant
                before == old(self)@,
                target == (bucket@, upload_id@),
                self.clock == old(self).clock,
                self@ == (StoreView { parts: self@.parts, ..before }),
                i <= table::ordered(self@.parts).len(),
                table::enumerates(table::ordered(self@.parts), self@.parts),
                forall|j: int|
                    0 <= j < i ==> (#[trigger] table::ordered(self@.parts)[j]).0.0 != target,
                forall|k: ((Seq<char>, Seq<char>), i32)| #[trigger]
                    self@.parts.dom().contains(k) ==> before.parts.dom().contains(k)
                        && self@.parts[k] == before.parts[k],
                forall|k: ((Seq<char>, Seq<char>), i32)| #[trigger]
                    before.parts.dom().contains(k) && k.0 != target ==> self@.parts.dom().contains(
                        k,
                    ),
            decreases table::ordered(self@.parts).len() - i,
        {
            let ghost s = table::ordered(self@.parts);
            let k = self.parts.key_at(i);
            let same = text::same_text(k.0.0.as_str(), bucket) && text::same_text(
                k.0.1.as_str(),
                upload_id,
            );
            assert(same == (s[i as int].0.0 == target));
            if same {
                self.parts.remove_at(i);
                let left: usize = self.parts.len();
                proof {
                    assert forall|j: int| 0 <= j < i implies (
                    #[trigger] table::ordered(self@.parts)[j]).0.0 != target by {
                        assert(table::ordered(self@.parts)[j] == s[j]);
                    }
                }
            } else {
                i += 1;
            }
        }
        proof {
            assert forall|k: ((Seq<char>, Seq<char>), i32)| #[trigger]
                self@.parts.dom().contains(k) implies k.0 != target by {
                let s = table::ordered(self@.parts);
                let j = choose|j: int| 0 <= j < s.len() && (#[trigger] s[j]).0 == k;
            }
            assert(self@.parts =~= without_parts(before.parts, bucket@, upload_id@));
        }
    }

    /// Records a part, replacing one of the same number.
    pub fn insert_part(
        &mut self,
        bucket: &str,
        upload_id: &str,
        part_number: i32,
        blocks: Vec<Vec<u8>>,
        size: i64,
        etag: &str,
    )
        ensures
            final(self)@ == with_part(
                old(self)@,
                bucket@,
                upload_id@,
                part_number,
                seqs::views(blocks@),
                size,
                etag@,
            ),
            final(self).clock == old(self).clock,
    {
        let encoded = store::encode_blocks(&blocks);
        self.parts.insert(
            (upload_key(bucket, upload_id), part_number),
            PartRow { blocks: encoded, size, etag: etag.to_string() },
        );
    }

    /// The parts of an upload, in the order of their numbers.
    pub fn list_parts(&self, bucket: &str, upload_id: &str) -> (r: Vec<PartTuple>)
        ensures
            part_infos(r@) == parts_of(self@.parts, bucket@, upload_id@),
            table::enumerates(table::ordered(self@.parts), self@.parts),
    {
        let n: usize = self.parts.len();
        let ghost s = table::ordered(self@.parts);
        let ghost p = of_upload(bucket@, upload_id@);
        let ghost f = as_info();
        let mut out: Vec<PartTuple> = Vec::new();
        let mut i: usize = 0;
        proof {
            seqs::lemma_pick_none(s, p, f);
            assert(part_infos(out@) =~= seqs::pick(s.take(0), p, f));
        }
        while i < n
            invariant
                i <= n,
                n == s.len(),
                s == table::ordered(self@.parts),
                p == of_upload(bucket@, upload_id@),
                f == as_info(),
                part_infos(out@) == seqs::pick(s.take(i as int), p, f),
            decreases n - i,
        {
            let k = self.parts.key_at(i);
            proof {
                seqs::lemma_pick_step(s, p, f, i as int);
            }
            if text::same_text(k.0.0.as_str(), bucket) && text::same_text(
                k.0.1.as_str(),
                upload_id,
            ) {
                let row = self.parts.value_at(i);
                let item = (
                    k.1,
                    store::decode_blocks(row.blocks.as_slice()),
                    row.size,
                    row.etag.clone(),
                );
                proof {
                    assert(part_info(item) == f(s[i as int]));
                    assert(part_infos(out@.push(item)) =~= part_infos(out@).push(part_info(item)));
                }
                out.push(item);
            }
            i += 1;
        }
        proof {
            seqs::lemma_pick_none(s, p, f);
        }
        out
    }

    /// The uploads of a bucket as (key, upload id), in that order, one more than
    /// `max_uploads` at most.
    pub fn list_multipart_uploads(
        &self,
        bucket: &str,
        prefix: Option<&str>,
        key_marker: Option<&str>,
        max_uploads: usize,
    ) -> (r: Vec<(String, String)>)
        requires
            max_uploads < usize::MAX,
        ensures
            seqs::views(r@) == seqs::at_most(
                upload_listing(
                    self@.uploads,
                    bucket@,
                    listing::opt_text(prefix),
                    listing::opt_text(key_marker),
                ),
                max_uploads + 1,
            ).map_values(listed_upload()),
    {
        let pattern: Option<Vec<char>> = match prefix {
            Some(p) => Some(text::chars_of(p)),
            None => None,
        };
        let n: usize = self.multipart_uploads.len();
        let ghost s = table::ordered(self@.uploads);
        let ghost p = in_upload_listing(bucket@, listing::opt_text(prefix), listing::opt_text(key_marker));
        let ghost f = by_key();
        let mut found: Vec<((String, String), Present)> = Vec::new();
        let mut i: usize = 0;
        proof {
            seqs::lemma_pick_none(s, p, f);
            assert(seqs::views(found@) =~= table::stable_sort(seqs::pick(s.take(0), p, f)));
        }
        while i < n
            invariant
                i <= n,
                n == s.len(),
                s == table::ordered(self@.uploads),
                p == in_upload_listing(bucket@, listing::opt_text(prefix), listing::opt_text(key_marker)),
                f == by_key(),
                prefix is None ==> pattern is None,
                prefix matches Some(q) ==> (pattern matches Some(v) && v@ == q@),
                seqs::views(found@) == table::stable_sort(seqs::pick(s.take(i as int), p, f)),
                table::sorted(seqs::views(found@)),
            decreases n - i,
        {
            let k = self.multipart_uploads.key_at(i);
            let key = self.multipart_uploads.value_at(i);
            let matches_prefix = match &pattern {
                Some(v) => {
                    let chars = text::chars_of(key.as_str());
                    text::chars_start_with(chars.as_slice(), v.as_slice())
                },
                None => true,
            };
            let behind = match key_marker {
                Some(m) => match order::rank_text(m, key.as_str()) {
                    Rank::Less => true,
                    _ => false,
                },
                None => true,
            };
            let hit = text::same_text(k.0.as_str(), bucket) && matches_prefix && behind;
            proof {
                seqs::lemma_pick_step(s, p, f, i as int);
                assert(hit == p(s[i as int]));
            }
            if hit {
                proof {
                    let a = seqs::pick(s.take(i as int), p, f);
                    let b = seqs::pick(s.take(i + 1), p, f);
                    assert(b.drop_last() =~= a);
                    assert(b.last() == ((key@, k.1@), ()));
                }
                table::insert_sorted(&mut found, (key.clone(), k.1.clone()), Present);
            }
            i += 1;
        }
        proof {
            seqs::lemma_pick_none(s, p, f);
        }
        let ghost all = seqs::views(found@);
        let ghost g = listed_upload();
        let kept: usize = if found.len() > max_uploads + 1 {
            max_uploads + 1
        } else {
            found.len()
        };
        let mut out: Vec<(String, String)> = Vec::new();
        let mut j: usize = 0;
        assert(seqs::views(out@) =~= all.take(0).map_values(g));
        while j < kept
            invariant
                j <= kept <= found@.len(),
                all == seqs::views(found@),
                g == listed_upload(),
                seqs::views(out@) == all.take(j as int).map_values(g),
            decreases kept - j,
        {
            let item = found[j].0.duplicate();
            proof {
                seqs::lemma_views_push(out@, item);
                assert(all[j as int] == found@[j as int]@);
                assert(all.take(j + 1).map_values(g) =~= all.take(j as int).map_values(g).push(
                    item@,
                ));
            }
            out.push(item);
            j += 1;
        }
        assert(all.take(kept as int) =~= seqs::at_most(all, max_uploads + 1));
        out
    }
}

} // verus!
