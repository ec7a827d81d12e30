//! Listings of the object namespace.

use vstd::prelude::*;

use crate::hashing;
use crate::order;
use crate::order::{KeyOrder, Rank};
use crate::rows::ObjectView;
use crate::seqs;
use crate::store;
use crate::store::Store;
use crate::table;
use crate::text;

verus! {

/// An object row with its key.
pub type ObjectEntry = ((Seq<char>, Seq<char>), ObjectView);

/// Key, size and etag of an object.
pub type ListedView = (Seq<char>, i64, Seq<char>);

/// The view of an optional text.
pub open spec fn opt_text(o: Option<&str>) -> Option<Seq<char>> {
    match o {
        Some(s) => Some(s@),
        None => None,
    }
}

/// The objects that a listing of `bucket` is made of: the live ones whose keys start with the
/// prefix and are behind the cursor.
pub open spec fn in_listing(
    bucket: Seq<char>,
    after: Option<Seq<char>>,
    prefix: Option<Seq<char>>,
) -> spec_fn(ObjectEntry) -> bool {
    |e: ObjectEntry|
        {
            &&& e.0.0 == bucket
            &&& !e.1.deleted
            &&& match after {
                Some(a) => a.before(e.0.1),
                None => true,
            }
            &&& match prefix {
                Some(p) => p.is_prefix_of(e.0.1),
                None => true,
            }
        }
}

/// What a listing says of an object.
pub open spec fn listed() -> spec_fn(ObjectEntry) -> ListedView {
    |e: ObjectEntry| (e.0.1, e.1.size, e.1.etag)
}

/// The whole listing of `bucket`, in key order.
pub open spec fn listing(
    objects: Map<(Seq<char>, Seq<char>), ObjectView>,
    bucket: Seq<char>,
    after: Option<Seq<char>>,
    prefix: Option<Seq<char>>,
) -> Seq<ListedView> {
    seqs::pick(table::ordered(objects), in_listing(bucket, after, prefix), listed())
}

/// `shown` are the first of `all`, at most so many, and `more` says whether there are others.
pub open spec fn is_page(
    all: Seq<ListedView>,
    page_size: int,
    shown: Seq<ListedView>,
    more: bool,
) -> bool {
    shown == seqs::at_most(all, page_size) && more == (all.len() > page_size)
}

/// `r` names the buckets that hold a live object, in order, each with the earliest timestamp
/// of its live objects.
pub open spec fn bucket_listing(
    objects: Map<(Seq<char>, Seq<char>), ObjectView>,
    r: Seq<(Seq<char>, i64)>,
) -> bool {
    &&& table::ascending(r)
    &&& forall|k: (Seq<char>, Seq<char>)| #[trigger]
        store::live(objects, k) ==> exists|x: int| 0 <= x < r.len() && (#[trigger] r[x]).0 == k.0
    &&& forall|x: int|
        0 <= x < r.len() ==> is_earliest(objects, (#[trigger] r[x]).0, r[x].1)
}

/// `micros` is the earliest timestamp of the live objects of `bucket`.
pub open spec fn is_earliest(
    objects: Map<(Seq<char>, Seq<char>), ObjectView>,
    bucket: Seq<char>,
    micros: i64,
) -> bool {
    &&& exists|k: (Seq<char>, Seq<char>)| #[trigger]
        store::live(objects, k) && k.0 == bucket && objects[k].updated_at == micros
    &&& forall|k: (Seq<char>, Seq<char>)| #[trigger]
        store::live(objects, k) && k.0 == bucket ==> micros <= objects[k].updated_at
}

impl Store {
    /// Globally-sorted, paginated listing: the keys of one page with their sizes and etags,
    /// and whether there are more.
    pub fn list_objects(
        &self,
        bucket: &str,
        after: Option<&str>,
        prefix: Option<&str>,
        page_size: usize,
    ) -> (r: (Vec<(String, i64, String)>, bool))
        ensures
            is_page(
                listing(self@.objects, bucket@, opt_text(after), opt_text(prefix)),
                page_size as int,
                seqs::views(r.0@),
                r.1,
            ),
    {
        let range: Option<(String, Option<String>)> = match prefix {
            Some(p) => Some(hashing::prefix_key_range(p)),
            None => None,
        };
        let n: usize = self.objects.len();
        let ghost s = table::ordered(self@.objects);
        let ghost p = in_listing(bucket@, opt_text(after), opt_text(prefix));
        let ghost f = listed();
        let mut out: Vec<(String, i64, String)> = Vec::new();
        let mut count: usize = 0;
        let mut i: usize = 0;
        proof {
            seqs::lemma_pick_none(s, p, f);
            assert(seqs::views(out@) =~= seqs::pick(s.take(0), p, f));
        }
        while i < n
            invariant
                i <= n,
                n == s.len(),
                s == table::ordered(self@.objects),
                p == in_listing(bucket@, opt_text(after), opt_text(prefix)),
                f == listed(),
                prefix is None ==> range is None,
                prefix matches Some(q) ==> (range matches Some(b) && b.0@ == q@ && (b.1 is Some
                    == hashing::upper_bound(q@) is Some) && (b.1 matches Some(u)
                    ==> hashing::upper_bound(q@) == Some(u@)) && forall|key: Seq<char>| #[trigger]
                    hashing::in_range(key, q@) == q@.is_prefix_of(key)),
                count == seqs::pick(s.take(i as int), p, f).len(),
                count <= i,
                seqs::views(out@) == seqs::at_most(
                    seqs::pick(s.take(i as int), p, f),
                    page_size as int,
                ),
            decreases n - i,
        {
            let k = self.objects.key_at(i);
            let row = self.objects.value_at(i);
            let behind = match after {
                Some(a) => match order::rank_text(a, k.1.as_str()) {
                    Rank::Less => true,
                    _ => false,
                },
                None => true,
            };
            let low = match &range {
                Some(b) => match order::rank_text(k.1.as_str(), b.0.as_str()) {
                    Rank::Less => false,
                    _ => true,
                },
                None => true,
            };
            let high = match &range {
                Some(b) => match &b.1 {
                    Some(u) => match order::rank_text(k.1.as_str(), u.as_str()) {
                        Rank::Less => true,
                        _ => false,
                    },
                    None => true,
                },
                None => true,
            };
            assert(prefix matches Some(q) ==> hashing::in_range(k.1@, q@) == (low && high));
            let hit = text::same_text(k.0.as_str(), bucket) && !row.deleted && behind && low && high;
            proof {
                seqs::lemma_pick_step(s, p, f, i as int);
                assert(hit == p(s[i as int]));
            }
            if hit {
                if count < page_size {
                    let item = (k.1.clone(), row.size, row.etag.clone());
                    proof {
                        seqs::lemma_views_push(out@, item);
                        assert(item@ == f(s[i as int]));
                    }
                    out.push(item);
                } else {
                    assert(seqs::at_most(seqs::pick(s.take(i + 1), p, f), page_size as int)
                        =~= seqs::at_most(seqs::pick(s.take(i as int), p, f), page_size as int));
                }
                count += 1;
            }
            i += 1;
        }
        proof {
            seqs::lemma_pick_none(s, p, f);
        }
        (out, count > page_size)
    }

    /// Buckets are implicit (no bucket table), so they are derived from live objects, with
    /// the earliest object's `updated_at` (micros) as a stand-in creation date.
    pub fn list_buckets(&self) -> (r: Vec<(String, i64)>)
        ensures
            bucket_listing(self@.objects, seqs::views(r@)),
    {
        let n: usize = self.objects.len();
        let ghost m = self@.objects;
        let ghost s = table::ordered(m);
        let mut out: Vec<(String, i64)> = Vec::new();
        let mut i: usize = 0;
        while i < n
            invariant
                i <= n,
                n == s.len(),
                m == self@.objects,
                s == table::ordered(m),
                table::enumerates(s, m),
                table::ascending(seqs::views(out@)),
                buckets_of(s.take(i as int), seqs::views(out@)),
            decreases n - i,
        {
            let k = self.objects.key_at(i);
            let row = self.objects.value_at(i);
            let ghost before = seqs::views(out@);
            let ghost e = s[i as int];
            if !row.deleted {
                let same = if out.len() > 0 {
                    text::same_text(out[out.len() - 1].0.as_str(), k.0.as_str())
                } else {
                    false
                };
                if same {
                    let last = out.pop();
                    match last {
                        Some((name, micros)) => {
                            let low: i64 = if row.updated_at < micros {
                                row.updated_at
                            } else {
                                micros
                            };
                            out.push((name, low));
                            proof {
                                let after = seqs::views(out@);
                                assert(after =~= before.update(before.len() - 1, (e.0.0, low)));
                                lemma_bucket_merged(s, i as int, before, low);
                            }
                        },
                        None => {
                            assert(false);
                        },
                    }
                } else {
                    let item = (k.0.clone(), row.updated_at);
                    proof {
                        seqs::lemma_views_push(out@, item);
                        lemma_bucket_started(s, i as int, before);
                    }
                    out.push(item);
                }
            } else {
                proof {
                    lemma_bucket_skipped(s, i as int, before);
                }
            }
            i += 1;
        }
        proof {
            assert(s.take(n as int) =~= s);
            lemma_buckets_done(s, m, seqs::views(out@));
        }
        out
    }
}

/// `r` has the bucket of `e`, with a timestamp that is not behind that of `e`.
spec fn covered(r: Seq<(Seq<char>, i64)>, e: ObjectEntry) -> bool {
    exists|x: int| 0 <= x < r.len() && (#[trigger] r[x]).0 == e.0.0 && r[x].1 <= e.1.updated_at
}

/// A live entry of `s` has the bucket and the timestamp of `b`.
spec fn backed(s: Seq<ObjectEntry>, b: (Seq<char>, i64)) -> bool {
    exists|j: int|
        0 <= j < s.len() && !(#[trigger] s[j]).1.deleted && s[j].0.0 == b.0 && s[j].1.updated_at
            == b.1
}

/// `r` lists the buckets of the live entries of `s`, each with the earliest timestamp.
spec fn buckets_of(s: Seq<ObjectEntry>, r: Seq<(Seq<char>, i64)>) -> bool {
    &&& forall|j: int| 0 <= j < s.len() && !s[j].1.deleted ==> #[trigger] covered(r, s[j])
    &&& forall|x: int| 0 <= x < r.len() ==> #[trigger] backed(s, r[x])
}

proof fn lemma_backed_longer(s: Seq<ObjectEntry>, i: int, b: (Seq<char>, i64))
    requires
        0 <= i < s.len(),
        backed(s.take(i), b),
    ensures
        backed(s.take(i + 1), b),
{
    let j = choose|j: int|
        0 <= j < i && !(#[trigger] s.take(i)[j]).1.deleted && s.take(i)[j].0.0 == b.0 && s.take(
            i,
        )[j].1.updated_at == b.1;
    assert(s.take(i + 1)[j] == s.take(i)[j]);
}

proof fn lemma_bucket_skipped(s: Seq<ObjectEntry>, i: int, r: Seq<(Seq<char>, i64)>)
    requires
        0 <= i < s.len(),
        buckets_of(s.take(i), r),
        s[i].1.deleted,
    ensures
        buckets_of(s.take(i + 1), r),
{
    let a = s.take(i);
    let b = s.take(i + 1);
    assert forall|j: int| 0 <= j < b.len() && !b[j].1.deleted implies #[trigger] covered(
        r,
        b[j],
    ) by {
        assert(covered(r, a[j]));
    }
    assert forall|x: int| 0 <= x < r.len() implies #[trigger] backed(b, r[x]) by {
        assert(backed(a, r[x]));
        lemma_backed_longer(s, i, r[x]);
    }
}

proof fn lemma_bucket_started(s: Seq<ObjectEntry>, i: int, r: Seq<(Seq<char>, i64)>)
    requires
        0 <= i < s.len(),
        table::ascending(s),
        table::ascending(r),
        buckets_of(s.take(i), r),
        !s[i].1.deleted,
        r.len() == 0 || r.last().0 != s[i].0.0,
    ensures
        buckets_of(s.take(i + 1), r.push((s[i].0.0, s[i].1.updated_at))),
        table::ascending(r.push((s[i].0.0, s[i].1.updated_at))),
{
    let a = s.take(i);
    let b = s.take(i + 1);
    let e = s[i];
    let q = r.push((e.0.0, e.1.updated_at));
    assert forall|j: int| 0 <= j < b.len() && !b[j].1.deleted implies #[trigger] covered(
        q,
        b[j],
    ) by {
        if j < i {
            assert(covered(r, a[j]));
            let x = choose|x: int|
                0 <= x < r.len() && (#[trigger] r[x]).0 == a[j].0.0 && r[x].1
                    <= a[j].1.updated_at;
            assert(q[x] == r[x]);
        } else {
            assert(q[r.len() as int].0 == b[j].0.0);
        }
    }
    assert forall|x: int| 0 <= x < q.len() implies #[trigger] backed(b, q[x]) by {
        if x < r.len() {
            assert(backed(a, r[x]));
            lemma_backed_longer(s, i, r[x]);
        } else {
            assert(b[i] == e);
        }
    }
    if r.len() > 0 {
        // The last bucket so far comes from an earlier entry.
        let last = r.len() - 1;
        assert(backed(a, r[last]));
        let j = choose|j: int|
            0 <= j < a.len() && !(#[trigger] a[j]).1.deleted && a[j].0.0 == r[last].0
                && a[j].1.updated_at == r[last].1;
        assert(s[j].0.before(s[i].0));
        assert(a[j] == s[j]);
        assert(r[last].0.before(e.0.0));
        assert forall|x: int, y: int| 0 <= x < y < q.len() implies (#[trigger] q[x]).0.before(
            (#[trigger] q[y]).0,
        ) by {
            if y < r.len() {
                assert(r[x].0.before(r[y].0));
            } else if x < last {
                assert(r[x].0.before(r[last].0));
                <Seq<char> as KeyOrder>::before_transitive(r[x].0, r[last].0, e.0.0);
            }
        }
    }
}

proof fn lemma_bucket_merged(s: Seq<ObjectEntry>, i: int, r: Seq<(Seq<char>, i64)>, low: i64)
    requires
        0 <= i < s.len(),
        table::ascending(r),
        buckets_of(s.take(i), r),
        !s[i].1.deleted,
        r.len() > 0,
        r.last().0 == s[i].0.0,
        low == (if s[i].1.updated_at < r.last().1 {
            s[i].1.updated_at
        } else {
            r.last().1
        }),
    ensures
        buckets_of(s.take(i + 1), r.update(r.len() - 1, (s[i].0.0, low))),
        table::ascending(r.update(r.len() - 1, (s[i].0.0, low))),
{
    let a = s.take(i);
    let b = s.take(i + 1);
    let e = s[i];
    let last = r.len() - 1;
    let q = r.update(last, (e.0.0, low));
    assert forall|j: int| 0 <= j < b.len() && !b[j].1.deleted implies #[trigger] covered(
        q,
        b[j],
    ) by {
        if j < i {
            assert(covered(r, a[j]));
            let x = choose|x: int|
                0 <= x < r.len() && (#[trigger] r[x]).0 == a[j].0.0 && r[x].1
                    <= a[j].1.updated_at;
            assert(q[x].0 == r[x].0 && q[x].1 <= r[x].1);
        } else {
            assert(q[last].0 == b[j].0.0);
        }
    }
    assert forall|x: int| 0 <= x < q.len() implies #[trigger] backed(b, q[x]) by {
        if x == last && low == e.1.updated_at {
            assert(b[i] == e);
        } else {
            assert(q[x] == r[x]);
            assert(backed(a, r[x]));
            lemma_backed_longer(s, i, r[x]);
        }
    }
    assert forall|x: int, y: int| 0 <= x < y < q.len() implies (#[trigger] q[x]).0.before(
        (#[trigger] q[y]).0,
    ) by {
        assert(r[x].0.before(r[y].0));
    }
}

proof fn lemma_buckets_done(
    s: Seq<ObjectEntry>,
    m: Map<(Seq<char>, Seq<char>), ObjectView>,
    r: Seq<(Seq<char>, i64)>,
)
    requires
        table::enumerates(s, m),
        table::ascending(r),
        buckets_of(s, r),
    ensures
        bucket_listing(m, r),
{
    assert forall|k: (Seq<char>, Seq<char>)| #[trigger] store::live(m, k) implies covered(
        r,
        (k, m[k]),
    ) by {
        let j = choose|j: int| 0 <= j < s.len() && (#[trigger] s[j]).0 == k;
        assert(covered(r, s[j]));
    }
    assert forall|k: (Seq<char>, Seq<char>)| #[trigger] store::live(m, k) implies exists|x: int|
        0 <= x < r.len() && (#[trigger] r[x]).0 == k.0 by {
        assert(covered(r, (k, m[k])));
    }
    assert forall|x: int| 0 <= x < r.len() implies is_earliest(m, (#[trigger] r[x]).0, r[x].1) by {
        assert(backed(s, r[x]));
        let j = choose|j: int|
            0 <= j < s.len() && !(#[trigger] s[j]).1.deleted && s[j].0.0 == r[x].0
                && s[j].1.updated_at == r[x].1;
        assert(store::live(m, s[j].0));
        assert forall|k: (Seq<char>, Seq<char>)| #[trigger]
            store::live(m, k) && k.0 == r[x].0 implies r[x].1 <= m[k].updated_at by {
            assert(covered(r, (k, m[k])));
            let y = choose|y: int|
                0 <= y < r.len() && (#[trigger] r[y]).0 == k.0 && r[y].1 <= m[k].updated_at;
            <Seq<char> as KeyOrder>::before_irreflexive(k.0);
            if x < y {
                assert(r[x].0.before(r[y].0));
            } else if y < x {
                assert(r[y].0.before(r[x].0));
            }
        }
    }
}

// ── pagination ───────────────────────────────────────────────────────────────

/// The entries behind `k` in key order.
spec fn behind_key(k: Seq<char>) -> spec_fn(ObjectEntry) -> bool {
    |e: ObjectEntry| k.before(e.0.1)
}

/// Pagination: the listing behind the last key of a page continues where the page ended.
pub proof fn lemma_next_page(
    objects: Map<(Seq<char>, Seq<char>), ObjectView>,
    bucket: Seq<char>,
    after: Option<Seq<char>>,
    prefix: Option<Seq<char>>,
    n: int,
)
    requires
        table::enumerates(table::ordered(objects), objects),
        0 < n <= listing(objects, bucket, after, prefix).len(),
    ensures
        ({
            let all = listing(objects, bucket, after, prefix);
            listing(objects, bucket, Some(all[n - 1].0), prefix) == all.skip(n)
        }),
{
    let s = table::ordered(objects);
    let p = in_listing(bucket, after, prefix);
    let f = s.filter(p);
    let all = listing(objects, bucket, after, prefix);
    let k = f[n - 1].0.1;
    assert(all[n - 1].0 == k);
    let both = in_listing(bucket, Some(k), prefix);
    let q = behind_key(k);
    table::lemma_filter_ascending(s, p);
    assert forall|i: int| 0 <= i < f.len() implies p(#[trigger] f[i]) by {
        assert(f.contains(f[i]));
        seqs::lemma_filter_members(s, p, f[i]);
    }
    assert(p(f[n - 1]));
    assert forall|i: int| 0 <= i < s.len() implies both(#[trigger] s[i]) == (p(s[i]) && q(s[i])) by {
        let key = s[i].0.1;
        if k.before(key) {
            match after {
                Some(a) => {
                    <Seq<char> as KeyOrder>::before_transitive(a, k, key);
                },
                None => {},
            }
        }
    }
    seqs::lemma_filter_twice(s, p, q, both);
    assert forall|i: int| 0 <= i < n implies !q(#[trigger] f[i]) by {
        <Seq<char> as KeyOrder>::before_irreflexive(k);
        <Seq<char> as KeyOrder>::before_irreflexive(bucket);
        if i < n - 1 {
            assert(f[i].0.before(f[n - 1].0));
            assert(p(f[i]));
            if k.before(f[i].0.1) {
                <Seq<char> as KeyOrder>::before_transitive(k, f[i].0.1, k);
            }
        }
    }
    assert forall|i: int| n <= i < f.len() implies q(#[trigger] f[i]) by {
        <Seq<char> as KeyOrder>::before_irreflexive(bucket);
        assert(f[n - 1].0.before(f[i].0));
        assert(p(f[i]));
    }
    seqs::lemma_filter_is_skip(f, q, n);
    assert(listing(objects, bucket, Some(k), prefix) =~= all.skip(n));
}

/// A listing names exactly the live objects of the bucket whose keys have the prefix and are
/// behind the cursor.
pub proof fn lemma_listing_has_prefix(
    objects: Map<(Seq<char>, Seq<char>), ObjectView>,
    bucket: Seq<char>,
    after: Option<Seq<char>>,
    prefix: Option<Seq<char>>,
    x: ListedView,
)
    requires
        table::enumerates(table::ordered(objects), objects),
    ensures
        listing(objects, bucket, after, prefix).contains(x) == {
            &&& store::live(objects, (bucket, x.0))
            &&& x.1 == objects[(bucket, x.0)].size
            &&& x.2 == objects[(bucket, x.0)].etag
            &&& (prefix matches Some(p) ==> p.is_prefix_of(x.0))
            &&& (after matches Some(a) ==> a.before(x.0))
        },
{
    let s = table::ordered(objects);
    let p = in_listing(bucket, after, prefix);
    let all = listing(objects, bucket, after, prefix);
    seqs::lemma_pick_members(s, p, listed(), x);
    if all.contains(x) {
        let j = choose|j: int| 0 <= j < s.len() && p(#[trigger] s[j]) && listed()(s[j]) == x;
        assert(s[j].0 == (bucket, x.0));
    }
    if store::live(objects, (bucket, x.0)) && x.1 == objects[(bucket, x.0)].size && x.2
        == objects[(bucket, x.0)].etag && (prefix matches Some(q) ==> q.is_prefix_of(x.0)) && (
    after matches Some(a) ==> a.before(x.0)) {
        let j = choose|j: int| 0 <= j < s.len() && (#[trigger] s[j]).0 == (bucket, x.0);
        assert(p(s[j]));
        assert(listed()(s[j]) == x);
    }
}

} // verus!
