//! Paging through a listing: the pages together list each key and each common prefix once.

use vstd::prelude::*;

use crate::grouping;
use crate::grouping::{ItemView, PageView};
use crate::hashing;
use crate::listing;
use crate::listing::ListedView;
use crate::order::KeyOrder;
use crate::rows::ObjectView;
use crate::seqs;
use crate::store;
use crate::table;
use crate::text;

verus! {

// ── keys and their common prefixes ───────────────────────────────────────────

/// A key that starts with the common prefix of another falls under it too.
pub proof fn lemma_under_common_prefix(
    key: Seq<char>,
    other: Seq<char>,
    prefix: Seq<char>,
    delimiter: Seq<char>,
)
    requires
        grouping::common_prefix(key, prefix, delimiter) is Some,
        grouping::common_prefix(key, prefix, delimiter)->0.is_prefix_of(other),
    ensures
        grouping::common_prefix(other, prefix, delimiter) == grouping::common_prefix(
            key,
            prefix,
            delimiter,
        ),
{
    let n = prefix.len() as int;
    let d = delimiter.len() as int;
    let rest = key.skip(n);
    let i = choose|i: int| text::first_at(rest, delimiter, i);
    let cp = prefix + rest.take(i) + delimiter;
    grouping::lemma_common_prefix_shape(key, prefix, delimiter);
    assert forall|x: int| 0 <= x < cp.len() implies other[x] == key[x] by {
        assert(other.subrange(0, cp.len() as int)[x] == other[x]);
        assert(key.subrange(0, cp.len() as int)[x] == key[x]);
    }
    let tail = other.skip(n);
    assert(prefix =~= other.subrange(0, n)) by {
        assert forall|x: int| 0 <= x < n implies prefix[x] == other[x] by {
            assert(cp[x] == prefix[x]);
            assert(key.subrange(0, cp.len() as int)[x] == key[x]);
        }
    }
    assert forall|j: int| 0 <= j <= i implies text::occurs_at(tail, delimiter, j)
        == text::occurs_at(rest, delimiter, j) by {
        assert(tail.subrange(j, j + d) =~= rest.subrange(j, j + d)) by {
            let a = tail.subrange(j, j + d);
            let b = rest.subrange(j, j + d);
            assert forall|x: int| 0 <= x < d implies #[trigger] a[x] == b[x] by {
                assert(other[n + j + x] == key[n + j + x]);
            }
        }
    }
    assert(text::first_at(tail, delimiter, i));
    let m = choose|m: int| text::first_at(tail, delimiter, m);
    if m < i {
        assert(!text::occurs_at(tail, delimiter, m));
    } else if i < m {
        assert(!text::occurs_at(tail, delimiter, i));
    }
    assert(tail.take(i) =~= rest.take(i)) by {
        assert forall|x: int| 0 <= x < i implies tail[x] == rest[x] by {
            assert(other[n + x] == key[n + x]);
        }
    }
}

/// Between a text and one that starts with it, everything starts with it.
proof fn lemma_between(c: Seq<char>, y: Seq<char>, z: Seq<char>)
    requires
        c.is_prefix_of(z),
        !y.before(c),
        y.before(z),
    ensures
        c.is_prefix_of(y),
{
    hashing::lemma_prefix_range(c, z);
    hashing::lemma_prefix_range(c, y);
    match hashing::upper_bound(c) {
        Some(u) => {
            <Seq<char> as KeyOrder>::before_transitive(y, z, u);
        },
        None => {},
    }
}

/// What is behind a text and does not start with it is behind everything that does.
proof fn lemma_beyond(c: Seq<char>, y: Seq<char>, z: Seq<char>)
    requires
        c.is_prefix_of(z),
        !y.before(c),
        !c.is_prefix_of(y),
    ensures
        z.before(y),
{
    <Seq<char> as KeyOrder>::before_total(y, z);
    if y.before(z) {
        lemma_between(c, y, z);
    }
}

/// A text is not behind one that starts with it.
proof fn lemma_prefix_not_behind(c: Seq<char>, z: Seq<char>)
    requires
        c.is_prefix_of(z),
    ensures
        !z.before(c),
{
    hashing::lemma_prefix_range(c, z);
}

// ── rows ─────────────────────────────────────────────────────────────────────

/// The row that stands for an object.
pub open spec fn row_of(e: ListedView, prefix: Seq<char>, delimiter: Seq<char>) -> (
    Seq<char>,
    ItemView,
) {
    match grouping::common_prefix(e.0, prefix, delimiter) {
        Some(cp) => (cp, ItemView::Prefix(cp)),
        None => (e.0, ItemView::Object(e)),
    }
}

/// No two objects have the same key.
pub open spec fn distinct(s: Seq<ListedView>) -> bool {
    forall|i: int, j: int| 0 <= i < j < s.len() ==> (#[trigger] s[i]).0 != (#[trigger] s[j]).0
}

proof fn lemma_filter_distinct(s: Seq<ListedView>, p: spec_fn(ListedView) -> bool)
    requires
        distinct(s),
    ensures
        distinct(s.filter(p)),
    decreases s.len(),
{
    reveal(Seq::filter);
    if s.len() > 0 {
        let front = s.drop_last();
        assert forall|i: int, j: int| 0 <= i < j < front.len() implies (#[trigger] front[i]).0 != (
        #[trigger] front[j]).0 by {
            assert(s[i].0 != s[j].0);
        }
        lemma_filter_distinct(front, p);
        let sub = front.filter(p);
        if p(s.last()) {
            let t = sub.push(s.last());
            assert forall|i: int, j: int| 0 <= i < j < t.len() implies (#[trigger] t[i]).0 != (
            #[trigger] t[j]).0 by {
                if j == sub.len() {
                    assert(sub.contains(sub[i]));
                    seqs::lemma_filter_members(front, p, sub[i]);
                    let m = choose|m: int| 0 <= m < front.len() && front[m] == sub[i];
                    assert(s[m].0 != s[s.len() - 1].0);
                }
            }
        }
    }
}

/// The rows of a grouped listing are in order, and are those of its objects.
pub proof fn lemma_grouped(objects: Seq<ListedView>, prefix: Seq<char>, delimiter: Seq<char>)
    requires
        distinct(objects),
    ensures
        table::ascending(grouping::grouped(objects, prefix, delimiter)),
        forall|r: (Seq<char>, ItemView)| #[trigger]
            grouping::grouped(objects, prefix, delimiter).contains(r) == exists|i: int|
                0 <= i < objects.len() && #[trigger] row_of(objects[i], prefix, delimiter) == r,
{
    let p = grouping::plain(prefix, delimiter);
    let contents = objects.filter(p);
    let common = grouping::common_prefixes(objects, prefix, delimiter);
    let rows = grouping::rows_of(contents, common);
    let n = contents.len() as int;
    grouping::lemma_grouping_accounts(objects, prefix, delimiter);
    lemma_filter_distinct(objects, p);
    assert forall|i: int| 0 <= i < n implies p(#[trigger] contents[i]) && objects.contains(
        contents[i],
    ) by {
        assert(contents.contains(contents[i]));
        seqs::lemma_filter_members(objects, p, contents[i]);
    }
    assert forall|i: int| 0 <= i < common.len() implies grouping::common_prefix(
        #[trigger] common[i],
        prefix,
        delimiter,
    ) == Some(common[i]) by {
        assert(common.contains(common[i]));
        let j = choose|j: int|
            0 <= j < objects.len() && grouping::common_prefix(
                (#[trigger] objects[j]).0,
                prefix,
                delimiter,
            ) == Some(common[i]);
        assert(common[i].is_prefix_of(common[i])) by {
            assert(common[i] =~= common[i].subrange(0, common[i].len() as int));
        }
        lemma_under_common_prefix(objects[j].0, common[i], prefix, delimiter);
    }
    assert forall|i: int, j: int| 0 <= i < j < rows.len() implies (#[trigger] rows[i]).0 != (
    #[trigger] rows[j]).0 by {
        if j < n {
            assert(contents[i].0 != contents[j].0);
        } else if i < n {
            assert(p(contents[i]));
            assert(rows[j].0 == common[j - n]);
        } else {
            assert(common[i - n] != common[j - n]);
        }
    }
    table::lemma_sort_distinct(rows);
    assert forall|r: (Seq<char>, ItemView)| #[trigger]
        grouping::grouped(objects, prefix, delimiter).contains(r) == exists|i: int|
            0 <= i < objects.len() && #[trigger] row_of(objects[i], prefix, delimiter) == r by {
        if rows.contains(r) {
            let i = choose|i: int| 0 <= i < rows.len() && rows[i] == r;
            if i < n {
                assert(p(contents[i]));
                let j = choose|j: int| 0 <= j < objects.len() && objects[j] == contents[i];
                assert(row_of(objects[j], prefix, delimiter) == r);
            } else {
                assert(common.contains(common[i - n]));
                let j = choose|j: int|
                    0 <= j < objects.len() && grouping::common_prefix(
                        (#[trigger] objects[j]).0,
                        prefix,
                        delimiter,
                    ) == Some(common[i - n]);
                assert(row_of(objects[j], prefix, delimiter) == r);
            }
        }
        if exists|i: int|
            0 <= i < objects.len() && #[trigger] row_of(objects[i], prefix, delimiter) == r {
            let i = choose|i: int|
                0 <= i < objects.len() && #[trigger] row_of(objects[i], prefix, delimiter) == r;
            match grouping::common_prefix(objects[i].0, prefix, delimiter) {
                Some(cp) => {
                    assert(common.contains(cp));
                    let j = choose|j: int| 0 <= j < common.len() && common[j] == cp;
                    assert(rows[n + j] == r);
                },
                None => {
                    assert(contents.contains(objects[i]));
                    let j = choose|j: int| 0 <= j < contents.len() && contents[j] == objects[i];
                    assert(rows[j] == r);
                },
            }
            assert(rows.contains(r));
        }
    }
}

/// The keys of a listing differ.
proof fn lemma_listing_distinct(
    objects: Map<(Seq<char>, Seq<char>), ObjectView>,
    bucket: Seq<char>,
    after: Option<Seq<char>>,
    prefix: Option<Seq<char>>,
)
    requires
        table::enumerates(table::ordered(objects), objects),
    ensures
        distinct(listing::listing(objects, bucket, after, prefix)),
{
    let s = table::ordered(objects);
    let p = listing::in_listing(bucket, after, prefix);
    let f = s.filter(p);
    let all = listing::listing(objects, bucket, after, prefix);
    table::lemma_filter_ascending(s, p);
    assert forall|i: int, j: int| 0 <= i < j < all.len() implies (#[trigger] all[i]).0 != (
    #[trigger] all[j]).0 by {
        assert(f[i].0.before(f[j].0));
        assert(f.contains(f[i]) && f.contains(f[j]));
        seqs::lemma_filter_members(s, p, f[i]);
        seqs::lemma_filter_members(s, p, f[j]);
        <(Seq<char>, Seq<char>) as KeyOrder>::before_irreflexive(f[i].0);
    }
}

/// An object of the listing behind `after` that does not fall under it.
pub open spec fn left(
    objects: Map<(Seq<char>, Seq<char>), ObjectView>,
    bucket: Seq<char>,
    after: Option<Seq<char>>,
    prefix: Option<Seq<char>>,
    d: Seq<char>,
) -> Seq<ListedView> {
    listing::listing(objects, bucket, after, prefix).filter(
        grouping::past(after, grouping::or_empty(prefix), d),
    )
}

/// `e` is in the grouped part of a listing.
pub open spec fn is_left(
    objects: Map<(Seq<char>, Seq<char>), ObjectView>,
    bucket: Seq<char>,
    after: Option<Seq<char>>,
    prefix: Option<Seq<char>>,
    d: Seq<char>,
    e: ListedView,
) -> bool {
    &&& store::live(objects, (bucket, e.0))
    &&& e.1 == objects[(bucket, e.0)].size
    &&& e.2 == objects[(bucket, e.0)].etag
    &&& grouping::or_empty(prefix).is_prefix_of(e.0)
    &&& (after matches Some(a) ==> a.before(e.0) && grouping::common_prefix(
        e.0,
        grouping::or_empty(prefix),
        d,
    ) != Some(a))
}

pub proof fn lemma_left(
    objects: Map<(Seq<char>, Seq<char>), ObjectView>,
    bucket: Seq<char>,
    after: Option<Seq<char>>,
    prefix: Option<Seq<char>>,
    d: Seq<char>,
)
    requires
        table::enumerates(table::ordered(objects), objects),
    ensures
        distinct(left(objects, bucket, after, prefix, d)),
        forall|e: ListedView| #[trigger]
            left(objects, bucket, after, prefix, d).contains(e) == is_left(
                objects,
                bucket,
                after,
                prefix,
                d,
                e,
            ),
{
    let all = listing::listing(objects, bucket, after, prefix);
    let q = grouping::past(after, grouping::or_empty(prefix), d);
    lemma_listing_distinct(objects, bucket, after, prefix);
    lemma_filter_distinct(all, q);
    assert forall|e: ListedView| #[trigger]
        left(objects, bucket, after, prefix, d).contains(e) == is_left(
            objects,
            bucket,
            after,
            prefix,
            d,
            e,
        ) by {
        seqs::lemma_filter_members(all, q, e);
        listing::lemma_listing_has_prefix(objects, bucket, after, prefix, e);
        assert(Seq::<char>::empty().is_prefix_of(e.0)) by {
            assert(e.0.subrange(0, 0) =~= Seq::<char>::empty());
        }
    }
}

/// `t` is the key of a row of the listing behind `after`.
spec fn row_key(
    objects: Map<(Seq<char>, Seq<char>), ObjectView>,
    bucket: Seq<char>,
    after: Option<Seq<char>>,
    prefix: Option<Seq<char>>,
    d: Seq<char>,
    e0: ListedView,
    t: Seq<char>,
) -> bool {
    is_left(objects, bucket, after, prefix, d, e0) && row_of(e0, grouping::or_empty(prefix), d).0
        == t
}

/// Behind a row are the objects whose rows are behind it.
proof fn lemma_behind_row(
    objects: Map<(Seq<char>, Seq<char>), ObjectView>,
    bucket: Seq<char>,
    after: Option<Seq<char>>,
    prefix: Option<Seq<char>>,
    d: Seq<char>,
    e0: ListedView,
    t: Seq<char>,
    e: ListedView,
)
    requires
        row_key(objects, bucket, after, prefix, d, e0, t),
    ensures
        is_left(objects, bucket, Some(t), prefix, d, e) == (is_left(
            objects,
            bucket,
            after,
            prefix,
            d,
            e,
        ) && t.before(row_of(e, grouping::or_empty(prefix), d).0)),
{
    let p = grouping::or_empty(prefix);
    let c = grouping::common_prefix(e.0, p, d);
    let c0 = grouping::common_prefix(e0.0, p, d);
    let k = row_of(e, p, d).0;
    <Seq<char> as KeyOrder>::before_irreflexive(t);
    <Seq<char> as KeyOrder>::before_irreflexive(e.0);
    if c is Some {
        grouping::lemma_common_prefix_shape(e.0, p, d);
    }
    if c0 is Some {
        grouping::lemma_common_prefix_shape(e0.0, p, d);
    }
    if is_left(objects, bucket, after, prefix, d, e) && t.before(k) {
        if c is Some {
            lemma_prefix_not_behind(k, e.0);
            <Seq<char> as KeyOrder>::before_total(k, e.0);
            if k.before(e.0) {
                <Seq<char> as KeyOrder>::before_transitive(t, k, e.0);
            }
        }
    }
    if is_left(objects, bucket, Some(t), prefix, d, e) {
        // The row of `e` is behind `t`.
        if c is Some {
            <Seq<char> as KeyOrder>::before_total(k, t);
            if k.before(t) {
                if t.before(k) {
                    <Seq<char> as KeyOrder>::before_transitive(t, k, t);
                }
                lemma_between(k, t, e.0);
                if c0 is Some {
                    lemma_prefix_of_prefix(k, t, e0.0);
                }
                lemma_under_common_prefix(e.0, e0.0, p, d);
                assert(false);
            }
        }
        // `e` is behind the first cursor, and does not fall under it.
        match after {
            Some(a) => {
                <Seq<char> as KeyOrder>::before_irreflexive(a);
                if c0 is None {
                    <Seq<char> as KeyOrder>::before_transitive(a, t, e.0);
                } else {
                    assert(!t.is_prefix_of(e.0)) by {
                        if t.is_prefix_of(e.0) {
                            lemma_under_common_prefix(e0.0, e.0, p, d);
                        }
                    }
                    if e.0.before(t) {
                        <Seq<char> as KeyOrder>::before_transitive(t, e.0, t);
                    }
                    lemma_beyond(t, e.0, e0.0);
                    <Seq<char> as KeyOrder>::before_transitive(a, e0.0, e.0);
                }
                if c == Some(a) {
                    // Then the key of the row would fall under the cursor as well.
                    assert(!a.is_prefix_of(e0.0)) by {
                        if a.is_prefix_of(e0.0) {
                            lemma_under_common_prefix(e.0, e0.0, p, d);
                        }
                    }
                    if e0.0.before(a) {
                        <Seq<char> as KeyOrder>::before_transitive(a, e0.0, a);
                    }
                    lemma_beyond(a, e0.0, e.0);
                    if c0 is None {
                        <Seq<char> as KeyOrder>::before_transitive(t, e.0, t);
                    } else {
                        <Seq<char> as KeyOrder>::before_transitive(e.0, e0.0, e.0);
                    }
                    assert(false);
                }
            },
            None => {},
        }
    }
}

proof fn lemma_prefix_of_prefix(a: Seq<char>, b: Seq<char>, c: Seq<char>)
    requires
        a.is_prefix_of(b),
        b.is_prefix_of(c),
    ensures
        a.is_prefix_of(c),
{
    assert(a =~= c.subrange(0, a.len() as int)) by {
        assert forall|x: int| 0 <= x < a.len() implies a[x] == c[x] by {
            assert(b.subrange(0, a.len() as int)[x] == b[x]);
            assert(c.subrange(0, b.len() as int)[x] == c[x]);
        }
    }
}

/// Paging: the listing behind the last row of a page goes on where the page ended, whether that
/// row is an object or a common prefix.
pub proof fn lemma_rows_resume(
    objects: Map<(Seq<char>, Seq<char>), ObjectView>,
    bucket: Seq<char>,
    after: Option<Seq<char>>,
    prefix: Option<Seq<char>>,
    delimiter: Option<Seq<char>>,
    n: int,
)
    requires
        table::enumerates(table::ordered(objects), objects),
        0 < n <= grouping::listing_rows(objects, bucket, after, prefix, delimiter).len(),
    ensures
        ({
            let rows = grouping::listing_rows(objects, bucket, after, prefix, delimiter);
            grouping::listing_rows(objects, bucket, Some(rows[n - 1].0), prefix, delimiter)
                == rows.skip(n)
        }),
{
    let rows = grouping::listing_rows(objects, bucket, after, prefix, delimiter);
    let t = rows[n - 1].0;
    let rest = grouping::listing_rows(objects, bucket, Some(t), prefix, delimiter);
    match delimiter {
        None => {
            listing::lemma_next_page(objects, bucket, after, prefix, n);
            assert(rest =~= rows.skip(n));
        },
        Some(d) => {
            let p = grouping::or_empty(prefix);
            let here = left(objects, bucket, after, prefix, d);
            let next = left(objects, bucket, Some(t), prefix, d);
            lemma_left(objects, bucket, after, prefix, d);
            lemma_left(objects, bucket, Some(t), prefix, d);
            lemma_grouped(here, p, d);
            lemma_grouped(next, p, d);
            assert(rows.contains(rows[n - 1]));
            let i0 = choose|i: int|
                0 <= i < here.len() && #[trigger] row_of(here[i], p, d) == rows[n - 1];
            let e0 = here[i0];
            assert(here.contains(e0));
            let tail = rows.skip(n);
            assert(table::ascending(tail)) by {
                assert forall|i: int, j: int| 0 <= i < j < tail.len() implies (
                #[trigger] tail[i]).0.before((#[trigger] tail[j]).0) by {
                    assert(rows[n + i].0.before(rows[n + j].0));
                }
            }
            assert forall|r: (Seq<char>, ItemView)|
                #![trigger rest.contains(r)]
                #![trigger tail.contains(r)]
                rest.contains(r) == tail.contains(r) by {
                if rest.contains(r) {
                    let i = choose|i: int|
                        0 <= i < next.len() && #[trigger] row_of(next[i], p, d) == r;
                    let e = next[i];
                    assert(next.contains(e));
                    lemma_behind_row(objects, bucket, after, prefix, d, e0, t, e);
                    assert(here.contains(e));
                    let j = choose|j: int| 0 <= j < here.len() && here[j] == e;
                    assert(row_of(here[j], p, d) == r);
                    assert(rows.contains(r));
                    let m = choose|m: int| 0 <= m < rows.len() && rows[m] == r;
                    <Seq<char> as KeyOrder>::before_irreflexive(t);
                    if m < n - 1 {
                        assert(rows[m].0.before(rows[n - 1].0));
                        <Seq<char> as KeyOrder>::before_transitive(t, r.0, t);
                    }
                    assert(tail[m - n] == r);
                }
                if tail.contains(r) {
                    let m = choose|m: int| 0 <= m < tail.len() && tail[m] == r;
                    assert(rows[n - 1].0.before(rows[n + m].0));
                    assert(rows.contains(rows[n + m]));
                    let j = choose|j: int|
                        0 <= j < here.len() && #[trigger] row_of(here[j], p, d) == r;
                    let e = here[j];
                    assert(here.contains(e));
                    lemma_behind_row(objects, bucket, after, prefix, d, e0, t, e);
                    assert(next.contains(e));
                    let i = choose|i: int| 0 <= i < next.len() && next[i] == e;
                    assert(row_of(next[i], p, d) == r);
                }
            }
            table::lemma_ascending_unique(rest, tail);
        },
    }
}

// ── pages ────────────────────────────────────────────────────────────────────

/// A listing, and how it is asked for.
pub struct Request {
    pub bucket: Seq<char>,
    pub prefix: Option<Seq<char>>,
    pub delimiter: Option<Seq<char>>,
    pub max_keys: int,
}

impl Request {
    /// All rows behind a cursor.
    pub open spec fn rows(
        self,
        objects: Map<(Seq<char>, Seq<char>), ObjectView>,
        after: Option<Seq<char>>,
    ) -> Seq<(Seq<char>, ItemView)> {
        grouping::listing_rows(objects, self.bucket, after, self.prefix, self.delimiter)
    }

    /// The page behind a cursor.
    pub open spec fn page(
        self,
        objects: Map<(Seq<char>, Seq<char>), ObjectView>,
        after: Option<Seq<char>>,
    ) -> PageView {
        grouping::page_of(
            objects,
            self.bucket,
            after,
            self.prefix,
            self.delimiter,
            self.max_keys,
        )
    }

    /// `pages` were fetched one after the other, each with the token of the one before.
    pub open spec fn fetched(
        self,
        objects: Map<(Seq<char>, Seq<char>), ObjectView>,
        after: Option<Seq<char>>,
        pages: Seq<PageView>,
    ) -> bool {
        &&& pages.len() > 0
        &&& pages[0] == self.page(objects, after)
        &&& forall|i: int|
            0 < i < pages.len() ==> pages[i - 1].next is Some && #[trigger] pages[i] == self.page(
                objects,
                pages[i - 1].next,
            )
    }
}

/// The contents of all pages.
pub open spec fn all_contents(pages: Seq<PageView>) -> Seq<ListedView>
    decreases pages.len(),
{
    if pages.len() == 0 {
        seq![]
    } else {
        all_contents(pages.drop_last()) + pages.last().contents
    }
}

/// The common prefixes of all pages.
pub open spec fn all_common_prefixes(pages: Seq<PageView>) -> Seq<Seq<char>>
    decreases pages.len(),
{
    if pages.len() == 0 {
        seq![]
    } else {
        all_common_prefixes(pages.drop_last()) + pages.last().common_prefixes
    }
}

proof fn lemma_split_rows(a: Seq<(Seq<char>, ItemView)>, b: Seq<(Seq<char>, ItemView)>)
    ensures
        grouping::objects_in(a + b) == grouping::objects_in(a) + grouping::objects_in(b),
        grouping::prefixes_in(a + b) == grouping::prefixes_in(a) + grouping::prefixes_in(b),
    decreases b.len(),
{
    if b.len() == 0 {
        assert(a + b =~= a);
        assert(grouping::objects_in(a) + grouping::objects_in(b) =~= grouping::objects_in(a));
        assert(grouping::prefixes_in(a) + grouping::prefixes_in(b) =~= grouping::prefixes_in(a));
    } else {
        lemma_split_rows(a, b.drop_last());
        assert((a + b).drop_last() =~= a + b.drop_last());
        assert((a + b).last() == b.last());
        assert(grouping::objects_in(a + b) =~= grouping::objects_in(a) + grouping::objects_in(b));
        assert(grouping::prefixes_in(a + b) =~= grouping::prefixes_in(a) + grouping::prefixes_in(b));
    }
}

/// Where the last of `pages` starts.
proof fn lemma_page_start(
    q: Request,
    objects: Map<(Seq<char>, Seq<char>), ObjectView>,
    after: Option<Seq<char>>,
    pages: Seq<PageView>,
)
    requires
        table::enumerates(table::ordered(objects), objects),
        q.max_keys >= 1,
        q.fetched(objects, after, pages),
    ensures
        ({
            let rows = q.rows(objects, after);
            let done = (pages.len() - 1) * q.max_keys;
            &&& 0 <= done <= rows.len()
            &&& pages.last() == grouping::first_page(rows.skip(done), q.max_keys)
            &&& q.rows(
                objects,
                if pages.len() == 1 {
                    after
                } else {
                    pages[pages.len() - 2].next
                },
            ) == rows.skip(done)
        }),
    decreases pages.len(),
{
    let rows = q.rows(objects, after);
    let n = pages.len() as int;
    let m = q.max_keys;
    if n == 1 {
        assert(0 * m == 0);
        assert(rows.skip(0) =~= rows);
    } else {
        let front = pages.drop_last();
        assert forall|i: int| 0 < i < front.len() implies front[i - 1].next is Some
            && #[trigger] front[i] == q.page(objects, front[i - 1].next) by {
            assert(pages[i] == q.page(objects, pages[i - 1].next));
        }
        lemma_page_start(q, objects, after, front);
        let before = if n == 2 {
            after
        } else {
            pages[n - 3].next
        };
        let done = (n - 2) * m;
        assert((n - 1) * m == done + m) by (nonlinear_arith)
            requires
                done == (n - 2) * m,
        ;
        let here = rows.skip(done);
        assert(front.last() == pages[n - 2]);
        assert(pages[n - 1] == q.page(objects, pages[n - 2].next));
        assert(here.len() > m);
        assert(seqs::at_most(here, m).last() == here[m - 1]);
        lemma_rows_resume(objects, q.bucket, before, q.prefix, q.delimiter, m);
        assert(here.skip(m) =~= rows.skip(done + m));
    }
}

/// Paging ends, and misses and repeats nothing: after some pages the rows of all of them are
/// the first ones of the listing, in order, as many as fit on that many pages; and the last
/// page says that there are more exactly where the listing has more.
pub proof fn lemma_pages_cover(
    q: Request,
    objects: Map<(Seq<char>, Seq<char>), ObjectView>,
    after: Option<Seq<char>>,
    pages: Seq<PageView>,
)
    requires
        table::enumerates(table::ordered(objects), objects),
        q.max_keys >= 1,
        q.fetched(objects, after, pages),
    ensures
        ({
            let rows = q.rows(objects, after);
            let seen = seqs::at_most(rows, pages.len() * q.max_keys);
            &&& all_contents(pages) == grouping::objects_in(seen)
            &&& all_common_prefixes(pages) == grouping::prefixes_in(seen)
            &&& pages.last().is_truncated == (rows.len() > pages.len() * q.max_keys)
            &&& pages.last().next is Some == pages.last().is_truncated
        }),
    decreases pages.len(),
{
    let rows = q.rows(objects, after);
    let n = pages.len() as int;
    let m = q.max_keys;
    let front = pages.drop_last();
    let done = (n - 1) * m;
    lemma_page_start(q, objects, after, pages);
    assert(n * m == done + m) by (nonlinear_arith)
        requires
            done == (n - 1) * m,
    ;
    let here = rows.skip(done);
    let kept = seqs::at_most(here, m);
    assert(seqs::at_most(rows, n * m) =~= rows.take(done) + kept);
    lemma_split_rows(rows.take(done), kept);
    if n == 1 {
        assert(rows.take(0) =~= Seq::empty());
        assert(all_contents(front) =~= Seq::empty());
        assert(all_common_prefixes(front) =~= Seq::empty());
        assert(grouping::objects_in(rows.take(0)) =~= Seq::empty());
        assert(grouping::prefixes_in(rows.take(0)) =~= Seq::empty());
    } else {
        assert forall|i: int| 0 < i < front.len() implies front[i - 1].next is Some
            && #[trigger] front[i] == q.page(objects, front[i - 1].next) by {
            assert(pages[i] == q.page(objects, pages[i - 1].next));
        }
        lemma_pages_cover(q, objects, after, front);
        assert(seqs::at_most(rows, front.len() * m) =~= rows.take(done));
    }
}

// ── what the rows are ────────────────────────────────────────────────────────

pub proof fn lemma_objects_in(rows: Seq<(Seq<char>, ItemView)>)
    requires
        table::ascending(rows),
        forall|i: int| 0 <= i < rows.len() ==> match (#[trigger] rows[i]).1 {
            ItemView::Object(e) => e.0 == rows[i].0,
            ItemView::Prefix(p) => p == rows[i].0,
        },
    ensures
        grouping::objects_in(rows).no_duplicates(),
        grouping::prefixes_in(rows).no_duplicates(),
        forall|e: ListedView| #[trigger]
            grouping::objects_in(rows).contains(e) == rows.contains((e.0, ItemView::Object(e))),
        forall|p: Seq<char>| #[trigger]
            grouping::prefixes_in(rows).contains(p) == rows.contains((p, ItemView::Prefix(p))),
    decreases rows.len(),
{
    if rows.len() > 0 {
        let front = rows.drop_last();
        let last = rows.last();
        assert forall|i: int, j: int| 0 <= i < j < front.len() implies (
        #[trigger] front[i]).0.before((#[trigger] front[j]).0) by {
            assert(rows[i].0.before(rows[j].0));
        }
        assert forall|i: int| 0 <= i < front.len() implies match (#[trigger] front[i]).1 {
            ItemView::Object(e) => e.0 == front[i].0,
            ItemView::Prefix(p) => p == front[i].0,
        } by {
            assert(front[i] == rows[i]);
        }
        lemma_objects_in(front);
        let objects = grouping::objects_in(front);
        let prefixes = grouping::prefixes_in(front);
        assert(rows[rows.len() - 1] == last);
        assert forall|r: (Seq<char>, ItemView)| #[trigger]
            rows.contains(r) == (front.contains(r) || r == last) by {
            if rows.contains(r) {
                let i = choose|i: int| 0 <= i < rows.len() && rows[i] == r;
                if i < front.len() {
                    assert(front[i] == r);
                }
            }
            if front.contains(r) {
                let i = choose|i: int| 0 <= i < front.len() && front[i] == r;
                assert(rows[i] == r);
            }
        }
        assert(!front.contains(last)) by {
            if front.contains(last) {
                let i = choose|i: int| 0 <= i < front.len() && front[i] == last;
                assert(rows[i].0.before(rows[rows.len() - 1].0));
                <Seq<char> as KeyOrder>::before_irreflexive(last.0);
            }
        }
        match last.1 {
            ItemView::Object(e) => {
                assert(!objects.contains(e));
                let more = objects.push(e);
                assert forall|x: ListedView| #[trigger] more.contains(x) == (objects.contains(x)
                    || x == e) by {
                    lemma_push_members(objects, e, x);
                }
                assert(more.no_duplicates());
            },
            ItemView::Prefix(p) => {
                assert(!prefixes.contains(p));
                let more = prefixes.push(p);
                assert forall|x: Seq<char>| #[trigger] more.contains(x) == (prefixes.contains(x)
                    || x == p) by {
                    lemma_push_members(prefixes, p, x);
                }
                assert(more.no_duplicates());
            },
        }
    }
}

proof fn lemma_push_members<A>(s: Seq<A>, e: A, x: A)
    ensures
        s.push(e).contains(x) == (s.contains(x) || x == e),
{
    let t = s.push(e);
    if t.contains(x) {
        let i = choose|i: int| 0 <= i < t.len() && t[i] == x;
        if i < s.len() {
            assert(s[i] == x);
        }
    }
    if s.contains(x) {
        let i = choose|i: int| 0 <= i < s.len() && s[i] == x;
        assert(t[i] == x);
    }
    assert(t[s.len() as int] == e);
}

/// A live key with the prefix.
pub open spec fn listed_under(
    objects: Map<(Seq<char>, Seq<char>), ObjectView>,
    bucket: Seq<char>,
    prefix: Seq<char>,
    key: Seq<char>,
) -> bool {
    store::live(objects, (bucket, key)) && prefix.is_prefix_of(key)
}

/// Paging through a whole listing with a delimiter lists, once each, the live keys under the
/// prefix with no delimiter behind it, and the distinct common prefixes of the other ones.
pub proof fn lemma_paging_lists_each_once(
    q: Request,
    objects: Map<(Seq<char>, Seq<char>), ObjectView>,
    delimiter: Seq<char>,
    pages: Seq<PageView>,
)
    requires
        table::enumerates(table::ordered(objects), objects),
        q.max_keys >= 1,
        q.delimiter == Some(delimiter),
        q.fetched(objects, None, pages),
        !pages.last().is_truncated,
    ensures
        all_contents(pages).no_duplicates(),
        forall|e: ListedView| #[trigger]
            all_contents(pages).contains(e) == {
                &&& listed_under(objects, q.bucket, grouping::or_empty(q.prefix), e.0)
                &&& e.1 == objects[(q.bucket, e.0)].size
                &&& e.2 == objects[(q.bucket, e.0)].etag
                &&& grouping::common_prefix(e.0, grouping::or_empty(q.prefix), delimiter) is None
            },
        all_common_prefixes(pages).no_duplicates(),
        forall|cp: Seq<char>| #[trigger]
            all_common_prefixes(pages).contains(cp) == exists|key: Seq<char>| #[trigger]
                listed_under(objects, q.bucket, grouping::or_empty(q.prefix), key)
                    && grouping::common_prefix(key, grouping::or_empty(q.prefix), delimiter)
                    == Some(cp),
{
    let p = grouping::or_empty(q.prefix);
    let rows = q.rows(objects, None);
    let here = left(objects, q.bucket, None, q.prefix, delimiter);
    lemma_pages_cover(q, objects, None, pages);
    assert(seqs::at_most(rows, pages.len() * q.max_keys) =~= rows);
    lemma_left(objects, q.bucket, None, q.prefix, delimiter);
    lemma_grouped(here, p, delimiter);
    assert forall|i: int| 0 <= i < rows.len() implies match (#[trigger] rows[i]).1 {
        ItemView::Object(e) => e.0 == rows[i].0,
        ItemView::Prefix(x) => x == rows[i].0,
    } by {
        assert(rows.contains(rows[i]));
        let j = choose|j: int|
            0 <= j < here.len() && #[trigger] row_of(here[j], p, delimiter) == rows[i];
    }
    lemma_objects_in(rows);
    assert forall|e: ListedView| #[trigger] all_contents(pages).contains(e) == {
        &&& listed_under(objects, q.bucket, p, e.0)
        &&& e.1 == objects[(q.bucket, e.0)].size
        &&& e.2 == objects[(q.bucket, e.0)].etag
        &&& grouping::common_prefix(e.0, p, delimiter) is None
    } by {
        let r = (e.0, ItemView::Object(e));
        assert(grouping::objects_in(rows).contains(e) == rows.contains(r));
        if rows.contains(r) {
            let j = choose|j: int|
                0 <= j < here.len() && #[trigger] row_of(here[j], p, delimiter) == r;
            assert(here.contains(here[j]));
        }
        if is_left(objects, q.bucket, None, q.prefix, delimiter, e) && grouping::common_prefix(
            e.0,
            p,
            delimiter,
        ) is None {
            assert(here.contains(e));
            let j = choose|j: int| 0 <= j < here.len() && here[j] == e;
            assert(row_of(here[j], p, delimiter) == r);
        }
    }
    assert forall|cp: Seq<char>| #[trigger] all_common_prefixes(pages).contains(cp)
        == exists|key: Seq<char>| #[trigger]
        listed_under(objects, q.bucket, p, key) && grouping::common_prefix(key, p, delimiter)
            == Some(cp) by {
        let r = (cp, ItemView::Prefix(cp));
        assert(grouping::prefixes_in(rows).contains(cp) == rows.contains(r));
        if rows.contains(r) {
            let j = choose|j: int|
                0 <= j < here.len() && #[trigger] row_of(here[j], p, delimiter) == r;
            assert(here.contains(here[j]));
            assert(listed_under(objects, q.bucket, p, here[j].0));
        }
        if exists|key: Seq<char>| #[trigger]
            listed_under(objects, q.bucket, p, key) && grouping::common_prefix(key, p, delimiter)
                == Some(cp) {
            let key = choose|key: Seq<char>| #[trigger]
                listed_under(objects, q.bucket, p, key) && grouping::common_prefix(
                    key,
                    p,
                    delimiter,
                ) == Some(cp);
            let row = objects[(q.bucket, key)];
            let e = (key, row.size, row.etag);
            assert(here.contains(e));
            let j = choose|j: int| 0 <= j < here.len() && here[j] == e;
            assert(row_of(here[j], p, delimiter) == r);
        }
    }
}

} // verus!
