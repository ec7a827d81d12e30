//! What a listing shows.

use vstd::prelude::*;

use crate::grouping;
use crate::grouping::ItemView;
use crate::listing;
use crate::listing::ListedView;
use crate::order;
use crate::order::KeyOrder;
use crate::paging;
use crate::rows::ObjectView;
use crate::seqs;
use crate::storage;
use crate::storage::ListOutput;
use crate::store::StoreView;
use crate::table;
use crate::text;

verus! {

/// Keys are in the order of their characters: the first one that differs decides, and a key comes
/// before those that go on behind it.
pub proof fn lemma_key_order(a: Seq<char>, b: Seq<char>, i: int)
    requires
        0 <= i <= a.len(),
        i <= b.len(),
        a.take(i) == b.take(i),
    ensures
        i < a.len() && i < b.len() && a[i] < b[i] ==> a.before(b) && !b.before(a),
        i == a.len() && i < b.len() ==> a.before(b) && !b.before(a),
        i == a.len() && i == b.len() ==> !a.before(b),
{
    assert forall|j: int| 0 <= j < i implies a[j] == b[j] by {
        assert(a.take(i)[j] == a[j]);
        assert(b.take(i)[j] == b[j]);
    }
    if i == a.len() && i == b.len() {
        assert(a =~= b);
        <Seq<char> as KeyOrder>::before_irreflexive(a);
    } else if (i < a.len() && i < b.len() && a[i] < b[i]) || i == a.len() {
        order::lemma_lex_at(a, b, i);
        order::lemma_lex_at(b, a, i);
    }
}

/// `needle` stands in `s` at `j`.
pub open spec fn stands_at(s: Seq<char>, needle: Seq<char>, j: int) -> bool {
    0 <= j && j + needle.len() <= s.len() && forall|i: int|
        0 <= i < needle.len() ==> s[j + i] == #[trigger] needle[i]
}

/// A key is grouped under what it has up to and including the first delimiter behind the prefix;
/// a key without the prefix, or without a delimiter behind it, is not grouped.
pub proof fn lemma_group(key: Seq<char>, prefix: Seq<char>, delimiter: Seq<char>, j: int)
    ensures
        prefix.is_prefix_of(key) && prefix.len() <= j && stands_at(key, delimiter, j) && (
        forall|i: int| prefix.len() <= i < j ==> !(#[trigger] stands_at(key, delimiter, i)))
            ==> grouping::common_prefix(key, prefix, delimiter) == Some(
            key.take(j + delimiter.len()),
        ),
        !prefix.is_prefix_of(key) || (forall|i: int|
            prefix.len() <= i ==> !(#[trigger] stands_at(key, delimiter, i)))
            ==> grouping::common_prefix(key, prefix, delimiter) is None,
{
    let n = prefix.len() as int;
    let rest = key.skip(n);
    if prefix.is_prefix_of(key) {
        assert forall|i: int| text::occurs_at(rest, delimiter, i) == (0 <= i && stands_at(
            key,
            delimiter,
            n + i,
        )) by {
            if text::occurs_at(rest, delimiter, i) {
                assert forall|x: int| 0 <= x < delimiter.len() implies key[n + i + x]
                    == #[trigger] delimiter[x] by {
                    assert(rest.subrange(i, i + delimiter.len())[x] == delimiter[x]);
                }
            }
            if 0 <= i && stands_at(key, delimiter, n + i) {
                assert(rest.subrange(i, i + delimiter.len()) =~= delimiter);
            }
        }
        if n <= j && stands_at(key, delimiter, j) && (forall|i: int|
            n <= i < j ==> !(#[trigger] stands_at(key, delimiter, i))) {
            assert(text::occurs_at(rest, delimiter, j - n));
            assert forall|i: int| 0 <= i < j - n implies !text::occurs_at(rest, delimiter, i) by {
                assert(!stands_at(key, delimiter, n + i));
            }
            assert(text::first_at(rest, delimiter, j - n));
            let c = choose|c: int| text::first_at(rest, delimiter, c);
            assert(c == j - n) by {
                if c < j - n {
                    assert(!text::occurs_at(rest, delimiter, c));
                }
                if j - n < c {
                    assert(!text::occurs_at(rest, delimiter, j - n));
                }
            }
            assert(prefix + rest.take(c) + delimiter =~= key.take(j + delimiter.len())) by {
                assert(key.subrange(0, n) =~= prefix);
                assert forall|x: int| 0 <= x < j + delimiter.len() implies (prefix + rest.take(c)
                    + delimiter)[x] == key[x] by {
                    if x < n {
                        assert(key.subrange(0, n)[x] == key[x]);
                    } else if x >= j {
                        assert(key[j + (x - j)] == delimiter[x - j]);
                    }
                }
            }
        }
        if forall|i: int| n <= i ==> !(#[trigger] stands_at(key, delimiter, i)) {
            if exists|i: int| text::first_at(rest, delimiter, i) {
                let i = choose|i: int| text::first_at(rest, delimiter, i);
                assert(stands_at(key, delimiter, n + i));
            }
        }
    }
}

/// Where objects are grouped, each group is named once, and only groups that have an object are
/// named.
pub proof fn lemma_groups(
    objects: Seq<ListedView>,
    prefix: Seq<char>,
    delimiter: Seq<char>,
    group: Seq<char>,
)
    ensures
        ({
            let all = grouping::common_prefixes(objects, prefix, delimiter);
            &&& all.no_duplicates()
            &&& all.contains(group) == exists|i: int|
                0 <= i < objects.len() && grouping::common_prefix(
                    (#[trigger] objects[i]).0,
                    prefix,
                    delimiter,
                ) == Some(group)
        }),
    decreases objects.len(),
{
    let all = grouping::common_prefixes(objects, prefix, delimiter);
    if objects.len() > 0 {
        let rest = objects.drop_last();
        let front = grouping::common_prefixes(rest, prefix, delimiter);
        lemma_groups(rest, prefix, delimiter, group);
        let last = objects[objects.len() - 1];
        let c = grouping::common_prefix(last.0, prefix, delimiter);
        if exists|i: int|
            0 <= i < rest.len() && grouping::common_prefix(
                (#[trigger] rest[i]).0,
                prefix,
                delimiter,
            ) == Some(group) {
            let i = choose|i: int|
                0 <= i < rest.len() && grouping::common_prefix(
                    (#[trigger] rest[i]).0,
                    prefix,
                    delimiter,
                ) == Some(group);
            assert(objects[i] == rest[i]);
        }
        if exists|i: int|
            0 <= i < objects.len() && grouping::common_prefix(
                (#[trigger] objects[i]).0,
                prefix,
                delimiter,
            ) == Some(group) {
            let i = choose|i: int|
                0 <= i < objects.len() && grouping::common_prefix(
                    (#[trigger] objects[i]).0,
                    prefix,
                    delimiter,
                ) == Some(group);
            if i < rest.len() {
                assert(rest[i] == objects[i]);
            }
        }
        if let Some(cp) = c {
            if !front.contains(cp) {
                assert(all == front.push(cp));
                assert(all[front.len() as int] == cp);
                if front.contains(group) {
                    let x = choose|x: int| 0 <= x < front.len() && front[x] == group;
                    assert(all[x] == group);
                }
                if all.contains(group) && group != cp {
                    let x = choose|x: int| 0 <= x < all.len() && all[x] == group;
                    assert(front[x] == group);
                }
                assert(last.0 == objects[objects.len() - 1].0);
            }
        }
    }
}

/// The objects that are shown by themselves are those of no group.
pub proof fn lemma_ungrouped(prefix: Seq<char>, delimiter: Seq<char>, e: ListedView)
    ensures
        (grouping::plain(prefix, delimiter))(e) == (grouping::common_prefix(
            e.0,
            prefix,
            delimiter,
        ) is None),
{
}

/// The group of a key, where there is a delimiter.
pub open spec fn group_of(
    key: Seq<char>,
    prefix: Option<Seq<char>>,
    delimiter: Option<Seq<char>>,
) -> Option<Seq<char>> {
    match delimiter {
        None => None,
        Some(d) => grouping::common_prefix(
            key,
            match prefix {
                Some(p) => p,
                None => seq![],
            },
            d,
        ),
    }
}

/// The object under `key` belongs to a listing: it is stored and not deleted, its key starts with
/// the prefix, and is behind the cursor and not grouped under it.
pub open spec fn belongs(
    objects: Map<(Seq<char>, Seq<char>), ObjectView>,
    bucket: Seq<char>,
    after: Option<Seq<char>>,
    prefix: Option<Seq<char>>,
    delimiter: Option<Seq<char>>,
    key: Seq<char>,
) -> bool {
    &&& objects.dom().contains((bucket, key))
    &&& !objects[(bucket, key)].deleted
    &&& (prefix matches Some(p) ==> p.is_prefix_of(key))
    &&& (after matches Some(a) ==> a.before(key) && group_of(key, prefix, delimiter) != Some(a))
}

/// The row of an object in a listing.
spec fn row_for(
    objects: Map<(Seq<char>, Seq<char>), ObjectView>,
    bucket: Seq<char>,
    prefix: Option<Seq<char>>,
    delimiter: Option<Seq<char>>,
    key: Seq<char>,
) -> (Seq<char>, ItemView) {
    match group_of(key, prefix, delimiter) {
        Some(g) => (g, ItemView::Prefix(g)),
        None => (
            key,
            ItemView::Object((key, objects[(bucket, key)].size, objects[(bucket, key)].etag)),
        ),
    }
}

/// `row` is the row of an object that belongs to the listing.
spec fn has_row(
    objects: Map<(Seq<char>, Seq<char>), ObjectView>,
    bucket: Seq<char>,
    after: Option<Seq<char>>,
    prefix: Option<Seq<char>>,
    delimiter: Option<Seq<char>>,
    row: (Seq<char>, ItemView),
) -> bool {
    exists|key: Seq<char>| #[trigger]
        belongs(objects, bucket, after, prefix, delimiter, key) && row == row_for(
            objects,
            bucket,
            prefix,
            delimiter,
            key,
        )
}

proof fn lemma_rows(
    objects: Map<(Seq<char>, Seq<char>), ObjectView>,
    bucket: Seq<char>,
    after: Option<Seq<char>>,
    prefix: Option<Seq<char>>,
    delimiter: Option<Seq<char>>,
)
    requires
        table::enumerates(table::ordered(objects), objects),
    ensures
        ({
            let rows = grouping::listing_rows(objects, bucket, after, prefix, delimiter);
            &&& table::ascending(rows)
            &&& forall|i: int|
                0 <= i < rows.len() ==> has_row(
                    objects,
                    bucket,
                    after,
                    prefix,
                    delimiter,
                    #[trigger] rows[i],
                )
            &&& forall|key: Seq<char>| #[trigger]
                belongs(objects, bucket, after, prefix, delimiter, key) ==> rows.contains(
                    row_for(objects, bucket, prefix, delimiter, key),
                )
        }),
{
    let rows = grouping::listing_rows(objects, bucket, after, prefix, delimiter);
    let all = listing::listing(objects, bucket, after, prefix);
    let none = Seq::<char>::empty();
    assert forall|x: Seq<char>| none.is_prefix_of(x) by {
        assert(x.subrange(0, 0) =~= none);
    }
    match delimiter {
        None => {
            let s = table::ordered(objects);
            let p = listing::in_listing(bucket, after, prefix);
            let kept = s.filter(p);
            table::lemma_filter_ascending(s, p);
            assert forall|i: int, j: int| 0 <= i < j < rows.len() implies (
            #[trigger] rows[i]).0.before((#[trigger] rows[j]).0) by {
                assert(kept[i].0.before(kept[j].0));
                assert(kept.contains(kept[i]) && kept.contains(kept[j]));
                seqs::lemma_filter_members(s, p, kept[i]);
                seqs::lemma_filter_members(s, p, kept[j]);
                <Seq<char> as KeyOrder>::before_irreflexive(bucket);
            }
            assert forall|i: int| 0 <= i < rows.len() implies has_row(
                objects,
                bucket,
                after,
                prefix,
                delimiter,
                #[trigger] rows[i],
            ) by {
                assert(all.contains(all[i]));
                listing::lemma_listing_has_prefix(objects, bucket, after, prefix, all[i]);
                assert(belongs(objects, bucket, after, prefix, delimiter, all[i].0));
            }
            assert forall|key: Seq<char>| #[trigger]
                belongs(objects, bucket, after, prefix, delimiter, key) implies rows.contains(
                row_for(objects, bucket, prefix, delimiter, key),
            ) by {
                let e = (key, objects[(bucket, key)].size, objects[(bucket, key)].etag);
                listing::lemma_listing_has_prefix(objects, bucket, after, prefix, e);
                let i = choose|i: int| 0 <= i < all.len() && all[i] == e;
                assert(rows[i] == row_for(objects, bucket, prefix, delimiter, key));
            }
            assert(table::ascending(rows));
        },
        Some(d) => {
            let q = grouping::or_empty(prefix);
            let here = paging::left(objects, bucket, after, prefix, d);
            paging::lemma_left(objects, bucket, after, prefix, d);
            paging::lemma_grouped(here, q, d);
            assert(rows == grouping::grouped(here, q, d));
            assert forall|i: int| 0 <= i < rows.len() implies has_row(
                objects,
                bucket,
                after,
                prefix,
                delimiter,
                #[trigger] rows[i],
            ) by {
                assert(rows.contains(rows[i]));
                let j = choose|j: int|
                    0 <= j < here.len() && #[trigger] paging::row_of(here[j], q, d) == rows[i];
                assert(here.contains(here[j]));
                assert(belongs(objects, bucket, after, prefix, delimiter, here[j].0));
            }
            assert forall|key: Seq<char>| #[trigger]
                belongs(objects, bucket, after, prefix, delimiter, key) implies rows.contains(
                row_for(objects, bucket, prefix, delimiter, key),
            ) by {
                let e = (key, objects[(bucket, key)].size, objects[(bucket, key)].etag);
                assert(paging::is_left(objects, bucket, after, prefix, d, e));
                assert(here.contains(e));
                let j = choose|j: int| 0 <= j < here.len() && here[j] == e;
                assert(paging::row_of(here[j], q, d) == row_for(objects, bucket, prefix, delimiter, key));
                assert(rows.contains(paging::row_of(here[j], q, d)));
            }
        },
    }
}

proof fn lemma_in_order(rows: Seq<(Seq<char>, ItemView)>)
    requires
        table::ascending(rows),
        forall|i: int| 0 <= i < rows.len() ==> match (#[trigger] rows[i]).1 {
            ItemView::Object(e) => e.0 == rows[i].0,
            ItemView::Prefix(p) => p == rows[i].0,
        },
    ensures
        forall|i: int, j: int|
            0 <= i < j < grouping::objects_in(rows).len() ==> (#[trigger] grouping::objects_in(
                rows,
            )[i]).0.before((#[trigger] grouping::objects_in(rows)[j]).0),
        forall|i: int, j: int|
            0 <= i < j < grouping::prefixes_in(rows).len() ==> (#[trigger] grouping::prefixes_in(
                rows,
            )[i]).before(#[trigger] grouping::prefixes_in(rows)[j]),
        grouping::objects_in(rows).len() + grouping::prefixes_in(rows).len() == rows.len(),
    decreases rows.len(),
{
    if rows.len() > 0 {
        let front = rows.drop_last();
        assert forall|i: int| 0 <= i < front.len() implies match (#[trigger] front[i]).1 {
            ItemView::Object(e) => e.0 == front[i].0,
            ItemView::Prefix(p) => p == front[i].0,
        } by {
            assert(front[i] == rows[i]);
        }
        assert(table::ascending(front)) by {
            assert forall|i: int, j: int| 0 <= i < j < front.len() implies (
            #[trigger] front[i]).0.before((#[trigger] front[j]).0) by {
                assert(rows[i].0.before(rows[j].0));
            }
        }
        lemma_in_order(front);
        paging::lemma_objects_in(front);
        let last = rows[rows.len() - 1];
        let o = grouping::objects_in(front);
        let p = grouping::prefixes_in(front);
        assert forall|i: int| 0 <= i < o.len() implies (#[trigger] o[i]).0.before(last.0) by {
            assert(o.contains(o[i]));
            let x = choose|x: int| 0 <= x < front.len() && front[x] == (o[i].0, ItemView::Object(o[i]));
            assert(rows[x].0.before(rows[rows.len() - 1].0));
        }
        assert forall|i: int| 0 <= i < p.len() implies (#[trigger] p[i]).before(last.0) by {
            assert(p.contains(p[i]));
            let x = choose|x: int| 0 <= x < front.len() && front[x] == (p[i], ItemView::Prefix(p[i]));
            assert(rows[x].0.before(rows[rows.len() - 1].0));
        }
    }
}

/// The common prefixes of an answer.
pub open spec fn shown_prefixes(out: ListOutput) -> Seq<Seq<char>> {
    match out.common_prefixes {
        Some(v) => seqs::views(v@),
        None => seq![],
    }
}

/// The last of what an answer lists, in key order, is `t`: it is a key or a common prefix of the
/// answer, and none of them is behind it.
pub open spec fn is_last_shown(out: ListOutput, t: Seq<char>) -> bool {
    &&& (exists|i: int| 0 <= i < out.contents@.len() && (#[trigger] out.contents@[i]).0@ == t)
        || shown_prefixes(out).contains(t)
    &&& forall|i: int| 0 <= i < out.contents@.len() ==> !t.before((#[trigger] out.contents@[i]).0@)
    &&& forall|i: int|
        0 <= i < shown_prefixes(out).len() ==> !t.before(#[trigger] shown_prefixes(out)[i])
}

/// What an answer to ListObjects says is so: it lists live objects that belong to the listing, with
/// their sizes and etags, and the groups of such objects, each once and in order, as many together
/// as a page may have. It leaves nothing out but what is behind its last row, and then it says that
/// there is more and names that row.
pub proof fn lemma_answer(
    s: StoreView,
    bucket: Seq<char>,
    after: Option<Seq<char>>,
    prefix: Option<Seq<char>>,
    delimiter: Option<Seq<char>>,
    max_keys: Option<i32>,
    out: ListOutput,
)
    requires
        table::enumerates(table::ordered(s.objects), s.objects),
        storage::list_answer(s, bucket, after, prefix, delimiter, max_keys, out),
    ensures
        ({
            let n = match max_keys {
                None => 1000,
                Some(m) => if m < 1 {
                    1
                } else {
                    m as int
                },
            };
            let groups = shown_prefixes(out);
            &&& out.max_keys == n
            &&& out.key_count == out.contents@.len() + groups.len()
            &&& out.key_count <= n
            &&& out.is_truncated ==> out.key_count == n
            &&& out.is_truncated == out.next is Some
            &&& out.common_prefixes is Some == (groups.len() > 0)
            &&& forall|i: int| 0 <= i < out.contents@.len() ==> {
                let key = (#[trigger] out.contents@[i]).0@;
                &&& belongs(s.objects, bucket, after, prefix, delimiter, key)
                &&& group_of(key, prefix, delimiter) is None
                &&& out.contents@[i].1 == s.objects[(bucket, key)].size
                &&& out.contents@[i].2@ == seq!['"'] + s.objects[(bucket, key)].etag + seq!['"']
            }
            &&& forall|i: int, j: int|
                0 <= i < j < out.contents@.len() ==> (#[trigger] out.contents@[i]).0@.before(
                    (#[trigger] out.contents@[j]).0@,
                )
            &&& forall|i: int, j: int|
                0 <= i < j < groups.len() ==> (#[trigger] groups[i]).before(#[trigger] groups[j])
            &&& forall|i: int|
                0 <= i < groups.len() ==> exists|key: Seq<char>| #[trigger]
                    belongs(s.objects, bucket, after, prefix, delimiter, key) && group_of(
                        key,
                        prefix,
                        delimiter,
                    ) == Some(#[trigger] groups[i])
            &&& forall|key: Seq<char>| #[trigger]
                belongs(s.objects, bucket, after, prefix, delimiter, key) ==> match group_of(
                    key,
                    prefix,
                    delimiter,
                ) {
                    None => (exists|i: int|
                        0 <= i < out.contents@.len() && (#[trigger] out.contents@[i]).0@ == key)
                        || (out.next matches Some(t) && t@.before(key)),
                    Some(g) => groups.contains(g) || (out.next matches Some(t) && t@.before(g)),
                }
            &&& out.next matches Some(t) ==> is_last_shown(out, t@)
        }),
{
    let n = storage::page_limit(max_keys);
    let rows = grouping::listing_rows(s.objects, bucket, after, prefix, delimiter);
    let kept = seqs::at_most(rows, n);
    let contents = grouping::objects_in(kept);
    let groups = grouping::prefixes_in(kept);
    lemma_rows(s.objects, bucket, after, prefix, delimiter);
    assert(shown_prefixes(out) =~= groups);
    assert forall|i: int| 0 <= i < kept.len() implies match (#[trigger] kept[i]).1 {
        ItemView::Object(e) => e.0 == kept[i].0,
        ItemView::Prefix(p) => p == kept[i].0,
    } by {
        assert(kept[i] == rows[i]);
        let key = choose|key: Seq<char>| #[trigger]
            belongs(s.objects, bucket, after, prefix, delimiter, key) && rows[i] == row_for(
                s.objects,
                bucket,
                prefix,
                delimiter,
                key,
            );
    }
    assert(table::ascending(kept)) by {
        assert forall|i: int, j: int| 0 <= i < j < kept.len() implies (#[trigger] kept[i]).0.before(
            (#[trigger] kept[j]).0,
        ) by {
            assert(rows[i].0.before(rows[j].0));
        }
    }
    paging::lemma_objects_in(kept);
    lemma_in_order(kept);
    reveal_strlit("\"");
    assert("\""@ =~= seq!['"']);
    let shown = seqs::views(out.contents@);
    assert(shown.len() == contents.len());
    assert forall|i: int| 0 <= i < out.contents@.len() implies (#[trigger] out.contents@[i]).0@
        == contents[i].0 && out.contents@[i].1 == contents[i].1 && out.contents@[i].2@ == seq!['"']
        + contents[i].2 + seq!['"'] by {
        assert(shown[i] == out.contents@[i]@);
        assert(shown[i] == storage::quoted_rows(contents)[i]);
    }
    assert forall|i: int| 0 <= i < out.contents@.len() implies {
        let key = (#[trigger] out.contents@[i]).0@;
        &&& belongs(s.objects, bucket, after, prefix, delimiter, key)
        &&& group_of(key, prefix, delimiter) is None
        &&& out.contents@[i].1 == s.objects[(bucket, key)].size
        &&& out.contents@[i].2@ == seq!['"'] + s.objects[(bucket, key)].etag + seq!['"']
    } by {
        let e = contents[i];
        assert(contents.contains(e));
        let x = choose|x: int| 0 <= x < kept.len() && kept[x] == (e.0, ItemView::Object(e));
        assert(rows[x] == kept[x]);
        let key = choose|key: Seq<char>| #[trigger]
            belongs(s.objects, bucket, after, prefix, delimiter, key) && rows[x] == row_for(
                s.objects,
                bucket,
                prefix,
                delimiter,
                key,
            );
    }
    assert forall|i: int, j: int| 0 <= i < j < out.contents@.len() implies (
    #[trigger] out.contents@[i]).0@.before((#[trigger] out.contents@[j]).0@) by {
        assert(contents[i].0.before(contents[j].0));
    }
    assert forall|i: int| 0 <= i < groups.len() implies exists|key: Seq<char>| #[trigger]
        belongs(s.objects, bucket, after, prefix, delimiter, key) && group_of(
            key,
            prefix,
            delimiter,
        ) == Some(#[trigger] groups[i]) by {
        let g = groups[i];
        assert(groups.contains(g));
        let x = choose|x: int| 0 <= x < kept.len() && kept[x] == (g, ItemView::Prefix(g));
        assert(rows[x] == kept[x]);
        let key = choose|key: Seq<char>| #[trigger]
            belongs(s.objects, bucket, after, prefix, delimiter, key) && rows[x] == row_for(
                s.objects,
                bucket,
                prefix,
                delimiter,
                key,
            );
        assert(group_of(key, prefix, delimiter) == Some(g));
    }
    if rows.len() > n {
        assert(kept.len() == n && n >= 1);
        let t = kept[n - 1].0;
        assert(kept.last() == kept[n - 1]);
        assert forall|i: int| 0 <= i < kept.len() implies !t.before((#[trigger] kept[i]).0) by {
            <Seq<char> as KeyOrder>::before_irreflexive(t);
            if i < n - 1 {
                assert(kept[i].0.before(kept[n - 1].0));
                if t.before(kept[i].0) {
                    <Seq<char> as KeyOrder>::before_transitive(t, kept[i].0, t);
                }
            }
        }
        match kept[n - 1].1 {
            ItemView::Object(e) => {
                assert(kept.contains((e.0, ItemView::Object(e))));
                assert(contents.contains(e));
                let i = choose|i: int| 0 <= i < contents.len() && contents[i] == e;
                assert(out.contents@[i].0@ == t);
            },
            ItemView::Prefix(g) => {
                assert(kept.contains((g, ItemView::Prefix(g))));
                assert(groups.contains(t));
            },
        }
        assert forall|i: int| 0 <= i < out.contents@.len() implies !t.before(
            (#[trigger] out.contents@[i]).0@,
        ) by {
            assert(contents.contains(contents[i]));
            let x = choose|x: int|
                0 <= x < kept.len() && kept[x] == (contents[i].0, ItemView::Object(contents[i]));
            assert(!t.before(kept[x].0));
        }
        assert forall|i: int| 0 <= i < groups.len() implies !t.before(#[trigger] groups[i]) by {
            assert(groups.contains(groups[i]));
            let x = choose|x: int|
                0 <= x < kept.len() && kept[x] == (groups[i], ItemView::Prefix(groups[i]));
            assert(!t.before(kept[x].0));
        }
        assert(is_last_shown(out, t));
    }
    assert forall|key: Seq<char>| #[trigger]
        belongs(s.objects, bucket, after, prefix, delimiter, key) implies match group_of(
        key,
        prefix,
        delimiter,
    ) {
        None => (exists|i: int|
            0 <= i < out.contents@.len() && (#[trigger] out.contents@[i]).0@ == key) || (out.next
            matches Some(t) && t@.before(key)),
        Some(g) => groups.contains(g) || (out.next matches Some(t) && t@.before(g)),
    } by {
        let r = row_for(s.objects, bucket, prefix, delimiter, key);
        assert(rows.contains(r));
        let y = choose|y: int| 0 <= y < rows.len() && rows[y] == r;
        if y < kept.len() {
            assert(kept[y] == r);
            assert(kept.contains(r));
            match group_of(key, prefix, delimiter) {
                None => {
                    let e = (
                        key,
                        s.objects[(bucket, key)].size,
                        s.objects[(bucket, key)].etag,
                    );
                    assert(contents.contains(e));
                    let i = choose|i: int| 0 <= i < contents.len() && contents[i] == e;
                    assert(out.contents@[i].0@ == key);
                },
                Some(g) => {
                    assert(groups.contains(g));
                },
            }
        } else {
            assert(rows[n - 1].0.before(rows[y].0));
        }
    }
}

/// A page is the front of what there is, as long as a page may be, and tells whether there is more.
pub proof fn lemma_page(all: Seq<ListedView>, size: int, shown: Seq<ListedView>, more: bool)
    requires
        size >= 0,
        listing::is_page(all, size, shown, more),
    ensures
        all.len() <= size ==> shown == all && !more,
        all.len() > size ==> shown == all.take(size) && more,
{
}

/// The first page of rows ends with the row that it names, where there are more rows.
pub proof fn lemma_first_page(rows: Seq<(Seq<char>, ItemView)>, size: int)
    requires
        size > 0,
    ensures
        ({
            let page = grouping::first_page(rows, size);
            &&& rows.len() > size ==> page.is_truncated && page.next == Some(rows[size - 1].0)
            &&& rows.len() <= size ==> !page.is_truncated && page.next is None
            &&& rows.len() <= size ==> page.contents == grouping::objects_in(rows)
                && page.common_prefixes == grouping::prefixes_in(rows)
            &&& rows.len() > size ==> page.contents == grouping::objects_in(rows.take(size))
                && page.common_prefixes == grouping::prefixes_in(rows.take(size))
        }),
{
}

} // verus!
