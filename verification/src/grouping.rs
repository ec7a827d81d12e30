//! Listing with a delimiter: keys that share a path segment collapse into common prefixes.

use vstd::prelude::*;

use crate::listing;
use crate::listing::ListedView;
use crate::rows::ObjectView;
use crate::seqs;
use crate::store::Store;
use crate::table;
use crate::text;

verus! {

/// Everything up to and including the first delimiter past `prefix`, where `key` has the
/// prefix and such a delimiter.
pub open spec fn common_prefix(
    key: Seq<char>,
    prefix: Seq<char>,
    delimiter: Seq<char>,
) -> Option<Seq<char>> {
    let rest = key.skip(prefix.len() as int);
    if prefix.is_prefix_of(key) && exists|i: int| text::first_at(rest, delimiter, i) {
        let i = choose|i: int| text::first_at(rest, delimiter, i);
        Some(prefix + rest.take(i) + delimiter)
    } else {
        None
    }
}

/// The objects that no common prefix stands for.
pub open spec fn plain(prefix: Seq<char>, delimiter: Seq<char>) -> spec_fn(ListedView) -> bool {
    |e: ListedView| common_prefix(e.0, prefix, delimiter) is None
}

/// The common prefixes of `objects`, each once, in the order in which they first occur.
pub open spec fn common_prefixes(
    objects: Seq<ListedView>,
    prefix: Seq<char>,
    delimiter: Seq<char>,
) -> Seq<Seq<char>>
    decreases objects.len(),
{
    if objects.len() == 0 {
        seq![]
    } else {
        let front = common_prefixes(objects.drop_last(), prefix, delimiter);
        match common_prefix(objects.last().0, prefix, delimiter) {
            Some(cp) => if front.contains(cp) {
                front
            } else {
                front.push(cp)
            },
            None => front,
        }
    }
}

/// The common prefix that `key` falls under.
fn common_prefix_of(key: &str, prefix: &str, delimiter: &str) -> (r: Option<String>)
    ensures
        r is Some == common_prefix(key@, prefix@, delimiter@) is Some,
        r matches Some(cp) ==> common_prefix(key@, prefix@, delimiter@) == Some(cp@),
{
    let k = text::chars_of(key);
    let p = text::chars_of(prefix);
    let d = text::chars_of(delimiter);
    let ghost rest = key@.skip(prefix@.len() as int);
    if !text::chars_start_with(k.as_slice(), p.as_slice()) {
        return None;
    }
    let tail = vstd::slice::slice_subrange(k.as_slice(), p.len(), k.len());
    assert(tail@ =~= rest);
    match text::chars_find(tail, d.as_slice()) {
        Some(i) => {
            let head = text::text_of(tail, 0, i);
            let cp = text::join3(prefix, head.as_str(), delimiter);
            proof {
                assert(text::first_at(rest, delimiter@, i as int));
                let j = choose|j: int| text::first_at(rest, delimiter@, j);
                assert(j == i) by {
                    if j < i {
                        assert(!text::occurs_at(rest, delimiter@, j));
                    } else if i < j {
                        assert(!text::occurs_at(rest, delimiter@, i as int));
                    }
                }
                assert(head@ =~= rest.take(i as int));
            }
            Some(cp)
        },
        None => None,
    }
}

fn contains_text(v: &Vec<String>, t: &str) -> (r: bool)
    ensures
        r == seqs::views(v@).contains(t@),
{
    let mut i: usize = 0;
    while i < v.len()
        invariant
            i <= v@.len(),
            forall|j: int| 0 <= j < i ==> (#[trigger] v@[j])@ != t@,
        decreases v@.len() - i,
    {
        if text::same_text(v[i].as_str(), t) {
            assert(seqs::views(v@)[i as int] == t@);
            return true;
        }
        i += 1;
    }
    proof {
        if seqs::views(v@).contains(t@) {
            let j = choose|j: int| 0 <= j < v@.len() && seqs::views(v@)[j] == t@;
            assert(v@[j]@ == t@);
        }
    }
    false
}

/// Collapse keys under `prefix` whose remainder contains `delimiter` into a
/// single common prefix (everything up to and including the first delimiter past
/// `prefix`). Returns the kept contents (keys with no further delimiter) and the
/// deduped, ordered common prefixes — the ListObjectsV2 delimiter semantics.
pub fn group_by_delimiter(
    objects: Vec<(String, i64, String)>,
    prefix: &str,
    delimiter: &str,
) -> (r: (Vec<(String, i64, String)>, Vec<String>))
    ensures
        seqs::views(r.0@) == seqs::views(objects@).filter(plain(prefix@, delimiter@)),
        seqs::views(r.1@) == common_prefixes(seqs::views(objects@), prefix@, delimiter@),
{
    let ghost all = seqs::views(objects@);
    let ghost p = plain(prefix@, delimiter@);
    let mut contents: Vec<(String, i64, String)> = Vec::new();
    let mut common: Vec<String> = Vec::new();
    let mut i: usize = 0;
    proof {
        seqs::lemma_filter_none(all, p);
        assert(seqs::views(contents@) =~= all.take(0).filter(p));
        assert(seqs::views(common@) =~= common_prefixes(all.take(0), prefix@, delimiter@));
    }
    while i < objects.len()
        invariant
            i <= objects@.len(),
            all == seqs::views(objects@),
            p == plain(prefix@, delimiter@),
            seqs::views(contents@) == all.take(i as int).filter(p),
            seqs::views(common@) == common_prefixes(all.take(i as int), prefix@, delimiter@),
        decreases objects@.len() - i,
    {
        let e = &objects[i];
        proof {
            seqs::lemma_filter_take(all, p, i as int);
            assert(all[i as int] == e@);
            assert(all.take(i + 1).drop_last() =~= all.take(i as int));
            assert(all.take(i + 1).last() == e@);
        }
        match common_prefix_of(e.0.as_str(), prefix, delimiter) {
            Some(cp) => {
                if !contains_text(&common, cp.as_str()) {
                    proof {
                        seqs::lemma_views_push(common@, cp);
                    }
                    common.push(cp);
                }
            },
            None => {
                let item = (e.0.clone(), e.1, e.2.clone());
                proof {
                    seqs::lemma_views_push(contents@, item);
                }
                contents.push(item);
            },
        }
        i += 1;
    }
    assert(all.take(all.len() as int) =~= all);
    (contents, common)
}

// ── merging ──────────────────────────────────────────────────────────────────

/// A row of a grouped listing.
pub enum Item {
    Object(String, i64, String),
    Prefix(String),
}

pub enum ItemView {
    Object(ListedView),
    Prefix(Seq<char>),
}

impl View for Item {
    type V = ItemView;

    open spec fn view(&self) -> ItemView {
        match self {
            Item::Object(k, s, e) => ItemView::Object((k@, *s, e@)),
            Item::Prefix(p) => ItemView::Prefix(p@),
        }
    }
}

/// Contents and common prefixes as rows by key, contents first.
pub open spec fn rows_of(contents: Seq<ListedView>, common: Seq<Seq<char>>) -> Seq<
    (Seq<char>, ItemView),
> {
    contents.map_values(|e: ListedView| (e.0, ItemView::Object(e))) + common.map_values(
        |p: Seq<char>| (p, ItemView::Prefix(p)),
    )
}

/// The rows of a grouped listing in key order.
pub open spec fn merged(contents: Seq<ListedView>, common: Seq<Seq<char>>) -> Seq<
    (Seq<char>, ItemView),
> {
    table::stable_sort(rows_of(contents, common))
}

/// The objects among `rows`.
pub open spec fn objects_in(rows: Seq<(Seq<char>, ItemView)>) -> Seq<ListedView>
    decreases rows.len(),
{
    if rows.len() == 0 {
        seq![]
    } else {
        match rows.last().1 {
            ItemView::Object(e) => objects_in(rows.drop_last()).push(e),
            ItemView::Prefix(_) => objects_in(rows.drop_last()),
        }
    }
}

/// The common prefixes among `rows`.
pub open spec fn prefixes_in(rows: Seq<(Seq<char>, ItemView)>) -> Seq<Seq<char>>
    decreases rows.len(),
{
    if rows.len() == 0 {
        seq![]
    } else {
        match rows.last().1 {
            ItemView::Object(_) => prefixes_in(rows.drop_last()),
            ItemView::Prefix(p) => prefixes_in(rows.drop_last()).push(p),
        }
    }
}

fn add_row(rows: &mut Vec<(String, Item)>, key: String, item: Item, all: Ghost<Seq<(Seq<char>, ItemView)>>, i: usize)
    requires
        i < all@.len(),
        all@[i as int] == (key@, item@),
        seqs::views(old(rows)@) == table::stable_sort(all@.take(i as int)),
        table::sorted(seqs::views(old(rows)@)),
    ensures
        seqs::views(final(rows)@) == table::stable_sort(all@.take(i + 1)),
        table::sorted(seqs::views(final(rows)@)),
{
    proof {
        assert(all@.take(i + 1).drop_last() =~= all@.take(i as int));
    }
    table::insert_sorted(rows, key, item);
}

/// Merge grouped contents and common prefixes into a single key-ordered result
/// truncated to `max_keys` (both counting toward the cap, per S3). Returns
/// (kept_contents, kept_common_prefixes, is_truncated, next_continuation_token).
pub fn merge_and_truncate(
    contents: Vec<(String, i64, String)>,
    common: Vec<String>,
    max_keys: usize,
) -> (r: (Vec<(String, i64, String)>, Vec<String>, bool, Option<String>))
    requires
        contents@.len() + common@.len() <= usize::MAX,
    ensures
        ({
            let all = merged(seqs::views(contents@), seqs::views(common@));
            let page = first_page(all, max_keys as int);
            &&& seqs::views(r.0@) == page.contents
            &&& seqs::views(r.1@) == page.common_prefixes
            &&& r.2 == page.is_truncated
            &&& r.3 is Some == page.next is Some
            &&& r.3 matches Some(t) ==> page.next == Some(t@)
        }),
{
    let ghost all = rows_of(seqs::views(contents@), seqs::views(common@));
    let mut rows: Vec<(String, Item)> = Vec::new();
    assert(seqs::views(rows@) =~= table::stable_sort(all.take(0)));
    let mut i: usize = 0;
    while i < contents.len()
        invariant
            i <= contents@.len(),
            all == rows_of(seqs::views(contents@), seqs::views(common@)),
            seqs::views(rows@) == table::stable_sort(all.take(i as int)),
            table::sorted(seqs::views(rows@)),
        decreases contents@.len() - i,
    {
        let e = &contents[i];
        assert(all[i as int] == (e.0@, ItemView::Object(e@)));
        add_row(
            &mut rows,
            e.0.clone(),
            Item::Object(e.0.clone(), e.1, e.2.clone()),
            Ghost(all),
            i,
        );
        i += 1;
    }
    let mut j: usize = 0;
    while j < common.len()
        invariant
            j <= common@.len(),
            contents@.len() + common@.len() <= usize::MAX,
            all == rows_of(seqs::views(contents@), seqs::views(common@)),
            seqs::views(rows@) == table::stable_sort(all.take(contents@.len() + j)),
            table::sorted(seqs::views(rows@)),
        decreases common@.len() - j,
    {
        let p = &common[j];
        assert(all[contents@.len() + j] == (p@, ItemView::Prefix(p@)));
        let at: usize = contents.len() + j;
        add_row(&mut rows, p.clone(), Item::Prefix(p.clone()), Ghost(all), at);
        j += 1;
    }
    proof {
        assert(all.take(all.len() as int) =~= all);
        table::lemma_stable_sort(all);
    }
    let ghost sorted = table::stable_sort(all);
    let is_truncated = rows.len() > max_keys;
    let kept: usize = if is_truncated {
        max_keys
    } else {
        rows.len()
    };
    let ghost kept_rows = seqs::at_most(sorted, max_keys as int);
    assert(kept_rows =~= sorted.take(kept as int));
    let next: Option<String> = if is_truncated && kept > 0 {
        assert(kept_rows.last() == seqs::views(rows@)[kept - 1]);
        Some(rows[kept - 1].0.clone())
    } else {
        None
    };
    let mut out_contents: Vec<(String, i64, String)> = Vec::new();
    let mut out_common: Vec<String> = Vec::new();
    let mut n: usize = 0;
    assert(seqs::views(out_contents@) =~= objects_in(sorted.take(0)));
    assert(seqs::views(out_common@) =~= prefixes_in(sorted.take(0)));
    while n < kept
        invariant
            n <= kept <= rows@.len(),
            sorted == seqs::views(rows@),
            seqs::views(out_contents@) == objects_in(sorted.take(n as int)),
            seqs::views(out_common@) == prefixes_in(sorted.take(n as int)),
        decreases kept - n,
    {
        proof {
            assert(sorted.take(n + 1).drop_last() =~= sorted.take(n as int));
            assert(sorted.take(n + 1).last() == rows@[n as int]@);
        }
        match &rows[n].1 {
            Item::Object(k, size, etag) => {
                let item = (k.clone(), *size, etag.clone());
                proof {
                    seqs::lemma_views_push(out_contents@, item);
                }
                out_contents.push(item);
            },
            Item::Prefix(p) => {
                let item = p.clone();
                proof {
                    seqs::lemma_views_push(out_common@, item);
                }
                out_common.push(item);
            },
        }
        n += 1;
    }
    (out_contents, out_common, is_truncated, next)
}

// ── pages ────────────────────────────────────────────────────────────────────

/// One page of a listing.
pub struct ListPage {
    pub contents: Vec<(String, i64, String)>,
    pub common_prefixes: Vec<String>,
    pub is_truncated: bool,
    /// The key to list behind next, where the page is truncated.
    pub next: Option<String>,
}

/// The contents of a page.
pub struct PageView {
    pub contents: Seq<ListedView>,
    pub common_prefixes: Seq<Seq<char>>,
    pub is_truncated: bool,
    pub next: Option<Seq<char>>,
}

impl View for ListPage {
    type V = PageView;

    open spec fn view(&self) -> PageView {
        PageView {
            contents: seqs::views(self.contents@),
            common_prefixes: seqs::views(self.common_prefixes@),
            is_truncated: self.is_truncated,
            next: match self.next {
                Some(s) => Some(s@),
                None => None,
            },
        }
    }
}

/// The row of an object by itself.
pub open spec fn object_row() -> spec_fn(ListedView) -> (Seq<char>, ItemView) {
    |e: ListedView| (e.0, ItemView::Object(e))
}

/// The objects that do not fall under the cursor. A cursor that is a common prefix stands for
/// all the keys under it.
pub open spec fn past(
    after: Option<Seq<char>>,
    prefix: Seq<char>,
    delimiter: Seq<char>,
) -> spec_fn(ListedView) -> bool {
    |e: ListedView| after is None || common_prefix(e.0, prefix, delimiter) != after
}

/// The rows of a grouped listing of `objects`.
pub open spec fn grouped(objects: Seq<ListedView>, prefix: Seq<char>, delimiter: Seq<char>) -> Seq<
    (Seq<char>, ItemView),
> {
    merged(
        objects.filter(plain(prefix, delimiter)),
        common_prefixes(objects, prefix, delimiter),
    )
}

/// A missing prefix is the empty one.
pub open spec fn or_empty(prefix: Option<Seq<char>>) -> Seq<char> {
    match prefix {
        Some(p) => p,
        None => seq![],
    }
}

/// The rows of the listing of `bucket` behind a cursor, in key order: its objects, which a
/// delimiter groups.
pub open spec fn listing_rows(
    objects: Map<(Seq<char>, Seq<char>), ObjectView>,
    bucket: Seq<char>,
    after: Option<Seq<char>>,
    prefix: Option<Seq<char>>,
    delimiter: Option<Seq<char>>,
) -> Seq<(Seq<char>, ItemView)> {
    let all = listing::listing(objects, bucket, after, prefix);
    match delimiter {
        None => all.map_values(object_row()),
        Some(d) => grouped(all.filter(past(after, or_empty(prefix), d)), or_empty(prefix), d),
    }
}

/// The first page of a list of rows: contents and common prefixes both count toward
/// `max_keys`.
pub open spec fn first_page(rows: Seq<(Seq<char>, ItemView)>, max_keys: int) -> PageView {
    let kept = seqs::at_most(rows, max_keys);
    let is_truncated = rows.len() > max_keys;
    PageView {
        contents: objects_in(kept),
        common_prefixes: prefixes_in(kept),
        is_truncated,
        next: if is_truncated && kept.len() > 0 {
            Some(kept.last().0)
        } else {
            None
        },
    }
}

/// A page of the listing of `bucket` behind a cursor.
pub open spec fn page_of(
    objects: Map<(Seq<char>, Seq<char>), ObjectView>,
    bucket: Seq<char>,
    after: Option<Seq<char>>,
    prefix: Option<Seq<char>>,
    delimiter: Option<Seq<char>>,
    max_keys: int,
) -> PageView {
    first_page(listing_rows(objects, bucket, after, prefix, delimiter), max_keys)
}

/// Rows that are all objects are these objects.
proof fn lemma_only_objects(all: Seq<ListedView>)
    ensures
        objects_in(all.map_values(object_row())) == all,
        prefixes_in(all.map_values(object_row())) == Seq::<Seq<char>>::empty(),
    decreases all.len(),
{
    let rows = all.map_values(object_row());
    if all.len() > 0 {
        lemma_only_objects(all.drop_last());
        assert(rows.drop_last() =~= all.drop_last().map_values(object_row()));
        assert(all =~= all.drop_last().push(all.last()));
    } else {
        assert(objects_in(rows) =~= all);
        assert(prefixes_in(rows) =~= Seq::<Seq<char>>::empty());
    }
}

proof fn lemma_common_prefixes_len(
    objects: Seq<ListedView>,
    prefix: Seq<char>,
    delimiter: Seq<char>,
)
    ensures
        common_prefixes(objects, prefix, delimiter).len() + objects.filter(
            plain(prefix, delimiter),
        ).len() <= objects.len(),
    decreases objects.len(),
{
    reveal(Seq::filter);
    if objects.len() > 0 {
        lemma_common_prefixes_len(objects.drop_last(), prefix, delimiter);
    }
}

/// The objects that do not fall under the cursor.
fn skip_group(
    objects: Vec<(String, i64, String)>,
    after: Option<&str>,
    prefix: &str,
    delimiter: &str,
) -> (r: Vec<(String, i64, String)>)
    ensures
        seqs::views(r@) == seqs::views(objects@).filter(
            past(listing::opt_text(after), prefix@, delimiter@),
        ),
        r@.len() <= objects@.len(),
{
    let cursor: &str = match after {
        Some(a) => a,
        None => {
            let ghost all = seqs::views(objects@);
            proof {
                lemma_filter_all(all, past(None, prefix@, delimiter@));
            }
            return objects;
        },
    };
    let ghost all = seqs::views(objects@);
    let ghost p = past(Some(cursor@), prefix@, delimiter@);
    let mut out: Vec<(String, i64, String)> = Vec::new();
    let mut i: usize = 0;
    proof {
        seqs::lemma_filter_none(all, p);
        assert(seqs::views(out@) =~= all.take(0).filter(p));
    }
    while i < objects.len()
        invariant
            i <= objects@.len(),
            out@.len() <= i,
            all == seqs::views(objects@),
            p == past(Some(cursor@), prefix@, delimiter@),
            seqs::views(out@) == all.take(i as int).filter(p),
        decreases objects@.len() - i,
    {
        let e = &objects[i];
        proof {
            seqs::lemma_filter_take(all, p, i as int);
            assert(all[i as int] == e@);
        }
        let under = match common_prefix_of(e.0.as_str(), prefix, delimiter) {
            Some(cp) => text::same_text(cp.as_str(), cursor),
            None => false,
        };
        if !under {
            let item = (e.0.clone(), e.1, e.2.clone());
            proof {
                seqs::lemma_views_push(out@, item);
            }
            out.push(item);
        }
        i += 1;
    }
    assert(all.take(all.len() as int) =~= all);
    out
}

proof fn lemma_filter_all<A>(s: Seq<A>, p: spec_fn(A) -> bool)
    requires
        forall|i: int| 0 <= i < s.len() ==> p(#[trigger] s[i]),
    ensures
        s.filter(p) == s,
    decreases s.len(),
{
    reveal(Seq::filter);
    if s.len() > 0 {
        let front = s.drop_last();
        assert forall|i: int| 0 <= i < front.len() implies p(#[trigger] front[i]) by {
            assert(p(s[i]));
        }
        lemma_filter_all(front, p);
        assert(p(s[s.len() - 1]));
        assert(s =~= front.push(s.last()));
    }
}

impl Store {
    /// One page of the listing of `bucket`.
    pub fn list_page(
        &self,
        bucket: &str,
        after: Option<&str>,
        prefix: Option<&str>,
        delimiter: Option<&str>,
        max_keys: usize,
    ) -> (r: ListPage)
        ensures
            r@ == page_of(
                self@.objects,
                bucket@,
                listing::opt_text(after),
                listing::opt_text(prefix),
                listing::opt_text(delimiter),
                max_keys as int,
            ),
            r@.contents.len() + r@.common_prefixes.len() <= max_keys,
    {
        let ghost all = listing::listing(
            self@.objects,
            bucket@,
            listing::opt_text(after),
            listing::opt_text(prefix),
        );
        match delimiter {
            // No delimiter: one page straight from the store.
            None => {
                let (contents, is_truncated) = self.list_objects(bucket, after, prefix, max_keys);
                let n: usize = contents.len();
                let ghost kept = seqs::at_most(all, max_keys as int);
                proof {
                    lemma_only_objects(kept);
                    assert(seqs::at_most(all.map_values(object_row()), max_keys as int)
                        =~= kept.map_values(object_row()));
                }
                let next: Option<String> = if is_truncated && n > 0 {
                    assert(seqs::views(contents@).last() == contents@[n - 1]@);
                    Some(contents[n - 1].0.clone())
                } else {
                    None
                };
                let common_prefixes: Vec<String> = Vec::new();
                assert(seqs::views(common_prefixes@) =~= Seq::<Seq<char>>::empty());
                ListPage { contents, common_prefixes, is_truncated, next }
            },
            // With a delimiter, keys that share a path segment collapse into one common prefix,
            // so the page is cut only after grouping.
            Some(d) => {
                let (gathered, _) = self.list_objects(bucket, after, prefix, self.objects.len());
                proof {
                    seqs::lemma_pick_len(
                        table::ordered(self@.objects),
                        listing::in_listing(
                            bucket@,
                            listing::opt_text(after),
                            listing::opt_text(prefix),
                        ),
                        listing::listed(),
                    );
                    assert(seqs::views(gathered@) =~= all);
                }
                let p: &str = match prefix {
                    Some(q) => q,
                    None => "",
                };
                proof {
                    reveal_strlit("");
                    assert(""@ =~= Seq::<char>::empty());
                }
                let left = skip_group(gathered, after, p, d);
                proof {
                    lemma_common_prefixes_len(seqs::views(left@), p@, d@);
                }
                let (contents, common) = group_by_delimiter(left, p, d);
                let ghost rows = merged(seqs::views(contents@), seqs::views(common@));
                let (contents, common_prefixes, is_truncated, next) = merge_and_truncate(
                    contents,
                    common,
                    max_keys,
                );
                proof {
                    lemma_split_len(seqs::at_most(rows, max_keys as int));
                }
                ListPage { contents, common_prefixes, is_truncated, next }
            },
        }
    }
}

proof fn lemma_split_len(rows: Seq<(Seq<char>, ItemView)>)
    ensures
        objects_in(rows).len() + prefixes_in(rows).len() == rows.len(),
    decreases rows.len(),
{
    if rows.len() > 0 {
        lemma_split_len(rows.drop_last());
    }
}

// ── what grouping keeps ──────────────────────────────────────────────────────

/// Grouping accounts for every object, by itself or by its common prefix, and names each
/// common prefix once.
pub proof fn lemma_grouping_accounts(
    objects: Seq<ListedView>,
    prefix: Seq<char>,
    delimiter: Seq<char>,
)
    ensures
        common_prefixes(objects, prefix, delimiter).no_duplicates(),
        forall|i: int|
            0 <= i < objects.len() ==> match common_prefix(
                (#[trigger] objects[i]).0,
                prefix,
                delimiter,
            ) {
                Some(cp) => common_prefixes(objects, prefix, delimiter).contains(cp),
                None => objects.filter(plain(prefix, delimiter)).contains(objects[i]),
            },
        forall|cp: Seq<char>| #[trigger]
            common_prefixes(objects, prefix, delimiter).contains(cp) ==> exists|i: int|
                0 <= i < objects.len() && common_prefix((#[trigger] objects[i]).0, prefix, delimiter)
                    == Some(cp),
    decreases objects.len(),
{
    let p = plain(prefix, delimiter);
    let all = common_prefixes(objects, prefix, delimiter);
    if objects.len() > 0 {
        let front = objects.drop_last();
        let before = common_prefixes(front, prefix, delimiter);
        lemma_grouping_accounts(front, prefix, delimiter);
        assert forall|x: Seq<char>| before.contains(x) implies all.contains(x) by {
            let j = choose|j: int| 0 <= j < before.len() && before[j] == x;
            assert(all[j] == x);
        }
        match common_prefix(objects.last().0, prefix, delimiter) {
            Some(cp) => {
                if !before.contains(cp) {
                    assert(all[before.len() as int] == cp);
                }
            },
            None => {},
        }
        assert forall|i: int| 0 <= i < objects.len() implies match common_prefix(
            (#[trigger] objects[i]).0,
            prefix,
            delimiter,
        ) {
            Some(cp) => all.contains(cp),
            None => objects.filter(p).contains(objects[i]),
        } by {
            if i < front.len() {
                assert(front[i] == objects[i]);
            }
            assert(objects.contains(objects[i]));
            seqs::lemma_filter_members(objects, p, objects[i]);
        }
        assert forall|cp: Seq<char>| #[trigger] all.contains(cp) implies exists|i: int|
            0 <= i < objects.len() && common_prefix((#[trigger] objects[i]).0, prefix, delimiter)
                == Some(cp) by {
            if before.contains(cp) {
                let i = choose|i: int|
                    0 <= i < front.len() && common_prefix((#[trigger] front[i]).0, prefix, delimiter)
                        == Some(cp);
                assert(objects[i] == front[i]);
            } else {
                assert(objects[objects.len() - 1] == objects.last());
            }
        }
    }
}

/// A common prefix starts with the prefix and ends with the delimiter, and every key that
/// falls under it starts with it.
pub proof fn lemma_common_prefix_shape(key: Seq<char>, prefix: Seq<char>, delimiter: Seq<char>)
    requires
        common_prefix(key, prefix, delimiter) is Some,
    ensures
        common_prefix(key, prefix, delimiter)->0.is_prefix_of(key),
        prefix.is_prefix_of(common_prefix(key, prefix, delimiter)->0),
        delimiter.is_suffix_of(common_prefix(key, prefix, delimiter)->0),
{
    let rest = key.skip(prefix.len() as int);
    let i = choose|i: int| text::first_at(rest, delimiter, i);
    let cp = prefix + rest.take(i) + delimiter;
    assert(rest.subrange(i, i + delimiter.len()) == delimiter);
    assert(key.subrange(0, prefix.len() as int) == prefix);
    assert forall|x: int| 0 <= x < cp.len() implies cp[x] == key[x] by {
        if x < prefix.len() {
            assert(key.subrange(0, prefix.len() as int)[x] == key[x]);
        } else if x < prefix.len() + i {
            assert(rest[x - prefix.len()] == key[x]);
        } else {
            let y = x - prefix.len() - i;
            assert(delimiter[y] == rest.subrange(i, i + delimiter.len())[y]);
            assert(rest[i + y] == key[x]);
        }
    }
    assert(cp =~= key.subrange(0, cp.len() as int));
    assert(prefix =~= cp.subrange(0, prefix.len() as int));
    assert(delimiter =~= cp.subrange(cp.len() - delimiter.len(), cp.len() as int));
}

} // verus!
