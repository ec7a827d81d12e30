//! Tables: finite maps kept in key order.

use vstd::prelude::*;

use crate::order::{KeyOrder, Rank, TableKey};
use crate::seqs;

verus! {

/// The keys of `s` are strictly ascending.
pub open spec fn ascending<A: KeyOrder, B>(s: Seq<(A, B)>) -> bool {
    forall|i: int, j: int| 0 <= i < j < s.len() ==> (#[trigger] s[i]).0.before((#[trigger] s[j]).0)
}

/// `s` lists the entries of `m` in ascending key order, each once.
pub open spec fn enumerates<A: KeyOrder, B>(s: Seq<(A, B)>, m: Map<A, B>) -> bool {
    &&& ascending(s)
    &&& forall|i: int|
        0 <= i < s.len() ==> m.dom().contains((#[trigger] s[i]).0) && m[s[i].0] == s[i].1
    &&& forall|k: A| #[trigger]
        m.dom().contains(k) ==> exists|i: int| 0 <= i < s.len() && (#[trigger] s[i]).0 == k
}

/// The entries of a finite map in ascending key order.
pub open spec fn ordered<A: KeyOrder, B>(m: Map<A, B>) -> Seq<(A, B)> {
    choose|s: Seq<(A, B)>| enumerates(s, m)
}

proof fn lemma_enumerations_agree<A: KeyOrder, B>(
    s: Seq<(A, B)>,
    t: Seq<(A, B)>,
    m: Map<A, B>,
    n: int,
)
    requires
        enumerates(s, m),
        enumerates(t, m),
        0 <= n <= s.len(),
    ensures
        n <= t.len(),
        forall|i: int| 0 <= i < n ==> s[i] == t[i],
    decreases n,
{
    if n > 0 {
        let i = n - 1;
        lemma_enumerations_agree(s, t, m, i);
        let k = s[i].0;
        A::before_irreflexive(k);
        assert(m.dom().contains(k));
        let p = choose|p: int| 0 <= p < t.len() && (#[trigger] t[p]).0 == k;
        assert(p >= i) by {
            if p < i {
                assert(s[p] == t[p]);
                assert(s[p].0.before(s[i].0));
            }
        }
        if p > i {
            assert(t[i].0.before(t[p].0));
            let k2 = t[i].0;
            assert(m.dom().contains(k2));
            let q = choose|q: int| 0 <= q < s.len() && (#[trigger] s[q]).0 == k2;
            A::before_irreflexive(k2);
            if q < i {
                assert(s[q] == t[q]);
                assert(t[q].0.before(t[i].0));
            } else if q > i {
                assert(s[i].0.before(s[q].0));
                A::before_transitive(k, k2, k);
            }
        }
    }
}

/// A map has one enumeration.
pub proof fn lemma_enumeration_unique<A: KeyOrder, B>(
    s: Seq<(A, B)>,
    t: Seq<(A, B)>,
    m: Map<A, B>,
)
    requires
        enumerates(s, m),
        enumerates(t, m),
    ensures
        s == t,
{
    lemma_enumerations_agree(s, t, m, s.len() as int);
    lemma_enumerations_agree(t, s, m, t.len() as int);
    assert(s =~= t);
}

/// A sequence that enumerates a map is its ordered listing.
pub proof fn lemma_ordered<A: KeyOrder, B>(s: Seq<(A, B)>, m: Map<A, B>)
    requires
        enumerates(s, m),
    ensures
        ordered(m) == s,
        enumerates(ordered(m), m),
{
    lemma_enumeration_unique(s, ordered(m), m);
}

/// The listing of a map has as many entries as the map.
pub proof fn lemma_enumeration_len<A: KeyOrder, B>(s: Seq<(A, B)>, m: Map<A, B>)
    requires
        enumerates(s, m),
    ensures
        m.dom().finite(),
        m.dom().len() == s.len(),
{
    let keys = s.map_values(|e: (A, B)| e.0);
    assert(keys.no_duplicates()) by {
        assert forall|i: int, j: int| 0 <= i < j < keys.len() implies keys[i] != keys[j] by {
            assert(s[i].0.before(s[j].0));
            A::before_irreflexive(s[i].0);
        }
    }
    keys.unique_seq_to_set();
    assert(keys.to_set() =~= m.dom()) by {
        assert forall|k: A| m.dom().contains(k) implies keys.to_set().contains(k) by {
            let i = choose|i: int| 0 <= i < s.len() && (#[trigger] s[i]).0 == k;
            assert(keys[i] == k);
        }
        assert forall|k: A| keys.to_set().contains(k) implies m.dom().contains(k) by {
            let i = choose|i: int| 0 <= i < keys.len() && keys[i] == k;
            assert(s[i].0 == k);
        }
    }
}

/// The map that a list of entries stands for.
pub open spec fn map_of<A, B>(s: Seq<(A, B)>) -> Map<A, B> {
    Map::new(
        |k: A| exists|i: int| 0 <= i < s.len() && (#[trigger] s[i]).0 == k,
        |k: A| s[choose|i: int| 0 <= i < s.len() && (#[trigger] s[i]).0 == k].1,
    )
}

/// A strictly ascending list enumerates the map that it stands for.
pub proof fn lemma_map_of<A: KeyOrder, B>(s: Seq<(A, B)>)
    requires
        ascending(s),
    ensures
        enumerates(s, map_of(s)),
        ordered(map_of(s)) == s,
{
    let m = map_of(s);
    assert forall|i: int| 0 <= i < s.len() implies m.dom().contains((#[trigger] s[i]).0)
        && m[s[i].0] == s[i].1 by {
        let k = s[i].0;
        let p = choose|p: int| 0 <= p < s.len() && (#[trigger] s[p]).0 == k;
        A::before_irreflexive(k);
        if p < i {
            assert(s[p].0.before(s[i].0));
        } else if i < p {
            assert(s[i].0.before(s[p].0));
        }
    }
    lemma_ordered(s, m);
}

/// A selection from an ascending list is ascending.
pub proof fn lemma_filter_ascending<A: KeyOrder, B>(s: Seq<(A, B)>, p: spec_fn((A, B)) -> bool)
    requires
        ascending(s),
    ensures
        ascending(s.filter(p)),
    decreases s.len(),
{
    reveal(Seq::filter);
    if s.len() > 0 {
        let front = s.drop_last();
        assert(ascending(front)) by {
            assert forall|i: int, j: int| 0 <= i < j < front.len() implies (
            #[trigger] front[i]).0.before((#[trigger] front[j]).0) by {
                assert(s[i].0.before(s[j].0));
            }
        }
        lemma_filter_ascending(front, p);
        let sub = front.filter(p);
        if p(s.last()) {
            let t = sub.push(s.last());
            assert forall|i: int, j: int| 0 <= i < j < t.len() implies (
            #[trigger] t[i]).0.before((#[trigger] t[j]).0) by {
                if j < sub.len() {
                    assert(sub[i].0.before(sub[j].0));
                } else {
                    assert(sub.contains(sub[i]));
                    seqs::lemma_filter_members(front, p, sub[i]);
                    let x = choose|x: int| 0 <= x < front.len() && front[x] == sub[i];
                    assert(s[x].0.before(s[s.len() - 1].0));
                }
            }
        }
    }
}

// ── stable sorting ───────────────────────────────────────────────────────────

/// The keys of `s` never descend.
pub open spec fn sorted<A: KeyOrder, B>(s: Seq<(A, B)>) -> bool {
    forall|i: int, j: int|
        0 <= i < j < s.len() ==> !(#[trigger] s[j]).0.before((#[trigger] s[i]).0)
}

/// `s` with `e` put behind everything that is not behind it.
pub open spec fn stable_insert<A: KeyOrder, B>(s: Seq<(A, B)>, e: (A, B)) -> Seq<(A, B)>
    decreases s.len(),
{
    if s.len() == 0 {
        seq![e]
    } else if e.0.before(s.last().0) {
        stable_insert(s.drop_last(), e).push(s.last())
    } else {
        s.push(e)
    }
}

/// `s` sorted by key; entries with equal keys keep their order.
pub open spec fn stable_sort<A: KeyOrder, B>(s: Seq<(A, B)>) -> Seq<(A, B)>
    decreases s.len(),
{
    if s.len() == 0 {
        s
    } else {
        stable_insert(stable_sort(s.drop_last()), s.last())
    }
}

proof fn lemma_insert_at<A: KeyOrder, B>(s: Seq<(A, B)>, e: (A, B), at: int)
    requires
        sorted(s),
        0 <= at <= s.len(),
        forall|i: int| 0 <= i < at ==> !e.0.before((#[trigger] s[i]).0),
        forall|i: int| at <= i < s.len() ==> e.0.before((#[trigger] s[i]).0),
    ensures
        stable_insert(s, e) == s.insert(at, e),
        sorted(s.insert(at, e)),
    decreases s.len(),
{
    if s.len() == 0 {
        assert(seq![e] =~= s.insert(at, e));
    } else if at == s.len() {
        assert(s.push(e) =~= s.insert(at, e));
        assert(!e.0.before(s[at - 1].0));
    } else {
        let front = s.drop_last();
        assert(sorted(front)) by {
            assert forall|i: int, j: int| 0 <= i < j < front.len() implies !(
            #[trigger] front[j]).0.before((#[trigger] front[i]).0) by {
                assert(!s[j].0.before(s[i].0));
            }
        }
        assert(e.0.before(s[s.len() - 1].0));
        lemma_insert_at(front, e, at);
        assert(front.insert(at, e).push(s.last()) =~= s.insert(at, e));
    }
    let t = s.insert(at, e);
    assert forall|i: int, j: int| 0 <= i < j < t.len() implies !(#[trigger] t[j]).0.before(
        (#[trigger] t[i]).0,
    ) by {
        let x = if i < at {
            i
        } else {
            i - 1
        };
        let y = if j < at {
            j
        } else {
            j - 1
        };
        if i != at && j != at {
            assert(t[i] == s[x] && t[j] == s[y]);
            assert(!s[y].0.before(s[x].0));
        } else if i == at {
            assert(t[j] == s[y]);
            if s[y].0.before(e.0) {
                A::before_transitive(e.0, s[y].0, e.0);
                A::before_irreflexive(e.0);
            }
        } else {
            assert(t[i] == s[x]);
        }
    }
}

/// Sorting sorts, and keeps the entries.
pub proof fn lemma_stable_sort<A: KeyOrder, B>(s: Seq<(A, B)>)
    ensures
        sorted(stable_sort(s)),
        stable_sort(s).to_multiset() == s.to_multiset(),
        stable_sort(s).len() == s.len(),
    decreases s.len(),
{
    broadcast use vstd::seq_lib::group_to_multiset_ensures;

    if s.len() > 0 {
        let front = s.drop_last();
        let e = s.last();
        lemma_stable_sort(front);
        let t = stable_sort(front);
        let at = lemma_insert_position(t, e);
        lemma_insert_at(t, e, at);
        vstd::seq_lib::to_multiset_insert(t, at, e);
        assert(front.push(e) =~= s);
    }
}

/// Sorting entries whose keys differ puts them in ascending order.
pub proof fn lemma_sort_distinct<A: KeyOrder, B>(s: Seq<(A, B)>)
    requires
        forall|i: int, j: int|
            0 <= i < j < s.len() ==> (#[trigger] s[i]).0 != (#[trigger] s[j]).0,
    ensures
        ascending(stable_sort(s)),
        forall|x: (A, B)|
            #![trigger stable_sort(s).contains(x)]
            #![trigger s.contains(x)]
            stable_sort(s).contains(x) == s.contains(x),
    decreases s.len(),
{
    if s.len() > 0 {
        let front = s.drop_last();
        let e = s.last();
        assert forall|i: int, j: int| 0 <= i < j < front.len() implies (#[trigger] front[i]).0 != (
        #[trigger] front[j]).0 by {
            assert(s[i].0 != s[j].0);
        }
        lemma_sort_distinct(front);
        lemma_stable_sort(front);
        let t = stable_sort(front);
        let at = lemma_insert_position(t, e);
        lemma_insert_at(t, e, at);
        let u = t.insert(at, e);
        assert forall|i: int| 0 <= i < t.len() implies (#[trigger] t[i]).0 != e.0 by {
            assert(t.contains(t[i]));
            assert(front.contains(t[i]));
            let j = choose|j: int| 0 <= j < front.len() && front[j] == t[i];
            assert(s[j].0 != s[s.len() - 1].0);
        }
        assert forall|i: int, j: int| 0 <= i < j < u.len() implies (#[trigger] u[i]).0.before(
            (#[trigger] u[j]).0,
        ) by {
            A::before_total(u[i].0, u[j].0);
            if i != at && j != at {
                let x = if i < at {
                    i
                } else {
                    i - 1
                };
                let y = if j < at {
                    j
                } else {
                    j - 1
                };
                assert(t[x].0.before(t[y].0));
            } else if i == at {
                assert(u[j] == t[j - 1]);
            } else {
                assert(u[i] == t[i]);
            }
        }
        assert forall|x: (A, B)|
            #![trigger stable_sort(s).contains(x)]
            #![trigger s.contains(x)]
            stable_sort(s).contains(x) == s.contains(x) by {
            if u.contains(x) {
                let i = choose|i: int| 0 <= i < u.len() && u[i] == x;
                if i != at {
                    let y = if i < at {
                        i
                    } else {
                        i - 1
                    };
                    assert(t[y] == x);
                    assert(front.contains(x));
                    let j = choose|j: int| 0 <= j < front.len() && front[j] == x;
                    assert(s[j] == x);
                } else {
                    assert(s[s.len() - 1] == x);
                }
            }
            if s.contains(x) {
                let j = choose|j: int| 0 <= j < s.len() && s[j] == x;
                if j < front.len() {
                    assert(front[j] == x);
                    assert(front.contains(x));
                    assert(t.contains(x));
                    let i = choose|i: int| 0 <= i < t.len() && t[i] == x;
                    assert(u[if i < at {
                        i
                    } else {
                        i + 1
                    }] == x);
                } else {
                    assert(u[at] == x);
                }
            }
        }
    }
}

/// What stands in an ascending list decides the list.
pub proof fn lemma_ascending_unique<A: KeyOrder, B>(s: Seq<(A, B)>, t: Seq<(A, B)>)
    requires
        ascending(s),
        ascending(t),
        forall|x: (A, B)|
            #![trigger s.contains(x)]
            #![trigger t.contains(x)]
            s.contains(x) == t.contains(x),
    ensures
        s == t,
    decreases s.len(),
{
    if s.len() == 0 {
        if t.len() > 0 {
            assert(t.contains(t[0]));
            assert(s.contains(t[0]));
        }
        assert(s =~= t);
    } else {
        let a = s.last();
        assert(s.contains(s[s.len() - 1]));
        assert(t.contains(a));
        let i = choose|i: int| 0 <= i < t.len() && t[i] == a;
        let b = t.last();
        assert(t.contains(t[t.len() - 1]));
        assert(s.contains(b));
        let j = choose|j: int| 0 <= j < s.len() && s[j] == b;
        if i < t.len() - 1 {
            assert(t[i].0.before(t[t.len() - 1].0));
            A::before_irreflexive(a.0);
            if j < s.len() - 1 {
                assert(s[j].0.before(s[s.len() - 1].0));
                A::before_transitive(a.0, b.0, a.0);
            }
            assert(false);
        }
        let sf = s.drop_last();
        let tf = t.drop_last();
        assert forall|x: (A, B)|
            #![trigger sf.contains(x)]
            #![trigger tf.contains(x)]
            sf.contains(x) == tf.contains(x) by {
            A::before_irreflexive(a.0);
            if sf.contains(x) {
                let m = choose|m: int| 0 <= m < sf.len() && sf[m] == x;
                assert(s[m].0.before(s[s.len() - 1].0));
                assert(s.contains(s[m]));
                let n = choose|n: int| 0 <= n < t.len() && t[n] == x;
                assert(tf[n] == x);
            }
            if tf.contains(x) {
                let m = choose|m: int| 0 <= m < tf.len() && tf[m] == x;
                assert(t[m].0.before(t[t.len() - 1].0));
                assert(t.contains(t[m]));
                let n = choose|n: int| 0 <= n < s.len() && s[n] == x;
                assert(sf[n] == x);
            }
        }
        assert(ascending(sf)) by {
            assert forall|m: int, n: int| 0 <= m < n < sf.len() implies (#[trigger] sf[m]).0.before(
                (#[trigger] sf[n]).0,
            ) by {
                assert(s[m].0.before(s[n].0));
            }
        }
        assert(ascending(tf)) by {
            assert forall|m: int, n: int| 0 <= m < n < tf.len() implies (#[trigger] tf[m]).0.before(
                (#[trigger] tf[n]).0,
            ) by {
                assert(t[m].0.before(t[n].0));
            }
        }
        lemma_ascending_unique(sf, tf);
        assert(s =~= sf.push(a));
        assert(t =~= tf.push(b));
    }
}

proof fn lemma_insert_position<A: KeyOrder, B>(s: Seq<(A, B)>, e: (A, B)) -> (at: int)
    requires
        sorted(s),
    ensures
        0 <= at <= s.len(),
        forall|i: int| 0 <= i < at ==> !e.0.before((#[trigger] s[i]).0),
        forall|i: int| at <= i < s.len() ==> e.0.before((#[trigger] s[i]).0),
    decreases s.len(),
{
    if s.len() == 0 {
        0
    } else if e.0.before(s.last().0) {
        let front = s.drop_last();
        assert(sorted(front)) by {
            assert forall|i: int, j: int| 0 <= i < j < front.len() implies !(
            #[trigger] front[j]).0.before((#[trigger] front[i]).0) by {
                assert(!s[j].0.before(s[i].0));
            }
        }
        let at = lemma_insert_position(front, e);
        assert forall|i: int| 0 <= i < at implies !e.0.before((#[trigger] s[i]).0) by {
            assert(front[i] == s[i]);
        }
        assert forall|i: int| at <= i < s.len() implies e.0.before((#[trigger] s[i]).0) by {
            if i < front.len() {
                assert(front[i] == s[i]);
            }
        }
        at
    } else {
        let last = s.len() - 1;
        assert forall|i: int| 0 <= i < s.len() implies !e.0.before((#[trigger] s[i]).0) by {
            if i < last && e.0.before(s[i].0) {
                A::before_total(s[i].0, s[last].0);
                assert(!s[last].0.before(s[i].0));
                if s[i].0.before(s[last].0) {
                    A::before_transitive(e.0, s[i].0, s[last].0);
                }
            }
        }
        s.len() as int
    }
}

/// Puts `(k, x)` into a sorted list, behind everything that is not behind it.
pub(crate) fn insert_sorted<K: TableKey, X: View>(v: &mut Vec<(K, X)>, k: K, x: X) where
    K::V: KeyOrder,

    requires
        sorted(seqs::views(old(v)@)),
    ensures
        seqs::views(final(v)@) == stable_insert(seqs::views(old(v)@), (k@, x@)),
        sorted(seqs::views(final(v)@)),
{
    let ghost s = seqs::views(v@);
    let ghost e = (k@, x@);
    let mut lo: usize = 0;
    let mut hi: usize = v.len();
    while lo < hi
        invariant
            s == seqs::views(v@),
            sorted(s),
            lo <= hi <= v@.len(),
            forall|i: int| 0 <= i < lo ==> !k@.before((#[trigger] s[i]).0),
            forall|i: int| hi <= i < s.len() ==> k@.before((#[trigger] s[i]).0),
        decreases hi - lo,
    {
        let mid: usize = lo + (hi - lo) / 2;
        assert(s[mid as int].0 == v@[mid as int].0@);
        match k.rank(&v[mid].0) {
            Rank::Less => {
                assert forall|i: int| mid <= i < s.len() implies k@.before(
                    (#[trigger] s[i]).0,
                ) by {
                    if mid < i {
                        <K::V as KeyOrder>::before_total(s[mid as int].0, s[i].0);
                        assert(!s[i].0.before(s[mid as int].0));
                        if s[mid as int].0.before(s[i].0) {
                            <K::V as KeyOrder>::before_transitive(k@, s[mid as int].0, s[i].0);
                        }
                    }
                }
                hi = mid;
            },
            _ => {
                assert forall|i: int| 0 <= i < mid + 1 implies !k@.before((#[trigger] s[i]).0) by {
                    if i < mid && k@.before(s[i].0) {
                        <K::V as KeyOrder>::before_total(s[i].0, s[mid as int].0);
                        assert(!s[mid as int].0.before(s[i].0));
                        if s[i].0.before(s[mid as int].0) {
                            <K::V as KeyOrder>::before_transitive(k@, s[i].0, s[mid as int].0);
                        }
                    }
                }
                lo = mid + 1;
            },
        }
    }
    proof {
        lemma_insert_at(s, e, lo as int);
    }
    v.insert(lo, (k, x));
    assert(seqs::views(v@) =~= s.insert(lo as int, e));
}

/// A finite map from `K` to `V`, kept in ascending key order.
pub struct Table<K: TableKey, V: View> where K::V: KeyOrder {
    rows: Vec<(K, V)>,
}

impl<K: TableKey, V: View> View for Table<K, V> where K::V: KeyOrder {
    type V = Map<K::V, V::V>;

    closed spec fn view(&self) -> Map<K::V, V::V> {
        map_of(self.entries())
    }
}

spec fn entries_of<K: View, V: View>(rows: Seq<(K, V)>) -> Seq<(K::V, V::V)> {
    Seq::new(rows.len(), |i: int| (rows[i].0@, rows[i].1@))
}

impl<K: TableKey, V: View> Table<K, V> where K::V: KeyOrder {
    spec fn entries(&self) -> Seq<(K::V, V::V)> {
        entries_of(self.rows@)
    }

    #[verifier::type_invariant]
    spec fn sorted(&self) -> bool {
        ascending(entries_of(self.rows@))
    }

    /// The empty table.
    pub fn new() -> (r: Self)
        ensures
            r@ == Map::<K::V, V::V>::empty(),
    {
        let r = Table { rows: Vec::new() };
        assert(r@ =~= Map::<K::V, V::V>::empty());
        r
    }

    /// The number of rows.
    pub fn len(&self) -> (r: usize)
        ensures
            r == ordered(self@).len(),
            enumerates(ordered(self@), self@),
            self@.dom().finite(),
            r == self@.dom().len(),
    {
        proof {
            use_type_invariant(self);
            lemma_map_of(self.entries());
            lemma_enumeration_len(self.entries(), self@);
        }
        self.rows.len()
    }

    /// The key of the row at position `i` of the listing.
    pub fn key_at(&self, i: usize) -> (r: &K)
        requires
            i < ordered(self@).len(),
        ensures
            r@ == ordered(self@)[i as int].0,
    {
        proof {
            use_type_invariant(self);
            lemma_map_of(self.entries());
        }
        &self.rows[i].0
    }

    /// The value of the row at position `i` of the listing.
    pub fn value_at(&self, i: usize) -> (r: &V)
        requires
            i < ordered(self@).len(),
        ensures
            r@ == ordered(self@)[i as int].1,
    {
        proof {
            use_type_invariant(self);
            lemma_map_of(self.entries());
        }
        &self.rows[i].1
    }

    /// The position of the first row whose key is not before `k`, and whether that row has
    /// the key `k`.
    fn find(&self, k: &K) -> (r: (usize, bool))
        ensures
            r.0 <= self.rows.len(),
            forall|i: int| 0 <= i < r.0 ==> (#[trigger] self.entries()[i]).0.before(k@),
            r.1 ==> r.0 < self.rows.len() && self.entries()[r.0 as int].0 == k@,
            forall|i: int|
                r.0 <= i < self.rows.len() && !(r.1 && i == r.0) ==> k@.before(
                    (#[trigger] self.entries()[i]).0,
                ),
    {
        proof {
            use_type_invariant(self);
        }
        let mut lo: usize = 0;
        let mut hi: usize = self.rows.len();
        while lo < hi
            invariant
                ascending(self.entries()),
                lo <= hi <= self.rows.len(),
                forall|i: int| 0 <= i < lo ==> (#[trigger] self.entries()[i]).0.before(k@),
                forall|i: int|
                    hi <= i < self.rows.len() ==> k@.before((#[trigger] self.entries()[i]).0),
            decreases hi - lo,
        {
            let mid: usize = lo + (hi - lo) / 2;
            let ghost e = self.entries();
            assert(e[mid as int].0 == self.rows[mid as int].0@);
            match self.rows[mid].0.rank(k) {
                Rank::Less => {
                    assert forall|i: int| 0 <= i < mid + 1 implies (
                    #[trigger] self.entries()[i]).0.before(k@) by {
                        if i < mid {
                            assert(e[i].0.before(e[mid as int].0));
                            <K::V as KeyOrder>::before_transitive(e[i].0, e[mid as int].0, k@);
                        }
                    }
                    lo = mid + 1;
                },
                Rank::Greater => {
                    assert forall|i: int| mid <= i < self.rows.len() implies k@.before(
                        (#[trigger] self.entries()[i]).0,
                    ) by {
                        if mid < i {
                            assert(e[mid as int].0.before(e[i].0));
                            <K::V as KeyOrder>::before_transitive(k@, e[mid as int].0, e[i].0);
                        }
                    }
                    hi = mid;
                },
                Rank::Equal => {
                    return (mid, true);
                },
            }
        }
        (lo, false)
    }

    proof fn lemma_found(e: Seq<(K::V, V::V)>, k: K::V, at: int, hit: bool)
        requires
            ascending(e),
            0 <= at <= e.len(),
            forall|i: int| 0 <= i < at ==> (#[trigger] e[i]).0.before(k),
            hit ==> at < e.len() && e[at].0 == k,
            forall|i: int|
                at <= i < e.len() && !(hit && i == at) ==> k.before((#[trigger] e[i]).0),
        ensures
            map_of(e).dom().contains(k) == hit,
            hit ==> map_of(e)[k] == e[at].1,
    {
        lemma_map_of(e);
        <K::V as KeyOrder>::before_irreflexive(k);
    }

    /// The position of the first row whose key is not before `k`.
    pub fn lower_bound(&self, k: &K) -> (r: usize)
        ensures
            r <= ordered(self@).len(),
            forall|i: int| 0 <= i < r ==> (#[trigger] ordered(self@)[i]).0.before(k@),
            forall|i: int|
                r <= i < ordered(self@).len() ==> !(#[trigger] ordered(self@)[i]).0.before(k@),
    {
        proof {
            use_type_invariant(self);
            lemma_map_of(self.entries());
        }
        let (at, hit) = self.find(k);
        proof {
            let e = self.entries();
            assert forall|i: int| at <= i < e.len() implies !(#[trigger] e[i]).0.before(k@) by {
                <K::V as KeyOrder>::before_irreflexive(k@);
                if e[i].0.before(k@) && k@.before(e[i].0) {
                    <K::V as KeyOrder>::before_transitive(k@, e[i].0, k@);
                }
            }
        }
        at
    }

    /// The value stored under `k`.
    pub fn get(&self, k: &K) -> (r: Option<&V>)
        ensures
            r is Some == self@.dom().contains(k@),
            r matches Some(v) ==> v@ == self@[k@],
    {
        proof {
            use_type_invariant(self);
        }
        let (at, hit) = self.find(k);
        proof {
            Self::lemma_found(self.entries(), k@, at as int, hit);
        }
        if hit {
            Some(&self.rows[at].1)
        } else {
            None
        }
    }

    /// Whether a row is stored under `k`.
    pub fn contains(&self, k: &K) -> (r: bool)
        ensures
            r == self@.dom().contains(k@),
    {
        self.get(k).is_some()
    }

    /// Stores `v` under `k`, replacing what was there.
    pub fn insert(&mut self, k: K, v: V)
        ensures
            final(self)@ == old(self)@.insert(k@, v@),
    {
        proof {
            use_type_invariant(&*self);
        }
        let (at, hit) = self.find(&k);
        let ghost e = self.entries();
        let ghost kv = k@;
        let ghost vv = v@;
        proof {
            Self::lemma_found(e, kv, at as int, hit);
            lemma_map_of(e);
            <K::V as KeyOrder>::before_irreflexive(kv);
        }
        let mut rows: Vec<(K, V)> = Vec::new();
        std::mem::swap(&mut rows, &mut self.rows);
        if hit {
            rows.remove(at);
        }
        rows.insert(at, (k, v));
        let ghost f = entries_of(rows@);
        proof {
            if hit {
                assert(f =~= e.update(at as int, (kv, vv)));
            } else {
                assert(f =~= e.insert(at as int, (kv, vv)));
            }
            assert(ascending(f)) by {
                assert forall|i: int, j: int| 0 <= i < j < f.len() implies (
                #[trigger] f[i]).0.before((#[trigger] f[j]).0) by {
                    if hit {
                        assert(e[i].0.before(e[j].0));
                    } else {
                        let a = if i < at {
                            i
                        } else {
                            i - 1
                        };
                        let b = if j < at {
                            j
                        } else {
                            j - 1
                        };
                        if i != at && j != at {
                            assert(f[i] == e[a] && f[j] == e[b]);
                            assert(e[a].0.before(e[b].0));
                        } else if i == at {
                            assert(f[j] == e[b]);
                        } else {
                            assert(f[i] == e[a]);
                        }
                    }
                }
            }
            lemma_map_of(f);
            let m = map_of(e).insert(kv, vv);
            assert(enumerates(f, m)) by {
                assert forall|i: int| 0 <= i < f.len() implies m.dom().contains(
                    (#[trigger] f[i]).0,
                ) && m[f[i].0] == f[i].1 by {
                    if i != at {
                        let a = if hit || i < at {
                            i
                        } else {
                            i - 1
                        };
                        assert(f[i] == e[a]);
                        assert(f[i].0 != kv);
                    }
                }
                assert forall|k2: K::V| #[trigger] m.dom().contains(k2) implies exists|i: int|
                    0 <= i < f.len() && (#[trigger] f[i]).0 == k2 by {
                    if k2 == kv {
                        assert(f[at as int].0 == k2);
                    } else {
                        assert(map_of(e).dom().contains(k2));
                        let a = choose|a: int| 0 <= a < e.len() && (#[trigger] e[a]).0 == k2;
                        let i = if hit || a < at {
                            a
                        } else {
                            a + 1
                        };
                        assert(f[i] == e[a]);
                    }
                }
            }
            assert(map_of(f) =~= m) by {
                assert forall|k2: K::V| map_of(f).dom().contains(k2) == m.dom().contains(k2) by {
                    if map_of(f).dom().contains(k2) {
                        let i = choose|i: int| 0 <= i < f.len() && (#[trigger] f[i]).0 == k2;
                        assert(m.dom().contains(f[i].0));
                    }
                    if m.dom().contains(k2) {
                        let i = choose|i: int| 0 <= i < f.len() && (#[trigger] f[i]).0 == k2;
                        assert(map_of(f).dom().contains(f[i].0));
                    }
                }
                assert forall|k2: K::V| m.dom().contains(k2) implies map_of(f)[k2] == m[k2] by {
                    let i = choose|i: int| 0 <= i < f.len() && (#[trigger] f[i]).0 == k2;
                    assert(map_of(f)[f[i].0] == f[i].1);
                    assert(m[f[i].0] == f[i].1);
                }
            }
        }
        self.rows = rows;
    }

    /// Drops the row at position `i` of the listing.
    pub fn remove_at(&mut self, i: usize)
        requires
            i < ordered(old(self)@).len(),
        ensures
            final(self)@ == old(self)@.remove(ordered(old(self)@)[i as int].0),
            ordered(final(self)@) == ordered(old(self)@).remove(i as int),
    {
        proof {
            use_type_invariant(&*self);
        }
        let ghost e = self.entries();
        proof {
            lemma_map_of(e);
        }
        let mut rows: Vec<(K, V)> = Vec::new();
        std::mem::swap(&mut rows, &mut self.rows);
        rows.remove(i);
        let ghost f = entries_of(rows@);
        proof {
            let at = i as int;
            let kv = e[at].0;
            <K::V as KeyOrder>::before_irreflexive(kv);
            assert(f =~= e.remove(at));
            assert forall|x: int, y: int| 0 <= x < y < f.len() implies (
            #[trigger] f[x]).0.before((#[trigger] f[y]).0) by {
                let a = if x < at {
                    x
                } else {
                    x + 1
                };
                let b = if y < at {
                    y
                } else {
                    y + 1
                };
                assert(f[x] == e[a] && f[y] == e[b]);
                assert(e[a].0.before(e[b].0));
            }
            lemma_map_of(f);
            let m = map_of(e).remove(kv);
            assert(enumerates(f, m)) by {
                assert forall|x: int| 0 <= x < f.len() implies m.dom().contains(
                    (#[trigger] f[x]).0,
                ) && m[f[x].0] == f[x].1 by {
                    let a = if x < at {
                        x
                    } else {
                        x + 1
                    };
                    assert(f[x] == e[a]);
                    if a < at {
                        assert(e[a].0.before(e[at].0));
                    } else {
                        assert(e[at].0.before(e[a].0));
                    }
                }
                assert forall|k2: K::V| #[trigger] m.dom().contains(k2) implies exists|x: int|
                    0 <= x < f.len() && (#[trigger] f[x]).0 == k2 by {
                    assert(map_of(e).dom().contains(k2));
                    let a = choose|a: int| 0 <= a < e.len() && (#[trigger] e[a]).0 == k2;
                    let x = if a < at {
                        a
                    } else {
                        a - 1
                    };
                    assert(f[x] == e[a]);
                }
            }
            assert(map_of(f) =~= m) by {
                assert forall|k2: K::V| map_of(f).dom().contains(k2) == m.dom().contains(k2) by {
                    if map_of(f).dom().contains(k2) {
                        let x = choose|x: int| 0 <= x < f.len() && (#[trigger] f[x]).0 == k2;
                        assert(m.dom().contains(f[x].0));
                    }
                    if m.dom().contains(k2) {
                        let x = choose|x: int| 0 <= x < f.len() && (#[trigger] f[x]).0 == k2;
                        assert(map_of(f).dom().contains(f[x].0));
                    }
                }
                assert forall|k2: K::V| m.dom().contains(k2) implies map_of(f)[k2] == m[k2] by {
                    let x = choose|x: int| 0 <= x < f.len() && (#[trigger] f[x]).0 == k2;
                    assert(map_of(f)[f[x].0] == f[x].1);
                    assert(m[f[x].0] == f[x].1);
                }
            }
        }
        self.rows = rows;
    }

    /// Drops the row stored under `k`, if any.
    pub fn remove(&mut self, k: &K) -> (r: bool)
        ensures
            final(self)@ == old(self)@.remove(k@),
            r == old(self)@.dom().contains(k@),
    {
        proof {
            use_type_invariant(&*self);
        }
        let (at, hit) = self.find(k);
        proof {
            Self::lemma_found(self.entries(), k@, at as int, hit);
            lemma_map_of(self.entries());
        }
        if hit {
            self.remove_at(at);
        } else {
            assert(self@.remove(k@) =~= self@);
        }
        hit
    }
}

} // verus!
