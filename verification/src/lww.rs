//! Last-write-wins tables.

use vstd::prelude::*;

use crate::order::{KeyOrder, TableKey};
use crate::rows::{Stamped, StampedRow};
use crate::table::Table;

verus! {

/// `m` after a write of `r` under `k`: the write counts only where nothing is stored under
/// `k` or what is stored has an older timestamp.
pub open spec fn lww<K, R: Stamped>(m: Map<K, R>, k: K, r: R) -> Map<K, R> {
    if m.dom().contains(k) && r.stamp() <= m[k].stamp() {
        m
    } else {
        m.insert(k, r)
    }
}

/// `m` after the writes `puts`, in order.
pub open spec fn lww_all<K, R: Stamped>(m: Map<K, R>, puts: Seq<(K, R)>) -> Map<K, R>
    decreases puts.len(),
{
    if puts.len() == 0 {
        m
    } else {
        lww(lww_all(m, puts.drop_last()), puts.last().0, puts.last().1)
    }
}

/// Writes `r` under `k` where it is newer than what is stored there.
pub(crate) fn lww_put<K: TableKey, R: StampedRow>(t: &mut Table<K, R>, k: K, r: R) where
    K::V: KeyOrder,
    R::V: Stamped,

    ensures
        final(t)@ == lww(old(t)@, k@, r@),
{
    let newer = match t.get(&k) {
        Some(held) => r.stamp_of() > held.stamp_of(),
        None => true,
    };
    if newer {
        t.insert(k, r);
    }
}

// ── convergence ──────────────────────────────────────────────────────────────

/// A write that was made once can be made again without effect.
pub proof fn lemma_lww_idempotent<K, R: Stamped>(m: Map<K, R>, k: K, r: R)
    ensures
        lww(lww(m, k, r), k, r) == lww(m, k, r),
{
}

/// Two writes commute, unless they write the same key at the same time.
pub proof fn lemma_lww_commutes<K, R: Stamped>(m: Map<K, R>, k1: K, r1: R, k2: K, r2: R)
    requires
        k1 != k2 || r1.stamp() != r2.stamp(),
    ensures
        lww(lww(m, k1, r1), k2, r2) == lww(lww(m, k2, r2), k1, r1),
{
    assert(lww(lww(m, k1, r1), k2, r2) =~= lww(lww(m, k2, r2), k1, r1));
}

/// The timestamp stored under a key never goes back.
pub proof fn lemma_lww_monotone<K, R: Stamped>(m: Map<K, R>, k: K, r: R, other: K)
    requires
        m.dom().contains(other),
    ensures
        lww(m, k, r).dom().contains(other),
        lww(m, k, r)[other].stamp() >= m[other].stamp(),
        lww(m, k, r)[other].stamp() == m[other].stamp() ==> lww(m, k, r)[other] == m[other],
{
}

/// `r` is the newest of the rows that `m` and `puts` have under `k`.
pub open spec fn newest<K, R: Stamped>(m: Map<K, R>, puts: Seq<(K, R)>, k: K, r: R) -> bool {
    &&& (m.dom().contains(k) && r == m[k]) || puts.contains((k, r))
    &&& m.dom().contains(k) ==> m[k].stamp() <= r.stamp()
    &&& forall|i: int|
        0 <= i < puts.len() && (#[trigger] puts[i]).0 == k ==> puts[i].1.stamp() <= r.stamp()
}

/// After a sequence of writes, every key that was ever written holds the newest row written.
pub proof fn lemma_newest_wins<K, R: Stamped>(m: Map<K, R>, puts: Seq<(K, R)>, k: K)
    ensures
        lww_all(m, puts).dom().contains(k) == (m.dom().contains(k) || exists|i: int|
            0 <= i < puts.len() && (#[trigger] puts[i]).0 == k),
        lww_all(m, puts).dom().contains(k) ==> newest(m, puts, k, lww_all(m, puts)[k]),
    decreases puts.len(),
{
    if puts.len() > 0 {
        let front = puts.drop_last();
        lemma_newest_wins(m, front, k);
        let last = puts.last();
        let before = lww_all(m, front);
        let after = lww_all(m, puts);
        assert(puts[puts.len() - 1] == last);
        assert forall|i: int| 0 <= i < front.len() implies #[trigger] puts[i] == front[i] by {}
        if exists|i: int| 0 <= i < front.len() && (#[trigger] front[i]).0 == k {
            let i = choose|i: int| 0 <= i < front.len() && (#[trigger] front[i]).0 == k;
            assert(puts[i].0 == k);
        }
        if after.dom().contains(k) {
            let r = after[k];
            if last.0 == k && r == last.1 {
                assert(puts.contains((k, r)));
            } else {
                assert(before.dom().contains(k) && r == before[k]);
                if front.contains((k, r)) {
                    let i = choose|i: int| 0 <= i < front.len() && front[i] == (k, r);
                    assert(puts[i] == (k, r));
                }
            }
            assert forall|i: int| 0 <= i < puts.len() && (#[trigger] puts[i]).0 == k implies
                puts[i].1.stamp() <= r.stamp() by {
                if i < front.len() {
                    assert(front[i].0 == k);
                    assert(before.dom().contains(k));
                }
            }
        }
    }
}

/// No two writes of the same key carry the same timestamp, and none carries that of the row
/// that `m` holds under its key, unless it writes that very row.
pub open spec fn distinct_stamps<K, R: Stamped>(m: Map<K, R>, puts: Seq<(K, R)>) -> bool {
    &&& forall|i: int, j: int|
        0 <= i < puts.len() && 0 <= j < puts.len() && (#[trigger] puts[i]).0 == (
        #[trigger] puts[j]).0 && puts[i].1.stamp() == puts[j].1.stamp() ==> puts[i].1 == puts[j].1
    &&& forall|i: int|
        0 <= i < puts.len() && m.dom().contains((#[trigger] puts[i]).0) && m[puts[i].0].stamp()
            == puts[i].1.stamp() ==> m[puts[i].0] == puts[i].1
}

/// Convergence: sites that made the same writes hold the same rows, in whatever order and
/// however often each of them made them.
pub proof fn lemma_lww_converges<K, R: Stamped>(m: Map<K, R>, a: Seq<(K, R)>, b: Seq<(K, R)>)
    requires
        forall|w: (K, R)| a.contains(w) == b.contains(w),
        distinct_stamps(m, a),
    ensures
        lww_all(m, a) == lww_all(m, b),
{
    let x = lww_all(m, a);
    let y = lww_all(m, b);
    assert forall|k: K| x.dom().contains(k) == y.dom().contains(k) by {
        lemma_newest_wins(m, a, k);
        lemma_newest_wins(m, b, k);
        if exists|i: int| 0 <= i < a.len() && (#[trigger] a[i]).0 == k {
            let i = choose|i: int| 0 <= i < a.len() && (#[trigger] a[i]).0 == k;
            assert(a.contains(a[i]));
            assert(b.contains(a[i]));
            let j = choose|j: int| 0 <= j < b.len() && b[j] == a[i];
            assert(b[j].0 == k);
        }
        if exists|i: int| 0 <= i < b.len() && (#[trigger] b[i]).0 == k {
            let i = choose|i: int| 0 <= i < b.len() && (#[trigger] b[i]).0 == k;
            assert(b.contains(b[i]));
            assert(a.contains(b[i]));
            let j = choose|j: int| 0 <= j < a.len() && a[j] == b[i];
            assert(a[j].0 == k);
        }
    }
    assert forall|k: K| x.dom().contains(k) implies x[k] == y[k] by {
        lemma_newest_wins(m, a, k);
        lemma_newest_wins(m, b, k);
        let r = x[k];
        let s = y[k];
        // The winner of each side was also written at the other.
        if b.contains((k, s)) {
            assert(a.contains((k, s)));
            let i = choose|i: int| 0 <= i < a.len() && a[i] == (k, s);
            assert(a[i].0 == k);
            assert(s.stamp() <= r.stamp());
        }
        if a.contains((k, r)) {
            assert(b.contains((k, r)));
            let j = choose|j: int| 0 <= j < b.len() && b[j] == (k, r);
            assert(b[j].0 == k);
            assert(r.stamp() <= s.stamp());
        }
        assert(r.stamp() == s.stamp());
        if a.contains((k, r)) && a.contains((k, s)) {
            let i = choose|i: int| 0 <= i < a.len() && a[i] == (k, r);
            let j = choose|j: int| 0 <= j < a.len() && a[j] == (k, s);
            assert(a[i].1 == a[j].1);
        } else if a.contains((k, r)) {
            let i = choose|i: int| 0 <= i < a.len() && a[i] == (k, r);
            assert(m[a[i].0] == a[i].1);
        } else if a.contains((k, s)) {
            let i = choose|i: int| 0 <= i < a.len() && a[i] == (k, s);
            assert(m[a[i].0] == a[i].1);
        }
    }
    assert(x =~= y);
}

} // verus!
