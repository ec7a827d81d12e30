//! The words that the other laws are told in: lists, their fronts, and the order of their rows.

use vstd::prelude::*;

use crate::order::KeyOrder;
use crate::seqs;
use crate::table;

verus! {

/// A list of values has the views of the values, one for one.
pub proof fn lemma_views<T: View>(s: Seq<T>)
    ensures
        seqs::views(s).len() == s.len(),
        forall|i: int| 0 <= i < s.len() ==> #[trigger] seqs::views(s)[i] == s[i]@,
{
}

/// The front of a list is all of it where it is short enough.
pub proof fn lemma_at_most<A>(s: Seq<A>, n: int)
    requires
        n >= 0,
    ensures
        seqs::at_most(s, n).len() == if s.len() < n {
            s.len() as int
        } else {
            n
        },
        forall|i: int| 0 <= i < seqs::at_most(s, n).len() ==> #[trigger] seqs::at_most(s, n)[i] == s[i],
{
}

/// What is picked from a list is made of the elements that fit, in their order.
pub proof fn lemma_picked<A, B>(s: Seq<A>, last: A, p: spec_fn(A) -> bool, f: spec_fn(A) -> B)
    ensures
        seqs::pick(seq![], p, f).len() == 0,
        seqs::pick(s.push(last), p, f) == if p(last) {
            seqs::pick(s, p, f).push(f(last))
        } else {
            seqs::pick(s, p, f)
        },
{
    reveal(Seq::filter);
    assert(s.push(last).drop_last() =~= s);
    assert(seqs::pick(s.push(last), p, f) =~= if p(last) {
        seqs::pick(s, p, f).push(f(last))
    } else {
        seqs::pick(s, p, f)
    });
}

/// The rows of a table are its entries, each once, in the order of the keys.
pub proof fn lemma_rows<A: KeyOrder, B>(m: Map<A, B>, k: A)
    requires
        table::enumerates(table::ordered(m), m),
    ensures
        ({
            let rows = table::ordered(m);
            &&& m.dom().contains(k) == exists|i: int|
                0 <= i < rows.len() && (#[trigger] rows[i]).0 == k
            &&& forall|i: int|
                0 <= i < rows.len() ==> m.dom().contains((#[trigger] rows[i]).0) && m[rows[i].0]
                    == rows[i].1
            &&& forall|i: int, j: int|
                0 <= i < j < rows.len() ==> (#[trigger] rows[i]).0.before((#[trigger] rows[j]).0)
                    && rows[i].0 != rows[j].0
        }),
{
    let rows = table::ordered(m);
    assert forall|i: int, j: int| 0 <= i < j < rows.len() implies (#[trigger] rows[i]).0.before(
        (#[trigger] rows[j]).0,
    ) && rows[i].0 != rows[j].0 by {
        A::before_irreflexive(rows[i].0);
    }
}

/// Sorting puts rows in the order of their keys, keeps every row, and keeps rows of one key in the
/// order in which they came.
pub proof fn lemma_sorted<A: KeyOrder, B>(s: Seq<(A, B)>, k: A)
    ensures
        ({
            let t = table::stable_sort(s);
            &&& t.len() == s.len()
            &&& t.to_multiset() == s.to_multiset()
            &&& forall|i: int, j: int|
                0 <= i < j < t.len() ==> !(#[trigger] t[j]).0.before((#[trigger] t[i]).0)
            &&& t.filter(|e: (A, B)| e.0 == k) == s.filter(|e: (A, B)| e.0 == k)
        }),
{
    table::lemma_stable_sort(s);
    lemma_stable(s, k);
}

proof fn lemma_stable<A: KeyOrder, B>(s: Seq<(A, B)>, k: A)
    ensures
        table::stable_sort(s).filter(|e: (A, B)| e.0 == k) == s.filter(|e: (A, B)| e.0 == k),
    decreases s.len(),
{
    reveal(Seq::filter);
    if s.len() > 0 {
        lemma_stable(s.drop_last(), k);
        lemma_inserted(table::stable_sort(s.drop_last()), s.last(), k);
    }
}

proof fn lemma_inserted<A: KeyOrder, B>(t: Seq<(A, B)>, e: (A, B), k: A)
    ensures
        table::stable_insert(t, e).filter(|x: (A, B)| x.0 == k) == if e.0 == k {
            t.filter(|x: (A, B)| x.0 == k).push(e)
        } else {
            t.filter(|x: (A, B)| x.0 == k)
        },
    decreases t.len(),
{
    reveal(Seq::filter);
    let r = table::stable_insert(t, e);
    if t.len() > 0 && e.0.before(t.last().0) {
        lemma_inserted(t.drop_last(), e, k);
        assert(r.drop_last() =~= table::stable_insert(t.drop_last(), e));
        A::before_irreflexive(e.0);
    } else {
        assert(r.drop_last() =~= t);
    }
}

/// Pairs are in the order of their first halves, and of their second halves where those agree.
pub proof fn lemma_pair_order<A: KeyOrder, B: KeyOrder>(a: A, b: A, c: B, d: B)
    ensures
        a.before(b) ==> (a, c).before((b, d)),
        (a, c).before((a, d)) == c.before(d),
        b.before(a) ==> !(a, c).before((b, d)),
{
    A::before_irreflexive(a);
    if b.before(a) {
        if a.before(b) {
            A::before_transitive(a, b, a);
        }
        if a == b {
            A::before_irreflexive(b);
        }
    }
}

} // verus!
