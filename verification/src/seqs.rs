//! Sequences of views, and selections from them.

use vstd::prelude::*;

verus! {

/// The views of the elements of `s`.
pub open spec fn views<T: View>(s: Seq<T>) -> Seq<T::V> {
    Seq::new(s.len(), |i: int| s[i]@)
}

/// The views of one more element.
pub proof fn lemma_views_push<T: View>(s: Seq<T>, x: T)
    ensures
        views(s.push(x)) == views(s).push(x@),
{
    assert(views(s.push(x)) =~= views(s).push(x@));
}

/// Selecting from one more element.
pub proof fn lemma_filter_take<A>(s: Seq<A>, p: spec_fn(A) -> bool, i: int)
    requires
        0 <= i < s.len(),
    ensures
        s.take(i + 1).filter(p) == (if p(s[i]) {
            s.take(i).filter(p).push(s[i])
        } else {
            s.take(i).filter(p)
        }),
{
    reveal(Seq::filter);
    assert(s.take(i + 1).drop_last() =~= s.take(i));
}

/// Nothing is selected from nothing.
pub proof fn lemma_filter_none<A>(s: Seq<A>, p: spec_fn(A) -> bool)
    ensures
        s.take(0).filter(p) == Seq::<A>::empty(),
{
    reveal(Seq::filter);
    assert(s.take(0) =~= Seq::<A>::empty());
}

/// What is selected satisfies the condition and comes from the sequence; everything that
/// satisfies it is selected.
pub proof fn lemma_filter_members<A>(s: Seq<A>, p: spec_fn(A) -> bool, x: A)
    ensures
        s.filter(p).contains(x) == (s.contains(x) && p(x)),
    decreases s.len(),
{
    reveal(Seq::filter);
    if s.len() > 0 {
        let front = s.drop_last();
        lemma_filter_members(front, p, x);
        assert(s.contains(x) == (front.contains(x) || x == s.last())) by {
            if s.contains(x) {
                let i = choose|i: int| 0 <= i < s.len() && s[i] == x;
                if i < front.len() {
                    assert(front[i] == x);
                }
            }
            if front.contains(x) {
                let i = choose|i: int| 0 <= i < front.len() && front[i] == x;
                assert(s[i] == x);
            }
            assert(s[s.len() - 1] == s.last());
        }
        let sub = front.filter(p);
        if p(s.last()) {
            let all = sub.push(s.last());
            if all.contains(x) {
                let i = choose|i: int| 0 <= i < all.len() && all[i] == x;
                if i < sub.len() {
                    assert(sub[i] == x);
                }
            }
            if sub.contains(x) {
                let i = choose|i: int| 0 <= i < sub.len() && sub[i] == x;
                assert(all[i] == x);
            }
            assert(all[sub.len() as int] == s.last());
        }
    }
}

/// Selecting by two conditions is selecting twice.
pub proof fn lemma_filter_twice<A>(
    s: Seq<A>,
    p: spec_fn(A) -> bool,
    q: spec_fn(A) -> bool,
    both: spec_fn(A) -> bool,
)
    requires
        forall|i: int| 0 <= i < s.len() ==> both(#[trigger] s[i]) == (p(s[i]) && q(s[i])),
    ensures
        s.filter(both) == s.filter(p).filter(q),
    decreases s.len(),
{
    reveal(Seq::filter);
    if s.len() > 0 {
        let front = s.drop_last();
        assert forall|i: int| 0 <= i < front.len() implies both(#[trigger] front[i]) == (p(
            front[i],
        ) && q(front[i])) by {
            assert(front[i] == s[i]);
        }
        lemma_filter_twice(front, p, q, both);
        assert(s.last() == s[s.len() - 1]);
        if p(s.last()) {
            let sub = front.filter(p);
            assert(sub.push(s.last()).drop_last() =~= sub);
        }
    }
}

/// Selecting by a condition that fails on the first `n` elements and holds on the others.
pub proof fn lemma_filter_is_skip<A>(s: Seq<A>, p: spec_fn(A) -> bool, n: int)
    requires
        0 <= n <= s.len(),
        forall|i: int| 0 <= i < n ==> !p(#[trigger] s[i]),
        forall|i: int| n <= i < s.len() ==> p(#[trigger] s[i]),
    ensures
        s.filter(p) == s.skip(n),
    decreases s.len(),
{
    reveal(Seq::filter);
    if s.len() > 0 {
        let front = s.drop_last();
        assert forall|i: int| 0 <= i < front.len() implies #[trigger] front[i] == s[i] by {}
        if n == s.len() {
            lemma_filter_is_skip(front, p, n - 1);
            assert(!p(s[n - 1]));
            assert(front.skip(n - 1) =~= s.skip(n));
        } else {
            lemma_filter_is_skip(front, p, n);
            assert(p(s[s.len() - 1]));
            assert(front.skip(n).push(s.last()) =~= s.skip(n));
        }
    } else {
        assert(s.skip(n) =~= s);
    }
}

/// The images under `f` of the elements that satisfy `p`, in order.
pub open spec fn pick<A, B>(s: Seq<A>, p: spec_fn(A) -> bool, f: spec_fn(A) -> B) -> Seq<B> {
    s.filter(p).map_values(f)
}

/// Picking from one more element.
pub proof fn lemma_pick_step<A, B>(s: Seq<A>, p: spec_fn(A) -> bool, f: spec_fn(A) -> B, i: int)
    requires
        0 <= i < s.len(),
    ensures
        pick(s.take(i + 1), p, f) == (if p(s[i]) {
            pick(s.take(i), p, f).push(f(s[i]))
        } else {
            pick(s.take(i), p, f)
        }),
{
    lemma_filter_take(s, p, i);
    if p(s[i]) {
        assert(pick(s.take(i + 1), p, f) =~= pick(s.take(i), p, f).push(f(s[i])));
    }
}

/// No more is picked than there is.
pub proof fn lemma_pick_len<A, B>(s: Seq<A>, p: spec_fn(A) -> bool, f: spec_fn(A) -> B)
    ensures
        pick(s, p, f).len() <= s.len(),
    decreases s.len(),
{
    reveal(Seq::filter);
    if s.len() > 0 {
        lemma_pick_len(s.drop_last(), p, f);
    }
}

/// Nothing is picked from nothing.
pub proof fn lemma_pick_none<A, B>(s: Seq<A>, p: spec_fn(A) -> bool, f: spec_fn(A) -> B)
    ensures
        pick(s.take(0), p, f) == Seq::<B>::empty(),
        s.take(s.len() as int) == s,
{
    lemma_filter_none(s, p);
    assert(pick(s.take(0), p, f) =~= Seq::<B>::empty());
    assert(s.take(s.len() as int) =~= s);
}

/// Elements behind the first `i` that do not satisfy the condition add nothing.
pub proof fn lemma_pick_rest<A, B>(s: Seq<A>, p: spec_fn(A) -> bool, f: spec_fn(A) -> B, i: int)
    requires
        0 <= i <= s.len(),
        forall|j: int| i <= j < s.len() ==> !p(#[trigger] s[j]),
    ensures
        pick(s, p, f) == pick(s.take(i), p, f),
    decreases s.len() - i,
{
    if i < s.len() {
        lemma_pick_rest(s, p, f, i + 1);
        lemma_pick_step(s, p, f, i);
    } else {
        assert(s.take(i) =~= s);
    }
}

/// The first `i` elements give nothing where none of them satisfies the condition.
pub proof fn lemma_pick_no_hit<A, B>(s: Seq<A>, p: spec_fn(A) -> bool, f: spec_fn(A) -> B, i: int)
    requires
        0 <= i <= s.len(),
        forall|j: int| 0 <= j < i ==> !p(#[trigger] s[j]),
    ensures
        pick(s.take(i), p, f) == Seq::<B>::empty(),
    decreases i,
{
    if i > 0 {
        lemma_pick_no_hit(s, p, f, i - 1);
        lemma_pick_step(s, p, f, i - 1);
    } else {
        lemma_pick_none(s, p, f);
    }
}

/// What is picked comes from an element that satisfies the condition, and every such element
/// is picked.
pub proof fn lemma_pick_members<A, B>(
    s: Seq<A>,
    p: spec_fn(A) -> bool,
    f: spec_fn(A) -> B,
    y: B,
)
    ensures
        pick(s, p, f).contains(y) == exists|i: int|
            0 <= i < s.len() && p(#[trigger] s[i]) && f(s[i]) == y,
{
    let t = s.filter(p);
    if pick(s, p, f).contains(y) {
        let j = choose|j: int| 0 <= j < t.len() && pick(s, p, f)[j] == y;
        assert(t.contains(t[j]));
        lemma_filter_members(s, p, t[j]);
        let i = choose|i: int| 0 <= i < s.len() && s[i] == t[j];
        assert(p(s[i]) && f(s[i]) == y);
    }
    if exists|i: int| 0 <= i < s.len() && p(#[trigger] s[i]) && f(s[i]) == y {
        let i = choose|i: int| 0 <= i < s.len() && p(#[trigger] s[i]) && f(s[i]) == y;
        assert(s.contains(s[i]));
        lemma_filter_members(s, p, s[i]);
        let j = choose|j: int| 0 <= j < t.len() && t[j] == s[i];
        assert(pick(s, p, f)[j] == y);
    }
}

/// The first `n` elements, or all where there are fewer.
pub open spec fn at_most<A>(s: Seq<A>, n: int) -> Seq<A> {
    if s.len() <= n {
        s
    } else {
        s.take(n)
    }
}

} // verus!
