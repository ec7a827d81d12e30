//! Total orders on keys.
//!
//! Every table of the metadata store is kept sorted by its primary key. The order on text is
//! by code point, which is also the order of the UTF-8 bytes; the order on byte strings is by
//! byte; pairs are ordered by their first component and then by their second.

use vstd::prelude::*;

verus! {

/// A strict total order.
pub trait KeyOrder: Sized {
    spec fn before(self, other: Self) -> bool;

    proof fn before_irreflexive(x: Self)
        ensures
            !x.before(x),
    ;

    proof fn before_transitive(x: Self, y: Self, z: Self)
        requires
            x.before(y),
            y.before(z),
        ensures
            x.before(z),
    ;

    proof fn before_total(x: Self, y: Self)
        ensures
            x.before(y) || y.before(x) || x == y,
    ;
}

impl KeyOrder for u8 {
    open spec fn before(self, other: u8) -> bool {
        self < other
    }

    proof fn before_irreflexive(x: u8) {
    }

    proof fn before_transitive(x: u8, y: u8, z: u8) {
    }

    proof fn before_total(x: u8, y: u8) {
    }
}

impl KeyOrder for char {
    open spec fn before(self, other: char) -> bool {
        self < other
    }

    proof fn before_irreflexive(x: char) {
    }

    proof fn before_transitive(x: char, y: char, z: char) {
    }

    proof fn before_total(x: char, y: char) {
    }
}

impl KeyOrder for i32 {
    open spec fn before(self, other: i32) -> bool {
        self < other
    }

    proof fn before_irreflexive(x: i32) {
    }

    proof fn before_transitive(x: i32, y: i32, z: i32) {
    }

    proof fn before_total(x: i32, y: i32) {
    }
}

impl KeyOrder for i64 {
    open spec fn before(self, other: i64) -> bool {
        self < other
    }

    proof fn before_irreflexive(x: i64) {
    }

    proof fn before_transitive(x: i64, y: i64, z: i64) {
    }

    proof fn before_total(x: i64, y: i64) {
    }
}

impl<A: KeyOrder, B: KeyOrder> KeyOrder for (A, B) {
    open spec fn before(self, other: (A, B)) -> bool {
        self.0.before(other.0) || (self.0 == other.0 && self.1.before(other.1))
    }

    proof fn before_irreflexive(x: (A, B)) {
        A::before_irreflexive(x.0);
        B::before_irreflexive(x.1);
    }

    proof fn before_transitive(x: (A, B), y: (A, B), z: (A, B)) {
        if x.0.before(y.0) && y.0.before(z.0) {
            A::before_transitive(x.0, y.0, z.0);
        }
        if x.1.before(y.1) && y.1.before(z.1) {
            B::before_transitive(x.1, y.1, z.1);
        }
    }

    proof fn before_total(x: (A, B), y: (A, B)) {
        A::before_total(x.0, y.0);
        B::before_total(x.1, y.1);
    }
}

/// `a` sorts before `b` lexicographically.
pub open spec fn lex_before<T: KeyOrder>(a: Seq<T>, b: Seq<T>) -> bool
    decreases a.len(),
{
    if b.len() == 0 {
        false
    } else if a.len() == 0 {
        true
    } else if a[0] == b[0] {
        lex_before(a.drop_first(), b.drop_first())
    } else {
        a[0].before(b[0])
    }
}

/// `i` is the length of the longest common prefix of `a` and `b`.
pub open spec fn first_difference<T>(a: Seq<T>, b: Seq<T>, i: int) -> bool {
    &&& 0 <= i <= a.len()
    &&& i <= b.len()
    &&& forall|j: int| 0 <= j < i ==> a[j] == b[j]
    &&& i == a.len() || i == b.len() || a[i] != b[i]
}

/// The lexicographic order is decided at the first difference.
pub proof fn lemma_lex_at<T: KeyOrder>(a: Seq<T>, b: Seq<T>, i: int)
    requires
        first_difference(a, b, i),
    ensures
        lex_before(a, b) == ((i == a.len() && i < b.len()) || (i < a.len() && i < b.len()
            && a[i].before(b[i]))),
    decreases i,
{
    if i > 0 {
        assert(a[0] == b[0]);
        let a1 = a.drop_first();
        let b1 = b.drop_first();
        assert forall|j: int| 0 <= j < i - 1 implies a1[j] == b1[j] by {
            assert(a[j + 1] == b[j + 1]);
        }
        lemma_lex_at(a1, b1, i - 1);
    }
}

/// Two sequences have a longest common prefix.
pub proof fn lemma_first_difference<T>(a: Seq<T>, b: Seq<T>) -> (i: int)
    ensures
        first_difference(a, b, i),
    decreases a.len(),
{
    if a.len() > 0 && b.len() > 0 && a[0] == b[0] {
        let i = lemma_first_difference(a.drop_first(), b.drop_first());
        assert forall|j: int| 0 <= j < i + 1 implies a[j] == b[j] by {
            if j > 0 {
                assert(a.drop_first()[j - 1] == b.drop_first()[j - 1]);
            }
        }
        i + 1
    } else {
        0
    }
}

impl<T: KeyOrder> KeyOrder for Seq<T> {
    open spec fn before(self, other: Seq<T>) -> bool {
        lex_before(self, other)
    }

    proof fn before_irreflexive(x: Seq<T>) {
        lemma_lex_at(x, x, x.len() as int);
    }

    proof fn before_transitive(x: Seq<T>, y: Seq<T>, z: Seq<T>) {
        let i = lemma_first_difference(x, y);
        let j = lemma_first_difference(y, z);
        lemma_lex_at(x, y, i);
        lemma_lex_at(y, z, j);
        let k = if i <= j {
            i
        } else {
            j
        };
        if i == j && i < x.len() {
            T::before_transitive(x[i], y[i], z[i]);
            if x[i] == z[i] {
                T::before_irreflexive(x[i]);
            }
        }
        assert(first_difference(x, z, k));
        lemma_lex_at(x, z, k);
    }

    proof fn before_total(x: Seq<T>, y: Seq<T>) {
        let i = lemma_first_difference(x, y);
        lemma_lex_at(x, y, i);
        assert(first_difference(y, x, i));
        lemma_lex_at(y, x, i);
        if i < x.len() && i < y.len() {
            T::before_total(x[i], y[i]);
        } else if i == x.len() && i == y.len() {
            assert(x =~= y);
        }
    }
}

/// How one key stands to another.
#[derive(PartialEq, Eq, Structural, Clone, Copy, Debug)]
pub enum Rank {
    Less,
    Equal,
    Greater,
}

/// A run-time key whose view is totally ordered.
pub trait TableKey: Sized + View where Self::V: KeyOrder {
    /// Where `self` stands to `other` in the order on views.
    fn rank(&self, other: &Self) -> (r: Rank)
        ensures
            (r is Less) == self@.before(other@),
            (r is Equal) == (self@ == other@),
            (r is Greater) == other@.before(self@),
    ;

    /// A second key with the same view.
    fn duplicate(&self) -> (r: Self)
        ensures
            r@ == self@,
    ;
}

impl TableKey for i32 {
    fn rank(&self, other: &i32) -> (r: Rank) {
        if *self < *other {
            Rank::Less
        } else if *self == *other {
            Rank::Equal
        } else {
            Rank::Greater
        }
    }

    fn duplicate(&self) -> (r: i32) {
        *self
    }
}

impl TableKey for i64 {
    fn rank(&self, other: &i64) -> (r: Rank) {
        if *self < *other {
            Rank::Less
        } else if *self == *other {
            Rank::Equal
        } else {
            Rank::Greater
        }
    }

    fn duplicate(&self) -> (r: i64) {
        *self
    }
}

/// Where the byte string `a` stands to `b`.
pub fn rank_bytes(a: &[u8], b: &[u8]) -> (r: Rank)
    ensures
        (r is Less) == a@.before(b@),
        (r is Equal) == (a@ == b@),
        (r is Greater) == b@.before(a@),
{
    proof {
        Seq::<u8>::before_irreflexive(a@);
    }
    let mut i: usize = 0;
    while i < a.len() && i < b.len() && a[i] == b[i]
        invariant
            i <= a.len(),
            i <= b.len(),
            forall|j: int| 0 <= j < i ==> a[j] == b[j],
        decreases a.len() - i,
    {
        i += 1;
    }
    proof {
        assert(first_difference(a@, b@, i as int));
        assert(first_difference(b@, a@, i as int));
        lemma_lex_at(a@, b@, i as int);
        lemma_lex_at(b@, a@, i as int);
    }
    if i == a.len() {
        if i == b.len() {
            assert(a@ =~= b@);
            Rank::Equal
        } else {
            Rank::Less
        }
    } else if i == b.len() {
        Rank::Greater
    } else if a[i] < b[i] {
        Rank::Less
    } else {
        Rank::Greater
    }
}

impl TableKey for Vec<u8> {
    fn rank(&self, other: &Vec<u8>) -> (r: Rank) {
        rank_bytes(self.as_slice(), other.as_slice())
    }

    fn duplicate(&self) -> (r: Vec<u8>) {
        let r = self.clone();
        assert(r@ =~= self@);
        r
    }
}

/// Where the text `a` stands to `b`, by code point.
pub fn rank_text(a: &str, b: &str) -> (r: Rank)
    ensures
        (r is Less) == a@.before(b@),
        (r is Equal) == (a@ == b@),
        (r is Greater) == b@.before(a@),
{
    broadcast use vstd::string::group_string_axioms;

    let mut left = a.chars();
    let mut right = b.chars();
    proof {
        Seq::<char>::before_irreflexive(a@);
        assert(vstd::std_specs::iter::IteratorSpec::remaining(&left) == a@);
    }
    let ghost mut i: int = 0;
    loop
        invariant
            0 <= i <= a@.len(),
            i <= b@.len(),
            vstd::std_specs::iter::IteratorSpec::remaining(&left) == a@.skip(i),
            vstd::std_specs::iter::IteratorSpec::remaining(&right) == b@.skip(i),
            forall|j: int| 0 <= j < i ==> a@[j] == b@[j],
            !a@.before(a@),
        decreases a@.len() - i,
    {
        let x = left.next();
        let y = right.next();
        match x {
            None => {
                match y {
                    None => {
                        assert(a@ =~= b@);
                        return Rank::Equal;
                    },
                    Some(_) => {
                        proof {
                            assert(first_difference(a@, b@, i));
                            assert(first_difference(b@, a@, i));
                            lemma_lex_at(a@, b@, i);
                            lemma_lex_at(b@, a@, i);
                        }
                        return Rank::Less;
                    },
                }
            },
            Some(p) => {
                match y {
                    None => {
                        proof {
                            assert(first_difference(a@, b@, i));
                            assert(first_difference(b@, a@, i));
                            lemma_lex_at(a@, b@, i);
                            lemma_lex_at(b@, a@, i);
                        }
                        return Rank::Greater;
                    },
                    Some(q) => {
                        assert(p == a@[i] && q == b@[i]);
                        if p != q {
                            proof {
                                assert(first_difference(a@, b@, i));
                                assert(first_difference(b@, a@, i));
                                lemma_lex_at(a@, b@, i);
                                lemma_lex_at(b@, a@, i);
                            }
                            if p < q {
                                return Rank::Less;
                            } else {
                                return Rank::Greater;
                            }
                        }
                        proof {
                            assert(a@.skip(i).drop_first() =~= a@.skip(i + 1));
                            assert(b@.skip(i).drop_first() =~= b@.skip(i + 1));
                            i = i + 1;
                        }
                    },
                }
            },
        }
    }
}

impl TableKey for String {
    fn rank(&self, other: &String) -> (r: Rank) {
        rank_text(self.as_str(), other.as_str())
    }

    fn duplicate(&self) -> (r: String) {
        self.clone()
    }
}

impl<A: TableKey, B: TableKey> TableKey for (A, B) where A::V: KeyOrder, B::V: KeyOrder {
    fn rank(&self, other: &(A, B)) -> (r: Rank) {
        proof {
            <A::V as KeyOrder>::before_irreflexive(self.0@);
            <B::V as KeyOrder>::before_irreflexive(self.1@);
            if self.0@.before(other.0@) && other.0@.before(self.0@) {
                <A::V as KeyOrder>::before_transitive(self.0@, other.0@, self.0@);
            }
        }
        match self.0.rank(&other.0) {
            Rank::Less => Rank::Less,
            Rank::Greater => Rank::Greater,
            Rank::Equal => self.1.rank(&other.1),
        }
    }

    fn duplicate(&self) -> (r: (A, B)) {
        (self.0.duplicate(), self.1.duplicate())
    }
}

} // verus!
