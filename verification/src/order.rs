//! Orders and sorting.

use vstd::prelude::*;
use vstd::relations::{antisymmetric, reflexive, strongly_connected, total_ordering, transitive};

verus! {

/// The lexicographic order of sequences, given an order of their elements.
pub open spec fn lex_le<T>(a: Seq<T>, b: Seq<T>, le: spec_fn(T, T) -> bool) -> bool
    decreases a.len(),
{
    if a.len() == 0 {
        true
    } else if b.len() == 0 {
        false
    } else if a.first() != b.first() {
        le(a.first(), b.first())
    } else {
        lex_le(a.drop_first(), b.drop_first(), le)
    }
}

/// The lexicographic order as a relation.
pub open spec fn lex<T>(le: spec_fn(T, T) -> bool) -> spec_fn(Seq<T>, Seq<T>) -> bool {
    |a: Seq<T>, b: Seq<T>| lex_le(a, b, le)
}

/// The order of bytes.
pub open spec fn byte_order() -> spec_fn(u8, u8) -> bool {
    |a: u8, b: u8| a <= b
}

/// The order of byte strings.
pub open spec fn bytes_order() -> spec_fn(Seq<u8>, Seq<u8>) -> bool {
    lex(byte_order())
}

proof fn lemma_lex_antisymmetric<T>(a: Seq<T>, b: Seq<T>, le: spec_fn(T, T) -> bool)
    requires
        total_ordering(le),
        lex_le(a, b, le),
        lex_le(b, a, le),
    ensures
        a == b,
    decreases a.len(),
{
    if a.len() > 0 && b.len() > 0 {
        lemma_lex_antisymmetric(a.drop_first(), b.drop_first(), le);
        assert(a =~= seq![a.first()] + a.drop_first());
        assert(b =~= seq![b.first()] + b.drop_first());
    } else {
        assert(a =~= b);
    }
}

proof fn lemma_lex_transitive<T>(a: Seq<T>, b: Seq<T>, c: Seq<T>, le: spec_fn(T, T) -> bool)
    requires
        total_ordering(le),
        lex_le(a, b, le),
        lex_le(b, c, le),
    ensures
        lex_le(a, c, le),
    decreases a.len(),
{
    if a.len() > 0 {
        if a.first() == b.first() && b.first() == c.first() {
            lemma_lex_transitive(a.drop_first(), b.drop_first(), c.drop_first(), le);
        }
    }
}

proof fn lemma_lex_connected<T>(a: Seq<T>, b: Seq<T>, le: spec_fn(T, T) -> bool)
    requires
        total_ordering(le),
    ensures
        lex_le(a, b, le) || lex_le(b, a, le),
    decreases a.len(),
{
    if a.len() > 0 && b.len() > 0 && a.first() == b.first() {
        lemma_lex_connected(a.drop_first(), b.drop_first(), le);
    }
}

/// The lexicographic order of a total order is a total order.
pub proof fn lex_is_total<T>(le: spec_fn(T, T) -> bool)
    requires
        total_ordering(le),
    ensures
        total_ordering(lex(le)),
{
    let r = lex(le);
    assert(reflexive(r)) by {
        assert forall|a: Seq<T>| #[trigger] r(a, a) by {
            lemma_lex_connected(a, a, le);
        }
    }
    assert(antisymmetric(r)) by {
        assert forall|a: Seq<T>, b: Seq<T>| #[trigger] r(a, b) && #[trigger] r(b, a) implies a
            == b by {
            lemma_lex_antisymmetric(a, b, le);
        }
    }
    assert(transitive(r)) by {
        assert forall|a: Seq<T>, b: Seq<T>, c: Seq<T>| #[trigger] r(a, b) && #[trigger] r(
            b,
            c,
        ) implies r(a, c) by {
            lemma_lex_transitive(a, b, c, le);
        }
    }
    assert(strongly_connected(r)) by {
        assert forall|a: Seq<T>, b: Seq<T>| #[trigger] r(a, b) || #[trigger] r(b, a) by {
            lemma_lex_connected(a, b, le);
        }
    }
}

/// Byte strings are totally ordered.
pub proof fn bytes_order_is_total()
    ensures
        total_ordering(bytes_order()),
{
    lex_is_total(byte_order());
}

/// Sequences that begin alike are ordered by what follows.
pub proof fn lex_after_common<T>(
    common: Seq<T>,
    a: Seq<T>,
    b: Seq<T>,
    le: spec_fn(T, T) -> bool,
)
    ensures
        lex(le)(common + a, common + b) == lex(le)(a, b),
        a.len() == 0 ==> lex(le)(a, b),
        a.len() > 0 && b.len() == 0 ==> !lex(le)(a, b),
        a.len() > 0 && b.len() > 0 && a.first() != b.first() ==> lex(le)(a, b) == le(
            a.first(),
            b.first(),
        ),
    decreases common.len(),
{
    if common.len() > 0 {
        let rest = common.drop_first();
        lex_after_common(rest, a, b, le);
        assert((common + a).drop_first() =~= rest + a);
        assert((common + b).drop_first() =~= rest + b);
        assert((common + a).first() == (common + b).first());
    } else {
        assert(common + a =~= a);
        assert(common + b =~= b);
    }
}

/// Byte strings are ordered by the first byte in which they differ; one that begins
/// with another comes after it.
pub proof fn bytes_order_by_first_difference(common: Seq<u8>, a: Seq<u8>, b: Seq<u8>)
    requires
        a.len() > 0,
        b.len() > 0,
        a.first() < b.first(),
    ensures
        bytes_order()(common + a, common + b),
        !bytes_order()(common + b, common + a),
        bytes_order()(common, common + a),
        !bytes_order()(common + a, common),
        bytes_order()(common, common),
{
    let none = Seq::<u8>::empty();
    assert(common + none =~= common);
    lex_after_common(common, a, b, byte_order());
    lex_after_common(common, b, a, byte_order());
    lex_after_common(common, none, a, byte_order());
    lex_after_common(common, a, none, byte_order());
    lex_after_common(common, none, none, byte_order());
}

/// Whether `a` comes before `b` in the order of byte strings, or is the same.
pub fn bytes_le(a: &Vec<u8>, b: &Vec<u8>) -> (r: bool)
    ensures
        r == bytes_order()(a@, b@),
{
    let mut i: usize = 0;
    assert(a@.skip(0) =~= a@);
    assert(b@.skip(0) =~= b@);
    while i < a.len() && i < b.len()
        invariant
            i <= a.len(),
            i <= b.len(),
            lex_le(a@, b@, byte_order()) == lex_le(
                a@.skip(i as int),
                b@.skip(i as int),
                byte_order(),
            ),
        decreases a.len() - i,
    {
        assert(a@.skip(i as int).drop_first() =~= a@.skip(i + 1));
        assert(b@.skip(i as int).drop_first() =~= b@.skip(i + 1));
        if a[i] != b[i] {
            return a[i] < b[i];
        }
        i = i + 1;
    }
    i == a.len()
}

/// Values with a total order, in which different values may rank the same.
pub trait Ranked: Sized {
    /// Whether `self` ranks no higher than `other`.
    spec fn at_most(&self, other: &Self) -> bool;

    proof fn at_most_transitive(a: &Self, b: &Self, c: &Self)
        requires
            a.at_most(b),
            b.at_most(c),
        ensures
            a.at_most(c),
    ;

    proof fn at_most_connected(a: &Self, b: &Self)
        ensures
            a.at_most(b) || b.at_most(a),
    ;

    fn ranks_at_most(&self, other: &Self) -> (r: bool)
        ensures
            r == self.at_most(other),
    ;
}

/// In ascending order.
pub open spec fn ascending<T: Ranked>(s: Seq<T>) -> bool {
    forall|i: int, j: int|
        #![trigger s[i], s[j]]
        0 <= i < j < s.len() ==> s[i].at_most(&s[j])
}

/// In descending order.
spec fn descending<T: Ranked>(s: Seq<T>) -> bool {
    forall|i: int, j: int|
        #![trigger s[i], s[j]]
        0 <= i < j < s.len() ==> s[j].at_most(&s[i])
}

/// Everything in `low` ranks no higher than anything in `high`.
spec fn below<T: Ranked>(low: Seq<T>, high: Seq<T>) -> bool {
    forall|i: int, j: int|
        #![trigger low[i], high[j]]
        0 <= i < low.len() && 0 <= j < high.len() ==> low[i].at_most(&high[j])
}

/// Turns a sequence around.
pub fn reversed<T>(v: Vec<T>) -> (r: Vec<T>)
    ensures
        r@ == v@.reverse(),
{
    let mut from = v;
    let mut r: Vec<T> = Vec::new();
    while from.len() > 0
        invariant
            r@ + from@.reverse() =~= v@.reverse(),
        decreases from.len(),
    {
        match from.pop() {
            Some(x) => {
                r.push(x);
            },
            None => {},
        }
    }
    r
}

/// Merges two sequences in ascending order.
fn merged<T: Ranked>(left: Vec<T>, right: Vec<T>) -> (r: Vec<T>)
    requires
        ascending(left@),
        ascending(right@),
    ensures
        ascending(r@),
        r@.to_multiset() == left@.to_multiset().add(right@.to_multiset()),
{
    broadcast use vstd::multiset::group_multiset_axioms;
    broadcast use vstd::seq_lib::group_to_multiset_ensures;

    let mut a = left;
    let mut b = right;
    let mut out: Vec<T> = Vec::new();
    while a.len() > 0 || b.len() > 0
        invariant
            ascending(a@),
            ascending(b@),
            descending(out@),
            below(a@, out@),
            below(b@, out@),
            out@.to_multiset().add(a@.to_multiset()).add(b@.to_multiset())
                == left@.to_multiset().add(right@.to_multiset()),
        decreases a.len() + b.len(),
    {
        let take_right: bool = a.len() == 0 || (b.len() > 0 && a[a.len() - 1].ranks_at_most(
            &b[b.len() - 1],
        ));
        let ghost (a0, b0, out0) = (a@, b@, out@);
        if take_right {
            match b.pop() {
                Some(x) => {
                    assert(b0 =~= b@.push(x));
                    proof {
                        vstd::seq_lib::to_multiset_build(b@, x);
                        vstd::seq_lib::to_multiset_build(out0, x);
                    }
                    assert forall|i: int| 0 <= i < a0.len() implies (#[trigger] a0[i]).at_most(
                        &x,
                    ) by {
                        if i < a0.len() - 1 {
                            T::at_most_transitive(&a0[i], &a0.last(), &x);
                        }
                    }
                    out.push(x);
                },
                None => {},
            }
        } else {
            match a.pop() {
                Some(x) => {
                    assert(a0 =~= a@.push(x));
                    proof {
                        vstd::seq_lib::to_multiset_build(a@, x);
                        vstd::seq_lib::to_multiset_build(out0, x);
                    }
                    assert forall|i: int| 0 <= i < b0.len() implies (#[trigger] b0[i]).at_most(
                        &x,
                    ) by {
                        T::at_most_connected(&x, &b0.last());
                        if i < b0.len() - 1 {
                            T::at_most_transitive(&b0[i], &b0.last(), &x);
                        }
                    }
                    out.push(x);
                },
                None => {},
            }
        }
        assert(out@.to_multiset().add(a@.to_multiset()).add(b@.to_multiset())
            =~= out0.to_multiset().add(a0.to_multiset()).add(b0.to_multiset()));
    }
    proof {
        out@.lemma_reverse_to_multiset();
        assert(a@ =~= Seq::<T>::empty());
        assert(b@ =~= Seq::<T>::empty());
        assert(out@.to_multiset() =~= left@.to_multiset().add(right@.to_multiset()));
    }
    reversed(out)
}

/// Sorts in ascending order.
pub fn sorted<T: Ranked>(v: Vec<T>) -> (r: Vec<T>)
    ensures
        ascending(r@),
        r@.to_multiset() == v@.to_multiset(),
    decreases v.len(),
{
    let len: usize = v.len();
    if len <= 1 {
        return v;
    }
    let mut left = v;
    let right = left.split_off(len / 2);
    proof {
        assert(v@ =~= left@ + right@);
        vstd::seq_lib::lemma_multiset_commutative(left@, right@);
    }
    merged(sorted(left), sorted(right))
}

/// What holds the same elements holds the same images of them.
pub proof fn mapped_multisets<A, B>(s: Seq<A>, t: Seq<A>, f: spec_fn(A) -> B)
    requires
        s.to_multiset() == t.to_multiset(),
    ensures
        s.map_values(f).to_multiset() == t.map_values(f).to_multiset(),
    decreases s.len(),
{
    broadcast use vstd::multiset::group_multiset_axioms;
    broadcast use vstd::seq_lib::group_to_multiset_ensures;

    assert(s.to_multiset().len() == s.len());
    assert(t.to_multiset().len() == t.len());
    if s.len() == 0 {
        assert(s.map_values(f) =~= t.map_values(f));
    } else {
        let x = s.last();
        assert(s.contains(x));
        assert(t.to_multiset().count(x) > 0);
        let i = t.index_of(x);
        let s2 = s.drop_last();
        let t2 = t.remove(i);
        assert(s2.push(x) =~= s);
        assert(s2.to_multiset() =~= t2.to_multiset()) by {
            vstd::seq_lib::to_multiset_build(s2, x);
            vstd::seq_lib::to_multiset_remove(t, i);
        }
        mapped_multisets(s2, t2, f);
        assert(s.map_values(f) =~= s2.map_values(f).push(f(x)));
        assert(t.map_values(f) =~= t2.map_values(f).insert(i, f(x)));
        vstd::seq_lib::to_multiset_build(s2.map_values(f), f(x));
        vstd::seq_lib::to_multiset_insert(t2.map_values(f), i, f(x));
    }
}

/// A finite set in sequence holds each of its elements once.
pub proof fn set_in_sequence<A>(set: Set<A>)
    requires
        set.finite(),
    ensures
        set.to_seq().no_duplicates(),
        forall|x: A| #[trigger] set.to_seq().contains(x) <==> set.contains(x),
    decreases set.len(),
{
    if set.len() == 0 {
        assert(set =~= Set::<A>::empty());
    } else {
        let x = set.choose();
        let rest = set.remove(x).to_seq();
        set_in_sequence(set.remove(x));
        let s = set.to_seq();
        assert(s =~= seq![x] + rest);
        assert forall|y: A| #[trigger] s.contains(y) <==> set.contains(y) by {
            if set.contains(y) && y != x {
                assert(rest.contains(y));
                let i = rest.index_of(y);
                assert(s[i + 1] == y);
            } else if y == x {
                assert(s[0] == x);
            }
            if s.contains(y) {
                let i = s.index_of(y);
                if i > 0 {
                    assert(rest[i - 1] == y);
                    assert(rest.contains(y));
                }
            }
        }
        assert forall|i: int, j: int| 0 <= i < s.len() && 0 <= j < s.len() && i != j implies s[i]
            != s[j] by {
            if i > 0 && j > 0 {
                assert(rest[i - 1] != rest[j - 1]);
            } else if i > 0 {
                assert(rest.contains(rest[i - 1]));
            } else {
                assert(rest.contains(rest[j - 1]));
            }
        }
    }
}

/// Two sequences without repetition that hold the same elements hold them
/// equally often.
pub proof fn same_elements_once<A>(s: Seq<A>, t: Seq<A>)
    requires
        s.no_duplicates(),
        t.no_duplicates(),
        forall|x: A| #[trigger] s.contains(x) <==> t.contains(x),
    ensures
        s.to_multiset() == t.to_multiset(),
{
    broadcast use vstd::multiset::group_multiset_axioms;
    broadcast use vstd::seq_lib::group_to_multiset_ensures;

    s.lemma_multiset_has_no_duplicates();
    t.lemma_multiset_has_no_duplicates();
    assert forall|x: A| s.to_multiset().count(x) == t.to_multiset().count(x) by {
        assert(s.contains(x) <==> t.contains(x));
        assert(s.to_multiset().contains(x) <==> s.contains(x));
        assert(t.to_multiset().contains(x) <==> t.contains(x));
    }
    assert(s.to_multiset() =~= t.to_multiset());
}

} // verus!
