//! Cutting a sequence at every separator.

use vstd::prelude::*;

verus! {

/// The pieces of `s` between separators: one more than there are separators.
pub open spec fn split<T>(s: Seq<T>, separator: T) -> Seq<Seq<T>>
    decreases s.len(),
{
    if s.len() == 0 {
        seq![Seq::<T>::empty()]
    } else {
        let pieces = split(s.drop_last(), separator);
        if s.last() == separator {
            pieces.push(Seq::<T>::empty())
        } else {
            pieces.drop_last().push(pieces.last().push(s.last()))
        }
    }
}

/// There is always a piece.
pub proof fn split_not_empty<T>(s: Seq<T>, separator: T)
    ensures
        split(s, separator).len() >= 1,
    decreases s.len(),
{
    if s.len() > 0 {
        split_not_empty(s.drop_last(), separator);
    }
}

/// Without a separator there is one piece, the whole.
pub proof fn split_whole<T>(s: Seq<T>, separator: T)
    requires
        !s.contains(separator),
    ensures
        split(s, separator) == seq![s],
    decreases s.len(),
{
    if s.len() > 0 {
        assert(s.contains(s.last()));
        assert forall|x: T| s.drop_last().contains(x) implies s.contains(x) by {
            let i = s.drop_last().index_of(x);
            assert(s[i] == x);
        }
        split_whole(s.drop_last(), separator);
        assert(s.drop_last().push(s.last()) =~= s);
        assert(split(s, separator) =~= seq![s]);
    } else {
        assert(s =~= Seq::<T>::empty());
    }
}

/// The pieces on either side of a separator are the pieces of either side.
pub proof fn split_joined<T>(a: Seq<T>, separator: T, b: Seq<T>)
    ensures
        split(a.push(separator) + b, separator) == split(a, separator) + split(b, separator),
    decreases b.len(),
{
    let s = a.push(separator) + b;
    if b.len() == 0 {
        assert(s =~= a.push(separator));
        assert(a.push(separator).drop_last() =~= a);
        assert(split(s, separator) =~= split(a, separator) + split(b, separator));
    } else {
        split_joined(a, separator, b.drop_last());
        split_not_empty(b.drop_last(), separator);
        assert(s.drop_last() =~= a.push(separator) + b.drop_last());
        assert(split(s, separator) =~= split(a, separator) + split(b, separator));
    }
}

/// No piece holds a separator.
pub proof fn split_pieces_clean<T>(s: Seq<T>, separator: T)
    ensures
        forall|k: int|
            0 <= k < split(s, separator).len() ==> !(#[trigger] split(s, separator)[k]).contains(
                separator,
            ),
    decreases s.len(),
{
    if s.len() > 0 {
        split_pieces_clean(s.drop_last(), separator);
        split_not_empty(s.drop_last(), separator);
        let pieces = split(s.drop_last(), separator);
        assert forall|k: int| 0 <= k < split(s, separator).len() implies !(
        #[trigger] split(s, separator)[k]).contains(separator) by {
            if s.last() != separator && k == pieces.len() - 1 {
                let piece = pieces.last().push(s.last());
                if piece.contains(separator) {
                    let i = piece.index_of(separator);
                    assert(pieces.last()[i] == separator);
                }
            }
        }
    }
}

/// There is one more piece than there are separators.
pub proof fn split_counts<T>(s: Seq<T>, separator: T)
    ensures
        split(s, separator).len() == s.to_multiset().count(separator) + 1,
    decreases s.len(),
{
    broadcast use vstd::multiset::group_multiset_axioms;
    broadcast use vstd::seq_lib::group_to_multiset_ensures;

    if s.len() > 0 {
        let front = s.drop_last();
        split_counts(front, separator);
        split_not_empty(front, separator);
        assert(front.push(s.last()) =~= s);
        vstd::seq_lib::to_multiset_build(front, s.last());
    }
}

/// Where the pieces lie in `s`: each as its first index and the one after its
/// last.
pub open spec fn lie_at<T>(ranges: Seq<(usize, usize)>, s: Seq<T>, pieces: Seq<Seq<T>>) -> bool {
    &&& ranges.len() == pieces.len()
    &&& forall|k: int|
        0 <= k < ranges.len() ==> {
            let (from, to) = #[trigger] ranges[k];
            &&& from <= to <= s.len()
            &&& s.subrange(from as int, to as int) == pieces[k]
        }
}

/// Cuts characters at every `separator`.
pub fn split_chars(s: &Vec<char>, separator: char) -> (r: Vec<(usize, usize)>)
    ensures
        lie_at(r@, s@, split(s@, separator)),
{
    let mut r: Vec<(usize, usize)> = Vec::new();
    let mut start: usize = 0;
    assert(s@.take(0) =~= Seq::<char>::empty());
    for i in 0..s.len()
        invariant
            start <= i <= s@.len(),
            lie_at(r@, s@, split(s@.take(i as int), separator).drop_last()),
            split(s@.take(i as int), separator).len() >= 1,
            split(s@.take(i as int), separator).last() == s@.subrange(start as int, i as int),
    {
        let ghost pieces = split(s@.take(i as int), separator);
        assert(s@.take(i + 1).drop_last() =~= s@.take(i as int));
        if s[i] == separator {
            r.push((start, i));
            start = i + 1;
            assert(split(s@.take(i + 1), separator).drop_last() =~= pieces);
            assert(pieces =~= pieces.drop_last().push(pieces.last()));
        } else {
            assert(s@.subrange(start as int, i + 1) =~= s@.subrange(start as int, i as int).push(
                s@[i as int],
            ));
            assert(split(s@.take(i + 1), separator).drop_last() =~= pieces.drop_last());
        }
    }
    assert(s@.take(s@.len() as int) =~= s@);
    let ghost pieces = split(s@, separator);
    assert(pieces =~= pieces.drop_last().push(pieces.last()));
    r.push((start, s.len()));
    r
}

/// Cuts bytes at every `separator`.
pub fn split_bytes(s: &[u8], separator: u8) -> (r: Vec<(usize, usize)>)
    ensures
        lie_at(r@, s@, split(s@, separator)),
{
    let mut r: Vec<(usize, usize)> = Vec::new();
    let mut start: usize = 0;
    assert(s@.take(0) =~= Seq::<u8>::empty());
    for i in 0..s.len()
        invariant
            start <= i <= s@.len(),
            lie_at(r@, s@, split(s@.take(i as int), separator).drop_last()),
            split(s@.take(i as int), separator).len() >= 1,
            split(s@.take(i as int), separator).last() == s@.subrange(start as int, i as int),
    {
        let ghost pieces = split(s@.take(i as int), separator);
        assert(s@.take(i + 1).drop_last() =~= s@.take(i as int));
        if s[i] == separator {
            r.push((start, i));
            start = i + 1;
            assert(split(s@.take(i + 1), separator).drop_last() =~= pieces);
            assert(pieces =~= pieces.drop_last().push(pieces.last()));
        } else {
            assert(s@.subrange(start as int, i + 1) =~= s@.subrange(start as int, i as int).push(
                s@[i as int],
            ));
            assert(split(s@.take(i + 1), separator).drop_last() =~= pieces.drop_last());
        }
    }
    assert(s@.take(s@.len() as int) =~= s@);
    let ghost pieces = split(s@, separator);
    assert(pieces =~= pieces.drop_last().push(pieces.last()));
    r.push((start, s.len()));
    r
}

} // verus!
