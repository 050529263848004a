//! Putting together what has the same key.

use vstd::hash_map::StringHashMap;
use vstd::prelude::*;

verus! {

/// Where `key` stands in `keys`, in ascending order.
pub open spec fn positions<K>(keys: Seq<Option<K>>, key: K) -> Seq<int>
    decreases keys.len(),
{
    if keys.len() == 0 {
        Seq::<int>::empty()
    } else {
        let front = positions(keys.drop_last(), key);
        if keys.last() == Some(key) {
            front.push(keys.len() - 1)
        } else {
            front
        }
    }
}

/// The keys that occur, each once, in the order in which they occur first.
pub open spec fn distinct<K>(keys: Seq<Option<K>>) -> Seq<K>
    decreases keys.len(),
{
    if keys.len() == 0 {
        Seq::<K>::empty()
    } else {
        let front = distinct(keys.drop_last());
        match keys.last() {
            Some(key) => if front.contains(key) {
                front
            } else {
                front.push(key)
            },
            None => front,
        }
    }
}

/// The positions of each key that occurs. What has no key is in no group.
pub open spec fn groups<K>(keys: Seq<Option<K>>) -> Seq<Seq<int>> {
    distinct(keys).map_values(|key: K| positions(keys, key))
}

/// The groups of more than one.
pub open spec fn repeated(all: Seq<Seq<int>>) -> Seq<Seq<int>>
    decreases all.len(),
{
    if all.len() == 0 {
        Seq::<Seq<int>>::empty()
    } else {
        let front = repeated(all.drop_last());
        if all.last().len() > 1 {
            front.push(all.last())
        } else {
            front
        }
    }
}

/// The positions of each key that occurs more than once.
pub open spec fn repeated_groups<K>(keys: Seq<Option<K>>) -> Seq<Seq<int>> {
    repeated(groups(keys))
}

/// A list of numbers as integers.
pub open spec fn ints(list: Seq<usize>) -> Seq<int> {
    list.map_values(|i: usize| i as int)
}

/// Lists of numbers as integers.
pub open spec fn int_lists(lists: Seq<Vec<usize>>) -> Seq<Seq<int>> {
    lists.map_values(|list: Vec<usize>| ints(list@))
}

/// Keys by their text.
pub open spec fn key_texts(keys: Seq<Option<String>>) -> Seq<Option<Seq<char>>> {
    keys.map_values(|key: Option<String>| crate::cache::text_of(key))
}

/// A position is that of a key if and only if the key stands there.
pub proof fn position_has_key<K>(keys: Seq<Option<K>>, key: K)
    ensures
        forall|i: int| #[trigger]
            positions(keys, key).contains(i) <==> 0 <= i < keys.len() && keys[i] == Some(key),
        forall|a: int, b: int|
            #![trigger positions(keys, key)[a], positions(keys, key)[b]]
            0 <= a < b < positions(keys, key).len() ==> positions(keys, key)[a] < positions(
                keys,
                key,
            )[b],
    decreases keys.len(),
{
    if keys.len() > 0 {
        let front = positions(keys.drop_last(), key);
        let all = positions(keys, key);
        position_has_key(keys.drop_last(), key);
        assert forall|i: int| #[trigger] all.contains(i) <==> 0 <= i < keys.len() && keys[i]
            == Some(key) by {
            if front.contains(i) {
                assert(all[front.index_of(i)] == i);
            }
            if keys.last() == Some(key) {
                assert(all[all.len() - 1] == keys.len() - 1);
            }
            if all.contains(i) && i != keys.len() - 1 {
                assert(front[all.index_of(i)] == i);
            }
            if 0 <= i < keys.len() - 1 && keys[i] == Some(key) {
                assert(front.contains(i));
            }
        }
        assert forall|a: int, b: int|
            #![trigger all[a], all[b]]
            0 <= a < b < all.len() implies all[a] < all[b] by {
            assert(front.contains(front[a]));
        }
    }
}

/// Each key that occurs is there once.
pub proof fn distinct_keys<K>(keys: Seq<Option<K>>)
    ensures
        distinct(keys).no_duplicates(),
        forall|key: K| #[trigger]
            distinct(keys).contains(key) <==> exists|i: int|
                0 <= i < keys.len() && #[trigger] keys[i] == Some(key),
    decreases keys.len(),
{
    if keys.len() > 0 {
        let front = distinct(keys.drop_last());
        let all = distinct(keys);
        distinct_keys(keys.drop_last());
        assert forall|key: K| #[trigger] all.contains(key) <==> exists|i: int|
            0 <= i < keys.len() && #[trigger] keys[i] == Some(key) by {
            if front.contains(key) {
                assert(all[front.index_of(key)] == key);
                let i = choose|i: int|
                    0 <= i < keys.drop_last().len() && #[trigger] keys.drop_last()[i] == Some(key);
                assert(keys[i] == Some(key));
            }
            if all.contains(key) && !front.contains(key) {
                let j = all.index_of(key);
                if j < front.len() {
                    assert(front[j] == key);
                }
                assert(keys[keys.len() - 1] == Some(key));
            }
            if exists|i: int| 0 <= i < keys.len() && #[trigger] keys[i] == Some(key) {
                let i = choose|i: int| 0 <= i < keys.len() && #[trigger] keys[i] == Some(key);
                if i < keys.len() - 1 {
                    assert(keys.drop_last()[i] == Some(key));
                    assert(front.contains(key));
                } else if !front.contains(key) {
                    assert(all[all.len() - 1] == key);
                }
            }
        }
    }
}

/// Puts together the positions of equal keys, and keeps the groups of more than
/// one.
pub fn group_repeated(keys: &Vec<Option<String>>) -> (r: Vec<Vec<usize>>)
    ensures
        int_lists(r@) == repeated_groups(key_texts(keys@)),
{
    let mut index: StringHashMap<usize> = StringHashMap::new();
    let mut all: Vec<Vec<usize>> = Vec::new();
    let ghost texts = key_texts(keys@);
    for i in 0..keys.len()
        invariant
            texts == key_texts(keys@),
            all.len() == distinct(texts.take(i as int)).len(),
            forall|g: int|
                0 <= g < all.len() ==> ints((#[trigger] all[g])@) == positions(
                    texts.take(i as int),
                    distinct(texts.take(i as int))[g],
                ),
            forall|key: Seq<char>| #[trigger]
                index@.contains_key(key) <==> distinct(texts.take(i as int)).contains(key),
            forall|key: Seq<char>| #[trigger]
                index@.contains_key(key) ==> index@[key] < all.len() && distinct(
                    texts.take(i as int),
                )[index@[key] as int] == key,
    {
        let ghost before = texts.take(i as int);
        let ghost after = texts.take(i + 1);
        let ghost old_all = all@;
        assert(after.drop_last() =~= before);
        assert(after.last() == texts[i as int]);
        proof {
            distinct_keys(before);
        }
        match &keys[i] {
            Some(key) => {
                let at: Option<usize> = match index.get(key.as_str()) {
                    Some(g) => Some(*g),
                    None => None,
                };
                match at {
                    Some(g) => {
                        all[g].push(i);
                        assert(ints(all[g as int]@) =~= ints(old_all[g as int]@).push(i as int));
                    },
                    None => {
                        index.insert(key.clone(), all.len());
                        let mut group: Vec<usize> = Vec::new();
                        group.push(i);
                        all.push(group);
                        proof {
                            position_has_key(before, key@);
                            let empty = positions(before, key@);
                            if empty.len() > 0 {
                                assert(empty.contains(empty[0]));
                            }
                            assert(ints(group@) =~= seq![i as int]);
                            assert(positions(after, key@) =~= seq![i as int]);
                            let (known, now) = (distinct(before), distinct(after));
                            assert(now == known.push(key@));
                            assert forall|other: Seq<char>|
                                now.contains(other) <==> (known.contains(other) || other
                                    == key@) by {
                                if known.contains(other) {
                                    assert(now[known.index_of(other)] == other);
                                }
                                assert(now[known.len() as int] == key@);
                                if now.contains(other) && other != key@ {
                                    assert(known[now.index_of(other)] == other);
                                }
                            }
                        }
                    },
                }
            },
            None => {},
        }
    }
    assert(texts.take(keys.len() as int) =~= texts);
    assert(int_lists(all@) =~= groups(texts));
    let mut r: Vec<Vec<usize>> = Vec::new();
    for g in 0..all.len()
        invariant
            int_lists(r@) == repeated(int_lists(all@).take(g as int)),
    {
        assert(int_lists(all@).take(g + 1).drop_last() =~= int_lists(all@).take(g as int));
        if all[g].len() > 1 {
            let group = all[g].clone();
            assert(ints(group@) =~= ints(all[g as int]@));
            let ghost before = r@;
            r.push(group);
            assert(int_lists(r@) =~= int_lists(before).push(ints(group@)));
        }
    }
    assert(int_lists(all@).take(all.len() as int) =~= int_lists(all@));
    r
}

/// A group of more than one is one of the groups.
proof fn lemma_repeated(all: Seq<Seq<int>>)
    ensures
        forall|group: Seq<int>| #[trigger]
            repeated(all).contains(group) <==> all.contains(group) && group.len() > 1,
    decreases all.len(),
{
    if all.len() > 0 {
        let front = repeated(all.drop_last());
        let kept = repeated(all);
        lemma_repeated(all.drop_last());
        assert forall|group: Seq<int>| #[trigger] kept.contains(group) <==> all.contains(group)
            && group.len() > 1 by {
            if kept.contains(group) {
                let i = kept.index_of(group);
                if i < front.len() {
                    assert(front[i] == group);
                    assert(front.contains(group));
                    assert(all[all.drop_last().index_of(group)] == group);
                } else {
                    assert(all[all.len() - 1] == group);
                }
            }
            if all.contains(group) && group.len() > 1 {
                let i = all.index_of(group);
                if i < all.len() - 1 {
                    assert(all.drop_last()[i] == group);
                    assert(all.drop_last().contains(group));
                    assert(front.contains(group));
                    assert(kept[front.index_of(group)] == group);
                } else {
                    assert(kept[kept.len() - 1] == group);
                }
            }
        }
    }
}

/// A list is one of the groups if and only if it holds the positions of a key
/// that stands in more than one place.
pub proof fn repeated_group_has_key<K>(keys: Seq<Option<K>>)
    ensures
        forall|group: Seq<int>| #[trigger]
            repeated_groups(keys).contains(group) <==> group.len() > 1 && exists|key: K|
                group == #[trigger] positions(keys, key),
{
    lemma_repeated(groups(keys));
    distinct_keys(keys);
    assert forall|group: Seq<int>| #[trigger] repeated_groups(keys).contains(group) implies group.len()
        > 1 && exists|key: K| group == #[trigger] positions(keys, key) by {
        let g = groups(keys).index_of(group);
        assert(group == positions(keys, distinct(keys)[g]));
    }
    assert forall|group: Seq<int>|
        group.len() > 1 && (exists|key: K| group == #[trigger] positions(
            keys,
            key,
        )) implies #[trigger] repeated_groups(keys).contains(group) by {
        let key = choose|key: K| group == #[trigger] positions(keys, key);
        position_has_key(keys, key);
        assert(group.contains(group[0]));
        assert(keys[group[0]] == Some(key));
        assert(distinct(keys).contains(key));
        let g = distinct(keys).index_of(key);
        assert(groups(keys)[g] == group);
        assert(groups(keys).contains(group));
    }
}

/// Whether one of the groups holds both positions.
pub open spec fn grouped(all: Seq<Seq<int>>, i: int, j: int) -> bool {
    exists|group: Seq<int>| #[trigger] all.contains(group) && group.contains(i) && group.contains(j)
}

/// Two positions are in one group if and only if the same key stands there.
pub proof fn grouped_by_key<K>(keys: Seq<Option<K>>, i: int, j: int)
    requires
        0 <= i < keys.len(),
        0 <= j < keys.len(),
        i != j,
    ensures
        grouped(repeated_groups(keys), i, j) <==> keys[i] is Some && keys[i] == keys[j],
{
    repeated_group_has_key(keys);
    if grouped(repeated_groups(keys), i, j) {
        let group = choose|group: Seq<int>| #[trigger]
            repeated_groups(keys).contains(group) && group.contains(i) && group.contains(j);
        let key = choose|key: K| group == #[trigger] positions(keys, key);
        position_has_key(keys, key);
    }
    if keys[i] is Some && keys[i] == keys[j] {
        let key = keys[i]->0;
        let group = positions(keys, key);
        position_has_key(keys, key);
        assert(group.contains(i) && group.contains(j));
        if group.len() <= 1 {
            assert(group.index_of(i) == 0 && group.index_of(j) == 0);
        }
        assert(repeated_groups(keys).contains(group));
    }
}

/// Keys under other names.
pub open spec fn renamed<K, L>(keys: Seq<Option<K>>, f: spec_fn(K) -> L) -> Seq<Option<L>> {
    keys.map_values(
        |key: Option<K>|
            match key {
                Some(key) => Some(f(key)),
                None => None,
            },
    )
}

/// Different names for different keys leave the groups as they are.
pub proof fn groups_of_renamed<K, L>(keys: Seq<Option<K>>, f: spec_fn(K) -> L)
    requires
        forall|a: K, b: K| #[trigger] f(a) == #[trigger] f(b) ==> a == b,
    ensures
        groups(renamed(keys, f)) == groups(keys),
{
    lemma_renamed_distinct(keys, f);
    let names = renamed(keys, f);
    assert forall|g: int| 0 <= g < groups(keys).len() implies groups(names)[g] == groups(
        keys,
    )[g] by {
        lemma_renamed_positions(keys, f, distinct(keys)[g]);
    }
    assert(groups(names) =~= groups(keys));
}

proof fn lemma_renamed_positions<K, L>(keys: Seq<Option<K>>, f: spec_fn(K) -> L, key: K)
    requires
        forall|a: K, b: K| #[trigger] f(a) == #[trigger] f(b) ==> a == b,
    ensures
        positions(renamed(keys, f), f(key)) == positions(keys, key),
    decreases keys.len(),
{
    if keys.len() > 0 {
        lemma_renamed_positions(keys.drop_last(), f, key);
        assert(renamed(keys, f).drop_last() =~= renamed(keys.drop_last(), f));
    }
}

proof fn lemma_renamed_distinct<K, L>(keys: Seq<Option<K>>, f: spec_fn(K) -> L)
    requires
        forall|a: K, b: K| #[trigger] f(a) == #[trigger] f(b) ==> a == b,
    ensures
        distinct(renamed(keys, f)) == distinct(keys).map_values(f),
    decreases keys.len(),
{
    if keys.len() > 0 {
        let front = distinct(keys.drop_last());
        lemma_renamed_distinct(keys.drop_last(), f);
        assert(renamed(keys, f).drop_last() =~= renamed(keys.drop_last(), f));
        match keys.last() {
            Some(key) => {
                let names = front.map_values(f);
                if front.contains(key) {
                    assert(names[front.index_of(key)] == f(key));
                }
                if names.contains(f(key)) {
                    let i = names.index_of(f(key));
                    assert(f(front[i]) == f(key));
                    assert(front[i] == key);
                }
            },
            None => {},
        }
        assert(distinct(renamed(keys, f)) =~= distinct(keys).map_values(f));
    } else {
        assert(distinct(renamed(keys, f)) =~= distinct(keys).map_values(f));
    }
}

} // verus!
