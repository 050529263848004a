//! What holds of the groups that the search reports.

use crate::cache::CacheEntryView;
use crate::duplicates::{
    cached_full, cached_quick, chosen, full_groups, group_at, groups_of, in_path_order, members,
    quick_groups, quick_keys, results_fit, size_groups, size_keys, DuplicateGroup, GroupView,
};
use crate::files::{
    part_order, path_order, path_order_by_first_difference, path_order_is_total, FileView, PartView,
};
use crate::grouping::{
    distinct, distinct_keys, groups, int_lists, ints, key_texts, position_has_key, positions,
    repeated, repeated_group_has_key, repeated_groups,
};
use crate::hash::{full_hash, quick_hash, same_hash_same_digest, sha256};
use vstd::prelude::*;

verus! {

/// Different lists hold different things.
pub open spec fn disjoint_lists(lists: Seq<Seq<int>>) -> bool {
    forall|a: int, b: int, x: int|
        0 <= a < lists.len() && 0 <= b < lists.len() && #[trigger] lists[a].contains(x)
            && #[trigger] lists[b].contains(x) ==> a == b
}

/// No list holds a thing twice.
pub open spec fn lists_without_repeats(lists: Seq<Seq<int>>) -> bool {
    forall|a: int| 0 <= a < lists.len() ==> (#[trigger] lists[a]).no_duplicates()
}

/// Some list holds `x`.
pub open spec fn some_list_has(lists: Seq<Seq<int>>, x: int) -> bool {
    exists|a: int| 0 <= a < lists.len() && #[trigger] lists[a].contains(x)
}

/// What is in lists together is what some list holds; and nothing is there twice
/// where the lists share nothing and repeat nothing.
pub proof fn members_of_lists(lists: Seq<Seq<int>>)
    ensures
        forall|x: int| #[trigger] members(lists).contains(x) <==> some_list_has(lists, x),
        disjoint_lists(lists) && lists_without_repeats(lists) ==> members(lists).no_duplicates(),
    decreases lists.len(),
{
    if lists.len() > 0 {
        let rest = lists.drop_last();
        let front = members(rest);
        let all = members(lists);
        let last = lists.last();
        members_of_lists(rest);
        assert(all == front + last);
        assert forall|x: int| #[trigger] all.contains(x) <==> some_list_has(lists, x) by {
            if all.contains(x) {
                let i = all.index_of(x);
                if i < front.len() {
                    assert(front[i] == x);
                    assert(front.contains(x));
                    let a = choose|a: int| 0 <= a < rest.len() && #[trigger] rest[a].contains(x);
                    assert(lists[a].contains(x));
                } else {
                    assert(last[i - front.len()] == x);
                    assert(lists[lists.len() - 1].contains(x));
                }
            }
            if some_list_has(lists, x) {
                let a = choose|a: int| 0 <= a < lists.len() && #[trigger] lists[a].contains(x);
                if a < lists.len() - 1 {
                    assert(rest[a].contains(x));
                    assert(front.contains(x));
                    assert(all[front.index_of(x)] == x);
                } else {
                    assert(all[front.len() + last.index_of(x)] == x);
                }
            }
        }
        if disjoint_lists(lists) && lists_without_repeats(lists) {
            assert(disjoint_lists(rest)) by {
                assert forall|a: int, b: int, x: int|
                    0 <= a < rest.len() && 0 <= b < rest.len() && #[trigger] rest[a].contains(x)
                        && #[trigger] rest[b].contains(x) implies a == b by {
                    assert(lists[a].contains(x) && lists[b].contains(x));
                }
            }
            assert(lists_without_repeats(rest)) by {
                assert forall|a: int| 0 <= a < rest.len() implies (
                #[trigger] rest[a]).no_duplicates() by {
                    assert(lists[a].no_duplicates());
                }
            }
            assert(lists[lists.len() - 1].no_duplicates());
            assert forall|i: int, j: int| 0 <= i < all.len() && 0 <= j < all.len() && i
                != j implies all[i] != all[j] by {
                if i < front.len() && j >= front.len() {
                    lemma_across(lists, all[i], all[j], i, j);
                } else if j < front.len() && i >= front.len() {
                    lemma_across(lists, all[j], all[i], j, i);
                }
            }
        }
    }
}

proof fn lemma_across(lists: Seq<Seq<int>>, x: int, y: int, i: int, j: int)
    requires
        lists.len() > 0,
        disjoint_lists(lists),
        ({
            let front = members(lists.drop_last());
            0 <= i < front.len() && front[i] == x && 0 <= j - front.len() < lists.last().len()
                && lists.last()[j - front.len()] == y
        }),
        forall|x: int| #[trigger]
            members(lists.drop_last()).contains(x) <==> some_list_has(lists.drop_last(), x),
    ensures
        x != y,
{
    let rest = lists.drop_last();
    assert(members(rest).contains(x));
    let a = choose|a: int| 0 <= a < rest.len() && #[trigger] rest[a].contains(x);
    assert(lists[a].contains(x));
    assert(lists.last().contains(y));
    if x == y {
        assert(lists[lists.len() - 1].contains(x));
    }
}

/// The groups of repeated keys share nothing, and repeat nothing.
proof fn lemma_repeated_disjoint(all: Seq<Seq<int>>)
    requires
        disjoint_lists(all),
        lists_without_repeats(all),
    ensures
        disjoint_lists(repeated(all)),
        lists_without_repeats(repeated(all)),
        forall|a: int|
            0 <= a < repeated(all).len() ==> all.contains(#[trigger] repeated(all)[a]),
    decreases all.len(),
{
    if all.len() > 0 {
        let rest = all.drop_last();
        let front = repeated(rest);
        let kept = repeated(all);
        assert(disjoint_lists(rest)) by {
            assert forall|a: int, b: int, x: int|
                0 <= a < rest.len() && 0 <= b < rest.len() && #[trigger] rest[a].contains(x)
                    && #[trigger] rest[b].contains(x) implies a == b by {
                assert(all[a].contains(x) && all[b].contains(x));
            }
        }
        assert(lists_without_repeats(rest)) by {
            assert forall|a: int| 0 <= a < rest.len() implies (
            #[trigger] rest[a]).no_duplicates() by {
                assert(all[a].no_duplicates());
            }
        }
        lemma_repeated_disjoint(rest);
        assert forall|a: int| 0 <= a < kept.len() implies all.contains(#[trigger] kept[a]) by {
            if a < front.len() {
                assert(rest.contains(front[a]));
                assert(all[rest.index_of(front[a])] == kept[a]);
            } else {
                assert(all[all.len() - 1] == kept[a]);
            }
        }
        assert forall|a: int| 0 <= a < kept.len() implies (#[trigger] kept[a]).no_duplicates() by {
            if a < front.len() {
                assert(front[a].no_duplicates());
            } else {
                assert(all[all.len() - 1].no_duplicates());
            }
        }
        assert forall|a: int, b: int, x: int|
            0 <= a < kept.len() && 0 <= b < kept.len() && #[trigger] kept[a].contains(x)
                && #[trigger] kept[b].contains(x) implies a == b by {
            if a < front.len() && b < front.len() {
                assert(front[a].contains(x) && front[b].contains(x));
            } else if a < front.len() || b < front.len() {
                let c = if a < front.len() {
                    a
                } else {
                    b
                };
                assert(rest.contains(front[c]));
                let d = rest.index_of(front[c]);
                assert(all[d].contains(x));
                assert(all[all.len() - 1].contains(x));
            }
        }
    }
}

/// Groups of equal keys share nothing, and repeat nothing.
pub proof fn repeated_groups_disjoint<K>(keys: Seq<Option<K>>)
    ensures
        disjoint_lists(repeated_groups(keys)),
        lists_without_repeats(repeated_groups(keys)),
{
    let all = groups(keys);
    distinct_keys(keys);
    assert(lists_without_repeats(all)) by {
        assert forall|a: int| 0 <= a < all.len() implies (#[trigger] all[a]).no_duplicates() by {
            position_has_key(keys, distinct(keys)[a]);
            let list = all[a];
            assert forall|i: int, j: int| 0 <= i < list.len() && 0 <= j < list.len() && i
                != j implies list[i] != list[j] by {
                if i < j {
                    assert(list[i] < list[j]);
                } else {
                    assert(list[j] < list[i]);
                }
            }
        }
    }
    assert(disjoint_lists(all)) by {
        assert forall|a: int, b: int, x: int|
            0 <= a < all.len() && 0 <= b < all.len() && #[trigger] all[a].contains(x)
                && #[trigger] all[b].contains(x) implies a == b by {
            position_has_key(keys, distinct(keys)[a]);
            position_has_key(keys, distinct(keys)[b]);
            assert(keys[x] == Some(distinct(keys)[a]));
            assert(keys[x] == Some(distinct(keys)[b]));
        }
    }
    lemma_repeated_disjoint(all);
}

/// Another place has the same key as `i`.
pub open spec fn shares_key<K>(keys: Seq<Option<K>>, i: int) -> bool {
    &&& 0 <= i < keys.len()
    &&& keys[i] is Some
    &&& exists|j: int| 0 <= j < keys.len() && j != i && #[trigger] keys[j] == keys[i]
}

/// A place is in a group if and only if another place has the same key.
pub proof fn grouped_places<K>(keys: Seq<Option<K>>)
    ensures
        forall|i: int| #[trigger]
            some_list_has(repeated_groups(keys), i) <==> shares_key(keys, i),
{
    repeated_group_has_key(keys);
    let all = repeated_groups(keys);
    assert forall|i: int| #[trigger] some_list_has(all, i) <==> shares_key(keys, i) by {
        if some_list_has(all, i) {
            let a = choose|a: int| 0 <= a < all.len() && #[trigger] all[a].contains(i);
            let group = all[a];
            assert(all.contains(group));
            let key = choose|key: K| group == #[trigger] positions(keys, key);
            position_has_key(keys, key);
            let p = group.index_of(i);
            let q = if p == 0 {
                1
            } else {
                0int
            };
            assert(group.contains(group[q]));
            if p < q {
                assert(group[p] < group[q]);
            } else {
                assert(group[q] < group[p]);
            }
            assert(keys[group[q]] == keys[i]);
        }
        if shares_key(keys, i) {
            let j = choose|j: int|
                0 <= j < keys.len() && j != i && #[trigger] keys[j] == keys[i];
            crate::grouping::grouped_by_key(keys, i, j);
            let group = choose|group: Seq<int>| #[trigger]
                all.contains(group) && group.contains(i) && group.contains(j);
            let a = all.index_of(group);
            assert(all[a].contains(i));
        }
    }
}

/// Some candidate is `x`, and another has the same key.
pub open spec fn candidate_shares_key<K>(
    candidates: Seq<int>,
    keys: Seq<Option<K>>,
    x: int,
) -> bool {
    exists|p: int|
        0 <= p < candidates.len() && candidates[p] == x && #[trigger] shares_key(keys, p)
}

/// Groups of candidates share nothing, repeat nothing, and hold the candidates
/// whose key another candidate has.
proof fn lemma_chosen<K>(candidates: Seq<int>, keys: Seq<Option<K>>)
    requires
        candidates.no_duplicates(),
        candidates.len() == keys.len(),
    ensures
        disjoint_lists(chosen(candidates, repeated_groups(keys))),
        lists_without_repeats(chosen(candidates, repeated_groups(keys))),
        forall|x: int| #[trigger]
            some_list_has(chosen(candidates, repeated_groups(keys)), x) <==> candidate_shares_key(
                candidates,
                keys,
                x,
            ),
{
    let places = repeated_groups(keys);
    let lists = chosen(candidates, places);
    repeated_groups_disjoint(keys);
    grouped_places(keys);
    assert forall|a: int, p: int|
        0 <= a < places.len() && #[trigger] places[a].contains(p) implies 0 <= p
        < candidates.len() by {
        assert(some_list_has(places, p));
        assert(shares_key(keys, p));
    }
    assert forall|a: int, x: int| 0 <= a < lists.len() && #[trigger] lists[a].contains(x) implies (
    exists|p: int|
        #![trigger places[a].contains(p)]
        places[a].contains(p) && 0 <= p < candidates.len() && candidates[p] == x) by {
        let k = lists[a].index_of(x);
        assert(places[a].contains(places[a][k]));
    }
    assert(disjoint_lists(lists)) by {
        assert forall|a: int, b: int, x: int|
            0 <= a < lists.len() && 0 <= b < lists.len() && #[trigger] lists[a].contains(x)
                && #[trigger] lists[b].contains(x) implies a == b by {
            let p = choose|p: int|
                #![trigger places[a].contains(p)]
                places[a].contains(p) && 0 <= p < candidates.len() && candidates[p] == x;
            let q = choose|q: int|
                #![trigger places[b].contains(q)]
                places[b].contains(q) && 0 <= q < candidates.len() && candidates[q] == x;
            assert(p == q);
        }
    }
    assert(lists_without_repeats(lists)) by {
        assert forall|a: int| 0 <= a < lists.len() implies (#[trigger] lists[a]).no_duplicates() by {
            assert(places[a].no_duplicates());
            assert forall|i: int, j: int| 0 <= i < lists[a].len() && 0 <= j < lists[a].len() && i
                != j implies lists[a][i] != lists[a][j] by {
                assert(places[a].contains(places[a][i]));
                assert(places[a].contains(places[a][j]));
            }
        }
    }
    assert forall|x: int| #[trigger] some_list_has(lists, x) <==> candidate_shares_key(
        candidates,
        keys,
        x,
    ) by {
        if some_list_has(lists, x) {
            let a = choose|a: int| 0 <= a < lists.len() && #[trigger] lists[a].contains(x);
            let p = choose|p: int|
                #![trigger places[a].contains(p)]
                places[a].contains(p) && 0 <= p < candidates.len() && candidates[p] == x;
            assert(some_list_has(places, p));
            assert(shares_key(keys, p));
        }
        if candidate_shares_key(candidates, keys, x) {
            let p = choose|p: int|
                0 <= p < candidates.len() && candidates[p] == x && #[trigger] shares_key(keys, p);
            assert(some_list_has(places, p));
            let a = choose|a: int| 0 <= a < places.len() && #[trigger] places[a].contains(p);
            assert(lists[a][places[a].index_of(p)] == x);
            assert(lists[a].contains(x));
        }
    }
}

/// The files that are hashed quickly.
pub open spec fn size_candidates(files: Seq<FileView>) -> Seq<int> {
    members(size_groups(files))
}

/// The files that are hashed fully, given the quick hash of each file.
pub open spec fn quick_candidates(
    files: Seq<FileView>,
    quick: spec_fn(int) -> Option<Seq<char>>,
) -> Seq<int> {
    let candidates = size_candidates(files);
    members(quick_groups(files, candidates, candidates.map_values(quick)))
}

/// The groups that are reported, given the hashes of each file.
pub open spec fn reported(
    files: Seq<FileView>,
    quick: spec_fn(int) -> Option<Seq<char>>,
    full: spec_fn(int) -> Option<Seq<char>>,
) -> Seq<GroupView> {
    let candidates = quick_candidates(files, quick);
    full_groups(candidates, candidates.map_values(full))
}

/// Two different files of one size, which is not zero.
pub open spec fn same_size(files: Seq<FileView>, i: int, j: int) -> bool {
    &&& 0 <= i < files.len()
    &&& 0 <= j < files.len()
    &&& i != j
    &&& files[i].size == files[j].size
    &&& files[i].size > 0
}

/// Two different files of one size, which is not zero, and one quick hash.
pub open spec fn same_start(
    files: Seq<FileView>,
    quick: spec_fn(int) -> Option<Seq<char>>,
    i: int,
    j: int,
) -> bool {
    same_size(files, i, j) && quick(i) is Some && quick(i) == quick(j)
}

/// Some reported group holds both files.
pub open spec fn together(groups: Seq<GroupView>, i: int, j: int) -> bool {
    exists|g: int|
        0 <= g < groups.len() && (#[trigger] groups[g]).files.contains(i)
            && groups[g].files.contains(j)
}

/// A file is hashed quickly if and only if another has its size and it is not
/// empty; and it is hashed once.
pub proof fn hashed_quickly(files: Seq<FileView>)
    ensures
        size_candidates(files).no_duplicates(),
        results_fit(files.len(), size_candidates(files), size_candidates(files).len()),
        forall|i: int| #[trigger]
            size_candidates(files).contains(i) <==> exists|j: int| #[trigger] same_size(files, i, j),
{
    let keys = size_keys(files);
    repeated_groups_disjoint(keys);
    grouped_places(keys);
    members_of_lists(size_groups(files));
    let candidates = size_candidates(files);
    assert forall|i: int| #[trigger] candidates.contains(i) <==> exists|j: int| #[trigger]
        same_size(files, i, j) by {
        assert(candidates.contains(i) <==> some_list_has(size_groups(files), i));
        assert(some_list_has(size_groups(files), i) <==> shares_key(keys, i));
        if shares_key(keys, i) {
            let j = choose|j: int|
                0 <= j < keys.len() && j != i && #[trigger] keys[j] == keys[i];
            assert(same_size(files, i, j));
        }
        if exists|j: int| #[trigger] same_size(files, i, j) {
            let j = choose|j: int| #[trigger] same_size(files, i, j);
            assert(keys[j] == keys[i]);
        }
    }
    assert forall|p: int| 0 <= p < candidates.len() implies 0 <= #[trigger] candidates[p]
        < files.len() by {
        assert(candidates.contains(candidates[p]));
        let j = choose|j: int| #[trigger] same_size(files, candidates[p], j);
    }
}

/// A file is hashed fully if and only if another has its size and quick hash
/// and it is not empty; and it is hashed once.
pub proof fn hashed_fully(files: Seq<FileView>, quick: spec_fn(int) -> Option<Seq<char>>)
    ensures
        quick_candidates(files, quick).no_duplicates(),
        results_fit(
            files.len(),
            quick_candidates(files, quick),
            quick_candidates(files, quick).len(),
        ),
        forall|i: int| #[trigger]
            quick_candidates(files, quick).contains(i) <==> exists|j: int| #[trigger]
                same_start(files, quick, i, j),
{
    hashed_quickly(files);
    let first = size_candidates(files);
    let hashes = first.map_values(quick);
    let keys = quick_keys(files, first, hashes);
    lemma_chosen(first, keys);
    let lists = quick_groups(files, first, hashes);
    members_of_lists(lists);
    let candidates = quick_candidates(files, quick);
    assert forall|i: int| #[trigger] candidates.contains(i) <==> exists|j: int| #[trigger]
        same_start(files, quick, i, j) by {
        assert(candidates.contains(i) <==> some_list_has(lists, i));
        assert(some_list_has(lists, i) <==> candidate_shares_key(first, keys, i));
        if candidate_shares_key(first, keys, i) {
            let p = choose|p: int|
                0 <= p < first.len() && first[p] == i && #[trigger] shares_key(keys, p);
            let q = choose|q: int|
                0 <= q < keys.len() && q != p && #[trigger] keys[q] == keys[p];
            assert(first.contains(first[p]));
            assert(first.contains(first[q]));
            let j0 = choose|j: int| #[trigger] same_size(files, i, j);
            assert(hashes[p] == quick(i));
            assert(hashes[q] == quick(first[q]));
            assert(same_start(files, quick, i, first[q]));
        }
        if exists|j: int| #[trigger] same_start(files, quick, i, j) {
            let j = choose|j: int| #[trigger] same_start(files, quick, i, j);
            assert(same_size(files, i, j));
            assert(same_size(files, j, i));
            assert(first.contains(i) && first.contains(j));
            let p = first.index_of(i);
            let q = first.index_of(j);
            assert(hashes[p] == quick(i) && hashes[q] == quick(j));
            assert(keys[q] == keys[p]);
            assert(shares_key(keys, p));
        }
    }
    assert forall|p: int| 0 <= p < candidates.len() implies 0 <= #[trigger] candidates[p]
        < files.len() by {
        assert(candidates.contains(candidates[p]));
        let j = choose|j: int| #[trigger] same_start(files, quick, candidates[p], j);
    }
}

/// Every reported group holds two files or more, none of them twice, and all of
/// them have the hash that the group is reported with.
pub proof fn reported_group(
    files: Seq<FileView>,
    quick: spec_fn(int) -> Option<Seq<char>>,
    full: spec_fn(int) -> Option<Seq<char>>,
    g: int,
)
    requires
        0 <= g < reported(files, quick, full).len(),
    ensures
        ({
            let group = reported(files, quick, full)[g];
            &&& group.files.len() > 1
            &&& group.files.no_duplicates()
            &&& forall|i: int| #[trigger]
                group.files.contains(i) ==> full(i) == Some(group.hash) && exists|j: int|
                    #[trigger] same_start(files, quick, i, j)
        }),
{
    hashed_fully(files, quick);
    let candidates = quick_candidates(files, quick);
    let hashes = candidates.map_values(full);
    let places = repeated_groups(hashes);
    lemma_chosen(candidates, hashes);
    repeated_group_has_key(hashes);
    let group = reported(files, quick, full)[g];
    assert(group == group_at(candidates, hashes)(places[g]));
    assert(places.contains(places[g]));
    let key = choose|key: Seq<char>| places[g] == #[trigger] positions(hashes, key);
    position_has_key(hashes, key);
    assert(places[g].contains(places[g][0]));
    assert(chosen(candidates, places)[g].no_duplicates());
    assert(group.files =~= chosen(candidates, places)[g]);
    assert forall|i: int| #[trigger] group.files.contains(i) implies full(i) == Some(group.hash) && (
    exists|j: int| #[trigger] same_start(files, quick, i, j)) by {
        let k = group.files.index_of(i);
        assert(places[g].contains(places[g][k]));
        assert(candidates.contains(i));
    }
}

/// Two files are reported together if and only if both are hashed fully and
/// their full hashes are known and equal.
pub proof fn reported_together(
    files: Seq<FileView>,
    quick: spec_fn(int) -> Option<Seq<char>>,
    full: spec_fn(int) -> Option<Seq<char>>,
    i: int,
    j: int,
)
    requires
        i != j,
    ensures
        together(reported(files, quick, full), i, j) <==> quick_candidates(
            files,
            quick,
        ).contains(i) && quick_candidates(files, quick).contains(j) && full(i) is Some && full(i)
            == full(j),
{
    hashed_fully(files, quick);
    let candidates = quick_candidates(files, quick);
    let hashes = candidates.map_values(full);
    let places = repeated_groups(hashes);
    let groups = reported(files, quick, full);
    if together(groups, i, j) {
        let g = choose|g: int|
            0 <= g < groups.len() && (#[trigger] groups[g]).files.contains(i)
                && groups[g].files.contains(j);
        reported_group(files, quick, full, g);
        let a = choose|a: int| #[trigger] same_start(files, quick, i, a);
        let b = choose|b: int| #[trigger] same_start(files, quick, j, b);
    }
    if candidates.contains(i) && candidates.contains(j) && full(i) is Some && full(i) == full(j) {
        let p = candidates.index_of(i);
        let q = candidates.index_of(j);
        assert(hashes[p] == full(i) && hashes[q] == full(j));
        crate::grouping::grouped_by_key(hashes, p, q);
        let group = choose|group: Seq<int>| #[trigger]
            places.contains(group) && group.contains(p) && group.contains(q);
        let g = places.index_of(group);
        assert(groups[g].files[group.index_of(p)] == i);
        assert(groups[g].files[group.index_of(q)] == j);
        assert(groups[g].files.contains(i) && groups[g].files.contains(j));
    }
}

/// No file is in two reported groups, and no two groups have one hash.
pub proof fn reported_groups_apart(
    files: Seq<FileView>,
    quick: spec_fn(int) -> Option<Seq<char>>,
    full: spec_fn(int) -> Option<Seq<char>>,
    a: int,
    b: int,
)
    requires
        0 <= a < reported(files, quick, full).len(),
        0 <= b < reported(files, quick, full).len(),
        a != b,
    ensures
        reported(files, quick, full)[a].hash != reported(files, quick, full)[b].hash,
        forall|i: int| #[trigger]
            reported(files, quick, full)[a].files.contains(i)
                ==> !reported(files, quick, full)[b].files.contains(i),
{
    hashed_fully(files, quick);
    let candidates = quick_candidates(files, quick);
    let hashes = candidates.map_values(full);
    let places = repeated_groups(hashes);
    let groups = reported(files, quick, full);
    reported_group(files, quick, full, a);
    reported_group(files, quick, full, b);
    repeated_groups_disjoint(hashes);
    if groups[a].hash == groups[b].hash {
        repeated_group_has_key(hashes);
        assert(places.contains(places[a]) && places.contains(places[b]));
        let x = choose|key: Seq<char>| places[a] == #[trigger] positions(hashes, key);
        let y = choose|key: Seq<char>| places[b] == #[trigger] positions(hashes, key);
        position_has_key(hashes, x);
        position_has_key(hashes, y);
        assert(places[a].contains(places[a][0]));
        assert(places[b].contains(places[b][0]));
        assert(x == y);
        assert(places[b].contains(places[a][0]));
    }
    assert forall|i: int| #[trigger] groups[a].files.contains(i) implies !groups[b].files.contains(
        i,
    ) by {
        assert(full(i) == Some(groups[a].hash));
    }
}

/// A search that ends early misses nothing: where no files share a size, or none
/// share size and quick hash, there is nothing to report.
pub proof fn early_end_misses_nothing(
    files: Seq<FileView>,
    quick: spec_fn(int) -> Option<Seq<char>>,
    full: spec_fn(int) -> Option<Seq<char>>,
)
    ensures
        ({
            let candidates = size_candidates(files);
            size_groups(files).len() == 0 || quick_groups(
                files,
                candidates,
                candidates.map_values(quick),
            ).len() == 0 ==> reported(files, quick, full).len() == 0
        }),
{
    if reported(files, quick, full).len() > 0 {
        reported_group(files, quick, full, 0);
        hashed_quickly(files);
        hashed_fully(files, quick);
        let i = reported(files, quick, full)[0].files[0];
        assert(reported(files, quick, full)[0].files.contains(i));
        let j = choose|j: int| #[trigger] same_start(files, quick, i, j);
        assert(same_size(files, i, j));
        assert(size_candidates(files).contains(i));
        assert(quick_candidates(files, quick).contains(i));
    }
}

/// What is reported together has the same SHA-256 over all its bytes; and two
/// different files that are not empty, hold the same bytes and were hashed are
/// reported together. Both hold whatever other files there are, and whatever
/// became of hashing them.
pub proof fn duplicates_are_reported(
    files: Seq<FileView>,
    quick: spec_fn(int) -> Option<Seq<char>>,
    full: spec_fn(int) -> Option<Seq<char>>,
    i: int,
    j: int,
    content_i: Seq<u8>,
    content_j: Seq<u8>,
)
    requires
        0 <= i < files.len(),
        0 <= j < files.len(),
        i != j,
        quick(i) matches Some(hash) ==> hash == quick_hash(content_i),
        quick(j) matches Some(hash) ==> hash == quick_hash(content_j),
        full(i) matches Some(hash) ==> hash == full_hash(content_i),
        full(j) matches Some(hash) ==> hash == full_hash(content_j),
    ensures
        together(reported(files, quick, full), i, j) ==> sha256(content_i) == sha256(content_j),
        ({
            &&& content_i == content_j
            &&& files[i].size == files[j].size
            &&& files[i].size > 0
            &&& quick(i) is Some && quick(j) is Some
            &&& full(i) is Some && full(j) is Some
        }) ==> together(reported(files, quick, full), i, j),
{
    hashed_fully(files, quick);
    reported_together(files, quick, full, i, j);
    same_hash_same_digest(content_i, content_j);
    if content_i == content_j && files[i].size == files[j].size && files[i].size > 0 && quick(
        i,
    ) is Some && quick(j) is Some {
        assert(same_start(files, quick, i, j));
        assert(same_start(files, quick, j, i));
    }
}

/// Lists that hold the same things as often hold the same things.
proof fn lemma_same_members<T>(a: Seq<T>, b: Seq<T>, x: T)
    requires
        a.to_multiset() == b.to_multiset(),
        a.contains(x),
    ensures
        b.contains(x),
{
    broadcast use vstd::seq_lib::group_to_multiset_ensures;

    assert(a.to_multiset().count(x) > 0);
    assert(b.to_multiset().count(x) > 0);
}

/// Groups in another order hold the same files together.
pub proof fn together_in_any_order(a: Seq<GroupView>, b: Seq<GroupView>, i: int, j: int)
    requires
        a.to_multiset() == b.to_multiset(),
        together(a, i, j),
    ensures
        together(b, i, j),
{
    let g = choose|g: int|
        0 <= g < a.len() && (#[trigger] a[g]).files.contains(i) && a[g].files.contains(j);
    lemma_same_members(a, b, a[g]);
    assert(b[b.index_of(a[g])].files.contains(i));
}

/// No two files have one path.
pub open spec fn own_paths(files: Seq<FileView>) -> bool {
    forall|i: int, j: int|
        #![trigger files[i], files[j]]
        0 <= i < files.len() && 0 <= j < files.len() && files[i].path == files[j].path ==> i == j
}

/// No two groups begin with one path.
spec fn firsts_apart(files: Seq<FileView>, groups: Seq<GroupView>) -> bool {
    forall|a: int, b: int|
        #![trigger groups[a], groups[b]]
        0 <= a < groups.len() && 0 <= b < groups.len() && files[groups[a].files.first()].path
            == files[groups[b].files.first()].path ==> a == b
}

proof fn lemma_same_order(files: Seq<FileView>, a: Seq<GroupView>, b: Seq<GroupView>)
    requires
        a.to_multiset() == b.to_multiset(),
        in_path_order(files, a),
        in_path_order(files, b),
        firsts_apart(files, a),
    ensures
        a == b,
    decreases a.len(),
{
    broadcast use vstd::seq_lib::group_to_multiset_ensures;

    assert(a.len() == a.to_multiset().len());
    assert(b.len() == b.to_multiset().len());
    if a.len() > 0 {
        path_order_is_total();
        let order = path_order();
        let path = |group: GroupView| files[group.files.first()].path;
        lemma_same_members(b, a, b[0]);
        lemma_same_members(a, b, a[0]);
        let m = a.index_of(b[0]);
        let k = b.index_of(a[0]);
        if m != 0 {
            assert(order(path(a[0]), path(a[m])));
            if k != 0 {
                assert(order(path(b[0]), path(b[k])));
            }
            assert(path(a[0]) == path(a[m]));
        }
        assert(a[0] == b[0]);
        let x = a.drop_first();
        let y = b.drop_first();
        assert(a =~= seq![a[0]] + x);
        assert(b =~= seq![b[0]] + y);
        vstd::seq_lib::lemma_multiset_commutative(seq![a[0]], x);
        vstd::seq_lib::lemma_multiset_commutative(seq![b[0]], y);
        assert(x.to_multiset() =~= a.to_multiset().sub(seq![a[0]].to_multiset()));
        assert(y.to_multiset() =~= b.to_multiset().sub(seq![b[0]].to_multiset()));
        assert(in_path_order(files, x)) by {
            assert forall|p: int, q: int|
                #![trigger x[p], x[q]]
                0 <= p < q < x.len() implies order(path(x[p]), path(x[q])) by {
                assert(order(path(a[p + 1]), path(a[q + 1])));
            }
        }
        assert(in_path_order(files, y)) by {
            assert forall|p: int, q: int|
                #![trigger y[p], y[q]]
                0 <= p < q < y.len() implies order(path(y[p]), path(y[q])) by {
                assert(order(path(b[p + 1]), path(b[q + 1])));
            }
        }
        assert(firsts_apart(files, x)) by {
            assert forall|p: int, q: int|
                #![trigger x[p], x[q]]
                0 <= p < x.len() && 0 <= q < x.len() && path(x[p]) == path(x[q]) implies p == q by {
                assert(path(a[p + 1]) == path(a[q + 1]));
            }
        }
        lemma_same_order(files, x, y);
    } else {
        assert(a =~= b);
    }
}

/// The report is determined: there is one order of the reported groups by the
/// paths of their first files.
pub proof fn report_is_determined(
    files: Seq<FileView>,
    quick: spec_fn(int) -> Option<Seq<char>>,
    full: spec_fn(int) -> Option<Seq<char>>,
    a: Seq<GroupView>,
    b: Seq<GroupView>,
)
    requires
        own_paths(files),
        a.to_multiset() == reported(files, quick, full).to_multiset(),
        b.to_multiset() == reported(files, quick, full).to_multiset(),
        in_path_order(files, a),
        in_path_order(files, b),
    ensures
        a == b,
{
    let groups = reported(files, quick, full);
    assert(groups.no_duplicates()) by {
        assert forall|x: int, y: int| 0 <= x < groups.len() && 0 <= y < groups.len() && x
            != y implies groups[x] != groups[y] by {
            reported_groups_apart(files, quick, full, x, y);
        }
    }
    groups.lemma_multiset_has_no_duplicates();
    a.lemma_multiset_has_no_duplicates_conv();
    assert(firsts_apart(files, a)) by {
        assert forall|x: int, y: int|
            #![trigger a[x], a[y]]
            0 <= x < a.len() && 0 <= y < a.len() && files[a[x].files.first()].path
                == files[a[y].files.first()].path implies x == y by {
            if x != y {
                lemma_same_members(a, groups, a[x]);
                lemma_same_members(a, groups, a[y]);
                let p = groups.index_of(a[x]);
                let q = groups.index_of(a[y]);
                assert(a[x] != a[y]);
                reported_groups_apart(files, quick, full, p, q);
                reported_group(files, quick, full, p);
                reported_group(files, quick, full, q);
                let i = a[x].files.first();
                let j = a[y].files.first();
                assert(a[x].files.contains(i));
                assert(a[y].files.contains(j));
                let u = choose|u: int| #[trigger] same_start(files, quick, i, u);
                let v = choose|v: int| #[trigger] same_start(files, quick, j, v);
                assert(files[i].path == files[j].path);
            }
        }
    }
    lemma_same_order(files, a, b);
}

/// Which files are hashed: quickly, those that are not empty and of whose size there
/// is another; fully, those of which another has size and quick hash too. An empty
/// file is neither hashed nor reported.
pub proof fn which_files_are_hashed(
    files: Seq<FileView>,
    quick: spec_fn(int) -> Option<Seq<char>>,
    full: spec_fn(int) -> Option<Seq<char>>,
    i: int,
)
    requires
        0 <= i < files.len(),
    ensures
        size_candidates(files).contains(i) <==> files[i].size > 0 && exists|j: int|
            0 <= j < files.len() && j != i && (#[trigger] files[j]).size == files[i].size,
        quick_candidates(files, quick).contains(i) <==> files[i].size > 0 && quick(i) is Some
            && exists|j: int|
            0 <= j < files.len() && j != i && (#[trigger] files[j]).size == files[i].size && quick(
                j,
            ) == quick(i),
        files[i].size == 0 ==> forall|g: int|
            0 <= g < reported(files, quick, full).len() ==> !(#[trigger] reported(
                files,
                quick,
                full,
            )[g]).files.contains(i),
{
    hashed_quickly(files);
    hashed_fully(files, quick);
    if size_candidates(files).contains(i) {
        let j = choose|j: int| #[trigger] same_size(files, i, j);
        assert(files[j].size == files[i].size);
    }
    if files[i].size > 0 && exists|j: int|
        0 <= j < files.len() && j != i && (#[trigger] files[j]).size == files[i].size {
        let j = choose|j: int|
            0 <= j < files.len() && j != i && (#[trigger] files[j]).size == files[i].size;
        assert(same_size(files, i, j));
    }
    if quick_candidates(files, quick).contains(i) {
        let j = choose|j: int| #[trigger] same_start(files, quick, i, j);
        assert(files[j].size == files[i].size);
    }
    if files[i].size > 0 && quick(i) is Some && exists|j: int|
        0 <= j < files.len() && j != i && (#[trigger] files[j]).size == files[i].size && quick(j)
            == quick(i) {
        let j = choose|j: int|
            0 <= j < files.len() && j != i && (#[trigger] files[j]).size == files[i].size
                && quick(j) == quick(i);
        assert(same_start(files, quick, i, j));
    }
    assert forall|g: int| 0 <= g < reported(files, quick, full).len() && files[i].size
        == 0 implies !(#[trigger] reported(files, quick, full)[g]).files.contains(i) by {
        if reported(files, quick, full)[g].files.contains(i) {
            reported_group(files, quick, full, g);
            let j = choose|j: int| #[trigger] same_start(files, quick, i, j);
            assert(same_size(files, i, j));
        }
    }
}

/// The cache serves a hash if and only if it holds it under the file's key, with the
/// size and the time that the file has now.
pub proof fn cache_serves_what_is_fresh(
    cache: Map<Seq<char>, CacheEntryView>,
    file: FileView,
    hash: Seq<char>,
)
    ensures
        cached_quick(cache, file) == Some(hash) <==> cache.contains_key(file.path_key)
            && cache[file.path_key].size == file.size
            && cache[file.path_key].modified_unix_secs == file.modified_unix_secs
            && cache[file.path_key].quick_hash == Some(hash),
        cached_full(cache, file) == Some(hash) <==> cache.contains_key(file.path_key)
            && cache[file.path_key].size == file.size
            && cache[file.path_key].modified_unix_secs == file.modified_unix_secs
            && cache[file.path_key].full_hash == Some(hash),
{
}

/// The views of lists, keys and groups leave nothing out.
pub proof fn lists_are_seen_whole(
    list: Seq<usize>,
    lists: Seq<Vec<usize>>,
    keys: Seq<Option<String>>,
    found: Seq<DuplicateGroup>,
)
    ensures
        ints(list).len() == list.len(),
        forall|i: int| 0 <= i < list.len() ==> #[trigger] ints(list)[i] == list[i],
        int_lists(lists).len() == lists.len(),
        forall|i: int| 0 <= i < lists.len() ==> #[trigger] int_lists(lists)[i] == ints(lists[i]@),
        key_texts(keys).len() == keys.len(),
        forall|i: int|
            0 <= i < keys.len() ==> (#[trigger] key_texts(keys)[i] is Some <==> keys[i] is Some),
        forall|i: int|
            0 <= i < keys.len() ==> (#[trigger] key_texts(keys)[i] matches Some(text) ==> text
                == keys[i]->0@),
        groups_of(found).len() == found.len(),
        forall|i: int| 0 <= i < found.len() ==> (#[trigger] groups_of(found)[i]).hash == found[i].hash@,
        forall|i: int|
            0 <= i < found.len() ==> (#[trigger] groups_of(found)[i]).files == ints(found[i].files@),
{
}

/// Lists that follow one another have their members follow one another.
pub proof fn members_joined(a: Seq<Seq<int>>, b: Seq<Seq<int>>, list: Seq<int>)
    ensures
        members(a + b) == members(a) + members(b),
        members(seq![list]) == list,
        members(Seq::<Seq<int>>::empty()).len() == 0,
    decreases b.len(),
{
    let none = Seq::<Seq<int>>::empty();
    assert(seq![list].drop_last() =~= none);
    assert(seq![list].last() == list);
    assert(members(none) + list =~= list);
    if b.len() > 0 {
        members_joined(a, b.drop_last(), list);
        assert((a + b).drop_last() =~= a + b.drop_last());
        assert((a + b).last() == b.last());
        assert(members(a + b) =~= members(a) + members(b));
    } else {
        assert(a + b =~= a);
        assert(members(a) + members(b) =~= members(a));
    }
}

/// Where two members come from.
spec fn come_from(lists: Seq<Seq<int>>, x: int, y: int) -> bool {
    exists|a: int, k: int, b: int, l: int|
        #![trigger lists[a][k], lists[b][l]]
        {
            &&& 0 <= a < lists.len() && 0 <= k < lists[a].len() && lists[a][k] == x
            &&& 0 <= b < lists.len() && 0 <= l < lists[b].len() && lists[b][l] == y
            &&& a < b || (a == b && k < l)
        }
}

proof fn lemma_members_come_from(lists: Seq<Seq<int>>, p: int, q: int)
    requires
        0 <= p < q < members(lists).len(),
    ensures
        come_from(lists, members(lists)[p], members(lists)[q]),
    decreases lists.len(),
{
    let rest = lists.drop_last();
    let front = members(rest);
    let all = members(lists);
    let last = lists.last();
    let n = lists.len() - 1;
    assert(all == front + last);
    if q < front.len() {
        lemma_members_come_from(rest, p, q);
        let (a, k, b, l) = choose|a: int, k: int, b: int, l: int|
            #![trigger rest[a][k], rest[b][l]]
            {
                &&& 0 <= a < rest.len() && 0 <= k < rest[a].len() && rest[a][k] == front[p]
                &&& 0 <= b < rest.len() && 0 <= l < rest[b].len() && rest[b][l] == front[q]
                &&& a < b || (a == b && k < l)
            };
        assert(lists[a][k] == all[p] && lists[b][l] == all[q]);
    } else if p < front.len() {
        members_of_lists(rest);
        assert(front.contains(front[p]));
        assert(some_list_has(rest, front[p]));
        let a = choose|a: int| 0 <= a < rest.len() && #[trigger] rest[a].contains(front[p]);
        let k = rest[a].index_of(front[p]);
        let l = q - front.len();
        assert(lists[a][k] == all[p] && lists[n][l] == all[q]);
    } else {
        let k = p - front.len();
        let l = q - front.len();
        assert(lists[n][k] == all[p] && lists[n][l] == all[q]);
    }
}

/// Of places with one key, the one that comes first is listed first.
proof fn lemma_members_ascend<K>(keys: Seq<Option<K>>, p: int, q: int)
    requires
        0 <= p < q < members(repeated_groups(keys)).len(),
        keys[members(repeated_groups(keys))[p]] == keys[members(repeated_groups(keys))[q]],
    ensures
        members(repeated_groups(keys))[p] < members(repeated_groups(keys))[q],
{
    let lists = repeated_groups(keys);
    let x = members(lists)[p];
    let y = members(lists)[q];
    lemma_members_come_from(lists, p, q);
    let (a, k, b, l) = choose|a: int, k: int, b: int, l: int|
        #![trigger lists[a][k], lists[b][l]]
        {
            &&& 0 <= a < lists.len() && 0 <= k < lists[a].len() && lists[a][k] == x
            &&& 0 <= b < lists.len() && 0 <= l < lists[b].len() && lists[b][l] == y
            &&& a < b || (a == b && k < l)
        };
    repeated_group_has_key(keys);
    repeated_groups_disjoint(keys);
    assert(lists.contains(lists[a]) && lists.contains(lists[b]));
    let s = choose|key: K| lists[a] == #[trigger] positions(keys, key);
    let t = choose|key: K| lists[b] == #[trigger] positions(keys, key);
    position_has_key(keys, s);
    position_has_key(keys, t);
    assert(lists[a].contains(x) && lists[b].contains(y));
    assert(keys[x] == Some(s) && keys[y] == Some(t));
    assert(s == t);
    assert(lists[b].contains(x));
    assert(a == b);
}

/// Of files of one size, the one that was found first is hashed quickly first.
proof fn lemma_size_candidates_ascend(files: Seq<FileView>, p: int, q: int)
    requires
        0 <= p < q < size_candidates(files).len(),
        files[size_candidates(files)[p]].size == files[size_candidates(files)[q]].size,
    ensures
        size_candidates(files)[p] < size_candidates(files)[q],
{
    hashed_quickly(files);
    let candidates = size_candidates(files);
    assert(candidates.contains(candidates[p]) && candidates.contains(candidates[q]));
    let i = choose|i: int| #[trigger] same_size(files, candidates[p], i);
    let j = choose|j: int| #[trigger] same_size(files, candidates[q], j);
    lemma_members_ascend(size_keys(files), p, q);
}

/// Candidates at listed places are listed as the places are.
proof fn lemma_chosen_members(candidates: Seq<int>, places: Seq<Seq<int>>)
    ensures
        members(chosen(candidates, places)) == members(places).map_values(|j: int| candidates[j]),
    decreases places.len(),
{
    let at = |j: int| candidates[j];
    if places.len() > 0 {
        lemma_chosen_members(candidates, places.drop_last());
        assert(chosen(candidates, places).drop_last() =~= chosen(candidates, places.drop_last()));
        assert(members(places).map_values(at) =~= members(places.drop_last()).map_values(at)
            + places.last().map_values(at));
    } else {
        assert(members(places).map_values(at) =~= members(chosen(candidates, places)));
    }
}

/// Of files of one size and quick hash, the one that was found first is hashed fully
/// first.
proof fn lemma_quick_candidates_ascend(
    files: Seq<FileView>,
    quick: spec_fn(int) -> Option<Seq<char>>,
    p: int,
    q: int,
)
    requires
        ({
            let candidates = quick_candidates(files, quick);
            &&& 0 <= p < q < candidates.len()
            &&& files[candidates[p]].size == files[candidates[q]].size
            &&& quick(candidates[p]) == quick(candidates[q])
        }),
    ensures
        quick_candidates(files, quick)[p] < quick_candidates(files, quick)[q],
{
    let first = size_candidates(files);
    let hashes = first.map_values(quick);
    let keys = quick_keys(files, first, hashes);
    let places = repeated_groups(keys);
    hashed_quickly(files);
    lemma_chosen_members(first, places);
    let listed = members(places);
    let r = listed[p];
    let t = listed[q];
    members_of_lists(places);
    grouped_places(keys);
    assert(listed.contains(r) && listed.contains(t));
    assert(shares_key(keys, r) && shares_key(keys, t));
    assert(hashes[r] == quick(first[r]) && hashes[t] == quick(first[t]));
    assert(keys[r] == keys[t]);
    lemma_members_ascend(keys, p, q);
    lemma_size_candidates_ascend(files, r, t);
}

/// The files of a reported group that share size and quick hash are in the order in
/// which they were found: the first of them is the one that was found first.
pub proof fn reported_in_scan_order(
    files: Seq<FileView>,
    quick: spec_fn(int) -> Option<Seq<char>>,
    full: spec_fn(int) -> Option<Seq<char>>,
    g: int,
    a: int,
    b: int,
)
    requires
        0 <= g < reported(files, quick, full).len(),
        ({
            let group = reported(files, quick, full)[g].files;
            &&& 0 <= a < b < group.len()
            &&& files[group[a]].size == files[group[b]].size
            &&& quick(group[a]) == quick(group[b])
        }),
    ensures
        reported(files, quick, full)[g].files[a] < reported(files, quick, full)[g].files[b],
{
    let candidates = quick_candidates(files, quick);
    let hashes = candidates.map_values(full);
    let places = repeated_groups(hashes);
    repeated_group_has_key(hashes);
    assert(places.contains(places[g]));
    let key = choose|key: Seq<char>| places[g] == #[trigger] positions(hashes, key);
    position_has_key(hashes, key);
    assert(places[g].contains(places[g][a]) && places[g].contains(places[g][b]));
    assert(places[g][a] < places[g][b]);
    lemma_quick_candidates_ascend(files, quick, places[g][a], places[g][b]);
}

/// In a report, of two groups whose first paths differ, the one whose path has the
/// lower component where they first differ comes first; and none whose path is the
/// beginning of another's comes after it.
pub proof fn groups_follow_their_paths(
    files: Seq<FileView>,
    groups: Seq<GroupView>,
    a: int,
    b: int,
    common: Seq<PartView>,
    x: Seq<PartView>,
    y: Seq<PartView>,
)
    requires
        in_path_order(files, groups),
        0 <= a < b < groups.len(),
        files[groups[a].files.first()].path == common + x,
        files[groups[b].files.first()].path == common + y,
    ensures
        x.len() > 0 ==> y.len() > 0,
        x.len() > 0 && y.len() > 0 && x.first() != y.first() ==> part_order()(x.first(), y.first()),
{
    let none = Seq::<PartView>::empty();
    assert(path_order()(common + x, common + y));
    if x.len() > 0 && y.len() == 0 {
        assert(common + y =~= common);
        let part = x.first();
        let other: PartView = (part.0 + 1, part.1);
        path_order_by_first_difference(common, x, seq![other]);
    }
    if x.len() > 0 && y.len() > 0 && x.first() != y.first() {
        path_order_by_first_difference(common, x, y);
    }
}

/// A search goes on beyond the sizes if and only if two files that are not empty
/// share a size, and beyond the quick hashes if and only if two share size and quick
/// hash.
pub proof fn search_goes_on(files: Seq<FileView>, quick: spec_fn(int) -> Option<Seq<char>>)
    ensures
        size_groups(files).len() > 0 <==> exists|i: int, j: int|
            0 <= i < files.len() && 0 <= j < files.len() && i != j && (#[trigger] files[i]).size
                > 0 && files[i].size == (#[trigger] files[j]).size,
        ({
            let candidates = size_candidates(files);
            quick_groups(files, candidates, candidates.map_values(quick)).len() > 0 <==> exists|
                i: int,
                j: int,
            |
                0 <= i < files.len() && 0 <= j < files.len() && i != j && (
                #[trigger] files[i]).size > 0 && files[i].size == (#[trigger] files[j]).size
                    && quick(i) is Some && quick(i) == quick(j)
        }),
{
    hashed_quickly(files);
    hashed_fully(files, quick);
    let candidates = size_candidates(files);
    let lists = quick_groups(files, candidates, candidates.map_values(quick));
    if size_groups(files).len() > 0 {
        lemma_groups_have_members(size_keys(files));
        let i = size_groups(files)[0][0];
        members_of_lists(size_groups(files));
        assert(size_groups(files)[0].contains(i));
        assert(some_list_has(size_groups(files), i));
        assert(candidates.contains(i));
        let j = choose|j: int| #[trigger] same_size(files, i, j);
        assert(files[i].size == files[j].size);
    }
    if lists.len() > 0 {
        let keys = quick_keys(files, candidates, candidates.map_values(quick));
        lemma_groups_have_members(keys);
        let i = lists[0][0];
        members_of_lists(lists);
        assert(lists[0].contains(i));
        assert(some_list_has(lists, i));
        assert(quick_candidates(files, quick).contains(i));
        let j = choose|j: int| #[trigger] same_start(files, quick, i, j);
        assert(files[i].size == files[j].size);
    }
    if exists|i: int, j: int|
        0 <= i < files.len() && 0 <= j < files.len() && i != j && (#[trigger] files[i]).size > 0
            && files[i].size == (#[trigger] files[j]).size {
        let (i, j) = choose|i: int, j: int|
            0 <= i < files.len() && 0 <= j < files.len() && i != j && (#[trigger] files[i]).size
                > 0 && files[i].size == (#[trigger] files[j]).size;
        assert(same_size(files, i, j));
        assert(candidates.contains(i));
    }
    if exists|i: int, j: int|
        0 <= i < files.len() && 0 <= j < files.len() && i != j && (#[trigger] files[i]).size > 0
            && files[i].size == (#[trigger] files[j]).size && quick(i) is Some && quick(i)
            == quick(j) {
        let (i, j) = choose|i: int, j: int|
            0 <= i < files.len() && 0 <= j < files.len() && i != j && (#[trigger] files[i]).size
                > 0 && files[i].size == (#[trigger] files[j]).size && quick(i) is Some && quick(i)
                == quick(j);
        assert(same_start(files, quick, i, j));
        assert(quick_candidates(files, quick).contains(i));
    }
}

/// Groups of repeated keys are not empty.
proof fn lemma_groups_have_members<K>(keys: Seq<Option<K>>)
    ensures
        forall|g: int|
            0 <= g < repeated_groups(keys).len() ==> (#[trigger] repeated_groups(keys)[g]).len()
                > 1,
{
    repeated_group_has_key(keys);
    assert forall|g: int| 0 <= g < repeated_groups(keys).len() implies (
    #[trigger] repeated_groups(keys)[g]).len() > 1 by {
        assert(repeated_groups(keys).contains(repeated_groups(keys)[g]));
    }
}

} // verus!
