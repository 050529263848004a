//! The search for duplicates: by size, by quick hash, by full hash.

use crate::cache::{text_of, Cache, CacheEntry, CacheEntryView};
use crate::files::{
    files_of, path_le, path_of, path_order, path_order_is_total, FileEntry, FileView, PathPart,
};
use crate::grouping::{
    group_repeated, groups_of_renamed, int_lists, ints, key_texts, renamed, repeated_groups,
};
use crate::hash::FileHasher;
use crate::order::{mapped_multisets, sorted, Ranked};
use crate::settings::QUICK_HASH_BYTES;
use crate::text::{decimal, decimal_injective, decimal_reads_back, decimal_string, is_digit};
use vstd::prelude::*;

verus! {

/// What is cached of a file, whether or not the file has changed since.
pub open spec fn entry_of(
    cache: Map<Seq<char>, CacheEntryView>,
    file: FileView,
) -> Option<CacheEntryView> {
    if cache.contains_key(file.path_key) {
        Some(cache[file.path_key])
    } else {
        None
    }
}

/// Whether an entry is about a file as it is now: size and time are the same.
pub open spec fn is_fresh(entry: CacheEntryView, file: FileView) -> bool {
    entry.size == file.size && entry.modified_unix_secs == file.modified_unix_secs
}

/// What is cached of a file that has not changed since.
pub open spec fn fresh_entry(
    cache: Map<Seq<char>, CacheEntryView>,
    file: FileView,
) -> Option<CacheEntryView> {
    match entry_of(cache, file) {
        Some(entry) => if is_fresh(entry, file) {
            Some(entry)
        } else {
            None
        },
        None => None,
    }
}

/// The cached quick hash of a file that has not changed since.
pub open spec fn cached_quick(
    cache: Map<Seq<char>, CacheEntryView>,
    file: FileView,
) -> Option<Seq<char>> {
    match fresh_entry(cache, file) {
        Some(entry) => entry.quick_hash,
        None => None,
    }
}

/// The cached full hash of a file that has not changed since.
pub open spec fn cached_full(
    cache: Map<Seq<char>, CacheEntryView>,
    file: FileView,
) -> Option<Seq<char>> {
    match fresh_entry(cache, file) {
        Some(entry) => entry.full_hash,
        None => None,
    }
}

/// Where the hash of a file comes from: the cache, or the file itself.
pub enum HashSource {
    Cached(String),
    Compute(FileHasher),
}

/// Looks for the entry of a file that has not changed since.
fn find_fresh<'a>(entry: &FileEntry, cache: &'a Cache) -> (r: Option<&'a CacheEntry>)
    requires
        cache.wf(),
    ensures
        match r {
            Some(cached) => fresh_entry(cache@, entry@) == Some(cached@),
            None => fresh_entry(cache@, entry@) is None,
        },
{
    match cache.get(entry.path_key.as_str()) {
        Some(cached) => if cached.size == entry.size && cached.modified_unix_secs
            == entry.modified_unix_secs {
            Some(cached)
        } else {
            None
        },
        None => None,
    }
}

/// The quick hash of a file if it is cached and the file has not changed since;
/// else the start of computing it from the first bytes of the file.
pub fn cached_or_compute_quick_hash(entry: &FileEntry, cache: &Cache) -> (r: HashSource)
    requires
        cache.wf(),
    ensures
        match r {
            HashSource::Cached(hash) => cached_quick(cache@, entry@) == Some(hash@),
            HashSource::Compute(hasher) => {
                &&& cached_quick(cache@, entry@) is None
                &&& hasher.wf()
                &&& hasher.message() == Seq::<u8>::empty()
                &&& hasher.limit() == Some(QUICK_HASH_BYTES)
                &&& !hasher.at_end()
            },
        },
{
    match find_fresh(entry, cache) {
        Some(cached) => match &cached.quick_hash {
            Some(hash) => HashSource::Cached(hash.clone()),
            None => HashSource::Compute(FileHasher::partial(QUICK_HASH_BYTES)),
        },
        None => HashSource::Compute(FileHasher::partial(QUICK_HASH_BYTES)),
    }
}

/// The full hash of a file if it is cached and the file has not changed since;
/// else the start of computing it from the whole file.
pub fn cached_or_compute_full_hash(entry: &FileEntry, cache: &Cache) -> (r: HashSource)
    requires
        cache.wf(),
    ensures
        match r {
            HashSource::Cached(hash) => cached_full(cache@, entry@) == Some(hash@),
            HashSource::Compute(hasher) => {
                &&& cached_full(cache@, entry@) is None
                &&& hasher.wf()
                &&& hasher.message() == Seq::<u8>::empty()
                &&& hasher.limit() is None
                &&& !hasher.at_end()
            },
        },
{
    match find_fresh(entry, cache) {
        Some(cached) => match &cached.full_hash {
            Some(hash) => HashSource::Cached(hash.clone()),
            None => HashSource::Compute(FileHasher::full()),
        },
        None => HashSource::Compute(FileHasher::full()),
    }
}

/// The sizes of files; an empty file has none.
pub open spec fn size_keys(files: Seq<FileView>) -> Seq<Option<nat>> {
    files.map_values(
        |file: FileView|
            if file.size > 0 {
                Some(file.size as nat)
            } else {
                None
            },
    )
}

/// The files that share their size with another, grouped by it.
pub open spec fn size_groups(files: Seq<FileView>) -> Seq<Seq<int>> {
    repeated_groups(size_keys(files))
}

/// All that groups hold, group after group.
pub open spec fn members(groups: Seq<Seq<int>>) -> Seq<int>
    decreases groups.len(),
{
    if groups.len() == 0 {
        Seq::<int>::empty()
    } else {
        members(groups.drop_last()) + groups.last()
    }
}

/// Groups the files that are not empty by size, and leaves out the sizes that
/// only one file has.
pub fn group_by_size(files: &Vec<FileEntry>) -> (r: Vec<Vec<usize>>)
    ensures
        int_lists(r@) == size_groups(files_of(files@)),
{
    let mut keys: Vec<Option<String>> = Vec::new();
    let ghost sizes = size_keys(files_of(files@));
    let ghost name = |size: nat| decimal(size);
    for i in 0..files.len()
        invariant
            sizes == size_keys(files_of(files@)),
            name == (|size: nat| decimal(size)),
            keys.len() == i,
            forall|k: int|
                0 <= k < i ==> text_of(#[trigger] keys[k]) == renamed(sizes, name)[k],
    {
        if files[i].size > 0 {
            keys.push(Some(decimal_string(files[i].size)));
        } else {
            keys.push(None);
        }
    }
    proof {
        assert(key_texts(keys@) =~= renamed(sizes, name));
        assert forall|a: nat, b: nat| #[trigger] name(a) == #[trigger] name(b) implies a == b by {
            decimal_injective(a, b);
        }
        groups_of_renamed(sizes, name);
    }
    group_repeated(&keys)
}

/// Lists what groups hold.
pub fn flatten_groups(groups: &Vec<Vec<usize>>) -> (r: Vec<usize>)
    ensures
        ints(r@) == members(int_lists(groups@)),
{
    let mut r: Vec<usize> = Vec::new();
    let ghost lists = int_lists(groups@);
    for g in 0..groups.len()
        invariant
            lists == int_lists(groups@),
            ints(r@) == members(lists.take(g as int)),
    {
        assert(lists.take(g + 1).drop_last() =~= lists.take(g as int));
        let ghost before = r@;
        r.extend_from_slice(groups[g].as_slice());
        assert(ints(r@) =~= ints(before) + ints(groups[g as int]@));
    }
    assert(lists.take(groups.len() as int) =~= lists);
    r
}

/// The size and the quick hash of each candidate that was hashed.
pub open spec fn quick_keys(
    files: Seq<FileView>,
    candidates: Seq<int>,
    hashes: Seq<Option<Seq<char>>>,
) -> Seq<Option<(nat, Seq<char>)>> {
    Seq::new(
        candidates.len(),
        |j: int|
            match hashes[j] {
                Some(hash) => Some((files[candidates[j]].size as nat, hash)),
                None => None,
            },
    )
}

/// Groups of places in a list of candidates as groups of the candidates.
pub open spec fn chosen(candidates: Seq<int>, groups: Seq<Seq<int>>) -> Seq<Seq<int>> {
    groups.map_values(|group: Seq<int>| group.map_values(|j: int| candidates[j]))
}

/// The candidates that share size and quick hash with another, grouped by them.
pub open spec fn quick_groups(
    files: Seq<FileView>,
    candidates: Seq<int>,
    hashes: Seq<Option<Seq<char>>>,
) -> Seq<Seq<int>> {
    chosen(candidates, repeated_groups(quick_keys(files, candidates, hashes)))
}

/// The entry of a file once its quick hash is known, given the entry before. The
/// full hash stays if the file has not changed since; an older one is dropped.
pub open spec fn quick_entry() -> spec_fn(
    Option<CacheEntryView>,
    FileView,
    Seq<char>,
) -> CacheEntryView {
    |entry: Option<CacheEntryView>, file: FileView, hash: Seq<char>|
        CacheEntryView {
            size: file.size,
            modified_unix_secs: file.modified_unix_secs,
            quick_hash: Some(hash),
            full_hash: match entry {
                Some(entry) => if is_fresh(entry, file) {
                    entry.full_hash
                } else {
                    None
                },
                None => None,
            },
        }
}

/// The entry of a file once its full hash is known, given the entry before. What
/// it holds as the quick hash stays.
pub open spec fn full_entry() -> spec_fn(
    Option<CacheEntryView>,
    FileView,
    Seq<char>,
) -> CacheEntryView {
    |entry: Option<CacheEntryView>, file: FileView, hash: Seq<char>|
        CacheEntryView {
            size: file.size,
            modified_unix_secs: file.modified_unix_secs,
            quick_hash: match entry {
                Some(entry) => entry.quick_hash,
                None => None,
            },
            full_hash: Some(hash),
        }
}

/// The cache once the hashes of the first `n` candidates are known, as far as
/// they could be computed. `renewed` gives the new entry of a file.
pub open spec fn with_hashes(
    cache: Map<Seq<char>, CacheEntryView>,
    files: Seq<FileView>,
    candidates: Seq<int>,
    hashes: Seq<Option<Seq<char>>>,
    renewed: spec_fn(Option<CacheEntryView>, FileView, Seq<char>) -> CacheEntryView,
    n: nat,
) -> Map<Seq<char>, CacheEntryView>
    decreases n,
{
    if n == 0 {
        cache
    } else {
        let before = with_hashes(cache, files, candidates, hashes, renewed, (n - 1) as nat);
        let file = files[candidates[n - 1]];
        match hashes[n - 1] {
            Some(hash) => before.insert(
                file.path_key,
                renewed(entry_of(before, file), file, hash),
            ),
            None => before,
        }
    }
}

/// The candidates are files, and there is a result for each.
pub open spec fn results_fit(files: nat, candidates: Seq<int>, hashes: nat) -> bool {
    &&& candidates.len() == hashes
    &&& forall|j: int| 0 <= j < candidates.len() ==> 0 <= #[trigger] candidates[j] < files
}

/// A size and a hash as one text.
spec fn pair_name(key: (nat, Seq<char>)) -> Seq<char> {
    decimal(key.0).push('\t') + key.1
}

/// Different pairs have different names.
proof fn lemma_pair_name(a: (nat, Seq<char>), b: (nat, Seq<char>))
    requires
        pair_name(a) == pair_name(b),
    ensures
        a == b,
{
    let x = decimal(a.0);
    let y = decimal(b.0);
    decimal_reads_back(a.0);
    decimal_reads_back(b.0);
    if x.len() < y.len() {
        assert(pair_name(a)[x.len() as int] == '\t');
        assert(pair_name(b)[x.len() as int] == y[x.len() as int]);
        assert(is_digit(y[x.len() as int]));
    } else if y.len() < x.len() {
        assert(pair_name(b)[y.len() as int] == '\t');
        assert(pair_name(a)[y.len() as int] == x[y.len() as int]);
        assert(is_digit(x[y.len() as int]));
    } else {
        assert(x =~= pair_name(a).take(x.len() as int));
        assert(y =~= pair_name(b).take(y.len() as int));
        decimal_injective(a.0, b.0);
        assert(a.1 =~= pair_name(a).skip(x.len() as int + 1));
        assert(b.1 =~= pair_name(b).skip(y.len() as int + 1));
    }
}

/// A copy of an optional string.
fn copy_text(text: &Option<String>) -> (r: Option<String>)
    ensures
        text_of(r) == text_of(*text),
{
    match text {
        Some(s) => Some(s.clone()),
        None => None,
    }
}

/// The candidates at the places that groups hold.
fn choose_members(candidates: &Vec<usize>, groups: &Vec<Vec<usize>>) -> (r: Vec<Vec<usize>>)
    requires
        forall|g: int, k: int|
            0 <= g < groups.len() && 0 <= k < groups[g].len() ==> #[trigger] groups[g][k]
                < candidates.len(),
    ensures
        int_lists(r@) == chosen(ints(candidates@), int_lists(groups@)),
{
    let mut r: Vec<Vec<usize>> = Vec::new();
    for g in 0..groups.len()
        invariant
            forall|g: int, k: int|
                0 <= g < groups.len() && 0 <= k < groups[g].len() ==> #[trigger] groups[g][k]
                    < candidates.len(),
            r.len() == g,
            forall|h: int|
                0 <= h < g ==> ints((#[trigger] r[h])@) == ints(groups[h]@).map_values(
                    |j: int| ints(candidates@)[j],
                ),
    {
        let group = &groups[g];
        let mut list: Vec<usize> = Vec::new();
        for k in 0..group.len()
            invariant
                group == &groups[g as int],
                g < groups.len(),
                forall|g: int, k: int|
                    0 <= g < groups.len() && 0 <= k < groups[g].len() ==> #[trigger] groups[g][k]
                        < candidates.len(),
                list.len() == k,
                forall|h: int| 0 <= h < k ==> #[trigger] list[h] == candidates[group[h] as int],
        {
            assert(groups[g as int][k as int] < candidates.len());
            list.push(candidates[group[k]]);
        }
        assert(ints(list@) =~= ints(group@).map_values(|j: int| ints(candidates@)[j]));
        r.push(list);
    }
    assert(int_lists(r@) =~= chosen(ints(candidates@), int_lists(groups@)));
    r
}

/// Takes in the quick hashes of the candidates: each one is cached, and the
/// candidates that share size and quick hash with another are grouped by them.
pub fn record_quick_hashes(
    files: &Vec<FileEntry>,
    candidates: &Vec<usize>,
    hashes: &Vec<Option<String>>,
    cache: &mut Cache,
) -> (r: Vec<Vec<usize>>)
    requires
        old(cache).wf(),
        results_fit(files@.len(), ints(candidates@), hashes@.len()),
    ensures
        final(cache).wf(),
        final(cache)@ == with_hashes(
            old(cache)@,
            files_of(files@),
            ints(candidates@),
            key_texts(hashes@),
            quick_entry(),
            candidates@.len(),
        ),
        int_lists(r@) == quick_groups(files_of(files@), ints(candidates@), key_texts(hashes@)),
{
    let ghost views = files_of(files@);
    let ghost places = ints(candidates@);
    let ghost texts = key_texts(hashes@);
    let ghost pairs = quick_keys(views, places, texts);
    let ghost name = |key: (nat, Seq<char>)| pair_name(key);
    let mut keys: Vec<Option<String>> = Vec::new();
    for j in 0..candidates.len()
        invariant
            cache.wf(),
            results_fit(files@.len(), places, hashes@.len()),
            views == files_of(files@),
            places == ints(candidates@),
            texts == key_texts(hashes@),
            pairs == quick_keys(views, places, texts),
            name == (|key: (nat, Seq<char>)| pair_name(key)),
            cache@ == with_hashes(
                old(cache)@,
                views,
                places,
                texts,
                quick_entry(),
                j as nat,
            ),
            keys.len() == j,
            forall|k: int| 0 <= k < j ==> text_of(#[trigger] keys[k]) == renamed(pairs, name)[k],
    {
        assert(places[j as int] < files@.len());
        let file = &files[candidates[j]];
        assert(texts[j as int] == text_of(hashes[j as int]));
        match &hashes[j] {
            Some(hash) => {
                let full_hash: Option<String> = match find_fresh(file, cache) {
                    Some(cached) => copy_text(&cached.full_hash),
                    None => None,
                };
                cache.insert(
                    file.path_key.clone(),
                    CacheEntry {
                        size: file.size,
                        modified_unix_secs: file.modified_unix_secs,
                        quick_hash: Some(hash.clone()),
                        full_hash,
                    },
                );
                proof {
                    reveal_strlit("\t");
                }
                let mut key = decimal_string(file.size);
                key.append("\t");
                key.append(hash.as_str());
                assert(key@ =~= pair_name((file.size as nat, hash@)));
                keys.push(Some(key));
            },
            None => {
                keys.push(None);
            },
        }
    }
    let groups = group_repeated(&keys);
    proof {
        assert(key_texts(keys@) =~= renamed(pairs, name));
        assert forall|a: (nat, Seq<char>), b: (nat, Seq<char>)| #[trigger] name(a)
            == #[trigger] name(b) implies a == b by {
            lemma_pair_name(a, b);
        }
        groups_of_renamed(pairs, name);
        lemma_members_fit(groups@, pairs);
    }
    choose_members(candidates, &groups)
}

/// Groups of places hold two places or more, and there is a key at each.
proof fn lemma_members_fit<K>(groups: Seq<Vec<usize>>, keys: Seq<Option<K>>)
    requires
        int_lists(groups) == repeated_groups(keys),
    ensures
        forall|g: int, k: int|
            0 <= g < groups.len() && 0 <= k < groups[g].len() ==> #[trigger] groups[g][k]
                < keys.len(),
        forall|g: int|
            0 <= g < groups.len() ==> (#[trigger] groups[g]).len() > 1
                && keys[groups[g][0] as int] is Some,
{
    crate::grouping::repeated_group_has_key(keys);
    assert forall|g: int| 0 <= g < groups.len() implies (#[trigger] groups[g]).len() > 1
        && keys[groups[g][0] as int] is Some && (forall|k: int|
        0 <= k < groups[g].len() ==> #[trigger] groups[g][k] < keys.len()) by {
        let group = int_lists(groups)[g];
        assert(repeated_groups(keys).contains(group));
        assert(ints(groups[g]@).len() == groups[g]@.len());
        let key = choose|key: K| group == #[trigger] crate::grouping::positions(keys, key);
        crate::grouping::position_has_key(keys, key);
        assert(group.contains(group[0]));
        assert forall|k: int| 0 <= k < groups[g].len() implies #[trigger] groups[g][k]
            < keys.len() by {
            assert(group.contains(group[k]));
        }
    }
}

/// Files with the same full hash. Each is given by its place in the list of
/// files.
pub struct DuplicateGroup {
    pub hash: String,
    pub files: Vec<usize>,
}

/// What a [`DuplicateGroup`] holds.
pub struct GroupView {
    pub hash: Seq<char>,
    pub files: Seq<int>,
}

impl View for DuplicateGroup {
    type V = GroupView;

    open spec fn view(&self) -> GroupView {
        GroupView { hash: self.hash@, files: ints(self.files@) }
    }
}

/// The groups of a list.
pub open spec fn groups_of(groups: Seq<DuplicateGroup>) -> Seq<GroupView> {
    groups.map_values(|group: DuplicateGroup| group@)
}

/// The group of the candidates at some places.
pub open spec fn group_at(
    candidates: Seq<int>,
    hashes: Seq<Option<Seq<char>>>,
) -> spec_fn(Seq<int>) -> GroupView {
    |group: Seq<int>|
        GroupView {
            hash: hashes[group.first()]->0,
            files: group.map_values(|j: int| candidates[j]),
        }
}

/// The candidates that share the full hash with another, grouped by it.
pub open spec fn full_groups(
    candidates: Seq<int>,
    hashes: Seq<Option<Seq<char>>>,
) -> Seq<GroupView> {
    repeated_groups(hashes).map_values(group_at(candidates, hashes))
}

/// In the order of the path of each group's first file.
pub open spec fn in_path_order(files: Seq<FileView>, groups: Seq<GroupView>) -> bool {
    forall|a: int, b: int|
        #![trigger groups[a], groups[b]]
        0 <= a < b < groups.len() ==> path_order()(
            files[groups[a].files.first()].path,
            files[groups[b].files.first()].path,
        )
}

/// A group and the path that it is ranked by.
struct RankedGroup<'a> {
    path: &'a Vec<PathPart>,
    group: DuplicateGroup,
}

impl<'a> Ranked for RankedGroup<'a> {
    closed spec fn at_most(&self, other: &Self) -> bool {
        path_order()(path_of(self.path@), path_of(other.path@))
    }

    proof fn at_most_transitive(a: &Self, b: &Self, c: &Self) {
        path_order_is_total();
        let r = path_order();
        assert(r(path_of(a.path@), path_of(b.path@)) && r(path_of(b.path@), path_of(c.path@)));
    }

    proof fn at_most_connected(a: &Self, b: &Self) {
        path_order_is_total();
        let r = path_order();
        assert(r(path_of(a.path@), path_of(b.path@)) || r(path_of(b.path@), path_of(a.path@)));
    }

    fn ranks_at_most(&self, other: &Self) -> (r: bool) {
        path_le(self.path, other.path)
    }
}

/// Puts groups in the order of the path of each one's first file.
pub fn sort_groups(files: &Vec<FileEntry>, groups: Vec<DuplicateGroup>) -> (r: Vec<DuplicateGroup>)
    requires
        forall|g: int|
            0 <= g < groups.len() ==> (#[trigger] groups[g]).files.len() > 0 && groups[g].files[0]
                < files.len(),
    ensures
        r@.to_multiset() == groups@.to_multiset(),
        in_path_order(files_of(files@), groups_of(r@)),
{
    let ghost views = files_of(files@);
    let ghost given = groups@;
    let ghost group_of = |ranked: RankedGroup| ranked.group;
    let mut left = groups;
    let mut ranked: Vec<RankedGroup> = Vec::new();
    while left.len() > 0
        invariant
            views == files_of(files@),
            given == groups@,
            forall|g: int|
                0 <= g < given.len() ==> (#[trigger] given[g]).files.len() > 0 && given[g].files[0]
                    < files.len(),
            left@ =~= given.take(left@.len() as int),
            ranked.len() + left.len() == given.len(),
            forall|k: int|
                0 <= k < ranked.len() ==> {
                    &&& (#[trigger] ranked[k]).group == given[given.len() - 1 - k]
                    &&& ranked[k].group.files.len() > 0
                    &&& path_of(ranked[k].path@) == views[ranked[k].group.files[0] as int].path
                },
        decreases left.len(),
    {
        match left.pop() {
            Some(group) => {
                assert(group == given[left@.len() as int]);
                let path = &files[group.files[0]].path;
                ranked.push(RankedGroup { path, group });
            },
            None => {},
        }
    }
    let ghost unsorted = ranked@;
    proof {
        assert(unsorted.map_values(group_of) =~= given.reverse());
        given.lemma_reverse_to_multiset();
    }
    let ranked = sorted(ranked);
    proof {
        mapped_multisets(ranked@, unsorted, group_of);
        broadcast use vstd::multiset::group_multiset_axioms;
        broadcast use vstd::seq_lib::group_to_multiset_ensures;

        assert forall|k: int| 0 <= k < ranked@.len() implies path_of((#[trigger] ranked@[k]).path@)
            == views[ranked@[k].group.files[0] as int].path && ranked@[k].group.files.len() > 0 by {
            assert(ranked@.contains(ranked@[k]));
            assert(ranked@.to_multiset().count(ranked@[k]) > 0);
            assert(unsorted.contains(ranked@[k]));
            let i = unsorted.index_of(ranked@[k]);
            assert(unsorted[i] == ranked@[k]);
        }
    }
    let ghost all = ranked@;
    let mut rest = ranked;
    let mut back: Vec<DuplicateGroup> = Vec::new();
    while rest.len() > 0
        invariant
            rest@ =~= all.take(rest@.len() as int),
            back.len() + rest.len() == all.len(),
            forall|k: int|
                0 <= k < back.len() ==> #[trigger] back[k] == all[all.len() - 1 - k].group,
        decreases rest.len(),
    {
        match rest.pop() {
            Some(last) => {
                assert(last == all[rest@.len() as int]);
                back.push(last.group);
            },
            None => {},
        }
    }
    let r = crate::order::reversed(back);
    proof {
        assert(r@ =~= all.map_values(group_of));
        assert(in_path_order(views, groups_of(r@))) by {
            assert forall|a: int, b: int|
                #![trigger groups_of(r@)[a], groups_of(r@)[b]]
                0 <= a < b < groups_of(r@).len() implies path_order()(
                views[groups_of(r@)[a].files.first()].path,
                views[groups_of(r@)[b].files.first()].path,
            ) by {
                assert(all[a].at_most(&all[b]));
                assert(r@[a] == all[a].group && r@[b] == all[b].group);
            }
        }
    }
    r
}

/// Takes in the full hashes of the candidates: each one is cached, and the
/// candidates that share the full hash with another are grouped by it, in the
/// order of the groups' first paths.
pub fn record_full_hashes(
    files: &Vec<FileEntry>,
    candidates: &Vec<usize>,
    hashes: &Vec<Option<String>>,
    cache: &mut Cache,
) -> (r: Vec<DuplicateGroup>)
    requires
        old(cache).wf(),
        results_fit(files@.len(), ints(candidates@), hashes@.len()),
    ensures
        final(cache).wf(),
        final(cache)@ == with_hashes(
            old(cache)@,
            files_of(files@),
            ints(candidates@),
            key_texts(hashes@),
            full_entry(),
            candidates@.len(),
        ),
        groups_of(r@).to_multiset() == full_groups(
            ints(candidates@),
            key_texts(hashes@),
        ).to_multiset(),
        in_path_order(files_of(files@), groups_of(r@)),
{
    let ghost views = files_of(files@);
    let ghost places = ints(candidates@);
    let ghost texts = key_texts(hashes@);
    for j in 0..candidates.len()
        invariant
            cache.wf(),
            results_fit(files@.len(), places, hashes@.len()),
            views == files_of(files@),
            places == ints(candidates@),
            texts == key_texts(hashes@),
            cache@ == with_hashes(
                old(cache)@,
                views,
                places,
                texts,
                full_entry(),
                j as nat,
            ),
    {
        assert(places[j as int] < files@.len());
        let file = &files[candidates[j]];
        assert(texts[j as int] == text_of(hashes[j as int]));
        match &hashes[j] {
            Some(hash) => {
                let quick_hash: Option<String> = match cache.get(file.path_key.as_str()) {
                    Some(cached) => copy_text(&cached.quick_hash),
                    None => None,
                };
                cache.insert(
                    file.path_key.clone(),
                    CacheEntry {
                        size: file.size,
                        modified_unix_secs: file.modified_unix_secs,
                        quick_hash,
                        full_hash: Some(hash.clone()),
                    },
                );
            },
            None => {},
        }
    }
    let repeated = group_repeated(hashes);
    proof {
        lemma_members_fit(repeated@, texts);
    }
    let lists = choose_members(candidates, &repeated);
    let mut left = lists;
    let mut groups: Vec<DuplicateGroup> = Vec::new();
    let ghost expected = full_groups(places, texts);
    assert(int_lists(lists@).len() == int_lists(repeated@).len());
    assert(left@ =~= lists@.take(left@.len() as int));
    while left.len() > 0
        invariant
            results_fit(files@.len(), places, hashes@.len()),
            places == ints(candidates@),
            texts == key_texts(hashes@),
            expected == full_groups(places, texts),
            int_lists(repeated@) == repeated_groups(texts),
            int_lists(lists@) == chosen(places, int_lists(repeated@)),
            forall|g: int, k: int|
                0 <= g < repeated.len() && 0 <= k < repeated[g].len()
                    ==> #[trigger] repeated[g][k] < hashes.len(),
            forall|g: int|
                0 <= g < repeated.len() ==> (#[trigger] repeated[g]).len() > 1
                    && texts[repeated[g][0] as int] is Some,
            lists.len() == repeated.len(),
            left@ =~= lists@.take(left@.len() as int),
            groups.len() + left.len() == repeated.len(),
            forall|k: int|
                0 <= k < groups.len() ==> (#[trigger] groups[k])@ == expected[expected.len() - 1 - k],
            forall|k: int|
                0 <= k < groups.len() ==> (#[trigger] groups[k]).files.len() > 0
                    && groups[k].files[0] < files.len(),
        decreases left.len(),
    {
        let g: usize = left.len() - 1;
        let first: usize = repeated[g][0];
        assert(repeated[g as int][0] < hashes.len());
        assert(texts[first as int] == text_of(hashes[first as int]));
        match (left.pop(), &hashes[first]) {
            (Some(members), Some(hash)) => {
                assert(members == lists[g as int]);
                assert(ints(members@) == int_lists(lists@)[g as int]);
                assert(int_lists(repeated@)[g as int] == ints(repeated[g as int]@));
                assert(int_lists(lists@)[g as int] == ints(repeated[g as int]@).map_values(
                    |j: int| places[j],
                ));
                assert(ints(members@)[0] == places[first as int]);
                let group = DuplicateGroup { hash: hash.clone(), files: members };
                assert(group@ == expected[g as int]);
                groups.push(group);
            },
            _ => {
                assert(false);
            },
        }
    }
    proof {
        assert(groups_of(groups@) =~= expected.reverse());
        expected.lemma_reverse_to_multiset();
    }
    let r = sort_groups(files, groups);
    proof {
        mapped_multisets(r@, groups@, |group: DuplicateGroup| group@);
    }
    r
}

} // verus!
