//! What holds of the cache over a run, and from one run to the next.

use crate::cache::{loaded, saved, CacheEntryView};
use crate::cache_laws::{
    all_storable, fits_field, hash_text_is_storable, saved_cache_loads, storable,
};
use crate::duplicates::{
    cached_full, cached_quick, entry_of, full_entry, quick_entry, results_fit, with_hashes,
};
use crate::duplicates_laws::{
    duplicates_are_reported, hashed_fully, hashed_quickly, quick_candidates, reported, same_size,
    same_start, size_candidates, together,
};
use crate::files::FileView;
use crate::hash::{full_hash, is_hash_text, quick_hash, sha256};
use vstd::prelude::*;

verus! {

/// No two files have one key.
pub open spec fn own_keys(files: Seq<FileView>) -> bool {
    forall|i: int, j: int|
        #![trigger files[i], files[j]]
        0 <= i < j < files.len() ==> files[i].path_key != files[j].path_key
}

/// One of the first `n` candidates was hashed and has the key `key`.
spec fn hashed_key(
    files: Seq<FileView>,
    candidates: Seq<int>,
    hashes: Seq<Option<Seq<char>>>,
    n: nat,
    key: Seq<char>,
) -> bool {
    exists|j: int|
        0 <= j < n && #[trigger] hashes[j] is Some && files[candidates[j]].path_key == key
}

/// Different candidates have different keys.
proof fn lemma_candidate_keys(files: Seq<FileView>, candidates: Seq<int>, a: int, b: int)
    requires
        own_keys(files),
        candidates.no_duplicates(),
        results_fit(files.len(), candidates, candidates.len()),
        0 <= a < candidates.len(),
        0 <= b < candidates.len(),
        a != b,
    ensures
        files[candidates[a]].path_key != files[candidates[b]].path_key,
{
    let i = candidates[a];
    let j = candidates[b];
    if i < j {
        assert(files[i].path_key != files[j].path_key);
    } else {
        assert(files[j].path_key != files[i].path_key);
    }
}

/// What the hashes of the first `n` candidates change in a cache: the entries of
/// those that were hashed, each once.
proof fn lemma_with_hashes(
    cache: Map<Seq<char>, CacheEntryView>,
    files: Seq<FileView>,
    candidates: Seq<int>,
    hashes: Seq<Option<Seq<char>>>,
    renewed: spec_fn(Option<CacheEntryView>, FileView, Seq<char>) -> CacheEntryView,
    n: nat,
)
    requires
        own_keys(files),
        candidates.no_duplicates(),
        results_fit(files.len(), candidates, hashes.len()),
        n <= candidates.len(),
    ensures
        ({
            let after = with_hashes(cache, files, candidates, hashes, renewed, n);
            &&& forall|j: int|
                0 <= j < n && #[trigger] hashes[j] is Some ==> {
                    let file = files[candidates[j]];
                    entry_of(after, file) == Some(
                        renewed(entry_of(cache, file), file, hashes[j]->0),
                    )
                }
            &&& forall|key: Seq<char>|
                !#[trigger] hashed_key(files, candidates, hashes, n, key) ==> (after.contains_key(
                    key,
                ) <==> cache.contains_key(key)) && (cache.contains_key(key) ==> after[key]
                    == cache[key])
        }),
    decreases n,
{
    if n > 0 {
        let m = (n - 1) as nat;
        lemma_with_hashes(cache, files, candidates, hashes, renewed, m);
        let after = with_hashes(cache, files, candidates, hashes, renewed, n);
        let last = files[candidates[m as int]];
        assert(!hashed_key(files, candidates, hashes, m, last.path_key)) by {
            if hashed_key(files, candidates, hashes, m, last.path_key) {
                let j = choose|j: int|
                    0 <= j < m && #[trigger] hashes[j] is Some && files[candidates[j]].path_key
                        == last.path_key;
                lemma_candidate_keys(files, candidates, j, m as int);
            }
        }
        assert forall|j: int| 0 <= j < n && #[trigger] hashes[j] is Some implies ({
            let file = files[candidates[j]];
            entry_of(after, file) == Some(renewed(entry_of(cache, file), file, hashes[j]->0))
        }) by {
            if j < m {
                lemma_candidate_keys(files, candidates, j, m as int);
            }
        }
        assert forall|key: Seq<char>|
            !#[trigger] hashed_key(files, candidates, hashes, n, key) implies (after.contains_key(
            key,
        ) <==> cache.contains_key(key)) && (cache.contains_key(key) ==> after[key]
            == cache[key]) by {
            assert(!hashed_key(files, candidates, hashes, m, key)) by {
                if hashed_key(files, candidates, hashes, m, key) {
                    let j = choose|j: int|
                        0 <= j < m && #[trigger] hashes[j] is Some && files[candidates[j]].path_key
                            == key;
                    assert(hashes[j] is Some);
                }
            }
            assert(hashes[m as int] is Some ==> last.path_key != key);
        }
    }
}

/// The cache once the quick hashes are in, given the quick hash of each file.
pub open spec fn quick_cache(
    cache: Map<Seq<char>, CacheEntryView>,
    files: Seq<FileView>,
    quick: spec_fn(int) -> Option<Seq<char>>,
) -> Map<Seq<char>, CacheEntryView> {
    let candidates = size_candidates(files);
    with_hashes(
        cache,
        files,
        candidates,
        candidates.map_values(quick),
        quick_entry(),
        candidates.len(),
    )
}

/// The cache at the end of a run, given the hashes of each file.
pub open spec fn run_cache(
    cache: Map<Seq<char>, CacheEntryView>,
    files: Seq<FileView>,
    quick: spec_fn(int) -> Option<Seq<char>>,
    full: spec_fn(int) -> Option<Seq<char>>,
) -> Map<Seq<char>, CacheEntryView> {
    let candidates = quick_candidates(files, quick);
    with_hashes(
        quick_cache(cache, files, quick),
        files,
        candidates,
        candidates.map_values(full),
        full_entry(),
        candidates.len(),
    )
}

/// The quick hash was computed in this run or served by the cache.
pub open spec fn quickly_hashed(
    files: Seq<FileView>,
    quick: spec_fn(int) -> Option<Seq<char>>,
    i: int,
) -> bool {
    size_candidates(files).contains(i) && quick(i) is Some
}

/// The full hash was computed in this run or served by the cache.
pub open spec fn fully_hashed(
    files: Seq<FileView>,
    quick: spec_fn(int) -> Option<Seq<char>>,
    full: spec_fn(int) -> Option<Seq<char>>,
    i: int,
) -> bool {
    quick_candidates(files, quick).contains(i) && full(i) is Some
}

/// What a run leaves in the cache of each file: a file that was hashed has a
/// fresh entry with what was found, and with an earlier full hash only if the
/// file has not changed since; the entry of another file is as before.
pub proof fn entries_after_run(
    cache: Map<Seq<char>, CacheEntryView>,
    files: Seq<FileView>,
    quick: spec_fn(int) -> Option<Seq<char>>,
    full: spec_fn(int) -> Option<Seq<char>>,
    i: int,
)
    requires
        own_keys(files),
        0 <= i < files.len(),
    ensures
        ({
            entry_of(run_cache(cache, files, quick, full), files[i]) == if quickly_hashed(
                files,
                quick,
                i,
            ) {
                Some(
                    CacheEntryView {
                        size: files[i].size,
                        modified_unix_secs: files[i].modified_unix_secs,
                        quick_hash: quick(i),
                        full_hash: if fully_hashed(files, quick, full, i) {
                            full(i)
                        } else {
                            cached_full(cache, files[i])
                        },
                    },
                )
            } else {
                entry_of(cache, files[i])
            }
        }),
{
    hashed_quickly(files);
    hashed_fully(files, quick);
    let first = size_candidates(files);
    let quicks = first.map_values(quick);
    let second = quick_candidates(files, quick);
    let fulls = second.map_values(full);
    let between = quick_cache(cache, files, quick);
    lemma_with_hashes(cache, files, first, quicks, quick_entry(), first.len());
    lemma_with_hashes(between, files, second, fulls, full_entry(), second.len());
    if quickly_hashed(files, quick, i) {
        assert(quicks[first.index_of(i)] == quick(i));
    } else if hashed_key(files, first, quicks, first.len(), files[i].path_key) {
        let j = choose|j: int|
            0 <= j < first.len() && #[trigger] quicks[j] is Some && files[first[j]].path_key
                == files[i].path_key;
        lemma_same_key(files, first[j], i);
        assert(first.contains(i));
    }
    if fully_hashed(files, quick, full, i) {
        assert(fulls[second.index_of(i)] == full(i));
        let j = choose|j: int| #[trigger] same_start(files, quick, i, j);
        assert(same_size(files, i, j));
        assert(quickly_hashed(files, quick, i));
    } else if hashed_key(files, second, fulls, second.len(), files[i].path_key) {
        let j = choose|j: int|
            0 <= j < second.len() && #[trigger] fulls[j] is Some && files[second[j]].path_key
                == files[i].path_key;
        lemma_same_key(files, second[j], i);
        assert(second.contains(i));
    }
}

/// Files with one key are one file.
proof fn lemma_same_key(files: Seq<FileView>, i: int, j: int)
    requires
        own_keys(files),
        0 <= i < files.len(),
        0 <= j < files.len(),
        files[i].path_key == files[j].path_key,
    ensures
        i == j,
{
    if i < j {
        assert(files[i].path_key != files[j].path_key);
    } else if j < i {
        assert(files[j].path_key != files[i].path_key);
    }
}

/// The quick hash that is used for a file: the cached one if it is fresh, else
/// the computed one.
pub open spec fn quick_used(
    cache: Map<Seq<char>, CacheEntryView>,
    files: Seq<FileView>,
    computed: spec_fn(int) -> Option<Seq<char>>,
) -> spec_fn(int) -> Option<Seq<char>> {
    |i: int|
        match cached_quick(cache, files[i]) {
            Some(hash) => Some(hash),
            None => computed(i),
        }
}

/// The full hash that is used for a file: the cached one if it is fresh, else
/// the computed one.
pub open spec fn full_used(
    cache: Map<Seq<char>, CacheEntryView>,
    files: Seq<FileView>,
    computed: spec_fn(int) -> Option<Seq<char>>,
) -> spec_fn(int) -> Option<Seq<char>> {
    |i: int|
        match cached_full(cache, files[i]) {
            Some(hash) => Some(hash),
            None => computed(i),
        }
}

/// A run caches what it found: as long as the files do not change, each hash
/// that it used is served by the cache that it leaves.
pub proof fn results_are_cached(
    cache: Map<Seq<char>, CacheEntryView>,
    files: Seq<FileView>,
    quick: spec_fn(int) -> Option<Seq<char>>,
    full: spec_fn(int) -> Option<Seq<char>>,
    i: int,
)
    requires
        own_keys(files),
    ensures
        quickly_hashed(files, quick, i) ==> cached_quick(
            run_cache(cache, files, quick, full),
            files[i],
        ) == quick(i),
        fully_hashed(files, quick, full, i) ==> cached_full(
            run_cache(cache, files, quick, full),
            files[i],
        ) == full(i),
{
    hashed_quickly(files);
    hashed_fully(files, quick);
    if quickly_hashed(files, quick, i) {
        let j = choose|j: int| #[trigger] same_size(files, i, j);
        entries_after_run(cache, files, quick, full, i);
    }
    if fully_hashed(files, quick, full, i) {
        let j = choose|j: int| #[trigger] same_start(files, quick, i, j);
        assert(same_size(files, i, j));
        assert(quickly_hashed(files, quick, i));
    }
}

/// A second run over the same files, none of them changed, reports the same
/// groups, whatever reading the files would give it, if the first run could
/// read what it had to.
pub proof fn second_run_reports_same(
    cache: Map<Seq<char>, CacheEntryView>,
    files: Seq<FileView>,
    quick: spec_fn(int) -> Option<Seq<char>>,
    full: spec_fn(int) -> Option<Seq<char>>,
    quick_computed: spec_fn(int) -> Option<Seq<char>>,
    full_computed: spec_fn(int) -> Option<Seq<char>>,
)
    requires
        own_keys(files),
        forall|i: int| #[trigger] size_candidates(files).contains(i) ==> quick(i) is Some,
        forall|i: int| #[trigger] quick_candidates(files, quick).contains(i) ==> full(i) is Some,
    ensures
        ({
            let kept = run_cache(cache, files, quick, full);
            reported(
                files,
                quick_used(kept, files, quick_computed),
                full_used(kept, files, full_computed),
            ) == reported(files, quick, full)
        }),
{
    let kept = run_cache(cache, files, quick, full);
    let quick_again = quick_used(kept, files, quick_computed);
    let full_again = full_used(kept, files, full_computed);
    let first = size_candidates(files);
    assert forall|p: int| 0 <= p < first.len() implies quick_again(#[trigger] first[p]) == quick(
        first[p],
    ) by {
        assert(first.contains(first[p]));
        results_are_cached(cache, files, quick, full, first[p]);
    }
    assert(first.map_values(quick_again) =~= first.map_values(quick));
    let second = quick_candidates(files, quick);
    assert(quick_candidates(files, quick_again) == second);
    assert forall|p: int| 0 <= p < second.len() implies full_again(#[trigger] second[p]) == full(
        second[p],
    ) by {
        assert(second.contains(second[p]));
        results_are_cached(cache, files, quick, full, second[p]);
    }
    assert(second.map_values(full_again) =~= second.map_values(full));
}

/// What the cache holds of the files as they are is true: a hash in a fresh entry
/// is that of the file's bytes. Of an entry that is not fresh nothing is said.
pub open spec fn holds_truth(
    cache: Map<Seq<char>, CacheEntryView>,
    files: Seq<FileView>,
    contents: Seq<Seq<u8>>,
) -> bool {
    forall|i: int|
        #![trigger files[i]]
        0 <= i < files.len() ==> {
            &&& cached_quick(cache, files[i]) matches Some(hash) ==> hash == quick_hash(
                contents[i],
            )
            &&& cached_full(cache, files[i]) matches Some(hash) ==> hash == full_hash(
                contents[i],
            )
        }
}

/// Hashes are those of the files' bytes where they are known.
pub open spec fn truthful(
    hashes: spec_fn(int) -> Option<Seq<char>>,
    truth: spec_fn(int) -> Seq<char>,
    n: nat,
) -> bool {
    forall|i: int| 0 <= i < n ==> (#[trigger] hashes(i) matches Some(hash) ==> hash == truth(i))
}

/// The full hashes that a cache serves are true.
spec fn serves_true_full(
    cache: Map<Seq<char>, CacheEntryView>,
    files: Seq<FileView>,
    contents: Seq<Seq<u8>>,
) -> bool {
    forall|i: int|
        #![trigger files[i]]
        0 <= i < files.len() ==> (cached_full(cache, files[i]) matches Some(hash) ==> hash
            == full_hash(contents[i]))
}

/// Taking in quick hashes, whatever they are, keeps the full hashes that a cache
/// serves true, also where two files share a key: a full hash is carried over
/// only within one size and time.
proof fn lemma_quick_keeps_true_full(
    cache: Map<Seq<char>, CacheEntryView>,
    files: Seq<FileView>,
    contents: Seq<Seq<u8>>,
    candidates: Seq<int>,
    hashes: Seq<Option<Seq<char>>>,
    n: nat,
)
    requires
        serves_true_full(cache, files, contents),
    ensures
        serves_true_full(
            with_hashes(cache, files, candidates, hashes, quick_entry(), n),
            files,
            contents,
        ),
    decreases n,
{
    if n > 0 {
        let m = (n - 1) as nat;
        lemma_quick_keeps_true_full(cache, files, contents, candidates, hashes, m);
    }
}

/// A cache that is true of the files serves true hashes: what a run uses is what
/// the files hold.
pub proof fn hashes_used_are_true(
    cache: Map<Seq<char>, CacheEntryView>,
    files: Seq<FileView>,
    contents: Seq<Seq<u8>>,
    quick_computed: spec_fn(int) -> Option<Seq<char>>,
    full_computed: spec_fn(int) -> Option<Seq<char>>,
)
    requires
        contents.len() == files.len(),
        holds_truth(cache, files, contents),
        truthful(quick_computed, |i: int| quick_hash(contents[i]), files.len()),
        truthful(full_computed, |i: int| full_hash(contents[i]), files.len()),
    ensures
        ({
            let quick = quick_used(cache, files, quick_computed);
            let full = full_used(quick_cache(cache, files, quick), files, full_computed);
            &&& truthful(quick, |i: int| quick_hash(contents[i]), files.len())
            &&& truthful(full, |i: int| full_hash(contents[i]), files.len())
        }),
{
    let quick = quick_used(cache, files, quick_computed);
    let between = quick_cache(cache, files, quick);
    let full = full_used(between, files, full_computed);
    let quick_truth = |i: int| quick_hash(contents[i]);
    let full_truth = |i: int| full_hash(contents[i]);
    assert(truthful(quick, quick_truth, files.len())) by {
        assert forall|i: int| 0 <= i < files.len() implies (#[trigger] quick(i) matches Some(hash)
            ==> hash == quick_truth(i)) by {
            let file = files[i];
            assert(quick_computed(i) matches Some(hash) ==> hash == quick_truth(i));
        }
    }
    let first = size_candidates(files);
    lemma_quick_keeps_true_full(
        cache,
        files,
        contents,
        first,
        first.map_values(quick),
        first.len(),
    );
    assert(truthful(full, full_truth, files.len())) by {
        assert forall|i: int| 0 <= i < files.len() implies (#[trigger] full(i) matches Some(hash)
            ==> hash == full_truth(i)) by {
            let file = files[i];
            assert(full_computed(i) matches Some(hash) ==> hash == full_truth(i));
        }
    }
}

/// A cache that is true of the files stays true over a run.
pub proof fn run_keeps_truth(
    cache: Map<Seq<char>, CacheEntryView>,
    files: Seq<FileView>,
    contents: Seq<Seq<u8>>,
    quick_computed: spec_fn(int) -> Option<Seq<char>>,
    full_computed: spec_fn(int) -> Option<Seq<char>>,
)
    requires
        contents.len() == files.len(),
        own_keys(files),
        holds_truth(cache, files, contents),
        truthful(quick_computed, |i: int| quick_hash(contents[i]), files.len()),
        truthful(full_computed, |i: int| full_hash(contents[i]), files.len()),
    ensures
        ({
            let quick = quick_used(cache, files, quick_computed);
            let full = full_used(quick_cache(cache, files, quick), files, full_computed);
            holds_truth(run_cache(cache, files, quick, full), files, contents)
        }),
{
    let quick = quick_used(cache, files, quick_computed);
    let full = full_used(quick_cache(cache, files, quick), files, full_computed);
    let quick_truth = |i: int| quick_hash(contents[i]);
    let full_truth = |i: int| full_hash(contents[i]);
    hashes_used_are_true(cache, files, contents, quick_computed, full_computed);
    let after = run_cache(cache, files, quick, full);
    assert forall|i: int|
        #![trigger files[i]]
        0 <= i < files.len() implies {
        &&& cached_quick(after, files[i]) matches Some(hash) ==> hash == quick_hash(contents[i])
        &&& cached_full(after, files[i]) matches Some(hash) ==> hash == full_hash(contents[i])
    } by {
        entries_after_run(cache, files, quick, full, i);
        assert(quick(i) matches Some(hash) ==> hash == quick_truth(i));
        assert(full(i) matches Some(hash) ==> hash == full_truth(i));
    }
}

/// The bytes of files, given those that a path holds at a size and a time.
pub open spec fn contents_at(
    files: Seq<FileView>,
    content_at: spec_fn(Seq<char>, u64, u64) -> Seq<u8>,
) -> Seq<Seq<u8>> {
    files.map_values(
        |file: FileView| content_at(file.path_key, file.size, file.modified_unix_secs),
    )
}

/// Every entry is true of the file that it was made of: each hash is that of the
/// bytes that the path held at the size and the time of the entry.
pub open spec fn true_record(
    cache: Map<Seq<char>, CacheEntryView>,
    content_at: spec_fn(Seq<char>, u64, u64) -> Seq<u8>,
) -> bool {
    forall|key: Seq<char>| #[trigger]
        cache.contains_key(key) ==> {
            let entry = cache[key];
            let content = content_at(key, entry.size, entry.modified_unix_secs);
            &&& entry.quick_hash matches Some(hash) ==> hash == quick_hash(content)
            &&& entry.full_hash matches Some(hash) ==> hash == full_hash(content)
        }
}

/// A true record is true of whatever files there are now, changed or not; and an
/// empty one is a true record.
pub proof fn true_record_holds(
    cache: Map<Seq<char>, CacheEntryView>,
    files: Seq<FileView>,
    content_at: spec_fn(Seq<char>, u64, u64) -> Seq<u8>,
)
    ensures
        true_record(cache, content_at) ==> holds_truth(
            cache,
            files,
            contents_at(files, content_at),
        ),
        true_record(Map::<Seq<char>, CacheEntryView>::empty(), content_at),
{
}

/// A run keeps a true record true, over whatever files there are now. So, run
/// after run, the cache never serves the hash of bytes that a file held before
/// it was changed, as long as a change shows in the size or the time.
pub proof fn run_keeps_true_record(
    cache: Map<Seq<char>, CacheEntryView>,
    files: Seq<FileView>,
    content_at: spec_fn(Seq<char>, u64, u64) -> Seq<u8>,
    quick_computed: spec_fn(int) -> Option<Seq<char>>,
    full_computed: spec_fn(int) -> Option<Seq<char>>,
)
    requires
        own_keys(files),
        true_record(cache, content_at),
        truthful(
            quick_computed,
            |i: int| quick_hash(contents_at(files, content_at)[i]),
            files.len(),
        ),
        truthful(
            full_computed,
            |i: int| full_hash(contents_at(files, content_at)[i]),
            files.len(),
        ),
    ensures
        ({
            let quick = quick_used(cache, files, quick_computed);
            let full = full_used(quick_cache(cache, files, quick), files, full_computed);
            true_record(run_cache(cache, files, quick, full), content_at)
        }),
{
    let contents = contents_at(files, content_at);
    let quick = quick_used(cache, files, quick_computed);
    let between = quick_cache(cache, files, quick);
    let full = full_used(between, files, full_computed);
    let after = run_cache(cache, files, quick, full);
    let quick_truth = |i: int| quick_hash(contents[i]);
    let full_truth = |i: int| full_hash(contents[i]);
    true_record_holds(cache, files, content_at);
    hashes_used_are_true(cache, files, contents, quick_computed, full_computed);
    hashed_quickly(files);
    hashed_fully(files, quick);
    let first = size_candidates(files);
    let quicks = first.map_values(quick);
    let second = quick_candidates(files, quick);
    let fulls = second.map_values(full);
    lemma_with_hashes(cache, files, first, quicks, quick_entry(), first.len());
    lemma_with_hashes(between, files, second, fulls, full_entry(), second.len());
    assert forall|key: Seq<char>| #[trigger] after.contains_key(key) implies ({
        let entry = after[key];
        let content = content_at(key, entry.size, entry.modified_unix_secs);
        &&& entry.quick_hash matches Some(hash) ==> hash == quick_hash(content)
        &&& entry.full_hash matches Some(hash) ==> hash == full_hash(content)
    }) by {
        if exists|i: int| 0 <= i < files.len() && (#[trigger] files[i]).path_key == key {
            let i = choose|i: int| 0 <= i < files.len() && (#[trigger] files[i]).path_key == key;
            entries_after_run(cache, files, quick, full, i);
            assert(quick(i) matches Some(hash) ==> hash == quick_truth(i));
            assert(full(i) matches Some(hash) ==> hash == full_truth(i));
            if !quickly_hashed(files, quick, i) {
                assert(cache.contains_key(key));
            }
        } else {
            assert(!hashed_key(files, first, quicks, first.len(), key)) by {
                if hashed_key(files, first, quicks, first.len(), key) {
                    let j = choose|j: int|
                        0 <= j < first.len() && #[trigger] quicks[j] is Some
                            && files[first[j]].path_key == key;
                    assert(files[first[j]].path_key == key);
                }
            }
            assert(!hashed_key(files, second, fulls, second.len(), key)) by {
                if hashed_key(files, second, fulls, second.len(), key) {
                    let j = choose|j: int|
                        0 <= j < second.len() && #[trigger] fulls[j] is Some
                            && files[second[j]].path_key == key;
                    assert(files[second[j]].path_key == key);
                }
            }
            assert(cache.contains_key(key));
        }
    }
}

/// Where a run begins with a cache that is true of the files, what it reports
/// together has one SHA-256; and two files that are not empty and hold the same
/// bytes are reported together, if the run got their hashes, be it from the cache
/// or from reading them.
pub proof fn run_finds_duplicates(
    cache: Map<Seq<char>, CacheEntryView>,
    files: Seq<FileView>,
    contents: Seq<Seq<u8>>,
    quick_computed: spec_fn(int) -> Option<Seq<char>>,
    full_computed: spec_fn(int) -> Option<Seq<char>>,
    i: int,
    j: int,
)
    requires
        contents.len() == files.len(),
        holds_truth(cache, files, contents),
        truthful(quick_computed, |i: int| quick_hash(contents[i]), files.len()),
        truthful(full_computed, |i: int| full_hash(contents[i]), files.len()),
        0 <= i < files.len(),
        0 <= j < files.len(),
        i != j,
    ensures
        ({
            let quick = quick_used(cache, files, quick_computed);
            let full = full_used(quick_cache(cache, files, quick), files, full_computed);
            let groups = reported(files, quick, full);
            &&& together(groups, i, j) ==> sha256(contents[i]) == sha256(contents[j])
            &&& {
                &&& contents[i] == contents[j]
                &&& files[i].size == files[j].size
                &&& files[i].size > 0
                &&& quick(i) is Some && quick(j) is Some
                &&& full(i) is Some && full(j) is Some
            } ==> together(groups, i, j)
        }),
{
    let quick = quick_used(cache, files, quick_computed);
    let full = full_used(quick_cache(cache, files, quick), files, full_computed);
    let quick_truth = |i: int| quick_hash(contents[i]);
    let full_truth = |i: int| full_hash(contents[i]);
    hashes_used_are_true(cache, files, contents, quick_computed, full_computed);
    assert(quick(i) matches Some(hash) ==> hash == quick_truth(i));
    assert(quick(j) matches Some(hash) ==> hash == quick_truth(j));
    assert(full(i) matches Some(hash) ==> hash == full_truth(i));
    assert(full(j) matches Some(hash) ==> hash == full_truth(j));
    duplicates_are_reported(files, quick, full, i, j, contents[i], contents[j]);
}

/// New entries keep a cache storable.
proof fn lemma_hashes_storable(
    cache: Map<Seq<char>, CacheEntryView>,
    files: Seq<FileView>,
    candidates: Seq<int>,
    hashes: Seq<Option<Seq<char>>>,
    renewed: spec_fn(Option<CacheEntryView>, FileView, Seq<char>) -> CacheEntryView,
    n: nat,
)
    requires
        renewed == quick_entry() || renewed == full_entry(),
        all_storable(cache),
        cache.dom().finite(),
        results_fit(files.len(), candidates, hashes.len()),
        forall|i: int| 0 <= i < files.len() ==> fits_field((#[trigger] files[i]).path_key),
        forall|j: int|
            0 <= j < n ==> (#[trigger] hashes[j] matches Some(hash) ==> is_hash_text(hash)),
        n <= candidates.len(),
    ensures
        all_storable(with_hashes(cache, files, candidates, hashes, renewed, n)),
        with_hashes(cache, files, candidates, hashes, renewed, n).dom().finite(),
    decreases n,
{
    if n > 0 {
        let m = (n - 1) as nat;
        lemma_hashes_storable(cache, files, candidates, hashes, renewed, m);
        let before = with_hashes(cache, files, candidates, hashes, renewed, m);
        let file = files[candidates[m as int]];
        if let Some(hash) = hashes[m as int] {
            hash_text_is_storable(hash);
            assert(before.contains_key(file.path_key) ==> storable(
                file.path_key,
                before[file.path_key],
            ));
        }
    }
}

/// The cache that a run leaves comes back as it was when it is saved and loaded,
/// if no path has a tab or a line feed.
pub proof fn run_cache_survives(
    cache: Map<Seq<char>, CacheEntryView>,
    files: Seq<FileView>,
    quick: spec_fn(int) -> Option<Seq<char>>,
    full: spec_fn(int) -> Option<Seq<char>>,
)
    requires
        all_storable(cache),
        cache.dom().finite(),
        forall|i: int| 0 <= i < files.len() ==> fits_field((#[trigger] files[i]).path_key),
        forall|i: int|
            0 <= i < files.len() ==> (#[trigger] quick(i) matches Some(hash) ==> is_hash_text(
                hash,
            )),
        forall|i: int|
            0 <= i < files.len() ==> (#[trigger] full(i) matches Some(hash) ==> is_hash_text(hash)),
    ensures
        ({
            let kept = run_cache(cache, files, quick, full);
            all_storable(kept) && loaded(saved(kept), true) == kept
        }),
{
    hashed_quickly(files);
    hashed_fully(files, quick);
    let first = size_candidates(files);
    let second = quick_candidates(files, quick);
    lemma_hashes_storable(
        cache,
        files,
        first,
        first.map_values(quick),
        quick_entry(),
        first.len(),
    );
    lemma_hashes_storable(
        quick_cache(cache, files, quick),
        files,
        second,
        second.map_values(full),
        full_entry(),
        second.len(),
    );
    saved_cache_loads(run_cache(cache, files, quick, full));
}

} // verus!
