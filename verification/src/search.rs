//! The course of a search: what is hashed when, and when it is over.

use crate::cache::Cache;
use crate::duplicates::{
    flatten_groups, full_entry, full_groups, group_by_size, groups_of, in_path_order, members,
    quick_entry, quick_groups, record_full_hashes, record_quick_hashes, results_fit, size_groups,
    with_hashes, DuplicateGroup,
};
use crate::files::{files_of, FileEntry};
use crate::grouping::{int_lists, ints, key_texts};
use vstd::prelude::*;

verus! {

/// What comes next in a search.
pub enum Step {
    /// The quick hashes of these files are needed.
    HashQuickly(Vec<usize>),
    /// The full hashes of these files are needed.
    HashFully(Vec<usize>),
    /// The search is over, and these are the duplicates; the cache is saved.
    Report(Vec<DuplicateGroup>),
    /// The search is over without any duplicates. Whether the cache is saved
    /// depends on whether anything was hashed.
    NothingFound { save_cache: bool },
}

/// Begins a search: the files that share their size with another are hashed
/// quickly.
pub fn start(files: &Vec<FileEntry>) -> (r: Step)
    ensures
        ({
            let groups = size_groups(files_of(files@));
            if groups.len() == 0 {
                r == Step::NothingFound { save_cache: false }
            } else {
                r matches Step::HashQuickly(candidates) && ints(candidates@) == members(groups)
            }
        }),
{
    let groups = group_by_size(files);
    assert(int_lists(groups@).len() == groups@.len());
    if groups.len() == 0 {
        Step::NothingFound { save_cache: false }
    } else {
        Step::HashQuickly(flatten_groups(&groups))
    }
}

/// Goes on with the quick hashes of the candidates: those that share size and
/// quick hash with another are hashed fully.
pub fn after_quick_hashes(
    files: &Vec<FileEntry>,
    candidates: &Vec<usize>,
    hashes: &Vec<Option<String>>,
    cache: &mut Cache,
) -> (r: Step)
    requires
        old(cache).wf(),
        results_fit(files@.len(), ints(candidates@), hashes@.len()),
    ensures
        final(cache).wf(),
        final(cache)@ == with_hashes(
            old(cache)@,
            files_of(files@),
            ints(candidates@),
            key_texts(hashes@),
            quick_entry(),
            candidates@.len(),
        ),
        ({
            let groups = quick_groups(files_of(files@), ints(candidates@), key_texts(hashes@));
            if groups.len() == 0 {
                r == Step::NothingFound { save_cache: true }
            } else {
                r matches Step::HashFully(next) && ints(next@) == members(groups)
            }
        }),
{
    let groups = record_quick_hashes(files, candidates, hashes, cache);
    assert(int_lists(groups@).len() == groups@.len());
    if groups.len() == 0 {
        Step::NothingFound { save_cache: true }
    } else {
        Step::HashFully(flatten_groups(&groups))
    }
}

/// Ends with the full hashes of the candidates: those that share the full hash
/// with another are reported.
pub fn after_full_hashes(
    files: &Vec<FileEntry>,
    candidates: &Vec<usize>,
    hashes: &Vec<Option<String>>,
    cache: &mut Cache,
) -> (r: Step)
    requires
        old(cache).wf(),
        results_fit(files@.len(), ints(candidates@), hashes@.len()),
    ensures
        final(cache).wf(),
        final(cache)@ == with_hashes(
            old(cache)@,
            files_of(files@),
            ints(candidates@),
            key_texts(hashes@),
            full_entry(),
            candidates@.len(),
        ),
        ({
            let found = full_groups(ints(candidates@), key_texts(hashes@));
            if found.len() == 0 {
                r == Step::NothingFound { save_cache: true }
            } else {
                &&& r matches Step::Report(groups)
                &&& groups_of(groups@).to_multiset() == found.to_multiset()
                &&& in_path_order(files_of(files@), groups_of(groups@))
            }
        }),
{
    let groups = record_full_hashes(files, candidates, hashes, cache);
    proof {
        broadcast use vstd::seq_lib::group_to_multiset_ensures;

        let found = full_groups(ints(candidates@), key_texts(hashes@));
        assert(found.len() == found.to_multiset().len());
        assert(groups_of(groups@).len() == groups_of(groups@).to_multiset().len());
    }
    if groups.len() == 0 {
        Step::NothingFound { save_cache: true }
    } else {
        Step::Report(groups)
    }
}

} // verus!
