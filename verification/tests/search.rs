use duplicate_finder::cache::{load_cache, save_cache, Cache, CacheEntry};
use duplicate_finder::duplicates::{
    cached_or_compute_full_hash, cached_or_compute_quick_hash, flatten_groups, group_by_size,
    record_full_hashes, record_quick_hashes, sort_groups, DuplicateGroup, HashSource,
};
use duplicate_finder::files::{FileEntry, PathPart};
use duplicate_finder::grouping::group_repeated;
use duplicate_finder::hash::FileHasher;
use duplicate_finder::search::{after_full_hashes, after_quick_hashes, start, Step};
use duplicate_finder::settings::QUICK_HASH_BYTES;

fn file(path: &str, size: u64, modified: u64) -> FileEntry {
    FileEntry {
        path: path.split('/').map(|name| PathPart::Normal(name.as_bytes().to_vec())).collect(),
        path_key: path.to_string(),
        size,
        modified_unix_secs: modified,
    }
}

fn some(texts: &[&str]) -> Vec<Option<String>> {
    texts
        .iter()
        .map(|text| if text.is_empty() { None } else { Some(text.to_string()) })
        .collect()
}

fn shown(groups: &[DuplicateGroup]) -> Vec<(String, Vec<usize>)> {
    groups.iter().map(|group| (group.hash.clone(), group.files.clone())).collect()
}

fn read(mut hasher: FileHasher, content: &[u8]) -> String {
    let buffer_len = hasher.buffer_len();
    let mut at = 0;
    loop {
        let wanted = hasher.next_read(buffer_len);
        if wanted == 0 {
            return hasher.finish();
        }
        let count = wanted.min(content.len() - at);
        hasher.absorb(&content[at..at + count]);
        at += count;
    }
}

/// Runs a search over files in memory; says what was reported, how many hashes
/// were computed, and whether the cache is to be saved.
fn run(
    files: &Vec<FileEntry>,
    contents: &[&[u8]],
    cache: &mut Cache,
) -> (Vec<(String, Vec<usize>)>, usize, bool) {
    let mut computed = 0;
    let candidates = match start(files) {
        Step::HashQuickly(candidates) => candidates,
        Step::NothingFound { save_cache } => return (vec![], computed, save_cache),
        _ => unreachable!(),
    };
    let mut hashes = vec![];
    for &i in &candidates {
        hashes.push(Some(match cached_or_compute_quick_hash(&files[i], cache) {
            HashSource::Cached(hash) => hash,
            HashSource::Compute(hasher) => {
                computed += 1;
                read(hasher, contents[i])
            }
        }));
    }
    let candidates = match after_quick_hashes(files, &candidates, &hashes, cache) {
        Step::HashFully(candidates) => candidates,
        Step::NothingFound { save_cache } => return (vec![], computed, save_cache),
        _ => unreachable!(),
    };
    let mut hashes = vec![];
    for &i in &candidates {
        hashes.push(Some(match cached_or_compute_full_hash(&files[i], cache) {
            HashSource::Cached(hash) => hash,
            HashSource::Compute(hasher) => {
                computed += 1;
                read(hasher, contents[i])
            }
        }));
    }
    match after_full_hashes(files, &candidates, &hashes, cache) {
        Step::Report(groups) => (shown(&groups), computed, true),
        Step::NothingFound { save_cache } => (vec![], computed, save_cache),
        _ => unreachable!(),
    }
}

#[test]
fn repeated_keys_are_grouped_in_order() {
    let keys = some(&["b", "a", "", "b", "c", "a", "", "b"]);
    assert_eq!(group_repeated(&keys), vec![vec![0, 3, 7], vec![1, 5]]);
    assert!(group_repeated(&some(&["a", "b", "", ""])).is_empty());
    assert!(group_repeated(&vec![]).is_empty());
}

#[test]
fn sizes_are_grouped_without_empty_files() {
    let files = vec![
        file("a", 5, 0),
        file("b", 0, 0),
        file("c", 12, 0),
        file("d", 5, 0),
        file("e", 0, 0),
        file("f", 7, 0),
        file("g", 12, 0),
        file("h", 5, 0),
    ];
    let groups = group_by_size(&files);
    assert_eq!(groups, vec![vec![0, 3, 7], vec![2, 6]]);
    assert_eq!(flatten_groups(&groups), vec![0, 3, 7, 2, 6]);
}

#[test]
fn quick_hashes_are_grouped_with_the_size() {
    let files = vec![file("a", 5, 1), file("b", 5, 2), file("c", 51, 3), file("d", 51, 4), file("e", 5, 5)];
    let mut cache = Cache::new();
    let groups = record_quick_hashes(
        &files,
        &vec![0, 1, 4, 2, 3],
        &some(&["1q", "1q", "", "q", "q"]),
        &mut cache,
    );
    assert_eq!(groups, vec![vec![0, 1], vec![2, 3]]);
    let known = cache.get("b").unwrap();
    assert_eq!((known.size, known.modified_unix_secs), (5, 2));
    assert_eq!(known.quick_hash.as_deref(), Some("1q"));
    assert_eq!(known.full_hash, None);
    assert!(cache.get("e").is_none());

    let apart = record_quick_hashes(&files, &vec![0, 2], &some(&["q", "q"]), &mut cache);
    assert!(apart.is_empty());
}

#[test]
fn recording_a_quick_hash_keeps_the_full_hash_of_an_unchanged_file() {
    let known = || CacheEntry {
        size: 5,
        modified_unix_secs: 9,
        quick_hash: Some("old".to_string()),
        full_hash: Some("full".to_string()),
    };
    for (size, modified, kept) in [(5, 9, true), (4, 9, false), (5, 8, false), (4, 8, false)] {
        let mut cache = Cache::new();
        cache.insert("a".to_string(), known());
        cache.insert("b".to_string(), known());
        record_quick_hashes(&vec![file("a", size, modified)], &vec![0], &some(&["new"]), &mut cache);
        let entry = cache.get("a").unwrap();
        assert_eq!((entry.size, entry.modified_unix_secs), (size, modified));
        assert_eq!(entry.quick_hash.as_deref(), Some("new"));
        assert_eq!(entry.full_hash.as_deref(), if kept { Some("full") } else { None });
        assert_eq!(cache.get("b").unwrap().quick_hash.as_deref(), Some("old"));
    }
}

#[test]
fn full_hashes_are_grouped_and_sorted_by_path() {
    let files = vec![
        file("z/1", 5, 1),
        file("z/2", 5, 2),
        file("a/b", 5, 3),
        file("a.b", 5, 4),
        file("m", 5, 5),
        file("a/c", 5, 6),
        file("a.c", 5, 7),
    ];
    let mut cache = Cache::new();
    let groups = record_full_hashes(
        &files,
        &vec![0, 1, 2, 3, 4, 5, 6],
        &some(&["x", "x", "y", "w", "", "y", "w"]),
        &mut cache,
    );
    assert_eq!(
        shown(&groups),
        vec![
            ("y".to_string(), vec![2, 5]),
            ("w".to_string(), vec![3, 6]),
            ("x".to_string(), vec![0, 1]),
        ]
    );
    assert_eq!(cache.get("a/c").unwrap().full_hash.as_deref(), Some("y"));
    assert_eq!(cache.get("a/c").unwrap().quick_hash, None);
    assert!(cache.get("m").is_none());
}

#[test]
fn groups_are_sorted_by_first_path() {
    let files = vec![file("c", 1, 0), file("b", 1, 0), file("a", 1, 0)];
    let groups = vec![
        DuplicateGroup { hash: "1".to_string(), files: vec![0, 2] },
        DuplicateGroup { hash: "2".to_string(), files: vec![1] },
        DuplicateGroup { hash: "3".to_string(), files: vec![2, 0] },
    ];
    let hashes: Vec<String> =
        sort_groups(&files, groups).iter().map(|group| group.hash.clone()).collect();
    assert_eq!(hashes, vec!["3", "2", "1"]);
}

#[test]
fn hashes_come_from_the_cache_only_while_fresh() {
    let mut cache = Cache::new();
    cache.insert(
        "a".to_string(),
        CacheEntry {
            size: 5,
            modified_unix_secs: 9,
            quick_hash: Some("quick".to_string()),
            full_hash: Some("full".to_string()),
        },
    );
    cache.insert(
        "b".to_string(),
        CacheEntry { size: 5, modified_unix_secs: 9, quick_hash: None, full_hash: None },
    );
    let quick = |file: &FileEntry, cache: &Cache| match cached_or_compute_quick_hash(file, cache) {
        HashSource::Cached(hash) => Some(hash),
        HashSource::Compute(hasher) => {
            assert_eq!(hasher.next_read(usize::MAX), QUICK_HASH_BYTES);
            None
        }
    };
    let full = |file: &FileEntry, cache: &Cache| match cached_or_compute_full_hash(file, cache) {
        HashSource::Cached(hash) => Some(hash),
        HashSource::Compute(hasher) => {
            assert_eq!(hasher.next_read(usize::MAX), usize::MAX);
            None
        }
    };
    assert_eq!(quick(&file("a", 5, 9), &cache).as_deref(), Some("quick"));
    assert_eq!(full(&file("a", 5, 9), &cache).as_deref(), Some("full"));
    for changed in [file("a", 6, 9), file("a", 5, 10), file("b", 5, 9), file("c", 5, 9)] {
        assert_eq!(quick(&changed, &cache), None);
        assert_eq!(full(&changed, &cache), None);
    }
}

#[test]
fn same_bytes_are_reported_together() {
    let mut long_a = vec![b'a'; QUICK_HASH_BYTES];
    let mut long_b = long_a.clone();
    let long_c = {
        long_a.push(b'1');
        long_b.push(b'2');
        long_a.clone()
    };
    let contents: Vec<&[u8]> =
        vec![b"hello", b"world", b"", b"hello", &long_a, &long_b, &long_c, b"", b"other one"];
    let names = ["n/1", "n/2", "n/3", "n/4", "a/5", "a/6", "a/7", "n/8", "n/9"];
    let files: Vec<FileEntry> = names
        .iter()
        .zip(&contents)
        .map(|(name, content)| file(name, content.len() as u64, 1))
        .collect();
    let mut cache = Cache::new();
    let (groups, computed, save) = run(&files, &contents, &mut cache);
    assert_eq!(
        groups,
        vec![
            (read(FileHasher::full(), &long_a), vec![4, 6]),
            ("2cf24dba5fb0a30e26e83b2ac5b9e29e1b161e5c1fa7425e73043362938b9824".to_string(), vec![0, 3]),
        ]
    );
    assert!(save);
    // Six files share a size; of those, five share the quick hash too.
    assert_eq!(computed, 6 + 5);

    let mut kept = load_cache(&save_cache(&cache), true);
    let (again, computed, save) = run(&files, &contents, &mut kept);
    assert_eq!(again, groups);
    assert_eq!(computed, 0);
    assert!(save);
    assert_eq!(save_cache(&kept), save_cache(&cache));
}

#[test]
fn a_search_ends_early() {
    let mut cache = Cache::new();
    let files = vec![file("a", 1, 1), file("b", 2, 1), file("c", 0, 1), file("d", 0, 1)];
    let contents: Vec<&[u8]> = vec![b"1", b"22", b"", b""];
    assert_eq!(run(&files, &contents, &mut cache), (vec![], 0, false));
    assert!(save_cache(&cache).is_empty());

    let files = vec![file("a", 1, 1), file("b", 1, 1)];
    let contents: Vec<&[u8]> = vec![b"1", b"2"];
    assert_eq!(run(&files, &contents, &mut cache), (vec![], 2, true));
    assert!(cache.get("a").unwrap().quick_hash.is_some());

    let mut one = vec![0u8; QUICK_HASH_BYTES];
    let mut two = one.clone();
    one.push(1);
    two.push(2);
    let files = vec![file("c", one.len() as u64, 1), file("d", two.len() as u64, 1)];
    let contents: Vec<&[u8]> = vec![&one, &two];
    assert_eq!(run(&files, &contents, &mut cache), (vec![], 4, true));
}

#[test]
fn no_files_at_all() {
    assert!(matches!(start(&vec![]), Step::NothingFound { save_cache: false }));
}

#[test]
fn files_that_cannot_be_read_are_left_out() {
    let files = vec![file("a", 3, 1), file("b", 3, 1), file("c", 3, 1)];
    let mut cache = Cache::new();
    let step = after_quick_hashes(&files, &vec![0, 1, 2], &some(&["q", "", "q"]), &mut cache);
    match step {
        Step::HashFully(next) => assert_eq!(next, vec![0, 2]),
        _ => panic!(),
    }
    let step = after_full_hashes(&files, &vec![0, 2], &some(&["f", ""]), &mut cache);
    assert!(matches!(step, Step::NothingFound { save_cache: true }));
    assert_eq!(cache.get("a").unwrap().full_hash.as_deref(), Some("f"));
    assert_eq!(cache.get("c").unwrap().full_hash, None);
}

#[test]
fn a_changed_file_is_hashed_anew() {
    let mut cache = Cache::new();
    let contents: Vec<&[u8]> = vec![b"hello", b"hello"];
    let (before, _, _) = run(&vec![file("a", 5, 1), file("b", 5, 1)], &contents, &mut cache);
    assert_eq!(before, vec![(read(FileHasher::full(), b"hello"), vec![0, 1])]);
    let contents: Vec<&[u8]> = vec![b"jelly", b"jelly"];
    let (after, computed, _) = run(&vec![file("a", 5, 2), file("b", 5, 2)], &contents, &mut cache);
    assert_eq!(computed, 4);
    assert_eq!(after, vec![(read(FileHasher::full(), b"jelly"), vec![0, 1])]);
}

#[test]
fn a_change_behind_the_start_of_a_file_is_seen() {
    let mut one = vec![b'a'; QUICK_HASH_BYTES];
    one.push(b'1');
    let mut two = one.clone();
    let size = one.len() as u64;
    let mut cache = Cache::new();
    let files = vec![file("a", size, 1), file("b", size, 1)];
    let (groups, _, _) = run(&files, &[&one, &two], &mut cache);
    assert_eq!(groups, vec![(read(FileHasher::full(), &one), vec![0, 1])]);

    let end = two.len() - 1;
    two[end] = b'2';
    let files = vec![file("a", size, 1), file("b", size, 2)];
    let mut kept = load_cache(&save_cache(&cache), true);
    let (groups, computed, save) = run(&files, &[&one, &two], &mut kept);
    assert!(groups.is_empty());
    assert_eq!(computed, 2);
    assert!(save);
    assert_eq!(kept.get("a").unwrap().full_hash, Some(read(FileHasher::full(), &one)));
    assert_eq!(kept.get("b").unwrap().full_hash, Some(read(FileHasher::full(), &two)));
}

#[test]
fn files_that_share_a_key_are_told_apart_by_their_bytes() {
    let files = vec![file("k", 5, 1), file("k", 5, 2), file("k", 5, 3)];
    let contents: Vec<&[u8]> = vec![b"hello", b"jelly", b"hello"];
    let mut cache = Cache::new();
    for _ in 0..2 {
        let (groups, _, _) = run(&files, &contents, &mut cache);
        assert_eq!(groups, vec![(read(FileHasher::full(), b"hello"), vec![0, 2])]);
    }
}
