use duplicate_finder::cache::{
    cache_line, empty_to_none, load_cache, parse_cache_line, save_cache, Cache, CacheEntry,
};

type Row<'a> = (&'a str, u64, u64, Option<&'a str>, Option<&'a str>);

fn entry(size: u64, modified: u64, quick: Option<&str>, full: Option<&str>) -> CacheEntry {
    CacheEntry {
        size,
        modified_unix_secs: modified,
        quick_hash: quick.map(|s| s.to_string()),
        full_hash: full.map(|s| s.to_string()),
    }
}

fn filled(rows: &[Row]) -> Cache {
    let mut cache = Cache::new();
    for row in rows {
        cache.insert(row.0.to_string(), entry(row.1, row.2, row.3, row.4));
    }
    cache
}

fn assert_known(cache: &Cache, row: Row) {
    let found = cache.get(row.0).expect(row.0);
    assert_eq!(found.size, row.1);
    assert_eq!(found.modified_unix_secs, row.2);
    assert_eq!(found.quick_hash.as_deref(), row.3);
    assert_eq!(found.full_hash.as_deref(), row.4);
}

#[test]
fn the_last_insert_counts() {
    let cache = filled(&[
        ("a", 1, 2, None, None),
        ("b", 3, 4, Some("q"), None),
        ("a", 5, 6, Some("x"), Some("y")),
    ]);
    assert_known(&cache, ("a", 5, 6, Some("x"), Some("y")));
    assert_known(&cache, ("b", 3, 4, Some("q"), None));
    assert!(cache.get("c").is_none());
    assert!(Cache::new().get("a").is_none());
}

#[test]
fn empty_text_is_nothing() {
    assert_eq!(empty_to_none(""), None);
    assert_eq!(empty_to_none(" "), Some(" ".to_string()));
    assert_eq!(empty_to_none("я"), Some("я".to_string()));
}

#[test]
fn lines_are_written() {
    assert_eq!(cache_line("/a b", &entry(10, 20, Some("q"), Some("f"))), "/a b\t10\t20\tq\tf");
    assert_eq!(cache_line("", &entry(0, u64::MAX, None, None)), "\t0\t18446744073709551615\t\t");
}

#[test]
fn lines_are_read() {
    let (key, found) = parse_cache_line("путь\t7\t+8\t\tabc").unwrap();
    assert_eq!(key, "путь");
    assert_eq!((found.size, found.modified_unix_secs), (7, 8));
    assert_eq!(found.quick_hash, None);
    assert_eq!(found.full_hash, Some("abc".to_string()));
}

#[test]
fn lines_that_say_nothing() {
    for line in [
        "",
        "a",
        "a\t1\t2\tq",
        "a\t1\t2\tq\tf\t",
        "a\tx\t2\tq\tf",
        "a\t1\t\tq\tf",
        "a\t-1\t2\tq\tf",
        "a\t1\t18446744073709551616\tq\tf",
        "a\t 1\t2\tq\tf",
    ] {
        assert!(parse_cache_line(line).is_none(), "{:?}", line);
    }
}

#[test]
fn a_line_reads_back() {
    for row in [
        ("/x", 1, 2, Some("q"), Some("f")),
        ("", 0, 0, None, None),
        ("я €", u64::MAX, 5, None, Some("f")),
        ("r\r", 1, 1, Some("\r"), None),
    ] {
        let line = cache_line(row.0, &entry(row.1, row.2, row.3, row.4));
        let (key, found) = parse_cache_line(&line).unwrap();
        assert_eq!(key, row.0);
        assert_eq!((found.size, found.modified_unix_secs), (row.1, row.2));
        assert_eq!(found.quick_hash.as_deref(), row.3);
        assert_eq!(found.full_hash.as_deref(), row.4);
    }
}

#[test]
fn the_file_is_sorted_by_line() {
    let cache = filled(&[
        ("b", 1, 1, None, None),
        ("я", 1, 1, None, None),
        ("a", 2, 1, Some("q"), Some("f")),
        ("a b", 10, 1, None, None),
    ]);
    assert_eq!(
        String::from_utf8(save_cache(&cache)).unwrap(),
        "a\t2\t1\tq\tf\na b\t10\t1\t\t\nb\t1\t1\t\t\nя\t1\t1\t\t\n"
    );
    assert!(save_cache(&Cache::new()).is_empty());
}

#[test]
fn a_saved_cache_loads() {
    let rows: Vec<Row> = vec![
        ("/one", 1, 2, Some("q1"), Some("f1")),
        ("/two", 3, 4, Some("q2"), None),
        ("/три", 5, 6, None, Some("f3")),
        ("", 7, 8, None, None),
    ];
    let content = save_cache(&filled(&rows));
    let again = load_cache(&content, true);
    for row in rows {
        assert_known(&again, row);
    }
    assert_eq!(save_cache(&again), content);
}

#[test]
fn a_path_with_a_tab_is_not_given_back() {
    let again = load_cache(&save_cache(&filled(&[("a\tb", 1, 2, None, None)])), true);
    assert!(again.get("a\tb").is_none());
    assert!(save_cache(&again).is_empty());
}

#[test]
fn many_entries_are_kept_apart() {
    let mut cache = Cache::new();
    for i in 0..1000u64 {
        cache.insert(format!("/file {}", i), entry(i, i + 1, None, None));
    }
    let again = load_cache(&save_cache(&cache), true);
    for i in 0..1000u64 {
        let key = format!("/file {}", i);
        assert_known(&again, (key.as_str(), i, i + 1, None, None));
    }
}

#[test]
fn line_ends_of_both_kinds() {
    let cache = load_cache(b"a\t1\t2\tq\tf\r\nb\t3\t4\t\t\n\nc\t5\t6\tq\tf", true);
    assert_known(&cache, ("a", 1, 2, Some("q"), Some("f")));
    assert_known(&cache, ("b", 3, 4, None, None));
    assert_known(&cache, ("c", 5, 6, Some("q"), Some("f")));
}

#[test]
fn only_a_line_feed_ends_a_carriage_return() {
    let cache = load_cache(b"a\t1\t2\tq\tf\r", true);
    assert_known(&cache, ("a", 1, 2, Some("q"), Some("f\r")));
}

#[test]
fn a_line_cut_off_by_an_error_is_left_out() {
    let content = b"a\t1\t2\tq\tf\nb\t3\t4\tq\tf";
    let cache = load_cache(content, false);
    assert_known(&cache, ("a", 1, 2, Some("q"), Some("f")));
    assert!(cache.get("b").is_none());
    assert_known(&load_cache(content, true), ("b", 3, 4, Some("q"), Some("f")));
}

#[test]
fn reading_ends_where_text_ends() {
    let cache = load_cache(b"a\t1\t2\tq\tf\n\xff\xfe\nb\t3\t4\tq\tf\n", true);
    assert_known(&cache, ("a", 1, 2, Some("q"), Some("f")));
    assert!(cache.get("b").is_none());
}

#[test]
fn the_last_line_about_a_path_counts() {
    let cache = load_cache(b"a\t1\t2\tq\tf\nnot a line\na\t3\t4\t\tg\na\tx\t4\t\tg\n", true);
    assert_known(&cache, ("a", 3, 4, None, Some("g")));
}

#[test]
fn loaded_hashes_are_not_empty() {
    let cache = load_cache(b"a\t1\t2\t\t\n", true);
    assert_known(&cache, ("a", 1, 2, None, None));
}
