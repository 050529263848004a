use duplicate_finder::settings::{
    parse_memory_limit, parse_search_path, worker_threads, FULL_HASH_BUFFER_BYTES, QUICK_HASH_BYTES,
};

#[test]
fn buffer_sizes() {
    assert_eq!(QUICK_HASH_BYTES, 128 * 1024);
    assert_eq!(FULL_HASH_BUFFER_BYTES, 1024 * 1024);
}

#[test]
fn memory_limit_examples() {
    assert_eq!(parse_memory_limit("256MB"), Ok(256 * 1024 * 1024));
    assert_eq!(parse_memory_limit("1GB"), Ok(1024 * 1024 * 1024));
    assert_eq!(parse_memory_limit("131072KB"), Ok(128 * 1024 * 1024));
    assert_eq!(parse_memory_limit("512MB"), Ok(512 * 1024 * 1024));
}

#[test]
fn memory_limit_units() {
    for (unit, size) in [
        ("", 1u64),
        ("b", 1),
        ("B", 1),
        ("k", 1024),
        ("K", 1024),
        ("kb", 1024),
        ("kB", 1024),
        ("m", 1048576),
        ("Mb", 1048576),
        ("g", 1073741824),
        ("gB", 1073741824),
    ] {
        assert_eq!(parse_memory_limit(&format!("3{}", unit)), Ok(3 * size));
        assert_eq!(parse_memory_limit(&format!(" 3 \t{}\n", unit)), Ok(3 * size));
    }
    assert_eq!(parse_memory_limit("0g"), Ok(0));
    assert_eq!(parse_memory_limit("007"), Ok(7));
    assert_eq!(parse_memory_limit("18446744073709551615"), Ok(u64::MAX));
}

#[test]
fn empty_memory_limit() {
    for input in ["", "   ", "\t\n"] {
        assert_eq!(
            parse_memory_limit(input),
            Err("пустое значение для --memory-limit".to_string())
        );
    }
}

#[test]
fn memory_limit_without_a_number() {
    assert_eq!(
        parse_memory_limit(" MB "),
        Err("не удалось прочитать размер памяти: MB".to_string())
    );
    assert_eq!(
        parse_memory_limit("-5MB"),
        Err("не удалось прочитать размер памяти: -5MB".to_string())
    );
    assert_eq!(
        parse_memory_limit("+5MB"),
        Err("не удалось прочитать размер памяти: +5MB".to_string())
    );
}

#[test]
fn memory_limit_with_too_long_a_number() {
    assert_eq!(
        parse_memory_limit("18446744073709551616"),
        Err("неверное число в --memory-limit: 18446744073709551616".to_string())
    );
    assert_eq!(
        parse_memory_limit("99999999999999999999xyz"),
        Err("неверное число в --memory-limit: 99999999999999999999xyz".to_string())
    );
}

#[test]
fn memory_limit_with_an_unknown_unit() {
    for input in ["5TB", "5bb", "1.5GB", "5KiB", "5 k b", "5я"] {
        assert_eq!(
            parse_memory_limit(input),
            Err(format!("неподдерживаемая единица в --memory-limit: {}", input))
        );
    }
}

#[test]
fn memory_limit_that_is_too_large() {
    assert_eq!(
        parse_memory_limit("18446744073709551615KB"),
        Err("слишком большое значение для --memory-limit: 18446744073709551615KB".to_string())
    );
    assert_eq!(parse_memory_limit("17179869183GB"), Ok(17179869183 * 1073741824));
    assert_eq!(
        parse_memory_limit("17179869184GB"),
        Err("слишком большое значение для --memory-limit: 17179869184GB".to_string())
    );
}

#[test]
fn threads_fit_in_memory() {
    assert_eq!(worker_threads(8, 256 * 1024 * 1024), 8);
    assert_eq!(worker_threads(8, 4 * 1024 * 1024), 4);
    assert_eq!(worker_threads(8, 4 * 1024 * 1024 + 1048575), 4);
    assert_eq!(worker_threads(8, 0), 1);
    assert_eq!(worker_threads(8, 1048575), 1);
    assert_eq!(worker_threads(0, 256 * 1024 * 1024), 1);
    assert_eq!(worker_threads(0, 0), 1);
    assert_eq!(worker_threads(usize::MAX, 2 * 1024 * 1024), 2);
}

#[test]
fn search_path_with_and_without_quotes() {
    assert_eq!(parse_search_path("/tmp/a b\n"), "/tmp/a b");
    assert_eq!(parse_search_path("  \"C:/Users/User\"\r\n"), "C:/Users/User");
    assert_eq!(parse_search_path("\"\""), "");
    assert_eq!(parse_search_path("\"half"), "\"half");
    assert_eq!(parse_search_path("half\""), "half\"");
    assert_eq!(parse_search_path("\" inner \""), " inner ");
    assert_eq!(parse_search_path("\"\"\""), "\"");
    assert_eq!(parse_search_path("\n"), "");
    assert_eq!(parse_search_path("\"папка\""), "папка");
}
