use duplicate_finder::destination::{next_attempt, unique_destination, Candidate};

fn renamed(name: &[u8], attempt: u32) -> String {
    match unique_destination(name, attempt) {
        Candidate::Renamed(other) => other,
        Candidate::Original => panic!("not renamed"),
    }
}

#[test]
fn the_own_name_comes_first() {
    for name in [b"a.txt".as_slice(), b"\xff", b"", b".."] {
        assert!(matches!(unique_destination(name, 0), Candidate::Original));
    }
}

#[test]
fn numbers_come_before_the_extension() {
    assert_eq!(renamed(b"a.txt", 1), "a_1.txt");
    assert_eq!(renamed(b"a.txt", 12), "a_12.txt");
    assert_eq!(renamed(b"archive.tar.gz", 2), "archive.tar_2.gz");
    assert_eq!(renamed("фото.jpg".as_bytes(), 3), "фото_3.jpg");
    assert_eq!(renamed(b"a.b", u32::MAX), "a_4294967295.b");
}

#[test]
fn names_without_an_extension() {
    assert_eq!(renamed(b"a", 1), "a_1");
    assert_eq!(renamed(b".bashrc", 1), ".bashrc_1");
    assert_eq!(renamed(b"a.", 1), "a_1");
    assert_eq!(renamed(b"...", 1), ".._1");
    assert_eq!(renamed(b"..a", 1), "._1.a");
}

#[test]
fn names_that_are_not_text() {
    assert_eq!(renamed(b"\xff.txt", 1), "duplicate_1.txt");
    assert_eq!(renamed(b"a.\xff", 1), "a_1");
    assert_eq!(renamed(b"\xff", 4), "duplicate_4");
    assert_eq!(renamed(b"..", 1), "duplicate_1");
    assert_eq!(renamed(b".", 1), "duplicate_1");
    assert_eq!(renamed(b"", 1), "duplicate_1");
}

#[test]
fn stems_are_those_of_std() {
    for name in ["a.txt", "a", ".a", "a.", "a.b.c", "..a", "...", "я.ю", " . "] {
        let path = std::path::Path::new(name);
        let stem = path.file_stem().and_then(|s| s.to_str()).unwrap_or("duplicate");
        let ext = path.extension().and_then(|s| s.to_str()).unwrap_or("");
        let expected =
            if ext.is_empty() { format!("{}_7", stem) } else { format!("{}_7.{}", stem, ext) };
        assert_eq!(renamed(name.as_bytes(), 7), expected);
    }
}

#[test]
fn attempts_go_on_while_names_are_taken() {
    assert_eq!(next_attempt(0, false), None);
    assert_eq!(next_attempt(0, true), Some(1));
    assert_eq!(next_attempt(7, false), None);
    assert_eq!(next_attempt(7, true), Some(8));
    assert_eq!(next_attempt(u32::MAX - 1, true), Some(u32::MAX));
}

/// The name that a file gets where some names are taken.
fn settled(name: &str, taken: &[&str]) -> String {
    let mut attempt = 0;
    loop {
        let candidate = match unique_destination(name.as_bytes(), attempt) {
            Candidate::Original => name.to_string(),
            Candidate::Renamed(other) => other,
        };
        match next_attempt(attempt, taken.contains(&candidate.as_str())) {
            Some(next) => attempt = next,
            None => return candidate,
        }
    }
}

#[test]
fn the_first_free_name_is_taken() {
    assert_eq!(settled("a.txt", &[]), "a.txt");
    assert_eq!(settled("a.txt", &["a_1.txt", "b.txt"]), "a.txt");
    assert_eq!(settled("a.txt", &["a.txt"]), "a_1.txt");
    assert_eq!(settled("a.txt", &["a.txt", "a_1.txt", "a_2.txt", "a_4.txt"]), "a_3.txt");
    assert_eq!(settled("a", &["a", "a_1"]), "a_2");
}

#[test]
fn files_of_one_name_are_moved_apart() {
    let mut there = vec!["a.txt".to_string()];
    for name in ["a.txt", "b", "a.txt", "b", "a_1.txt"] {
        let taken: Vec<&str> = there.iter().map(|name| name.as_str()).collect();
        let place = settled(name, &taken);
        assert!(!there.contains(&place));
        there.push(place);
    }
    assert_eq!(there, vec!["a.txt", "a_1.txt", "b", "a_2.txt", "b_1", "a_1_1.txt"]);
}
