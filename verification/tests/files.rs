use duplicate_finder::files::{path_le, path_starts_with, PathPart};
use std::path::{Component, Path};

fn parts(path: &str) -> Vec<PathPart> {
    Path::new(path)
        .components()
        .map(|component| match component {
            Component::Prefix(prefix) => {
                PathPart::Prefix(prefix.as_os_str().as_encoded_bytes().to_vec())
            }
            Component::RootDir => PathPart::RootDir,
            Component::CurDir => PathPart::CurDir,
            Component::ParentDir => PathPart::ParentDir,
            Component::Normal(name) => PathPart::Normal(name.as_encoded_bytes().to_vec()),
        })
        .collect()
}

const PATHS: [&str; 16] = [
    "", "/", ".", "..", "a", "a/b", "a.b", "a b", "a/b/c", "/a", "./a", "../a", "b", "aa", "я", "a/.b",
];

#[test]
fn paths_are_ordered_component_by_component() {
    for a in PATHS {
        for b in PATHS {
            assert_eq!(path_le(&parts(a), &parts(b)), Path::new(a) <= Path::new(b), "{} {}", a, b);
        }
    }
    assert!(path_le(&parts("a/b"), &parts("a.b")));
    assert!(!path_le(&parts("a.b"), &parts("a/b")));
}

#[test]
fn paths_below_a_directory() {
    for a in PATHS {
        for b in PATHS {
            assert_eq!(
                path_starts_with(&parts(a), &parts(b)),
                Path::new(a).starts_with(Path::new(b)),
                "{} {}",
                a,
                b
            );
        }
    }
    assert!(path_starts_with(&parts("/x/.duplicates/a"), &parts("/x/.duplicates")));
    assert!(path_starts_with(&parts("/x/.duplicates"), &parts("/x/.duplicates/")));
    assert!(!path_starts_with(&parts("/x/.duplicates2/a"), &parts("/x/.duplicates")));
}
