use duplicate_finder::hash::FileHasher;
use duplicate_finder::settings::{FULL_HASH_BUFFER_BYTES, QUICK_HASH_BYTES};

/// Feeds a file to a hasher, at most `most` bytes a read.
fn hash_in_reads(mut hasher: FileHasher, content: &[u8], most: usize) -> String {
    let buffer_len = hasher.buffer_len();
    let mut at = 0;
    loop {
        let wanted = hasher.next_read(buffer_len);
        if wanted == 0 {
            break;
        }
        let count = wanted.min(most).min(content.len() - at);
        assert!(hasher.has_room(count));
        hasher.absorb(&content[at..at + count]);
        at += count;
    }
    hasher.finish()
}

#[test]
fn known_hashes() {
    assert_eq!(
        hash_in_reads(FileHasher::full(), b"", 10),
        "e3b0c44298fc1c149afbf4c8996fb92427ae41e4649b934ca495991b7852b855"
    );
    assert_eq!(
        hash_in_reads(FileHasher::full(), b"abc", 10),
        "ba7816bf8f01cfea414140de5dae2223b00361a396177a9cb410ff61f20015ad"
    );
    assert_eq!(
        hash_in_reads(FileHasher::partial(QUICK_HASH_BYTES), b"abc", 10),
        "ba7816bf8f01cfea414140de5dae2223b00361a396177a9cb410ff61f20015ad"
    );
}

#[test]
fn reads_do_not_matter() {
    let content: Vec<u8> = (0..5000u32).map(|i| (i % 251) as u8).collect();
    let whole = hash_in_reads(FileHasher::full(), &content, usize::MAX);
    for most in [1, 7, 64, 4999, 5000] {
        assert_eq!(hash_in_reads(FileHasher::full(), &content, most), whole);
        assert_eq!(hash_in_reads(FileHasher::partial(QUICK_HASH_BYTES), &content, most), whole);
    }
}

#[test]
fn quick_hash_stops_after_its_bytes() {
    let start = "b44ffb72fcc259676bd80495fef1b44b808ca8f1ffe1b1706a4d7911b0e31f11";
    let a = vec![b'a'; QUICK_HASH_BYTES + 1];
    let mut b = vec![b'a'; QUICK_HASH_BYTES];
    b.push(b'b');
    for most in [1000, QUICK_HASH_BYTES, usize::MAX] {
        assert_eq!(hash_in_reads(FileHasher::partial(QUICK_HASH_BYTES), &a, most), start);
        assert_eq!(hash_in_reads(FileHasher::partial(QUICK_HASH_BYTES), &b, most), start);
    }
    assert_eq!(
        hash_in_reads(FileHasher::full(), &a, usize::MAX),
        "7e009ea4ef882e385b3c0bcbbfa8d009bb0a633bdd764415c09182ee0e75da73"
    );
    assert_eq!(
        hash_in_reads(FileHasher::full(), &b, usize::MAX),
        "072de8232acb785183942eaabdf70a233712a1b54ccada64b8bf860ba09a9b50"
    );
}

#[test]
fn shorter_limits() {
    assert_eq!(
        hash_in_reads(FileHasher::partial(5), b"hello world", usize::MAX),
        "2cf24dba5fb0a30e26e83b2ac5b9e29e1b161e5c1fa7425e73043362938b9824"
    );
    assert_eq!(
        hash_in_reads(FileHasher::partial(0), b"hello world", usize::MAX),
        "e3b0c44298fc1c149afbf4c8996fb92427ae41e4649b934ca495991b7852b855"
    );
}

#[test]
fn buffers_and_reads() {
    assert_eq!(FileHasher::full().buffer_len(), FULL_HASH_BUFFER_BYTES);
    assert_eq!(FileHasher::partial(QUICK_HASH_BYTES).buffer_len(), QUICK_HASH_BYTES);
    assert_eq!(FileHasher::partial(QUICK_HASH_BYTES + 9).buffer_len(), QUICK_HASH_BYTES);
    assert_eq!(FileHasher::partial(10).buffer_len(), 10);

    let mut hasher = FileHasher::partial(10);
    assert_eq!(hasher.next_read(4), 4);
    hasher.absorb(b"abcd");
    assert_eq!(hasher.next_read(4), 4);
    hasher.absorb(b"efg");
    assert_eq!(hasher.next_read(4), 3);
    hasher.absorb(b"hij");
    assert_eq!(hasher.next_read(4), 0);

    let mut whole = FileHasher::full();
    assert_eq!(whole.next_read(1000), 1000);
    whole.absorb(b"x");
    assert_eq!(whole.next_read(1000), 1000);
    whole.absorb(b"");
    assert_eq!(whole.next_read(1000), 0);
}

#[test]
fn room_for_a_message() {
    let mut hasher = FileHasher::full();
    assert!(hasher.has_room(1 << 60));
    assert!(hasher.has_room((1 << 61) - 1));
    assert!(!hasher.has_room(1 << 61));
    hasher.absorb(b"abc");
    assert!(hasher.has_room((1 << 61) - 4));
    assert!(!hasher.has_room((1 << 61) - 3));
}
