use duplicate_finder::order::{bytes_le, reversed};
use duplicate_finder::split::{split_bytes, split_chars};

#[test]
fn bytes_are_ordered_as_slices_are() {
    let texts: [&[u8]; 7] = [b"", b"a", b"ab", b"b", b"\xff", b"a\x00", b"A"];
    for a in texts {
        for b in texts {
            assert_eq!(bytes_le(&a.to_vec(), &b.to_vec()), a <= b);
        }
    }
}

#[test]
fn a_list_is_reversed() {
    assert_eq!(reversed(vec![1, 2, 3]), vec![3, 2, 1]);
    assert_eq!(reversed(Vec::<u8>::new()), Vec::<u8>::new());
}

#[test]
fn splitting_is_that_of_std() {
    for text in ["", "a", "\t", "a\tb", "\ta\t\tb\t"] {
        let chars: Vec<char> = text.chars().collect();
        let pieces: Vec<String> = split_chars(&chars, '\t')
            .into_iter()
            .map(|(from, to)| chars[from..to].iter().collect())
            .collect();
        let expected: Vec<String> = text.split('\t').map(|piece| piece.to_string()).collect();
        assert_eq!(pieces, expected);
        let bytes: Vec<&[u8]> = split_bytes(text.as_bytes(), b'\t')
            .into_iter()
            .map(|(from, to)| &text.as_bytes()[from..to])
            .collect();
        let expected: Vec<&[u8]> = text.as_bytes().split(|b| *b == b'\t').collect();
        assert_eq!(bytes, expected);
    }
}
