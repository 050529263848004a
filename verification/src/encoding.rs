//! Text and its bytes in UTF-8.

use vstd::prelude::*;
use vstd::utf8::{decode_utf8, encode_scalar, encode_utf8, valid_utf8};

verus! {

/// A character takes bytes, and an ASCII byte among them is the character itself.
pub proof fn ascii_bytes_are_characters(c: char)
    ensures
        encode_scalar(c as u32).len() > 0,
        forall|i: int|
            0 <= i < encode_scalar(c as u32).len() ==> {
                let b = #[trigger] encode_scalar(c as u32)[i];
                b < 128 ==> b as int == c as int
            },
{
    let v = c as u32;
    assert(v <= 0x7f ==> (v & 0x7F) as u8 as u32 == v) by (bit_vector);
    assert(0xC0u8 | ((v >> 6) & 0x1F) as u8 >= 128u8) by (bit_vector);
    assert(0xE0u8 | ((v >> 12) & 0x0F) as u8 >= 128u8) by (bit_vector);
    assert(0xF0u8 | ((v >> 18) & 0x7) as u8 >= 128u8) by (bit_vector);
    assert(0x80u8 | (v & 0x3F) as u8 >= 128u8) by (bit_vector);
    assert(0x80u8 | ((v >> 6) & 0x3F) as u8 >= 128u8) by (bit_vector);
    assert(0x80u8 | ((v >> 12) & 0x3F) as u8 >= 128u8) by (bit_vector);
}

/// An ASCII byte of encoded text is a character of the text.
pub proof fn encoded_without(s: Seq<char>, c: char)
    requires
        c as u32 <= 127,
        !s.contains(c),
    ensures
        !encode_utf8(s).contains(c as u8),
    decreases s.len(),
{
    if s.len() > 0 {
        let head = encode_scalar(s[0] as u32);
        let rest = encode_utf8(s.drop_first());
        ascii_bytes_are_characters(s[0]);
        assert(s.contains(s[0]));
        assert(s[0] as int != c as int);
        assert(c as u8 as int == c as int);
        assert(!s.drop_first().contains(c)) by {
            if s.drop_first().contains(c) {
                let i = s.drop_first().index_of(c);
                assert(s[i + 1] == c);
            }
        }
        encoded_without(s.drop_first(), c);
        let all = encode_utf8(s);
        if all.contains(c as u8) {
            let i = all.index_of(c as u8);
            if i < head.len() {
                assert(head[i] == c as u8);
            } else {
                assert(rest[i - head.len()] == c as u8);
                assert(rest.contains(c as u8));
            }
        }
    }
}

/// The last byte of encoded text is an ASCII character only if that character
/// ends the text.
pub proof fn encoded_end(s: Seq<char>, c: char)
    requires
        s.len() > 0,
        c as u32 <= 127,
        s.last() != c,
    ensures
        encode_utf8(s).len() > 0,
        encode_utf8(s).last() != c as u8,
    decreases s.len(),
{
    ascii_bytes_are_characters(s[0]);
    let head = encode_scalar(s[0] as u32);
    if s.len() == 1 {
        assert(encode_utf8(s.drop_first()) =~= Seq::<u8>::empty());
        assert(encode_utf8(s) =~= head);
        assert(head[head.len() - 1] == encode_utf8(s).last());
        assert(s[0] as int != c as int);
        assert(c as u8 as int == c as int);
    } else {
        encoded_end(s.drop_first(), c);
    }
}

/// Text has the characters whose bytes it has.
pub proof fn decoded_char(bytes: Seq<u8>, c: char)
    requires
        valid_utf8(bytes),
        c as u32 <= 127,
        decode_utf8(bytes).contains(c),
    ensures
        bytes.contains(c as u8),
{
    let s = decode_utf8(bytes);
    vstd::utf8::decode_utf8_encode_utf8(bytes);
    encoded_char(s, c);
}

/// An ASCII character of a text is a byte of its encoding.
pub proof fn encoded_char(s: Seq<char>, c: char)
    requires
        c as u32 <= 127,
        s.contains(c),
    ensures
        encode_utf8(s).contains(c as u8),
    decreases s.len(),
{
    let head = encode_scalar(s[0] as u32);
    let rest = encode_utf8(s.drop_first());
    let all = encode_utf8(s);
    if s[0] == c {
        let v = c as u32;
        assert(v <= 0x7f ==> (v & 0x7F) as u8 as u32 == v) by (bit_vector);
        assert(head[0] == c as u8);
        assert(all[0] == c as u8);
    } else {
        let i = s.index_of(c);
        assert(s.drop_first()[i - 1] == c);
        encoded_char(s.drop_first(), c);
        let k = rest.index_of(c as u8);
        assert(all[head.len() + k] == c as u8);
    }
}

/// Texts that are joined have their bytes joined.
pub proof fn encoded_joined(a: Seq<char>, b: Seq<char>)
    ensures
        encode_utf8(a + b) == encode_utf8(a) + encode_utf8(b),
    decreases a.len(),
{
    if a.len() > 0 {
        let rest = a.drop_first();
        encoded_joined(rest, b);
        assert((a + b).drop_first() =~= rest + b);
        assert((a + b)[0] == a[0]);
        assert(encode_utf8(a + b) =~= encode_scalar(a[0] as u32) + encode_utf8(rest)
            + encode_utf8(b));
    } else {
        assert(a + b =~= b);
        assert(encode_utf8(a) =~= Seq::<u8>::empty());
        assert(encode_utf8(a) + encode_utf8(b) =~= encode_utf8(b));
    }
}

/// An ASCII character is one byte.
pub proof fn encoded_ascii(c: char)
    requires
        c as u32 <= 127,
    ensures
        encode_utf8(seq![c]) == seq![c as u8],
{
    let v = c as u32;
    assert(v <= 0x7f ==> (v & 0x7F) as u8 as u32 == v) by (bit_vector);
    assert(seq![c].drop_first() =~= Seq::<char>::empty());
    assert(seq![c][0] == c);
    assert(encode_utf8(Seq::<char>::empty()) =~= Seq::<u8>::empty());
    assert(encode_utf8(seq![c]) =~= seq![c as u8]);
}

/// Text that is not empty has bytes.
pub proof fn encoded_not_empty(s: Seq<char>)
    ensures
        encode_utf8(s).len() == 0 <==> s.len() == 0,
{
    if s.len() > 0 {
        ascii_bytes_are_characters(s[0]);
    }
}

} // verus!
