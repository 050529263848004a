//! Names for files that are moved to where their name may be taken.

use crate::encoding::{encoded_ascii, encoded_joined, encoded_not_empty, encoded_without};
use crate::text::{decimal, decimal_string, utf8_text};
use vstd::prelude::*;
use vstd::utf8::{
    decode_utf8, encode_utf8, encode_utf8_decode_utf8, encode_utf8_valid_utf8, valid_utf8,
};

verus! {

/// The index of the last dot of `name`, or -1.
pub open spec fn last_dot(name: Seq<u8>) -> int
    decreases name.len(),
{
    if name.len() == 0 {
        -1
    } else if name.last() == 46 {
        name.len() - 1
    } else {
        last_dot(name.drop_last())
    }
}

/// Names that stand for no file.
pub open spec fn names_no_file(name: Seq<u8>) -> bool {
    name.len() == 0 || name == seq![46u8] || name == seq![46u8, 46u8]
}

/// The part of a file name before its last dot; a name without a dot, or with
/// none but the one that it begins with, is all stem.
pub open spec fn stem(name: Seq<u8>) -> Seq<u8> {
    if last_dot(name) <= 0 {
        name
    } else {
        name.take(last_dot(name))
    }
}

/// The part of a file name after the dot that ends its stem.
pub open spec fn extension(name: Seq<u8>) -> Seq<u8> {
    if last_dot(name) <= 0 {
        Seq::<u8>::empty()
    } else {
        name.skip(last_dot(name) + 1)
    }
}

/// The stem as text; `duplicate` where there is none, or it is not text.
pub open spec fn stem_text(name: Seq<u8>) -> Seq<char> {
    if !names_no_file(name) && valid_utf8(stem(name)) {
        decode_utf8(stem(name))
    } else {
        "duplicate"@
    }
}

/// The extension as text; empty where there is none, or it is not text.
pub open spec fn extension_text(name: Seq<u8>) -> Seq<char> {
    if !names_no_file(name) && valid_utf8(extension(name)) {
        decode_utf8(extension(name))
    } else {
        Seq::<char>::empty()
    }
}

/// The name with a number: `stem_number.extension`, or `stem_number` where there
/// is no extension.
pub open spec fn numbered(name: Seq<u8>, number: nat) -> Seq<char> {
    let base = stem_text(name).push('_') + decimal(number);
    if extension_text(name).len() == 0 {
        base
    } else {
        base.push('.') + extension_text(name)
    }
}

/// A name to try.
pub enum Candidate {
    /// The file's own name.
    Original,
    /// Another name.
    Renamed(String),
}

/// The index of the last dot of `name`.
fn find_last_dot(name: &[u8]) -> (r: Option<usize>)
    ensures
        match r {
            Some(i) => last_dot(name@) == i && i < name@.len(),
            None => last_dot(name@) == -1,
        },
{
    let mut i: usize = name.len();
    assert(name@.take(i as int) =~= name@);
    while i > 0
        invariant
            i <= name@.len(),
            last_dot(name@) == last_dot(name@.take(i as int)),
        decreases i,
    {
        assert(name@.take(i as int).drop_last() =~= name@.take(i - 1));
        if name[i - 1] == 46 {
            return Some(i - 1);
        }
        i = i - 1;
    }
    None
}

/// The name that the file `name` gets in another directory at the given attempt:
/// first its own, then its stem with a number. A name is the last component of
/// a path.
pub fn unique_destination(name: &[u8], attempt: u32) -> (r: Candidate)
    requires
        !name@.contains(47u8),
    ensures
        match r {
            Candidate::Original => attempt == 0,
            Candidate::Renamed(other) => attempt > 0 && other@ == numbered(name@, attempt as nat),
        },
{
    if attempt == 0 {
        return Candidate::Original;
    }
    let len: usize = name.len();
    let no_file: bool = len == 0 || (len == 1 && name[0] == 46) || (len == 2 && name[0] == 46
        && name[1] == 46);
    proof {
        if len == 1 {
            assert(name@ =~= seq![name[0]]);
            assert(seq![46u8][0] == 46u8);
        }
        if len == 2 {
            assert(name@ =~= seq![name[0], name[1]]);
            assert(seq![46u8, 46u8][0] == 46u8 && seq![46u8, 46u8][1] == 46u8);
        }
        assert(no_file == names_no_file(name@));
    }
    let mut stem_end: usize = len;
    let mut extension_start: usize = len;
    match find_last_dot(name) {
        Some(dot) => {
            if dot > 0 {
                stem_end = dot;
                extension_start = dot + 1;
            }
        },
        None => {},
    }
    assert(name@.subrange(0, stem_end as int) =~= stem(name@));
    assert(name@.subrange(extension_start as int, len as int) =~= extension(name@));
    let mut other: String = "duplicate".to_owned();
    let mut ending: &str = "";
    proof {
        reveal_strlit("");
        reveal_strlit("_");
        reveal_strlit(".");
    }
    assert(""@ =~= Seq::<char>::empty());
    if !no_file {
        match utf8_text(vstd::slice::slice_subrange(name, 0, stem_end)) {
            Some(text) => {
                other = text.to_owned();
            },
            None => {},
        }
        match utf8_text(vstd::slice::slice_subrange(name, extension_start, len)) {
            Some(text) => {
                ending = text;
            },
            None => {},
        }
    }
    assert(other@ == stem_text(name@));
    assert(ending@ == extension_text(name@));
    other.append("_");
    other.append(decimal_string(attempt as u64).as_str());
    if !ending.is_empty() {
        other.append(".");
        other.append(ending);
    }
    assert(other@ =~= numbered(name@, attempt as nat));
    Candidate::Renamed(other)
}

/// Different numbers make different names.
pub proof fn numbered_names_differ(name: Seq<u8>, a: nat, b: nat)
    requires
        a != b,
    ensures
        numbered(name, a) != numbered(name, b),
{
    if numbered(name, a) == numbered(name, b) {
        let front = stem_text(name).push('_');
        let ending = extension_text(name);
        let x = numbered(name, a);
        let y = numbered(name, b);
        let tail = if ending.len() == 0 {
            0
        } else {
            ending.len() + 1
        };
        assert(x.len() == front.len() + decimal(a).len() + tail);
        assert(y.len() == front.len() + decimal(b).len() + tail);
        assert(decimal(a) =~= x.subrange(front.len() as int, x.len() - tail));
        assert(decimal(b) =~= y.subrange(front.len() as int, y.len() - tail));
        crate::text::decimal_injective(a, b);
    }
}

/// The bytes of the name that is tried at an attempt: first the file's own name,
/// then the name with the number of the attempt.
pub open spec fn attempt_name(name: Seq<u8>, attempt: nat) -> Seq<u8> {
    if attempt == 0 {
        name
    } else {
        encode_utf8(numbered(name, attempt))
    }
}

/// What follows an attempt: the next one where the name is taken, else nothing.
pub open spec fn after_attempt(attempt: nat, taken: bool) -> Option<nat> {
    if taken {
        Some(attempt + 1)
    } else {
        None
    }
}

/// Says which attempt follows, given whether the name of this one is taken. None
/// follows where it is free: the file gets that name.
pub fn next_attempt(attempt: u32, taken: bool) -> (r: Option<u32>)
    requires
        attempt < u32::MAX,
    ensures
        match r {
            Some(next) => after_attempt(attempt as nat, taken) == Some(next as nat),
            None => after_attempt(attempt as nat, taken) is None,
        },
{
    if taken {
        Some(attempt + 1)
    } else {
        None
    }
}

/// Whether the attempts, from the first, come to this one, given the names that
/// are taken.
pub open spec fn reaches(name: Seq<u8>, taken: Set<Seq<u8>>, attempt: nat) -> bool
    decreases attempt,
{
    attempt == 0 || {
        let before = (attempt - 1) as nat;
        reaches(name, taken, before) && after_attempt(
            before,
            taken.contains(attempt_name(name, before)),
        ) == Some(attempt)
    }
}

/// Whether the attempts end with this one.
pub open spec fn settles(name: Seq<u8>, taken: Set<Seq<u8>>, attempt: nat) -> bool {
    reaches(name, taken, attempt) && after_attempt(
        attempt,
        taken.contains(attempt_name(name, attempt)),
    ) is None
}

/// The name that a file gets, given the names that are taken.
pub open spec fn destination(name: Seq<u8>, taken: Set<Seq<u8>>) -> Seq<u8> {
    attempt_name(name, choose|attempt: nat| settles(name, taken, attempt))
}

/// An attempt is reached if and only if the names of all attempts before it are
/// taken.
proof fn lemma_reaches(name: Seq<u8>, taken: Set<Seq<u8>>, attempt: nat)
    ensures
        reaches(name, taken, attempt) <==> forall|k: nat|
            k < attempt ==> taken.contains(#[trigger] attempt_name(name, k)),
    decreases attempt,
{
    if attempt > 0 {
        lemma_reaches(name, taken, (attempt - 1) as nat);
        if reaches(name, taken, attempt) {
            assert forall|k: nat| k < attempt implies taken.contains(
                #[trigger] attempt_name(name, k),
            ) by {
                if k == attempt - 1 {
                    assert(taken.contains(attempt_name(name, (attempt - 1) as nat)));
                }
            }
        } else if forall|k: nat|
            k < attempt ==> taken.contains(#[trigger] attempt_name(name, k)) {
            assert(taken.contains(attempt_name(name, (attempt - 1) as nat)));
        }
    }
}

/// The attempts end with the least one whose name is free, and with no other.
pub proof fn settles_at_first_free(name: Seq<u8>, taken: Set<Seq<u8>>, attempt: nat)
    ensures
        settles(name, taken, attempt) <==> !taken.contains(attempt_name(name, attempt)) && (forall|
            k: nat,
        |
            k < attempt ==> taken.contains(#[trigger] attempt_name(name, k))),
{
    lemma_reaches(name, taken, attempt);
}

/// Different attempts from the second on have different names.
proof fn lemma_attempts_differ(name: Seq<u8>, a: nat, b: nat)
    requires
        a != b,
        a > 0,
        b > 0,
    ensures
        attempt_name(name, a) != attempt_name(name, b),
{
    numbered_names_differ(name, a, b);
    encode_utf8_decode_utf8(numbered(name, a));
    encode_utf8_decode_utf8(numbered(name, b));
}

/// The attempts come to an end: no later than with one more number than there are
/// names taken.
pub proof fn free_name_exists(name: Seq<u8>, taken: Set<Seq<u8>>)
    requires
        taken.finite(),
    ensures
        exists|attempt: nat|
            attempt <= taken.len() + 1 && #[trigger] settles(name, taken, attempt),
{
    let last = taken.len() + 1;
    let tried = Seq::new(last, |i: int| attempt_name(name, (i + 1) as nat));
    if forall|k: nat| k <= last ==> taken.contains(#[trigger] attempt_name(name, k)) {
        assert(tried.no_duplicates()) by {
            assert forall|i: int, j: int| 0 <= i < tried.len() && 0 <= j < tried.len() && i
                != j implies tried[i] != tried[j] by {
                lemma_attempts_differ(name, (i + 1) as nat, (j + 1) as nat);
            }
        }
        tried.unique_seq_to_set();
        assert(tried.to_set().subset_of(taken)) by {
            assert forall|x: Seq<u8>| tried.to_set().contains(x) implies taken.contains(x) by {
                let i = tried.index_of(x);
                assert(x == attempt_name(name, (i + 1) as nat));
            }
        }
        vstd::set_lib::lemma_len_subset(tried.to_set(), taken);
    } else {
        let free = choose|k: nat| k <= last && !taken.contains(#[trigger] attempt_name(name, k));
        lemma_settles_by(name, taken, free);
    }
}

/// The attempts end no later than with one whose name is free.
proof fn lemma_settles_by(name: Seq<u8>, taken: Set<Seq<u8>>, free: nat)
    requires
        !taken.contains(attempt_name(name, free)),
    ensures
        exists|attempt: nat| attempt <= free && #[trigger] settles(name, taken, attempt),
    decreases free,
{
    if forall|k: nat| k < free ==> taken.contains(#[trigger] attempt_name(name, k)) {
        settles_at_first_free(name, taken, free);
    } else {
        let k = choose|k: nat| k < free && !taken.contains(#[trigger] attempt_name(name, k));
        lemma_settles_by(name, taken, k);
        let attempt = choose|attempt: nat| attempt <= k && #[trigger] settles(name, taken, attempt);
        assert(settles(name, taken, attempt));
    }
}

/// The name that a file gets is free; it is the file's own name if and only if
/// that is free, and else the name with the least number that is free.
pub proof fn destination_is_free(name: Seq<u8>, taken: Set<Seq<u8>>)
    requires
        taken.finite(),
    ensures
        !taken.contains(destination(name, taken)),
        destination(name, taken) == name <==> !taken.contains(name),
        taken.contains(name) ==> exists|number: nat|
            #![trigger numbered(name, number)]
            {
                &&& number >= 1
                &&& destination(name, taken) == encode_utf8(numbered(name, number))
                &&& forall|k: nat|
                    1 <= k < number ==> taken.contains(encode_utf8(#[trigger] numbered(name, k)))
            },
{
    free_name_exists(name, taken);
    let attempt = choose|attempt: nat| settles(name, taken, attempt);
    assert(settles(name, taken, attempt));
    settles_at_first_free(name, taken, attempt);
    if attempt > 0 {
        assert(taken.contains(attempt_name(name, 0)));
        assert forall|k: nat| 1 <= k < attempt implies taken.contains(
            encode_utf8(#[trigger] numbered(name, k)),
        ) by {
            assert(taken.contains(attempt_name(name, k)));
        }
        assert(destination(name, taken) == encode_utf8(numbered(name, attempt)));
    }
}

/// Where the last dot is.
proof fn lemma_last_dot(name: Seq<u8>)
    ensures
        -1 <= last_dot(name) < name.len(),
        last_dot(name) >= 0 ==> name[last_dot(name)] == 46,
        forall|i: int| last_dot(name) < i < name.len() ==> #[trigger] name[i] != 46,
    decreases name.len(),
{
    if name.len() > 0 && name.last() != 46 {
        let front = name.drop_last();
        lemma_last_dot(front);
        assert forall|i: int| last_dot(name) < i < name.len() implies #[trigger] name[i] != 46 by {
            if i < front.len() {
                assert(front[i] == name[i]);
            }
        }
    }
}

/// Stem and extension make up a name: where there is a dot behind the first byte,
/// the name is the stem, a dot and the extension, and the extension has no dot; else
/// all of the name is the stem, and there is no extension.
pub proof fn stem_and_extension(name: Seq<u8>)
    ensures
        (exists|i: int| 0 < i < name.len() && #[trigger] name[i] == 46) ==> name == stem(name)
            + seq![46u8] + extension(name) && !extension(name).contains(46u8),
        !(exists|i: int| 0 < i < name.len() && #[trigger] name[i] == 46) ==> stem(name) == name
            && extension(name).len() == 0,
{
    lemma_last_dot(name);
    let dot = last_dot(name);
    if dot > 0 {
        assert(name[dot] == 46);
        assert(name =~= stem(name) + seq![46u8] + extension(name));
        if extension(name).contains(46u8) {
            let i = extension(name).index_of(46u8);
            assert(name[dot + 1 + i] == 46);
        }
    } else if exists|i: int| 0 < i < name.len() && #[trigger] name[i] == 46 {
        let i = choose|i: int| 0 < i < name.len() && #[trigger] name[i] == 46;
        assert(last_dot(name) < i);
    }
}

/// Stem and extension of bytes on either side of a dot.
proof fn lemma_parts(front: Seq<u8>, back: Seq<u8>)
    requires
        front.len() > 0,
        !back.contains(46u8),
    ensures
        ({
            let name = front + seq![46u8] + back;
            &&& stem(name) == front
            &&& extension(name) == back
            &&& names_no_file(name) <==> front == seq![46u8] && back.len() == 0
        }),
{
    let name = front + seq![46u8] + back;
    let n = front.len() as int;
    lemma_last_dot(name);
    assert(name[n] == 46);
    if last_dot(name) > n {
        assert(back[last_dot(name) - n - 1] == 46);
    }
    assert(name.take(n) =~= front);
    assert(name.skip(n + 1) =~= back);
    assert(seq![46u8, 46u8][0] == 46u8 && seq![46u8, 46u8][1] == 46u8);
    if name == seq![46u8, 46u8] {
        assert(front =~= seq![46u8]);
    }
    if front == seq![46u8] && back.len() == 0 {
        assert(name =~= seq![46u8, 46u8]);
    }
}

/// Stem and extension of bytes without a dot behind the first.
proof fn lemma_no_parts(name: Seq<u8>)
    requires
        forall|i: int| 0 < i < name.len() ==> #[trigger] name[i] != 46,
    ensures
        stem(name) == name,
        extension(name).len() == 0,
        names_no_file(name) <==> name.len() == 0 || name == seq![46u8],
{
    stem_and_extension(name);
    if name == seq![46u8, 46u8] {
        assert(name[1] == 46u8);
    }
}

/// A text is valid, and reads as itself; one without a dot has no dot among its
/// bytes.
proof fn lemma_text(s: Seq<char>)
    ensures
        valid_utf8(encode_utf8(s)),
        decode_utf8(encode_utf8(s)) == s,
        encode_utf8(s).len() == 0 <==> s.len() == 0,
        !s.contains('.') ==> !encode_utf8(s).contains(46u8),
        encode_utf8(s) == seq![46u8] ==> s == seq!['.'],
{
    encode_utf8_valid_utf8(s);
    encode_utf8_decode_utf8(s);
    encoded_not_empty(s);
    if !s.contains('.') {
        encoded_without(s, '.');
    }
    if encode_utf8(s) == seq![46u8] {
        encoded_ascii('.');
        encode_utf8_decode_utf8(seq!['.']);
    }
}

/// How a name is numbered: `s.e` becomes `s_N.e`, whatever stem and extension are, as
/// long as the extension is the part behind the last dot and is not empty; a name
/// without extension becomes `s_N`. A dot at the start begins no extension, and one
/// at the end is left out.
pub proof fn numbered_texts(s: Seq<char>, e: Seq<char>, number: nat)
    requires
        s.len() > 0,
        e.len() > 0,
        !e.contains('.'),
    ensures
        ({
            let n = seq!['_'] + decimal(number);
            &&& numbered(encode_utf8(s) + seq![46u8] + encode_utf8(e), number) == s + n + seq!['.']
                + e
            &&& numbered(encode_utf8(e), number) == e + n
            &&& numbered(seq![46u8] + encode_utf8(e), number) == seq!['.'] + e + n
            &&& s != seq!['.'] ==> numbered(encode_utf8(s) + seq![46u8], number) == s + n
        }),
{
    let n = seq!['_'] + decimal(number);
    let none = Seq::<u8>::empty();
    lemma_text(s);
    lemma_text(e);
    lemma_text(Seq::<char>::empty());
    assert(encode_utf8(Seq::<char>::empty()) =~= none);
    lemma_parts(encode_utf8(s), encode_utf8(e));
    let both = encode_utf8(s) + seq![46u8] + encode_utf8(e);
    assert(numbered(both, number) =~= s + n + seq!['.'] + e);

    let plain = encode_utf8(e);
    assert forall|i: int| 0 < i < plain.len() implies #[trigger] plain[i] != 46 by {
        assert(plain.contains(plain[i]));
    }
    lemma_no_parts(plain);
    assert(plain != seq![46u8]) by {
        assert(seq![46u8][0] == 46u8);
        assert(plain.contains(plain[0]));
    }
    assert(extension(plain) =~= none);
    assert(numbered(plain, number) =~= e + n);

    let dotted = seq![46u8] + plain;
    let text = seq!['.'] + e;
    encoded_joined(seq!['.'], e);
    encoded_ascii('.');
    assert(encode_utf8(text) == dotted);
    lemma_text(text);
    assert forall|i: int| 0 < i < dotted.len() implies #[trigger] dotted[i] != 46 by {
        assert(dotted[i] == plain[i - 1]);
        assert(plain.contains(plain[i - 1]));
    }
    lemma_no_parts(dotted);
    assert(dotted.len() > 1);
    assert(extension(dotted) =~= none);
    assert(numbered(dotted, number) =~= seq!['.'] + e + n);

    if s != seq!['.'] {
        lemma_parts(encode_utf8(s), none);
        let ended = encode_utf8(s) + seq![46u8];
        assert(ended + none =~= ended);
        assert(encode_utf8(s) != seq![46u8]);
        assert(numbered(ended, number) =~= s + n);
    }
}

/// How a name is numbered that is not text: a stem that is not text is replaced by
/// `duplicate`, an extension that is not text is left out.
pub proof fn numbered_bytes(bytes: Seq<u8>, s: Seq<char>, e: Seq<char>, number: nat)
    requires
        !valid_utf8(bytes),
        s.len() > 0,
        e.len() > 0,
        !e.contains('.'),
    ensures
        ({
            let n = seq!['_'] + decimal(number);
            &&& numbered(bytes + seq![46u8] + encode_utf8(e), number) == "duplicate"@ + n
                + seq!['.'] + e
            &&& !bytes.contains(46u8) ==> numbered(bytes, number) == "duplicate"@ + n
            &&& !bytes.contains(46u8) ==> numbered(
                encode_utf8(s) + seq![46u8] + bytes,
                number,
            ) == s + n
        }),
{
    let n = seq!['_'] + decimal(number);
    let none = Seq::<u8>::empty();
    assert(bytes.len() > 0) by {
        if bytes.len() == 0 {
            assert(valid_utf8(bytes));
        }
    }
    lemma_text(s);
    lemma_text(e);
    lemma_text(Seq::<char>::empty());
    assert(encode_utf8(Seq::<char>::empty()) =~= none);
    lemma_parts(bytes, encode_utf8(e));
    assert(numbered(bytes + seq![46u8] + encode_utf8(e), number) =~= "duplicate"@ + n + seq!['.']
        + e);
    if !bytes.contains(46u8) {
        assert forall|i: int| 0 < i < bytes.len() implies #[trigger] bytes[i] != 46 by {
            assert(bytes.contains(bytes[i]));
        }
        lemma_no_parts(bytes);
        assert(extension(bytes) =~= none);
        assert(numbered(bytes, number) =~= "duplicate"@ + n);
        lemma_parts(encode_utf8(s), bytes);
        assert(numbered(encode_utf8(s) + seq![46u8] + bytes, number) =~= s + n);
    }
}

/// What stands for no file is numbered as `duplicate_N`.
pub proof fn numbered_nothing(number: nat)
    ensures
        numbered(Seq::<u8>::empty(), number) == "duplicate"@ + (seq!['_'] + decimal(number)),
        numbered(seq![46u8], number) == "duplicate"@ + (seq!['_'] + decimal(number)),
        numbered(seq![46u8, 46u8], number) == "duplicate"@ + (seq!['_'] + decimal(number)),
{
    assert(numbered(Seq::<u8>::empty(), number) =~= "duplicate"@ + (seq!['_'] + decimal(number)));
    assert(numbered(seq![46u8], number) =~= "duplicate"@ + (seq!['_'] + decimal(number)));
    assert(numbered(seq![46u8, 46u8], number) =~= "duplicate"@ + (seq!['_'] + decimal(number)));
}

/// The first attempt is the file's own name, and each later one the name with the
/// number of the attempt.
pub proof fn attempts_are_numbered(name: Seq<u8>, number: nat)
    requires
        number > 0,
    ensures
        attempt_name(name, 0) == name,
        attempt_name(name, number) == encode_utf8(numbered(name, number)),
        after_attempt(number, true) == Some(number + 1),
        after_attempt(0, true) == Some(1nat),
        after_attempt(number, false) is None,
        after_attempt(0, false) is None,
{
}

} // verus!
