//! What the user sets: the memory limit, the number of threads, the directory.

use crate::text::{
    chars_of, digits_value, is_white_space, read_digits, trim, trimmed_between,
};
use vstd::prelude::*;

verus! {

/// Bytes that the quick hash reads of a file.
pub const QUICK_HASH_BYTES: usize = 131072;

/// Bytes of the buffer that one thread needs for a full hash.
pub const FULL_HASH_BUFFER_BYTES: usize = 1048576;

/// How many digits `s` begins with.
pub open spec fn leading_digits(s: Seq<char>) -> nat
    decreases s.len(),
{
    if s.len() > 0 && crate::text::is_digit(s.first()) {
        1 + leading_digits(s.drop_first())
    } else {
        0
    }
}

/// `c` with an ASCII capital made small.
pub open spec fn ascii_lower(c: char) -> char {
    if 'A' <= c <= 'Z' {
        (c as u32 + 32) as char
    } else {
        c
    }
}

/// The bytes that a unit of memory stands for, capital or small.
pub open spec fn unit_bytes(unit: Seq<char>) -> Option<nat> {
    let u = unit.map_values(|c: char| ascii_lower(c));
    if u.len() == 0 || u == seq!['b'] {
        Some(1)
    } else if u == seq!['k'] || u == seq!['k', 'b'] {
        Some(1024)
    } else if u == seq!['m'] || u == seq!['m', 'b'] {
        Some(1048576)
    } else if u == seq!['g'] || u == seq!['g', 'b'] {
        Some(1073741824)
    } else {
        None
    }
}

/// The memory limit in bytes that `input` stands for: a number and a unit, with
/// white space around either, or the message that says what is wrong with it.
pub open spec fn memory_limit(input: Seq<char>) -> Result<nat, Seq<char>> {
    let limit = crate::text::trimmed(input);
    let digits = leading_digits(limit) as int;
    let number = crate::text::digits_value(limit.take(digits));
    let unit = unit_bytes(crate::text::trimmed(limit.skip(digits)));
    if limit.len() == 0 {
        Err("пустое значение для --memory-limit"@)
    } else if digits == 0 {
        Err("не удалось прочитать размер памяти: "@ + limit)
    } else if number > u64::MAX {
        Err("неверное число в --memory-limit: "@ + limit)
    } else if unit is None {
        Err("неподдерживаемая единица в --memory-limit: "@ + limit)
    } else if number * unit->0 > u64::MAX {
        Err("слишком большое значение для --memory-limit: "@ + limit)
    } else {
        Ok(number * unit->0)
    }
}

/// `message` followed by `detail`.
fn with_detail(message: &str, detail: &str) -> (r: String)
    ensures
        r@ == message@ + detail@,
{
    let mut r: String = message.to_owned();
    r.append(detail);
    r
}

/// Makes an ASCII capital small.
fn lower(c: char) -> (r: char)
    ensures
        r == ascii_lower(c),
{
    if 'A' <= c && c <= 'Z' {
        ((c as u8) + 32) as char
    } else {
        c
    }
}

/// The bytes that a unit of memory stands for.
fn unit_size(unit: &str) -> (r: Option<u64>)
    ensures
        match r {
            Some(n) => unit_bytes(unit@) == Some(n as nat),
            None => unit_bytes(unit@) is None,
        },
{
    let chars = chars_of(unit);
    let ghost u = unit@.map_values(|c: char| ascii_lower(c));
    if chars.len() == 0 {
        assert(u.len() == 0);
        return Some(1);
    }
    if chars.len() > 2 {
        return None;
    }
    let first: char = lower(chars[0]);
    assert(u[0] == first);
    if chars.len() == 2 {
        let second: char = lower(chars[1]);
        assert(u[1] == second);
        assert(u =~= seq![first, second]);
        if second != 'b' {
            assert(u[1] != 'b');
            return None;
        }
        match first {
            'k' => Some(1024),
            'm' => Some(1048576),
            'g' => Some(1073741824),
            _ => None,
        }
    } else {
        assert(u =~= seq![first]);
        match first {
            'b' => Some(1),
            'k' => Some(1024),
            'm' => Some(1048576),
            'g' => Some(1073741824),
            _ => None,
        }
    }
}

/// Reads the memory limit.
pub fn parse_memory_limit(input: &str) -> (r: Result<u64, String>)
    ensures
        match r {
            Ok(bytes) => memory_limit(input@) == Ok::<nat, Seq<char>>(bytes as nat),
            Err(message) => memory_limit(input@) == Err::<nat, Seq<char>>(message@),
        },
{
    let limit: &str = trim(input);
    let chars = chars_of(limit);
    let len: usize = chars.len();
    if len == 0 {
        return Err("пустое значение для --memory-limit".to_owned());
    }
    let mut digits: usize = 0;
    assert(limit@.skip(0) =~= limit@);
    while digits < len && '0' <= chars[digits] && chars[digits] <= '9'
        invariant
            chars@ == limit@,
            len == chars.len(),
            digits <= len,
            leading_digits(limit@) == digits + leading_digits(limit@.skip(digits as int)),
            crate::text::all_digits(limit@.take(digits as int)),
        decreases len - digits,
    {
        assert(limit@.skip(digits as int).drop_first() =~= limit@.skip(digits + 1));
        assert(limit@.take(digits + 1) =~= limit@.take(digits as int).push(chars[digits as int]));
        digits = digits + 1;
    }
    assert(leading_digits(limit@) == digits);
    if digits == 0 {
        return Err(with_detail("не удалось прочитать размер памяти: ", limit));
    }
    assert(limit@.subrange(0, digits as int) =~= limit@.take(digits as int));
    let number: u64 = match read_digits(&chars, 0, digits, u64::MAX) {
        Some(number) => number,
        None => {
            return Err(with_detail("неверное число в --memory-limit: ", limit));
        },
    };
    let unit: &str = trim(limit.substring_char(digits, len));
    assert(limit@.subrange(digits as int, len as int) =~= limit@.skip(digits as int));
    let size: u64 = match unit_size(unit) {
        Some(size) => size,
        None => {
            return Err(with_detail("неподдерживаемая единица в --memory-limit: ", limit));
        },
    };
    match number.checked_mul(size) {
        Some(bytes) => Ok(bytes),
        None => Err(with_detail("слишком большое значение для --memory-limit: ", limit)),
    }
}

/// A row of digits is read up to where it ends.
proof fn lemma_leading_digits(digits: Seq<char>, rest: Seq<char>)
    requires
        crate::text::all_digits(digits),
        rest.len() > 0 ==> !crate::text::is_digit(rest.first()),
    ensures
        leading_digits(digits + rest) == digits.len(),
    decreases digits.len(),
{
    if digits.len() > 0 {
        let tail = digits.drop_first();
        assert forall|i: int| 0 <= i < tail.len() implies crate::text::is_digit(
            #[trigger] tail[i],
        ) by {
            assert(tail[i] == digits[i + 1]);
        }
        lemma_leading_digits(tail, rest);
        assert(crate::text::is_digit(digits[0]));
        assert((digits + rest).drop_first() =~= tail + rest);
    } else {
        assert(digits + rest =~= rest);
    }
}

/// The letters of a unit are neither digits nor white space.
proof fn lemma_unit_letters(unit: Seq<char>)
    requires
        unit_bytes(unit) is Some,
    ensures
        forall|i: int|
            0 <= i < unit.len() ==> !crate::text::is_digit(#[trigger] unit[i])
                && !crate::text::is_white_space(unit[i]),
{
    let u = unit.map_values(|c: char| ascii_lower(c));
    assert forall|i: int| 0 <= i < unit.len() implies !crate::text::is_digit(#[trigger] unit[i])
        && !crate::text::is_white_space(unit[i]) by {
        assert(u[i] == ascii_lower(unit[i]));
        assert('a' <= u[i] <= 'z');
    }
}

/// A number in base ten and a unit stand for the number times the unit, as far
/// as that fits in 64 bits.
pub proof fn number_and_unit(number: nat, unit: Seq<char>)
    requires
        unit_bytes(unit) is Some,
        number <= u64::MAX,
    ensures
        memory_limit(crate::text::decimal(number) + unit) == (if number * unit_bytes(unit)->0
            <= u64::MAX {
            Ok::<nat, Seq<char>>(number * unit_bytes(unit)->0)
        } else {
            Err(
                "слишком большое значение для --memory-limit: "@ + (crate::text::decimal(number)
                    + unit),
            )
        }),
{
    let digits = crate::text::decimal(number);
    let input = digits + unit;
    crate::text::decimal_reads_back(number);
    lemma_unit_letters(unit);
    assert(crate::text::is_digit(digits[0]));
    assert(input.first() == digits[0]);
    assert(unit.len() == 0 ==> input.last() == digits[digits.len() - 1]);
    assert(unit.len() > 0 ==> input.last() == unit[unit.len() - 1]);
    assert(crate::text::trimmed(input) == input);
    lemma_leading_digits(digits, unit);
    assert(input.take(digits.len() as int) =~= digits);
    assert(input.skip(digits.len() as int) =~= unit);
    assert(crate::text::trimmed(unit) == unit);
}

/// What a memory limit means, digit by digit and letter by letter. The limit is
/// digits and a unit, with white space before, between and after. The units are
/// b, k or kb, m or mb, g or gb, in capital or small letters, or none for bytes.
pub proof fn memory_limit_means(
    before: Seq<char>,
    digits: Seq<char>,
    gap: Seq<char>,
    unit: Seq<char>,
    after: Seq<char>,
)
    requires
        forall|i: int| 0 <= i < before.len() ==> is_white_space(#[trigger] before[i]),
        forall|i: int| 0 <= i < gap.len() ==> is_white_space(#[trigger] gap[i]),
        forall|i: int| 0 <= i < after.len() ==> is_white_space(#[trigger] after[i]),
        forall|i: int| 0 <= i < digits.len() ==> '0' <= #[trigger] digits[i] <= '9',
        unit.len() > 0 ==> !is_white_space(unit.first()) && !is_white_space(unit.last()),
        unit.len() > 0 && gap.len() == 0 ==> !('0' <= unit.first() <= '9'),
        unit.len() == 0 || digits.len() == 0 ==> gap.len() == 0,
    ensures
        ({
            let limit = digits + gap + unit;
            let result = memory_limit(before + limit + after);
            let number = digits_value(digits);
            let letter = |i: int, small: char, capital: char|
                0 <= i < unit.len() && (unit[i] == small || unit[i] == capital);
            let bytes = unit.len() == 0 || (unit.len() == 1 && letter(0, 'b', 'B'));
            let scaled = |small: char, capital: char|
                letter(0, small, capital) && (unit.len() == 1 || (unit.len() == 2 && letter(
                    1,
                    'b',
                    'B',
                )));
            let size: nat = if bytes {
                1
            } else if scaled('k', 'K') {
                1024
            } else if scaled('m', 'M') {
                1024 * 1024
            } else if scaled('g', 'G') {
                1024 * 1024 * 1024
            } else {
                0
            };
            if digits.len() == 0 && unit.len() == 0 {
                result == Err::<nat, Seq<char>>("пустое значение для --memory-limit"@)
            } else if digits.len() == 0 {
                result == Err::<nat, Seq<char>>("не удалось прочитать размер памяти: "@ + limit)
            } else if number > u64::MAX {
                result == Err::<nat, Seq<char>>("неверное число в --memory-limit: "@ + limit)
            } else if size == 0 {
                result == Err::<nat, Seq<char>>(
                    "неподдерживаемая единица в --memory-limit: "@ + limit,
                )
            } else if number * size > u64::MAX {
                result == Err::<nat, Seq<char>>(
                    "слишком большое значение для --memory-limit: "@ + limit,
                )
            } else {
                result == Ok::<nat, Seq<char>>(number * size)
            }
        }),
{
    let limit = digits + gap + unit;
    let rest = gap + unit;
    assert(limit =~= digits + rest);
    if digits.len() > 0 {
        assert('0' <= digits[0] <= '9');
        assert('0' <= digits[digits.len() - 1] <= '9');
        assert(limit.first() == digits[0]);
    } else {
        assert(limit =~= unit);
    }
    if unit.len() > 0 {
        assert(limit.last() == unit.last());
    } else {
        assert(limit =~= digits);
    }
    trimmed_between(before, limit, after);
    assert(crate::text::all_digits(digits));
    if gap.len() > 0 {
        assert(is_white_space(gap[0]));
        assert(rest.first() == gap[0]);
    } else {
        assert(rest =~= unit);
    }
    lemma_leading_digits(digits, rest);
    assert(limit.take(digits.len() as int) =~= digits);
    assert(limit.skip(digits.len() as int) =~= rest);
    let none = Seq::<char>::empty();
    assert(gap + unit + none =~= rest);
    trimmed_between(gap, unit, none);
    lemma_unit_bytes(unit);
}

/// What a unit stands for, letter by letter.
proof fn lemma_unit_bytes(unit: Seq<char>)
    ensures
        ({
            let letter = |i: int, small: char, capital: char|
                0 <= i < unit.len() && (unit[i] == small || unit[i] == capital);
            let bytes = unit.len() == 0 || (unit.len() == 1 && letter(0, 'b', 'B'));
            let scaled = |small: char, capital: char|
                letter(0, small, capital) && (unit.len() == 1 || (unit.len() == 2 && letter(
                    1,
                    'b',
                    'B',
                )));
            unit_bytes(unit) == (if bytes {
                Some(1nat)
            } else if scaled('k', 'K') {
                Some(1024nat)
            } else if scaled('m', 'M') {
                Some(1048576nat)
            } else if scaled('g', 'G') {
                Some(1073741824nat)
            } else {
                None
            })
        }),
{
    let u = unit.map_values(|c: char| ascii_lower(c));
    assert(u.len() == unit.len());
    if unit.len() == 1 {
        assert(u[0] == ascii_lower(unit[0]));
        assert(u =~= seq![u[0]]);
        assert(seq!['b'][0] == 'b' && seq!['k'][0] == 'k' && seq!['m'][0] == 'm' && seq!['g'][0]
            == 'g');
    } else if unit.len() == 2 {
        assert(u[0] == ascii_lower(unit[0]));
        assert(u[1] == ascii_lower(unit[1]));
        assert(u =~= seq![u[0], u[1]]);
        assert(seq!['k', 'b'][0] == 'k' && seq!['k', 'b'][1] == 'b');
        assert(seq!['m', 'b'][0] == 'm' && seq!['m', 'b'][1] == 'b');
        assert(seq!['g', 'b'][0] == 'g' && seq!['g', 'b'][1] == 'b');
    }
}

/// The path between double quotes, white space around them left out, is the path
/// that is named; without a quote at both ends the text itself is.
pub proof fn path_is_named(before: Seq<char>, path: Seq<char>, after: Seq<char>)
    requires
        forall|i: int| 0 <= i < before.len() ==> is_white_space(#[trigger] before[i]),
        forall|i: int| 0 <= i < after.len() ==> is_white_space(#[trigger] after[i]),
    ensures
        named_path(before + (seq!['"'] + path + seq!['"']) + after) == path,
        path.len() == 0 || (!is_white_space(path.first()) && !is_white_space(path.last()) && !(
        path.first() == '"' && path.last() == '"')) ==> named_path(before + path + after) == path,
{
    let quoted = seq!['"'] + path + seq!['"'];
    assert(quoted.first() == '"' && quoted.last() == '"');
    trimmed_between(before, quoted, after);
    assert(quoted.subrange(1, quoted.len() - 1) =~= path);
    if path.len() == 0 || (!is_white_space(path.first()) && !is_white_space(path.last())) {
        trimmed_between(before, path, after);
    }
}

/// How many threads hash files: as many as were asked for, but no more than
/// have a full buffer each within the memory limit, and at least one.
pub fn worker_threads(requested: usize, memory_limit_bytes: u64) -> (r: usize)
    ensures
        r >= 1,
        r > 1 ==> r <= requested,
        r > 1 ==> r * FULL_HASH_BUFFER_BYTES <= memory_limit_bytes,
        r < requested && memory_limit_bytes / 1048576 <= usize::MAX ==> (r + 1)
            * FULL_HASH_BUFFER_BYTES > memory_limit_bytes,
        ({
            let by_memory = (memory_limit_bytes / 1048576) as usize;
            let allowed = if by_memory == 0 { 1 } else { by_memory };
            r == (if requested == 0 { 1 } else if requested < allowed { requested } else { allowed })
        }),
{
    let buffers: u64 = memory_limit_bytes / FULL_HASH_BUFFER_BYTES as u64;
    assert(buffers == memory_limit_bytes / 1048576);
    assert(buffers as usize <= buffers) by (bit_vector);
    let by_memory: usize = buffers as usize;
    let allowed: usize = if by_memory == 0 { 1 } else { by_memory };
    let wanted: usize = if requested < allowed { requested } else { allowed };
    assert(wanted > 1 ==> wanted * 1048576 <= buffers * 1048576);
    if wanted == 0 {
        1
    } else {
        wanted
    }
}

/// The path that a line of input names: white space around it is left out, and
/// so is a pair of double quotes.
pub open spec fn named_path(input: Seq<char>) -> Seq<char> {
    let path = crate::text::trimmed(input);
    if path.len() >= 2 && path.first() == '"' && path.last() == '"' {
        path.subrange(1, path.len() - 1)
    } else {
        path
    }
}

/// Reads the path of the directory to search from a line of input. A line
/// whose only visible character is one double quote names no path.
pub fn parse_search_path(input: &str) -> (r: &str)
    requires
        crate::text::trimmed(input@) != seq!['"'],
    ensures
        r@ == named_path(input@),
{
    let path: &str = trim(input);
    let chars = chars_of(path);
    let len: usize = chars.len();
    if len >= 1 && chars[0] == '"' && chars[len - 1] == '"' {
        proof {
            if len == 1 {
                assert(path@ =~= seq!['"']);
            }
        }
        path.substring_char(1, len - 1)
    } else {
        path
    }
}

} // verus!
