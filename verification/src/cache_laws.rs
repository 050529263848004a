//! What holds of writing a cache file and reading it back.

use crate::cache::{
    ended_lines, entry_line, key_line, line_entry, lines_cache, lines_of, loaded, or_empty, readable,
    saved, saved_lines, without_return, CacheEntry, CacheEntryView,
};
use crate::encoding::{
    decoded_char, encoded_ascii, encoded_end, encoded_joined, encoded_without,
};
use crate::hash::is_hash_text;
use crate::order::{bytes_order, bytes_order_is_total, set_in_sequence};
use crate::split::{split, split_counts, split_joined, split_not_empty, split_pieces_clean, split_whole};
use crate::text::{decimal, decimal_reads_back, is_digit, unsigned, unsigned_reads_decimal};
use vstd::prelude::*;
use vstd::utf8::{
    decode_utf8, encode_utf8, encode_utf8_decode_utf8, encode_utf8_valid_utf8, valid_utf8,
};

verus! {

/// Text that a field of a line can hold: no tab and no line feed.
pub open spec fn fits_field(s: Seq<char>) -> bool {
    !s.contains('\t') && !s.contains('\n')
}

/// A hash that a line can hold: text that fits a field, and is not empty.
pub open spec fn fits_hash(hash: Option<Seq<char>>) -> bool {
    hash matches Some(h) ==> h.len() > 0 && fits_field(h)
}

/// An entry that a line can hold. The full hash ends the line, so that it must
/// not end in a carriage return.
pub open spec fn storable(key: Seq<char>, entry: CacheEntryView) -> bool {
    &&& fits_field(key)
    &&& fits_hash(entry.quick_hash)
    &&& fits_hash(entry.full_hash)
    &&& entry.full_hash matches Some(h) ==> h.last() != '\r'
}

/// A cache that a file can hold.
pub open spec fn all_storable(cache: Map<Seq<char>, CacheEntryView>) -> bool {
    forall|key: Seq<char>| #[trigger] cache.contains_key(key) ==> storable(key, cache[key])
}

/// Pieces joined by separators are cut into the same pieces.
proof fn lemma_fields(a: Seq<char>, b: Seq<char>, c: Seq<char>, d: Seq<char>, e: Seq<char>)
    requires
        !a.contains('\t'),
        !b.contains('\t'),
        !c.contains('\t'),
        !d.contains('\t'),
        !e.contains('\t'),
    ensures
        split(a.push('\t') + b.push('\t') + c.push('\t') + d.push('\t') + e, '\t') == seq![
            a,
            b,
            c,
            d,
            e,
        ],
{
    let t = '\t';
    split_whole(a, t);
    split_whole(b, t);
    split_whole(c, t);
    split_whole(d, t);
    split_whole(e, t);
    let ab = a.push(t) + b;
    let abc = a.push(t) + b.push(t) + c;
    let abcd = a.push(t) + b.push(t) + c.push(t) + d;
    let all = a.push(t) + b.push(t) + c.push(t) + d.push(t) + e;
    split_joined(a, t, b);
    assert(abc =~= ab.push(t) + c);
    split_joined(ab, t, c);
    assert(abcd =~= abc.push(t) + d);
    split_joined(abc, t, d);
    assert(all =~= abcd.push(t) + e);
    split_joined(abcd, t, e);
    assert(split(all, t) =~= seq![a, b, c, d, e]);
}

proof fn lemma_decimal_clean(n: nat, c: char)
    requires
        !is_digit(c),
    ensures
        !decimal(n).contains(c),
{
    decimal_reads_back(n);
}

/// A line says again what was written in it.
pub proof fn line_reads_back(key: Seq<char>, entry: CacheEntryView)
    requires
        storable(key, entry),
    ensures
        line_entry(entry_line(key, entry)) == Some((key, entry)),
{
    lemma_decimal_clean(entry.size as nat, '\t');
    lemma_decimal_clean(entry.modified_unix_secs as nat, '\t');
    lemma_fields(
        key,
        decimal(entry.size as nat),
        decimal(entry.modified_unix_secs as nat),
        or_empty(entry.quick_hash),
        or_empty(entry.full_hash),
    );
    unsigned_reads_decimal(entry.size as nat, u64::MAX as nat);
    unsigned_reads_decimal(entry.modified_unix_secs as nat, u64::MAX as nat);
}

proof fn lemma_contains_joined(a: Seq<char>, b: Seq<char>, x: char)
    ensures
        (a + b).contains(x) == (a.contains(x) || b.contains(x)),
{
    let s = a + b;
    if a.contains(x) {
        assert(s[a.index_of(x)] == x);
    }
    if b.contains(x) {
        assert(s[a.len() + b.index_of(x)] == x);
    }
    if s.contains(x) {
        let i = s.index_of(x);
        if i < a.len() {
            assert(a[i] == x);
        } else {
            assert(b[i - a.len()] == x);
        }
    }
}

proof fn lemma_contains_pushed(a: Seq<char>, y: char, x: char)
    ensures
        a.push(y).contains(x) == (a.contains(x) || y == x),
{
    assert(a.push(y) =~= a + seq![y]);
    lemma_contains_joined(a, seq![y], x);
    assert(seq![y].contains(x) == (y == x)) by {
        assert(seq![y][0] == y);
    }
}

/// The bytes of a line hold no line feed and do not end in a carriage return.
proof fn lemma_line_bytes(key: Seq<char>, entry: CacheEntryView)
    requires
        storable(key, entry),
    ensures
        !encode_utf8(entry_line(key, entry)).contains(10u8),
        without_return(encode_utf8(entry_line(key, entry))) == encode_utf8(entry_line(key, entry)),
{
    let n = '\n';
    let size = decimal(entry.size as nat);
    let modified = decimal(entry.modified_unix_secs as nat);
    let quick = or_empty(entry.quick_hash);
    let full = or_empty(entry.full_hash);
    lemma_decimal_clean(entry.size as nat, n);
    lemma_decimal_clean(entry.modified_unix_secs as nat, n);
    lemma_contains_pushed(key, '\t', n);
    lemma_contains_pushed(size, '\t', n);
    lemma_contains_pushed(modified, '\t', n);
    lemma_contains_pushed(quick, '\t', n);
    lemma_contains_joined(key.push('\t'), size.push('\t'), n);
    lemma_contains_joined(key.push('\t') + size.push('\t'), modified.push('\t'), n);
    lemma_contains_joined(
        key.push('\t') + size.push('\t') + modified.push('\t'),
        quick.push('\t'),
        n,
    );
    let front = key.push('\t') + size.push('\t') + modified.push('\t') + quick.push('\t');
    lemma_contains_joined(front, full, n);
    let line = entry_line(key, entry);
    assert(line == front + full);
    encoded_without(line, n);
    if full.len() == 0 {
        assert(line.last() == front.last());
        assert(front.last() == '\t');
    } else {
        assert(line.last() == full.last());
    }
    encoded_end(line, '\r');
}

/// Lines that are ended one by one are cut into the same lines.
proof fn lemma_split_ended(lines: Seq<Seq<u8>>, tail: Seq<u8>)
    requires
        forall|i: int| 0 <= i < lines.len() ==> !(#[trigger] lines[i]).contains(10u8),
        !tail.contains(10u8),
    ensures
        split(ended_lines(lines) + tail, 10u8) == lines.push(tail),
    decreases lines.len(),
{
    split_whole(tail, 10u8);
    if lines.len() == 0 {
        assert(ended_lines(lines) + tail =~= tail);
        assert(lines.push(tail) =~= seq![tail]);
    } else {
        let rest = lines.drop_last();
        let front = ended_lines(rest) + lines.last();
        assert(!lines[lines.len() - 1].contains(10u8));
        lemma_split_ended(rest, lines.last());
        assert(ended_lines(lines) + tail =~= front.push(10u8) + tail);
        split_joined(front, 10u8, tail);
        assert(rest.push(lines.last()) =~= lines);
        assert(lines.push(tail) =~= lines + seq![tail]);
    }
}

/// Encoded text is readable and reads as it was.
proof fn lemma_readable(lines: Seq<Seq<u8>>, texts: Seq<Seq<char>>)
    requires
        lines.len() == texts.len(),
        forall|i: int| 0 <= i < lines.len() ==> #[trigger] lines[i] == encode_utf8(texts[i]),
    ensures
        readable(lines) == texts,
    decreases lines.len(),
{
    if lines.len() > 0 {
        assert(lines[0] == encode_utf8(texts[0]));
        encode_utf8_valid_utf8(texts[0]);
        encode_utf8_decode_utf8(texts[0]);
        let rest = lines.drop_first();
        assert forall|i: int| 0 <= i < rest.len() implies #[trigger] rest[i] == encode_utf8(
            texts.drop_first()[i],
        ) by {
            assert(rest[i] == lines[i + 1]);
        }
        lemma_readable(rest, texts.drop_first());
        assert(seq![texts[0]] + texts.drop_first() =~= texts);
    } else {
        assert(readable(lines) =~= texts);
    }
}

/// Lines about a cache say what the cache holds of the paths they are about.
proof fn lemma_lines_cache(
    keys: Seq<Seq<char>>,
    texts: Seq<Seq<char>>,
    cache: Map<Seq<char>, CacheEntryView>,
)
    requires
        all_storable(cache),
        keys.len() == texts.len(),
        forall|i: int|
            0 <= i < keys.len() ==> cache.contains_key(#[trigger] keys[i]) && texts[i]
                == entry_line(keys[i], cache[keys[i]]),
    ensures
        forall|key: Seq<char>| #[trigger]
            lines_cache(texts).contains_key(key) <==> keys.contains(key),
        forall|key: Seq<char>| #[trigger]
            lines_cache(texts).contains_key(key) ==> lines_cache(texts)[key] == cache[key],
    decreases keys.len(),
{
    if keys.len() > 0 {
        let last = keys.last();
        assert(keys[keys.len() - 1] == last);
        line_reads_back(last, cache[last]);
        let keys0 = keys.drop_last();
        assert forall|i: int| 0 <= i < keys0.len() implies cache.contains_key(#[trigger] keys0[i])
            && texts.drop_last()[i] == entry_line(keys0[i], cache[keys0[i]]) by {
            assert(keys0[i] == keys[i]);
        }
        lemma_lines_cache(keys0, texts.drop_last(), cache);
        assert(texts.last() == entry_line(last, cache[last]));
        assert(lines_cache(texts) == lines_cache(texts.drop_last()).insert(last, cache[last]));
        assert(keys.contains(last));
        assert forall|key: Seq<char>| #[trigger]
            lines_cache(texts).contains_key(key) <==> keys.contains(key) by {
            if keys0.contains(key) {
                assert(keys[keys0.index_of(key)] == key);
            }
            if keys.contains(key) && key != last {
                assert(keys0[keys.index_of(key)] == key);
            }
        }
    }
}

/// Whether `line` is the line about `key`.
spec fn is_line_about(cache: Map<Seq<char>, CacheEntryView>, key: Seq<char>, line: Seq<u8>) -> bool {
    cache.contains_key(key) && line == key_line(cache)(key)
}

/// A cache that is written to a file and read back is the same cache.
pub proof fn saved_cache_loads(cache: Map<Seq<char>, CacheEntryView>)
    requires
        cache.dom().finite(),
        all_storable(cache),
    ensures
        loaded(saved(cache), true) == cache,
{
    broadcast use vstd::multiset::group_multiset_axioms;
    broadcast use vstd::seq_lib::group_to_multiset_ensures;

    let names = cache.dom().to_seq();
    let written = names.map_values(key_line(cache));
    let lines = saved_lines(cache);
    set_in_sequence(cache.dom());
    bytes_order_is_total();
    written.lemma_sort_by_ensures(bytes_order());
    assert forall|i: int| 0 <= i < lines.len() implies exists|key: Seq<char>| #[trigger]
        is_line_about(cache, key, #[trigger] lines[i]) by {
        assert(lines.contains(lines[i]));
        assert(lines.to_multiset().count(lines[i]) > 0);
        assert(written.contains(lines[i]));
        let j = written.index_of(lines[i]);
        assert(names.contains(names[j]));
        assert(is_line_about(cache, names[j], lines[i]));
    }
    let keys = Seq::new(
        lines.len(),
        |i: int| choose|key: Seq<char>| #[trigger] is_line_about(cache, key, lines[i]),
    );
    let texts = Seq::new(lines.len(), |i: int| entry_line(keys[i], cache[keys[i]]));
    assert forall|i: int| 0 <= i < lines.len() implies #[trigger] lines[i] == encode_utf8(texts[i])
        && !lines[i].contains(10u8) && without_return(lines[i]) == lines[i] && cache.contains_key(
        keys[i],
    ) by {
        assert(is_line_about(cache, keys[i], lines[i]));
        lemma_line_bytes(keys[i], cache[keys[i]]);
    }
    assert forall|i: int| 0 <= i < keys.len() implies cache.contains_key(#[trigger] keys[i])
        && texts[i] == entry_line(keys[i], cache[keys[i]]) by {
        assert(lines[i] == encode_utf8(texts[i]));
    }
    lemma_split_ended(lines, Seq::<u8>::empty());
    assert(saved(cache) + Seq::<u8>::empty() =~= saved(cache));
    let pieces = lines.push(Seq::<u8>::empty());
    assert(pieces.drop_last() =~= lines);
    assert(lines.map_values(|line: Seq<u8>| without_return(line)) =~= lines);
    assert(lines_of(saved(cache), true) =~= lines);
    lemma_readable(lines, texts);
    lemma_lines_cache(keys, texts, cache);
    assert forall|key: Seq<char>| cache.contains_key(key) implies keys.contains(key) by {
        assert(names.contains(key));
        let j = names.index_of(key);
        assert(written[j] == key_line(cache)(key));
        assert(written.contains(written[j]));
        assert(lines.to_multiset().count(written[j]) > 0);
        assert(lines.contains(written[j]));
        let i = lines.index_of(written[j]);
        line_reads_back(key, cache[key]);
        line_reads_back(keys[i], cache[keys[i]]);
        encode_utf8_decode_utf8(entry_line(key, cache[key]));
        encode_utf8_decode_utf8(texts[i]);
        assert(lines[i] == encode_utf8(texts[i]));
        assert(keys[i] == key);
    }
    assert(loaded(saved(cache), true) =~= cache);
}

/// A hash as it is computed can be stored.
pub proof fn hash_text_is_storable(hash: Seq<char>)
    requires
        is_hash_text(hash),
    ensures
        fits_hash(Some(hash)),
        hash.last() != '\r',
{
    assert('0' <= hash[63] <= '9' || 'a' <= hash[63] <= 'f');
}

/// No line of a file holds a line feed.
proof fn lemma_lines_clean(content: Seq<u8>, complete: bool)
    ensures
        forall|k: int|
            0 <= k < lines_of(content, complete).len() ==> !(#[trigger] lines_of(
                content,
                complete,
            )[k]).contains(10u8),
{
    let pieces = split(content, 10u8);
    split_not_empty(content, 10u8);
    split_pieces_clean(content, 10u8);
    let lines = lines_of(content, complete);
    assert forall|k: int| 0 <= k < lines.len() implies !(#[trigger] lines[k]).contains(10u8) by {
        assert(!pieces[k].contains(10u8));
        if lines[k].contains(10u8) {
            let i = lines[k].index_of(10u8);
            assert(pieces[k][i] == 10u8);
        }
    }
}

proof fn lemma_readable_clean(lines: Seq<Seq<u8>>)
    requires
        forall|k: int| 0 <= k < lines.len() ==> !(#[trigger] lines[k]).contains(10u8),
    ensures
        forall|k: int|
            0 <= k < readable(lines).len() ==> !(#[trigger] readable(lines)[k]).contains('\n'),
    decreases lines.len(),
{
    if lines.len() > 0 && valid_utf8(lines.first()) {
        let rest = lines.drop_first();
        assert forall|k: int| 0 <= k < rest.len() implies !(#[trigger] rest[k]).contains(10u8) by {
            assert(!lines[k + 1].contains(10u8));
        }
        lemma_readable_clean(rest);
        let texts = readable(lines);
        assert forall|k: int| 0 <= k < texts.len() implies !(#[trigger] texts[k]).contains('\n') by {
            if k == 0 {
                assert(!lines[0].contains(10u8));
                if decode_utf8(lines.first()).contains('\n') {
                    decoded_char(lines.first(), '\n');
                }
            } else {
                assert(texts[k] == readable(rest)[k - 1]);
            }
        }
    }
}

/// The fields of a line hold no character that the line does not hold.
proof fn lemma_fields_of_line(line: Seq<char>, c: char)
    requires
        !line.contains(c),
    ensures
        forall|k: int|
            0 <= k < split(line, '\t').len() ==> !(#[trigger] split(line, '\t')[k]).contains(c),
    decreases line.len(),
{
    if line.len() > 0 {
        let rest = line.drop_last();
        assert(line.contains(line.last()));
        assert(!rest.contains(c)) by {
            if rest.contains(c) {
                assert(line[rest.index_of(c)] == c);
            }
        }
        lemma_fields_of_line(rest, c);
        split_not_empty(rest, '\t');
        let pieces = split(rest, '\t');
        let all = split(line, '\t');
        assert forall|k: int| 0 <= k < all.len() implies !(#[trigger] all[k]).contains(c) by {
            if line.last() != '\t' && k == pieces.len() - 1 {
                lemma_contains_pushed(pieces.last(), line.last(), c);
                assert(!pieces[k].contains(c));
            } else if k < pieces.len() {
                assert(!pieces[k].contains(c));
            }
        }
    }
}

proof fn lemma_lines_cache_fits(texts: Seq<Seq<char>>)
    requires
        forall|k: int| 0 <= k < texts.len() ==> !(#[trigger] texts[k]).contains('\n'),
    ensures
        lines_cache(texts).dom().finite(),
        forall|key: Seq<char>| #[trigger]
            lines_cache(texts).contains_key(key) ==> {
                let entry = lines_cache(texts)[key];
                fits_field(key) && fits_hash(entry.quick_hash) && fits_hash(entry.full_hash)
            },
    decreases texts.len(),
{
    if texts.len() > 0 {
        let rest = texts.drop_last();
        assert forall|k: int| 0 <= k < rest.len() implies !(#[trigger] rest[k]).contains('\n') by {
            assert(!texts[k].contains('\n'));
        }
        lemma_lines_cache_fits(rest);
        let line = texts.last();
        assert(!texts[texts.len() - 1].contains('\n'));
        lemma_fields_of_line(line, '\n');
        split_pieces_clean(line, '\t');
        let fields = split(line, '\t');
        if let Some((key, entry)) = line_entry(line) {
            assert(fits_field(fields[0]) && fits_field(fields[3]) && fits_field(fields[4]));
        }
    }
}

/// Whatever a cache file holds, what is loaded of it has paths and hashes
/// without tab and line feed, and no empty hash.
pub proof fn loaded_entries_fit(content: Seq<u8>, complete: bool)
    ensures
        loaded(content, complete).dom().finite(),
        forall|key: Seq<char>| #[trigger]
            loaded(content, complete).contains_key(key) ==> {
                let entry = loaded(content, complete)[key];
                fits_field(key) && fits_hash(entry.quick_hash) && fits_hash(entry.full_hash)
            },
{
    lemma_lines_clean(content, complete);
    lemma_readable_clean(lines_of(content, complete));
    lemma_lines_cache_fits(readable(lines_of(content, complete)));
}

/// What a line of five fields says: the path, the size, the time, the quick hash and
/// the full hash, in this order. It says something if and only if size and time are
/// numbers; an empty hash is none.
pub proof fn line_of_fields(
    key: Seq<char>,
    size: Seq<char>,
    modified: Seq<char>,
    quick: Seq<char>,
    full: Seq<char>,
)
    requires
        !key.contains('\t'),
        !size.contains('\t'),
        !modified.contains('\t'),
        !quick.contains('\t'),
        !full.contains('\t'),
    ensures
        ({
            let tab = seq!['\t'];
            let line = key + tab + size + tab + modified + tab + quick + tab + full;
            let n = unsigned(size, u64::MAX as nat);
            let t = unsigned(modified, u64::MAX as nat);
            if n is Some && t is Some {
                &&& line_entry(line) matches Some((path, entry))
                &&& path == key
                &&& entry.size == n->0
                &&& entry.modified_unix_secs == t->0
                &&& entry.quick_hash is None <==> quick.len() == 0
                &&& entry.quick_hash matches Some(hash) ==> hash == quick
                &&& entry.full_hash is None <==> full.len() == 0
                &&& entry.full_hash matches Some(hash) ==> hash == full
            } else {
                line_entry(line) is None
            }
        }),
{
    let tab = seq!['\t'];
    let line = key + tab + size + tab + modified + tab + quick + tab + full;
    assert(line =~= key.push('\t') + size.push('\t') + modified.push('\t') + quick.push('\t')
        + full);
    lemma_fields(key, size, modified, quick, full);
    let fields = split(line, '\t');
    assert(fields[0] == key && fields[1] == size && fields[2] == modified && fields[3] == quick
        && fields[4] == full);
}

/// A line says nothing unless it has five fields, that is four tabs.
pub proof fn other_lines_say_nothing(line: Seq<char>)
    requires
        line.to_multiset().count('\t') != 4,
    ensures
        line_entry(line) is None,
{
    split_counts(line, '\t');
}

/// The line of an entry: its path, size, time, quick hash and full hash with tabs
/// between, and nothing in the place of a hash that is not known.
pub proof fn fields_of_line(key: Seq<char>, entry: CacheEntryView)
    ensures
        ({
            let tab = seq!['\t'];
            let none = Seq::<char>::empty();
            let quick = if entry.quick_hash is Some {
                entry.quick_hash->0
            } else {
                none
            };
            let full = if entry.full_hash is Some {
                entry.full_hash->0
            } else {
                none
            };
            entry_line(key, entry) == key + tab + decimal(entry.size as nat) + tab + decimal(
                entry.modified_unix_secs as nat,
            ) + tab + quick + tab + full
        }),
{
    let tab = seq!['\t'];
    assert(entry_line(key, entry) =~= key + tab + decimal(entry.size as nat) + tab + decimal(
        entry.modified_unix_secs as nat,
    ) + tab + or_empty(entry.quick_hash) + tab + or_empty(entry.full_hash));
}

/// A line more at the end of a file is a line more, whatever came before.
proof fn lemma_lines_appended(content: Seq<u8>, line: Seq<u8>, complete: bool)
    requires
        content.len() == 0 || content.last() == 10,
        !line.contains(10u8),
    ensures
        lines_of(content + line + seq![10u8], complete) == lines_of(content, complete).push(
            without_return(line),
        ),
        line.len() > 0 ==> lines_of(content + line, true) == lines_of(content, true).push(line),
        lines_of(content + line, false) == lines_of(content, false),
{
    let none = Seq::<u8>::empty();
    let wr = |line: Seq<u8>| without_return(line);
    lemma_pieces_appended(content, line);
    let front = split(content, 10u8).drop_last();
    assert(front.push(line).drop_last() =~= front);
    assert(front.push(line).push(none).drop_last() =~= front.push(line));
    assert(front.push(line).map_values(wr) =~= front.map_values(wr).push(without_return(line)));
    assert(split(content, 10u8).last() =~= none);
}

/// The pieces of a file that ends with a line feed, and of more behind it.
proof fn lemma_pieces_appended(content: Seq<u8>, line: Seq<u8>)
    requires
        content.len() == 0 || content.last() == 10,
        !line.contains(10u8),
    ensures
        split(content, 10u8).len() > 0,
        split(content, 10u8).last().len() == 0,
        split(content + line, 10u8) == split(content, 10u8).drop_last().push(line),
        split(content + line + seq![10u8], 10u8) == split(content, 10u8).drop_last().push(
            line,
        ).push(Seq::<u8>::empty()),
{
    let none = Seq::<u8>::empty();
    split_whole(line, 10u8);
    split_whole(none, 10u8);
    split_joined(line, 10u8, none);
    assert(line.push(10u8) + none =~= line.push(10u8));
    if content.len() == 0 {
        assert(content =~= none);
        assert(content + line =~= line);
        assert(content + line + seq![10u8] =~= line.push(10u8));
        assert(split(content, 10u8).drop_last() =~= Seq::<Seq<u8>>::empty());
        assert(seq![line] + seq![none] =~= Seq::<Seq<u8>>::empty().push(line).push(none));
        assert(seq![line] =~= Seq::<Seq<u8>>::empty().push(line));
    } else {
        let front = content.drop_last();
        assert(content =~= front.push(10u8));
        split_joined(front, 10u8, none);
        split_joined(front, 10u8, line);
        split_joined(front, 10u8, line.push(10u8));
        assert(front.push(10u8) + none =~= content);
        assert(front.push(10u8) + line =~= content + line);
        assert(front.push(10u8) + line.push(10u8) =~= content + line + seq![10u8]);
        assert(split(content, 10u8).drop_last() =~= split(front, 10u8));
        assert(split(front, 10u8) + seq![line] =~= split(front, 10u8).push(line));
        assert(split(front, 10u8) + (seq![line] + seq![none]) =~= split(front, 10u8).push(
            line,
        ).push(none));
    }
}

/// The lines of a text are valid.
proof fn lemma_text_lines(text: Seq<char>, complete: bool)
    requires
        text.len() == 0 || text.last() == '\n',
    ensures
        encode_utf8(text).len() == 0 || encode_utf8(text).last() == 10,
        forall|k: int|
            0 <= k < lines_of(encode_utf8(text), complete).len() ==> valid_utf8(
                #[trigger] lines_of(encode_utf8(text), complete)[k],
            ),
    decreases text.len(),
{
    let content = encode_utf8(text);
    let none = Seq::<u8>::empty();
    if text.len() == 0 {
        assert(content =~= none);
        split_whole(none, 10u8);
        assert(split(content, 10u8).drop_last() =~= Seq::<Seq<u8>>::empty());
    } else {
        let all = text.drop_last();
        let at = last_end(all);
        let before = all.take(at);
        let line = all.skip(at);
        lemma_last_end(all);
        lemma_text_lines(before, complete);
        encoded_joined(before, line);
        encoded_ascii('\n');
        assert(text =~= before + line + seq!['\n']);
        encoded_joined(before + line, seq!['\n']);
        let bytes = encode_utf8(line);
        encoded_without(line, '\n');
        assert(content == encode_utf8(before) + bytes + seq![10u8]);
        lemma_line_without_return(line);
        encode_utf8_valid_utf8(line);
        lemma_lines_appended(encode_utf8(before), bytes, complete);
        assert forall|k: int| 0 <= k < lines_of(content, complete).len() implies valid_utf8(
            #[trigger] lines_of(content, complete)[k],
        ) by {
            let lines = lines_of(encode_utf8(before), complete);
            if k < lines.len() {
                assert(lines[k] == lines_of(content, complete)[k]);
            }
        }
    }
}

/// How much of a text is there up to its last line feed.
spec fn last_end(text: Seq<char>) -> int
    decreases text.len(),
{
    if text.len() == 0 {
        0
    } else if text.last() == '\n' {
        text.len() as int
    } else {
        last_end(text.drop_last())
    }
}

proof fn lemma_last_end(text: Seq<char>)
    ensures
        0 <= last_end(text) <= text.len(),
        last_end(text) > 0 ==> text[last_end(text) - 1] == '\n',
        !text.skip(last_end(text)).contains('\n'),
    decreases text.len(),
{
    let at = last_end(text);
    if text.len() > 0 && text.last() != '\n' {
        let front = text.drop_last();
        lemma_last_end(front);
        if text.skip(at).contains('\n') {
            let i = text.skip(at).index_of('\n');
            assert(front.skip(at)[i] == '\n');
        }
    }
}

/// A line of text without the carriage return that may end it.
pub open spec fn text_without_return(line: Seq<char>) -> Seq<char> {
    if line.len() > 0 && line.last() == '\r' {
        line.drop_last()
    } else {
        line
    }
}

proof fn lemma_line_without_return(line: Seq<char>)
    ensures
        without_return(encode_utf8(line)) == encode_utf8(text_without_return(line)),
        valid_utf8(encode_utf8(text_without_return(line))),
        decode_utf8(encode_utf8(text_without_return(line))) == text_without_return(line),
{
    let kept = text_without_return(line);
    encode_utf8_valid_utf8(kept);
    encode_utf8_decode_utf8(kept);
    if line.len() > 0 && line.last() == '\r' {
        assert(line =~= kept + seq!['\r']);
        encoded_joined(kept, seq!['\r']);
        encoded_ascii('\r');
        assert(encode_utf8(line).drop_last() =~= encode_utf8(kept));
    } else if line.len() > 0 {
        encoded_end(line, '\r');
    } else {
        assert(line =~= Seq::<char>::empty());
        assert(encode_utf8(line) =~= Seq::<u8>::empty());
    }
}

/// What is readable of valid lines and more behind them.
proof fn lemma_readable_behind(lines: Seq<Seq<u8>>, more: Seq<Seq<u8>>)
    requires
        forall|k: int| 0 <= k < lines.len() ==> valid_utf8(#[trigger] lines[k]),
    ensures
        readable(lines + more) == readable(lines) + readable(more),
    decreases lines.len(),
{
    if lines.len() > 0 {
        let rest = lines.drop_first();
        assert(valid_utf8(lines[0]));
        assert forall|k: int| 0 <= k < rest.len() implies valid_utf8(#[trigger] rest[k]) by {
            assert(rest[k] == lines[k + 1]);
        }
        lemma_readable_behind(rest, more);
        assert((lines + more).drop_first() =~= rest + more);
        assert((lines + more).first() == lines.first());
        assert(readable(lines + more) =~= readable(lines) + readable(more));
    } else {
        assert(lines + more =~= more);
        assert(readable(lines) =~= Seq::<Seq<char>>::empty());
        assert(readable(lines) + readable(more) =~= readable(more));
    }
}

/// What a line more says.
proof fn lemma_line_more(lines: Seq<Seq<u8>>, line: Seq<u8>)
    requires
        forall|k: int| 0 <= k < lines.len() ==> valid_utf8(#[trigger] lines[k]),
        valid_utf8(line),
    ensures
        lines_cache(readable(lines.push(line))) == (match line_entry(decode_utf8(line)) {
            Some((key, entry)) => lines_cache(readable(lines)).insert(key, entry),
            None => lines_cache(readable(lines)),
        }),
{
    let one = seq![line];
    lemma_readable_behind(lines, one);
    assert(lines + one =~= lines.push(line));
    assert(one.first() == line);
    assert(one.drop_first() =~= Seq::<Seq<u8>>::empty());
    assert(readable(one.drop_first()) =~= Seq::<Seq<char>>::empty());
    assert(readable(one) =~= seq![decode_utf8(line)]);
    let texts = readable(lines) + readable(one);
    assert(texts.drop_last() =~= readable(lines));
    assert(texts.last() == decode_utf8(line));
}

/// A cache file is read line by line. An empty file says nothing. Behind a text of
/// whole lines, a line more, ended by a line feed or by a carriage return and a line
/// feed, adds what it says, and replaces what was said of its path before. A line
/// that the file ends with adds what it says too, if the file was read to its end,
/// and is left out if not.
pub proof fn loaded_line_by_line(text: Seq<char>, line: Seq<char>, complete: bool)
    requires
        text.len() == 0 || text.last() == '\n',
        !line.contains('\n'),
    ensures
        ({
            let known = loaded(encode_utf8(text), complete);
            let with = |said: Option<(Seq<char>, CacheEntryView)>|
                match said {
                    Some((key, entry)) => known.insert(key, entry),
                    None => known,
                };
            let kept = text_without_return(line);
            &&& loaded(Seq::<u8>::empty(), complete) == Map::<Seq<char>, CacheEntryView>::empty()
            &&& loaded(encode_utf8(text + line + seq!['\n']), complete) == with(line_entry(kept))
            &&& loaded(encode_utf8(text + line + seq!['\r', '\n']), complete) == with(
                line_entry(line),
            )
            &&& line.len() > 0 && complete ==> loaded(encode_utf8(text + line), true) == with(
                line_entry(line),
            )
            &&& !complete ==> loaded(encode_utf8(text + line), false) == known
        }),
{
    let content = encode_utf8(text);
    let bytes = encode_utf8(line);
    let none = Seq::<u8>::empty();
    lemma_text_lines(text, complete);
    encoded_joined(text, line);
    encoded_ascii('\n');
    encoded_joined(text + line, seq!['\n']);
    encoded_without(line, '\n');
    lemma_lines_appended(content, bytes, complete);
    lemma_line_without_return(line);
    encode_utf8_valid_utf8(line);
    encode_utf8_decode_utf8(line);
    let lines = lines_of(content, complete);
    lemma_line_more(lines, without_return(bytes));

    let returned = line + seq!['\r'];
    assert(text + line + seq!['\r', '\n'] =~= text + returned + seq!['\n']);
    assert(!returned.contains('\n')) by {
        if returned.contains('\n') {
            let i = returned.index_of('\n');
            if i < line.len() {
                assert(line[i] == '\n');
            }
        }
    }
    encoded_joined(text, returned);
    encoded_joined(text + returned, seq!['\n']);
    encoded_without(returned, '\n');
    lemma_lines_appended(content, encode_utf8(returned), complete);
    lemma_line_without_return(returned);
    assert(text_without_return(returned) =~= line);
    lemma_line_more(lines, bytes);

    split_whole(none, 10u8);
    assert(split(none, 10u8).drop_last() =~= Seq::<Seq<u8>>::empty());
    assert(lines_of(none, complete) =~= Seq::<Seq<u8>>::empty());
    assert(readable(lines_of(none, complete)) =~= Seq::<Seq<char>>::empty());
}

/// Reading ends with the first line that is not text: what comes from there on adds
/// nothing.
pub proof fn loading_ends_at_other_bytes(
    text: Seq<char>,
    bytes: Seq<u8>,
    rest: Seq<u8>,
    complete: bool,
)
    requires
        text.len() == 0 || text.last() == '\n',
        !bytes.contains(10u8),
        !valid_utf8(bytes),
        bytes.last() != 13,
    ensures
        loaded(encode_utf8(text) + bytes + seq![10u8] + rest, complete) == loaded(
            encode_utf8(text),
            complete,
        ),
        loaded(encode_utf8(text) + bytes, complete) == loaded(encode_utf8(text), complete),
{
    let content = encode_utf8(text);
    let wr = |line: Seq<u8>| without_return(line);
    assert(bytes.len() > 0) by {
        if bytes.len() == 0 {
            assert(valid_utf8(bytes));
        }
    }
    lemma_text_lines(text, complete);
    lemma_pieces_appended(content, bytes);
    lemma_lines_appended(content, bytes, complete);
    let lines = lines_of(content, complete);
    let front = split(content, 10u8).drop_last();
    split_not_empty(rest, 10u8);
    split_joined(content + bytes, 10u8, rest);
    assert((content + bytes).push(10u8) + rest =~= content + bytes + seq![10u8] + rest);
    let all = lines_of(content + bytes + seq![10u8] + rest, complete);
    let behind = lines_of(rest, complete);
    let pieces = split(rest, 10u8);
    assert((front.push(bytes) + pieces).drop_last() =~= front.push(bytes) + pieces.drop_last());
    assert((front.push(bytes) + pieces).last() == pieces.last());
    assert(lines =~= front.map_values(wr));
    let more = seq![bytes] + behind;
    assert(all =~= lines + more);
    lemma_readable_behind(lines, more);
    assert(more.first() == bytes);
    assert(readable(more) =~= Seq::<Seq<char>>::empty());
    assert(readable(lines) + readable(more) =~= readable(lines));
    let one = seq![bytes];
    lemma_readable_behind(lines, one);
    assert(lines + one =~= lines.push(bytes));
    assert(one.first() == bytes);
    assert(readable(one) =~= Seq::<Seq<char>>::empty());
    assert(readable(lines) + readable(one) =~= readable(lines));
}

/// A cache file has one line for each path and no other, each ended by a line feed,
/// in the order of their bytes.
pub proof fn saved_in_sorted_lines(cache: Map<Seq<char>, CacheEntryView>)
    requires
        cache.dom().finite(),
        all_storable(cache),
    ensures
        ({
            let pieces = split(saved(cache), 10u8);
            &&& pieces.len() == cache.dom().len() + 1
            &&& pieces.last().len() == 0
            &&& forall|i: int, j: int|
                #![trigger pieces[i], pieces[j]]
                0 <= i < j < pieces.len() - 1 ==> bytes_order()(pieces[i], pieces[j])
            &&& forall|key: Seq<char>| #[trigger]
                cache.contains_key(key) ==> pieces.contains(
                    encode_utf8(entry_line(key, cache[key])),
                )
        }),
{
    broadcast use vstd::multiset::group_multiset_axioms;
    broadcast use vstd::seq_lib::group_to_multiset_ensures;

    let none = Seq::<u8>::empty();
    let names = cache.dom().to_seq();
    let written = names.map_values(key_line(cache));
    let lines = saved_lines(cache);
    set_in_sequence(cache.dom());
    bytes_order_is_total();
    written.lemma_sort_by_ensures(bytes_order());
    assert forall|i: int| 0 <= i < lines.len() implies !(#[trigger] lines[i]).contains(10u8) by {
        assert(lines.contains(lines[i]));
        assert(lines.to_multiset().count(lines[i]) > 0);
        assert(written.contains(lines[i]));
        let j = written.index_of(lines[i]);
        assert(names.contains(names[j]));
        lemma_line_bytes(names[j], cache[names[j]]);
    }
    lemma_split_ended(lines, none);
    assert(saved(cache) + none =~= saved(cache));
    let pieces = lines.push(none);
    assert(lines.len() == lines.to_multiset().len());
    assert(written.len() == written.to_multiset().len());
    names.unique_seq_to_set();
    assert(names.to_set() =~= cache.dom());
    assert forall|i: int, j: int|
        #![trigger pieces[i], pieces[j]]
        0 <= i < j < pieces.len() - 1 implies bytes_order()(pieces[i], pieces[j]) by {
        assert(bytes_order()(lines[i], lines[j]));
    }
    assert forall|key: Seq<char>| #[trigger] cache.contains_key(key) implies pieces.contains(
        encode_utf8(entry_line(key, cache[key])),
    ) by {
        assert(names.contains(key));
        let j = names.index_of(key);
        assert(written.contains(written[j]));
        assert(lines.to_multiset().count(written[j]) > 0);
        assert(lines.contains(written[j]));
        let i = lines.index_of(written[j]);
        assert(pieces[i] == written[j]);
    }
}

/// The view of an entry leaves nothing out.
pub proof fn entry_is_seen_whole(entry: CacheEntry)
    ensures
        entry@.size == entry.size,
        entry@.modified_unix_secs == entry.modified_unix_secs,
        entry@.quick_hash is Some <==> entry.quick_hash is Some,
        entry@.quick_hash matches Some(hash) ==> hash == entry.quick_hash->0@,
        entry@.full_hash is Some <==> entry.full_hash is Some,
        entry@.full_hash matches Some(hash) ==> hash == entry.full_hash->0@,
{
}

} // verus!
