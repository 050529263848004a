//! The cache of hashes and the file that it is kept in.

use crate::order::{bytes_le, bytes_order, bytes_order_is_total, sorted, Ranked};
use crate::split::{lie_at, split, split_bytes, split_chars};
use crate::text::{chars_of, decimal, decimal_string, read_unsigned, unsigned, utf8_text};
use vstd::hash_map::StringHashMap;
use vstd::prelude::*;
use vstd::utf8::{decode_utf8, encode_utf8, valid_utf8};

verus! {

/// What is known of a file: its size and time of change when it was hashed,
/// and the hashes.
pub struct CacheEntry {
    pub size: u64,
    pub modified_unix_secs: u64,
    pub quick_hash: Option<String>,
    pub full_hash: Option<String>,
}

/// What a [`CacheEntry`] holds.
pub struct CacheEntryView {
    pub size: u64,
    pub modified_unix_secs: u64,
    pub quick_hash: Option<Seq<char>>,
    pub full_hash: Option<Seq<char>>,
}

/// The text of an optional string.
pub open spec fn text_of(s: Option<String>) -> Option<Seq<char>> {
    match s {
        Some(s) => Some(s@),
        None => None,
    }
}

impl View for CacheEntry {
    type V = CacheEntryView;

    open spec fn view(&self) -> CacheEntryView {
        CacheEntryView {
            size: self.size,
            modified_unix_secs: self.modified_unix_secs,
            quick_hash: text_of(self.quick_hash),
            full_hash: text_of(self.full_hash),
        }
    }
}

/// The cache: what is known of each file, by the text of its path.
pub struct Cache {
    entries: Vec<(String, CacheEntry)>,
    index: StringHashMap<usize>,
}

impl View for Cache {
    type V = Map<Seq<char>, CacheEntryView>;

    closed spec fn view(&self) -> Map<Seq<char>, CacheEntryView> {
        Map::new(
            |key: Seq<char>| self.index@.contains_key(key),
            |key: Seq<char>| self.entries[self.index@[key] as int].1@,
        )
    }
}

impl Cache {
    /// Every path has one entry, and the index says where it is.
    pub closed spec fn wf(&self) -> bool {
        &&& forall|key: Seq<char>| #[trigger]
            self.index@.contains_key(key) ==> self.index@[key] < self.entries.len()
                && self.entries[self.index@[key] as int].0@ == key
        &&& forall|i: int|
            0 <= i < self.entries.len() ==> self.index@.contains_key(
                (#[trigger] self.entries[i]).0@,
            ) && self.index@[self.entries[i].0@] == i
    }

    /// An empty cache.
    pub fn new() -> (r: Cache)
        ensures
            r.wf(),
            r@ == Map::<Seq<char>, CacheEntryView>::empty(),
    {
        let r = Cache { entries: Vec::new(), index: StringHashMap::new() };
        assert(r@ =~= Map::<Seq<char>, CacheEntryView>::empty());
        r
    }

    /// What is known under `key`.
    pub fn get(&self, key: &str) -> (r: Option<&CacheEntry>)
        requires
            self.wf(),
        ensures
            match r {
                Some(entry) => self@.contains_key(key@) && entry@ == self@[key@],
                None => !self@.contains_key(key@),
            },
    {
        match self.index.get(key) {
            Some(i) => Some(&self.entries[*i].1),
            None => None,
        }
    }

    /// Replaces what is known under `key`.
    pub fn insert(&mut self, key: String, entry: CacheEntry)
        requires
            old(self).wf(),
        ensures
            final(self).wf(),
            final(self)@ == old(self)@.insert(key@, entry@),
    {
        let at: Option<usize> = match self.index.get(key.as_str()) {
            Some(i) => Some(*i),
            None => None,
        };
        match at {
            Some(i) => {
                self.entries.set(i, (key, entry));
            },
            None => {
                let i: usize = self.entries.len();
                self.index.insert(key.clone(), i);
                self.entries.push((key, entry));
            },
        }
        assert(self@ =~= old(self)@.insert(key@, entry@));
    }
}

/// A cache knows finitely many paths.
pub proof fn cache_is_finite(cache: &Cache)
    requires
        cache.wf(),
    ensures
        cache@.dom().finite(),
{
    let keys = cache.entries@.map_values(|e: (String, CacheEntry)| e.0@);
    assert forall|x: Seq<char>| cache@.dom().contains(x) implies #[trigger] keys.contains(x) by {
        assert(keys[cache.index@[x] as int] == x);
    }
    vstd::seq_lib::seq_to_set_is_finite(keys);
    assert(cache@.dom().subset_of(keys.to_set()));
    vstd::set_lib::lemma_set_subset_finite(keys.to_set(), cache@.dom());
}

/// A hash field of the file: nothing where it is empty.
pub open spec fn some_text(s: Seq<char>) -> Option<Seq<char>> {
    if s.len() == 0 {
        None
    } else {
        Some(s)
    }
}

/// An optional hash as a field of the file.
pub open spec fn or_empty(s: Option<Seq<char>>) -> Seq<char> {
    match s {
        Some(s) => s,
        None => Seq::<char>::empty(),
    }
}

/// What a line of the file says: the path and what is known of it. A line says
/// something if it has five fields between tabs, and the second and third of
/// them are numbers.
pub open spec fn line_entry(line: Seq<char>) -> Option<(Seq<char>, CacheEntryView)> {
    let fields = split(line, '\t');
    let size = unsigned(fields[1], u64::MAX as nat);
    let modified = unsigned(fields[2], u64::MAX as nat);
    if fields.len() == 5 && size is Some && modified is Some {
        Some(
            (
                fields[0],
                CacheEntryView {
                    size: size->0 as u64,
                    modified_unix_secs: modified->0 as u64,
                    quick_hash: some_text(fields[3]),
                    full_hash: some_text(fields[4]),
                },
            ),
        )
    } else {
        None
    }
}

/// The line that says what is known of a path.
pub open spec fn entry_line(key: Seq<char>, entry: CacheEntryView) -> Seq<char> {
    key.push('\t') + decimal(entry.size as nat).push('\t') + decimal(
        entry.modified_unix_secs as nat,
    ).push('\t') + or_empty(entry.quick_hash).push('\t') + or_empty(entry.full_hash)
}

/// Nothing for an empty string.
pub fn empty_to_none(value: &str) -> (r: Option<String>)
    ensures
        text_of(r) == some_text(value@),
{
    if value.is_empty() {
        None
    } else {
        Some(value.to_owned())
    }
}

/// Reads a line of the file.
pub fn parse_cache_line(line: &str) -> (r: Option<(String, CacheEntry)>)
    ensures
        match r {
            Some((key, entry)) => line_entry(line@) == Some((key@, entry@)),
            None => line_entry(line@) is None,
        },
{
    let chars = chars_of(line);
    let parts = split_chars(&chars, '\t');
    if parts.len() != 5 {
        return None;
    }
    assert(lie_at(parts@, line@, split(line@, '\t')));
    let (from0, to0) = parts[0];
    let (from1, to1) = parts[1];
    let (from2, to2) = parts[2];
    let (from3, to3) = parts[3];
    let (from4, to4) = parts[4];
    let size: u64 = match read_unsigned(&chars, from1, to1, u64::MAX) {
        Some(n) => n,
        None => {
            return None;
        },
    };
    let modified_unix_secs: u64 = match read_unsigned(&chars, from2, to2, u64::MAX) {
        Some(n) => n,
        None => {
            return None;
        },
    };
    Some(
        (
            line.substring_char(from0, to0).to_owned(),
            CacheEntry {
                size,
                modified_unix_secs,
                quick_hash: empty_to_none(line.substring_char(from3, to3)),
                full_hash: empty_to_none(line.substring_char(from4, to4)),
            },
        ),
    )
}

/// Appends an optional string.
fn append_text(line: &mut String, text: &Option<String>)
    ensures
        final(line)@ == old(line)@ + or_empty(text_of(*text)),
{
    match text {
        Some(s) => {
            line.append(s.as_str());
        },
        None => {
            assert(line@ =~= old(line)@ + or_empty(text_of(*text)));
        },
    }
}

/// Writes the line that says what is known of a path.
pub fn cache_line(key: &str, entry: &CacheEntry) -> (r: String)
    ensures
        r@ == entry_line(key@, entry@),
{
    proof {
        reveal_strlit("\t");
    }
    let mut line: String = key.to_owned();
    line.append("\t");
    line.append(decimal_string(entry.size).as_str());
    line.append("\t");
    line.append(decimal_string(entry.modified_unix_secs).as_str());
    line.append("\t");
    append_text(&mut line, &entry.quick_hash);
    line.append("\t");
    append_text(&mut line, &entry.full_hash);
    assert(line@ =~= entry_line(key@, entry@));
    line
}

/// A line without the carriage return that may end it.
pub open spec fn without_return(line: Seq<u8>) -> Seq<u8> {
    if line.len() > 0 && line.last() == 13 {
        line.drop_last()
    } else {
        line
    }
}

/// The lines of a file, each ended by a line feed or by a carriage return and
/// a line feed. What follows the last line feed is a line too, if it is not
/// empty and the file was read to its end.
pub open spec fn lines_of(content: Seq<u8>, complete: bool) -> Seq<Seq<u8>> {
    let pieces = split(content, 10u8);
    let ended = pieces.drop_last().map_values(|line: Seq<u8>| without_return(line));
    if complete && pieces.last().len() > 0 {
        ended.push(pieces.last())
    } else {
        ended
    }
}

/// The text of the lines that come before the first one that is not UTF-8.
pub open spec fn readable(lines: Seq<Seq<u8>>) -> Seq<Seq<char>>
    decreases lines.len(),
{
    if lines.len() > 0 && valid_utf8(lines.first()) {
        seq![decode_utf8(lines.first())] + readable(lines.drop_first())
    } else {
        Seq::<Seq<char>>::empty()
    }
}

/// What lines say together: of each path, what the last line about it says.
pub open spec fn lines_cache(lines: Seq<Seq<char>>) -> Map<Seq<char>, CacheEntryView>
    decreases lines.len(),
{
    if lines.len() == 0 {
        Map::<Seq<char>, CacheEntryView>::empty()
    } else {
        let cache = lines_cache(lines.drop_last());
        match line_entry(lines.last()) {
            Some((key, entry)) => cache.insert(key, entry),
            None => cache,
        }
    }
}

/// What a cache file says.
pub open spec fn loaded(content: Seq<u8>, complete: bool) -> Map<Seq<char>, CacheEntryView> {
    lines_cache(readable(lines_of(content, complete)))
}

/// The lines of `content` as ranges of it.
fn line_ranges(content: &[u8], complete: bool) -> (r: Vec<(usize, usize)>)
    ensures
        lie_at(r@, content@, lines_of(content@, complete)),
{
    let pieces = split_bytes(content, 10);
    let ghost all = split(content@, 10u8);
    proof {
        crate::split::split_not_empty(content@, 10u8);
    }
    let count: usize = pieces.len() - 1;
    let mut r: Vec<(usize, usize)> = Vec::new();
    for k in 0..count
        invariant
            count + 1 == pieces.len(),
            all == split(content@, 10u8),
            lie_at(pieces@, content@, all),
            lie_at(
                r@,
                content@,
                all.drop_last().map_values(|line: Seq<u8>| without_return(line)).take(k as int),
            ),
    {
        let ghost ended = all.drop_last().map_values(|line: Seq<u8>| without_return(line));
        let (from, to) = pieces[k];
        assert(content@.subrange(from as int, to as int) == all[k as int]);
        if from < to && content[to - 1] == 13 {
            assert(all[k as int].drop_last() =~= content@.subrange(from as int, to - 1));
            r.push((from, to - 1));
        } else {
            r.push((from, to));
        }
        assert(ended.take(k + 1) =~= ended.take(k as int).push(ended[k as int]));
    }
    let ghost ended = all.drop_last().map_values(|line: Seq<u8>| without_return(line));
    assert(ended.take(count as int) =~= ended);
    let (from, to) = pieces[count];
    assert(content@.subrange(from as int, to as int) == all.last());
    if complete && from < to {
        r.push((from, to));
    }
    r
}

/// Reads a cache file. `complete` says that `content` is all of it: where
/// reading broke off, a line without its end is left out.
pub fn load_cache(content: &[u8], complete: bool) -> (cache: Cache)
    ensures
        cache.wf(),
        cache@ == loaded(content@, complete),
{
    let ranges = line_ranges(content, complete);
    let ghost lines = lines_of(content@, complete);
    let mut cache = Cache::new();
    let mut k: usize = 0;
    let ghost mut done: Seq<Seq<char>> = Seq::empty();
    assert(lines.skip(0) =~= lines);
    assert(done + readable(lines) =~= readable(lines));
    while k < ranges.len()
        invariant
            cache.wf(),
            k <= ranges.len(),
            lie_at(ranges@, content@, lines),
            lines == lines_of(content@, complete),
            readable(lines) == done + readable(lines.skip(k as int)),
            cache@ == lines_cache(done),
        decreases ranges.len() - k,
    {
        let (from, to) = ranges[k];
        assert(content@.subrange(from as int, to as int) == lines[k as int]);
        assert(lines.skip(k as int).drop_first() =~= lines.skip(k + 1));
        match utf8_text(vstd::slice::slice_subrange(content, from, to)) {
            Some(line) => {
                let ghost next = done.push(line@);
                assert(next.drop_last() =~= done);
                assert(next + readable(lines.skip(k + 1)) =~= done + readable(
                    lines.skip(k as int),
                ));
                match parse_cache_line(line) {
                    Some((key, entry)) => {
                        cache.insert(key, entry);
                    },
                    None => {},
                }
                proof {
                    done = next;
                }
            },
            None => {
                assert(readable(lines.skip(k as int)) =~= Seq::<Seq<char>>::empty());
                assert(readable(lines) =~= done);
                return cache;
            },
        }
        k = k + 1;
    }
    assert(readable(lines.skip(k as int)) =~= Seq::<Seq<char>>::empty());
    assert(readable(lines) =~= done);
    cache
}

/// The bytes of the line that says what is known of `key`.
pub open spec fn key_line(cache: Map<Seq<char>, CacheEntryView>) -> spec_fn(Seq<char>) -> Seq<u8> {
    |key: Seq<char>| encode_utf8(entry_line(key, cache[key]))
}

/// The lines of a cache file: one for each path, in the order of their bytes.
pub open spec fn saved_lines(cache: Map<Seq<char>, CacheEntryView>) -> Seq<Seq<u8>> {
    cache.dom().to_seq().map_values(key_line(cache)).sort_by(bytes_order())
}

/// Lines, each ended by a line feed.
pub open spec fn ended_lines(lines: Seq<Seq<u8>>) -> Seq<u8>
    decreases lines.len(),
{
    if lines.len() == 0 {
        Seq::<u8>::empty()
    } else {
        ended_lines(lines.drop_last()) + lines.last().push(10u8)
    }
}

/// The cache file of a cache.
pub open spec fn saved(cache: Map<Seq<char>, CacheEntryView>) -> Seq<u8> {
    ended_lines(saved_lines(cache))
}

/// A line of the cache file, ranked by its bytes.
struct Line {
    bytes: Vec<u8>,
}

impl Ranked for Line {
    closed spec fn at_most(&self, other: &Line) -> bool {
        bytes_order()(self.bytes@, other.bytes@)
    }

    proof fn at_most_transitive(a: &Line, b: &Line, c: &Line) {
        bytes_order_is_total();
        let r = bytes_order();
        assert(r(a.bytes@, b.bytes@) && r(b.bytes@, c.bytes@));
    }

    proof fn at_most_connected(a: &Line, b: &Line) {
        bytes_order_is_total();
        let r = bytes_order();
        assert(r(a.bytes@, b.bytes@) || r(b.bytes@, a.bytes@));
    }

    fn ranks_at_most(&self, other: &Line) -> (r: bool) {
        bytes_le(&self.bytes, &other.bytes)
    }
}

/// Writes the cache file.
pub fn save_cache(cache: &Cache) -> (content: Vec<u8>)
    requires
        cache.wf(),
    ensures
        content@ == saved(cache@),
{
    let ghost keys = cache.entries@.map_values(|e: (String, CacheEntry)| e.0@);
    let ghost line_bytes = |line: Line| line.bytes@;
    let mut lines: Vec<Line> = Vec::new();
    for i in 0..cache.entries.len()
        invariant
            cache.wf(),
            keys == cache.entries@.map_values(|e: (String, CacheEntry)| e.0@),
            lines.len() == i,
            forall|k: int|
                0 <= k < i ==> (#[trigger] lines[k]).bytes@ == key_line(cache@)(keys[k]),
    {
        let entry = &cache.entries[i];
        let line = cache_line(entry.0.as_str(), &entry.1);
        assert(cache@.contains_key(entry.0@));
        lines.push(Line { bytes: line.as_str().as_bytes_vec() });
    }
    let ghost unsorted = lines@;
    let lines = sorted(lines);
    let ghost in_order = lines@.map_values(line_bytes);
    proof {
        let names = cache@.dom().to_seq();
        assert(keys.no_duplicates()) by {
            assert forall|i: int, j: int|
                0 <= i < keys.len() && 0 <= j < keys.len() && i != j implies keys[i] != keys[j] by {
                assert(cache.entries[i].0@ == keys[i]);
                assert(cache.entries[j].0@ == keys[j]);
            }
        }
        assert forall|x: Seq<char>| #[trigger] keys.contains(x) <==> cache@.dom().contains(x) by {
            if cache@.dom().contains(x) {
                assert(keys[cache.index@[x] as int] == x);
            }
            if keys.contains(x) {
                let i = keys.index_of(x);
                assert(cache.entries[i].0@ == x);
            }
        }
        cache_is_finite(cache);
        crate::order::set_in_sequence(cache@.dom());
        crate::order::same_elements_once(keys, names);
        crate::order::mapped_multisets(keys, names, key_line(cache@));
        assert(unsorted.map_values(line_bytes) =~= keys.map_values(key_line(cache@)));
        crate::order::mapped_multisets(lines@, unsorted, line_bytes);
        bytes_order_is_total();
        let written = names.map_values(key_line(cache@));
        written.lemma_sort_by_ensures(bytes_order());
        assert(vstd::relations::sorted_by(in_order, bytes_order())) by {
            assert forall|i: int, j: int| 0 <= i < j < in_order.len() implies #[trigger] (
            bytes_order())(in_order[i], in_order[j]) by {
                assert(lines[i].at_most(&lines[j]));
            }
        }
        vstd::seq_lib::lemma_sorted_unique(in_order, saved_lines(cache@), bytes_order());
    }
    let mut content: Vec<u8> = Vec::new();
    for i in 0..lines.len()
        invariant
            in_order == lines@.map_values(|line: Line| line.bytes@),
            content@ == ended_lines(in_order.take(i as int)),
    {
        assert(in_order.take(i + 1).drop_last() =~= in_order.take(i as int));
        let ghost before = content@;
        content.extend_from_slice(lines[i].bytes.as_slice());
        content.push(10);
        assert(content@ =~= before + in_order[i as int].push(10u8));
    }
    assert(in_order.take(lines.len() as int) =~= in_order);
    content
}

} // verus!
