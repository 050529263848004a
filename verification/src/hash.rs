//! SHA-256 of files, read chunk by chunk.

use crate::settings::{FULL_HASH_BUFFER_BYTES, QUICK_HASH_BYTES};
use vstd::prelude::*;

verus! {

/// The SHA-256 hasher of the crate `sha2`.
#[verifier::external_type_specification]
#[verifier::external_body]
pub struct ExSha256(sha2::Sha256);

/// The bytes that a hasher has been given so far.
pub uninterp spec fn sha256_message(hasher: sha2::Sha256) -> Seq<u8>;

/// The SHA-256 digest of a message.
pub uninterp spec fn sha256(message: Seq<u8>) -> Seq<u8>;

/// Messages of this many bytes and more are too long for SHA-256: their length
/// in bits does not fit in 64 bits.
pub const SHA256_MESSAGE_END: u64 = 0x2000_0000_0000_0000;

/// `Digest::new` of `sha2::Sha256`: a hasher that has been given nothing.
#[verifier::external_body]
fn sha256_new() -> (hasher: sha2::Sha256)
    ensures
        sha256_message(hasher) == Seq::<u8>::empty(),
{
    <sha2::Sha256 as sha2::Digest>::new()
}

/// `Digest::update` of `sha2::Sha256`: the hasher takes `data` in behind what it
/// has been given before.
#[verifier::external_body]
fn sha256_update(hasher: &mut sha2::Sha256, data: &[u8])
    requires
        sha256_message(*old(hasher)).len() + data@.len() < SHA256_MESSAGE_END,
    ensures
        sha256_message(*final(hasher)) == sha256_message(*old(hasher)) + data@,
{
    sha2::Digest::update(hasher, data)
}

/// `Digest::finalize` of `sha2::Sha256`: the digest of what the hasher has been
/// given, a function of those bytes alone, 32 bytes long.
#[verifier::external_body]
fn sha256_finalize(hasher: sha2::Sha256) -> (digest: Vec<u8>)
    requires
        sha256_message(hasher).len() < SHA256_MESSAGE_END,
    ensures
        digest@ == sha256(sha256_message(hasher)),
        digest@.len() == 32,
{
    sha2::Digest::finalize(hasher).to_vec()
}

/// The hexadecimal digit of a number below sixteen, in small letters.
pub open spec fn hex_digit(n: int) -> char {
    if n < 10 {
        ('0' as int + n) as char
    } else {
        ('a' as int + n - 10) as char
    }
}

/// Bytes in hexadecimal, two digits each.
pub open spec fn hex(bytes: Seq<u8>) -> Seq<char>
    decreases bytes.len(),
{
    if bytes.len() == 0 {
        seq![]
    } else {
        hex(bytes.drop_last()).push(hex_digit(bytes.last() as int / 16)).push(
            hex_digit(bytes.last() as int % 16),
        )
    }
}

/// Text that a SHA-256 hash can be: 64 digits from `0` to `9` and `a` to `f`.
pub open spec fn is_hash_text(s: Seq<char>) -> bool {
    &&& s.len() == 64
    &&& forall|i: int|
        0 <= i < s.len() ==> {
            let c = #[trigger] s[i];
            '0' <= c <= '9' || 'a' <= c <= 'f'
        }
}

/// The hash of a message as it is shown and stored.
pub open spec fn hash_of(message: Seq<u8>) -> Seq<char> {
    hex(sha256(message))
}

/// The first `n` bytes of a file, or all of it where it is shorter.
pub open spec fn head(content: Seq<u8>, n: nat) -> Seq<u8> {
    if content.len() <= n {
        content
    } else {
        content.take(n as int)
    }
}

/// The quick hash of a file: that of its first bytes.
pub open spec fn quick_hash(content: Seq<u8>) -> Seq<char> {
    hash_of(head(content, QUICK_HASH_BYTES as nat))
}

/// The full hash of a file: that of all its bytes.
pub open spec fn full_hash(content: Seq<u8>) -> Seq<char> {
    hash_of(content)
}

/// The hexadecimal digit of `n` as a string.
fn hex_str(n: u8) -> (r: &'static str)
    requires
        n < 16,
    ensures
        r@ == seq![hex_digit(n as int)],
{
    let digits: &'static str = "0123456789abcdef";
    proof {
        reveal_strlit("0123456789abcdef");
    }
    let r: &'static str = digits.substring_char(n as usize, n as usize + 1);
    assert(r@ =~= seq![hex_digit(n as int)]);
    r
}

/// Writes bytes in hexadecimal.
fn hex_string(bytes: &Vec<u8>) -> (r: String)
    ensures
        r@ == hex(bytes@),
{
    let mut r = String::new();
    for i in 0..bytes.len()
        invariant
            r@ == hex(bytes@.take(i as int)),
    {
        let b: u8 = bytes[i];
        r.append(hex_str(b / 16));
        r.append(hex_str(b % 16));
        assert(bytes@.take(i + 1).drop_last() =~= bytes@.take(i as int));
        assert(r@ =~= hex(bytes@.take(i + 1)));
    }
    assert(bytes@.take(bytes.len() as int) =~= bytes@);
    r
}

/// A file that is being hashed. The program reads the file and hands each chunk
/// over; how much is read, and when the hash is complete, is decided here.
pub struct FileHasher {
    hasher: sha2::Sha256,
    limit: Option<usize>,
    taken: u64,
    at_end: bool,
}

impl FileHasher {
    /// The bytes hashed so far.
    pub closed spec fn message(&self) -> Seq<u8> {
        sha256_message(self.hasher)
    }

    /// How many bytes of the file are hashed at most, if there is a limit.
    pub closed spec fn limit(&self) -> Option<usize> {
        self.limit
    }

    /// Whether the end of the file has been seen.
    pub closed spec fn at_end(&self) -> bool {
        self.at_end
    }

    /// What holds of every hasher.
    pub closed spec fn wf(&self) -> bool {
        &&& self.taken == sha256_message(self.hasher).len()
        &&& self.taken < SHA256_MESSAGE_END
        &&& self.limit matches Some(n) ==> self.taken <= n
    }

    /// Whether nothing more has to be read.
    pub open spec fn complete(&self) -> bool {
        self.at_end() || self.limit() == Some(self.message().len() as usize)
    }

    /// How many bytes the next read may ask for, given the buffer's size.
    pub open spec fn wanted(&self, buffer_len: nat) -> nat {
        if self.at_end() {
            0
        } else {
            match self.limit() {
                Some(n) => if buffer_len <= n - self.message().len() {
                    buffer_len
                } else {
                    (n - self.message().len()) as nat
                },
                None => buffer_len,
            }
        }
    }

    /// Starts the hash of the first `bytes_to_read` bytes of a file.
    pub fn partial(bytes_to_read: usize) -> (r: FileHasher)
        ensures
            r.wf(),
            r.message() == Seq::<u8>::empty(),
            r.limit() == Some(bytes_to_read),
            !r.at_end(),
    {
        FileHasher { hasher: sha256_new(), limit: Some(bytes_to_read), taken: 0, at_end: false }
    }

    /// Starts the hash of a whole file.
    pub fn full() -> (r: FileHasher)
        ensures
            r.wf(),
            r.message() == Seq::<u8>::empty(),
            r.limit() is None,
            !r.at_end(),
    {
        FileHasher { hasher: sha256_new(), limit: None, taken: 0, at_end: false }
    }

    /// The size of the buffer that the file is read with.
    pub fn buffer_len(&self) -> (r: usize)
        ensures
            r == (match self.limit() {
                Some(n) => if n < QUICK_HASH_BYTES {
                    n
                } else {
                    QUICK_HASH_BYTES
                },
                None => FULL_HASH_BUFFER_BYTES,
            }),
    {
        match self.limit {
            Some(n) => if n < QUICK_HASH_BYTES {
                n
            } else {
                QUICK_HASH_BYTES
            },
            None => FULL_HASH_BUFFER_BYTES,
        }
    }

    /// How many bytes to read next into a buffer of `buffer_len` bytes. Zero
    /// says that the hash is complete.
    pub fn next_read(&self, buffer_len: usize) -> (r: usize)
        requires
            self.wf(),
        ensures
            r == self.wanted(buffer_len as nat),
            buffer_len > 0 ==> (r == 0 <==> self.complete()),
    {
        if self.at_end {
            return 0;
        }
        match self.limit {
            Some(n) => {
                let left: usize = n - self.taken as usize;
                if buffer_len <= left {
                    buffer_len
                } else {
                    left
                }
            },
            None => buffer_len,
        }
    }

    /// Whether `len` more bytes keep the message short enough for SHA-256.
    pub fn has_room(&self, len: usize) -> (r: bool)
        requires
            self.wf(),
        ensures
            r == (self.message().len() + len < SHA256_MESSAGE_END),
    {
        (len as u64) < SHA256_MESSAGE_END - self.taken
    }

    /// Takes in what a read returned: the next bytes of the file, or nothing at
    /// its end.
    pub fn absorb(&mut self, chunk: &[u8])
        requires
            old(self).wf(),
            chunk@.len() <= old(self).wanted(chunk@.len()),
            old(self).message().len() + chunk@.len() < SHA256_MESSAGE_END,
        ensures
            final(self).wf(),
            final(self).message() == old(self).message() + chunk@,
            final(self).limit() == old(self).limit(),
            final(self).at_end() == (old(self).at_end() || chunk@.len() == 0),
    {
        if chunk.len() == 0 {
            self.at_end = true;
            assert(self.message() =~= old(self).message() + chunk@);
        } else {
            sha256_update(&mut self.hasher, chunk);
            self.taken = self.taken + chunk.len() as u64;
        }
    }

    /// The hash of what was read, in hexadecimal.
    pub fn finish(self) -> (r: String)
        requires
            self.wf(),
        ensures
            r@ == hash_of(self.message()),
            r@ == hex(sha256(self.message())),
            is_hash_text(r@),
    {
        let digest = sha256_finalize(self.hasher);
        proof {
            lemma_hex(digest@);
        }
        hex_string(&digest)
    }
}

/// Hexadecimal takes two digits a byte, all of them `0` to `9` or `a` to `f`.
proof fn lemma_hex(bytes: Seq<u8>)
    ensures
        hex(bytes).len() == 2 * bytes.len(),
        forall|i: int|
            0 <= i < hex(bytes).len() ==> {
                let c = #[trigger] hex(bytes)[i];
                '0' <= c <= '9' || 'a' <= c <= 'f'
            },
    decreases bytes.len(),
{
    if bytes.len() > 0 {
        lemma_hex(bytes.drop_last());
    }
}

/// Reads that follow one another take in the file from its start.
pub proof fn reads_follow_file(content: Seq<u8>, message: Seq<u8>, chunk: Seq<u8>)
    requires
        message.len() + chunk.len() <= content.len(),
        message == content.take(message.len() as int),
        chunk == content.subrange(message.len() as int, (message.len() + chunk.len()) as int),
    ensures
        message + chunk == content.take((message + chunk).len() as int),
{
    assert(message + chunk =~= content.take((message + chunk).len() as int));
}

/// However a file is cut into reads, a hasher that is complete has taken in
/// what it was to hash: all of the file, or as much of its start as it was
/// limited to.
pub proof fn complete_hash(hasher: FileHasher, content: Seq<u8>)
    requires
        hasher.wf(),
        hasher.complete(),
        hasher.message().len() <= content.len(),
        hasher.message() == content.take(hasher.message().len() as int),
        hasher.at_end() ==> hasher.message().len() == content.len(),
    ensures
        hasher.message() == (match hasher.limit() {
            Some(n) => head(content, n as nat),
            None => content,
        }),
        hasher.limit() == Some(QUICK_HASH_BYTES) ==> hash_of(hasher.message()) == quick_hash(
            content,
        ),
        hasher.limit() is None ==> hash_of(hasher.message()) == full_hash(content),
{
    if hasher.at_end() {
        assert(hasher.message() =~= content);
    } else {
        assert(content.take(content.len() as int) =~= content);
    }
}

/// A file that the quick hash reads to its end has one hash.
pub proof fn short_file_has_one_hash(content: Seq<u8>)
    requires
        content.len() <= QUICK_HASH_BYTES,
    ensures
        quick_hash(content) == full_hash(content),
{
}

/// A hash is the SHA-256 digest of the whole message in hexadecimal, two digits a
/// byte, the higher one first, however long the message is.
pub proof fn hash_spells_digest(message: Seq<u8>)
    ensures
        hash_of(message).len() == 2 * sha256(message).len(),
        forall|i: int|
            0 <= i < sha256(message).len() ==> {
                let byte = #[trigger] sha256(message)[i] as int;
                let high = hash_of(message)[2 * i];
                let low = hash_of(message)[2 * i + 1];
                &&& ('0' <= high <= '9' && high as int - '0' as int == byte / 16) || ('a' <= high
                    <= 'f' && high as int - 'a' as int + 10 == byte / 16)
                &&& ('0' <= low <= '9' && low as int - '0' as int == byte % 16) || ('a' <= low
                    <= 'f' && low as int - 'a' as int + 10 == byte % 16)
            },
{
    lemma_hex(sha256(message));
    assert forall|i: int| 0 <= i < sha256(message).len() implies ({
        let byte = #[trigger] sha256(message)[i] as int;
        let high = hash_of(message)[2 * i];
        let low = hash_of(message)[2 * i + 1];
        &&& ('0' <= high <= '9' && high as int - '0' as int == byte / 16) || ('a' <= high <= 'f'
            && high as int - 'a' as int + 10 == byte / 16)
        &&& ('0' <= low <= '9' && low as int - '0' as int == byte % 16) || ('a' <= low <= 'f'
            && low as int - 'a' as int + 10 == byte % 16)
    }) by {
        lemma_hex_at(sha256(message), i);
    }
}

/// The digits of a byte stand where the byte does.
proof fn lemma_hex_at(bytes: Seq<u8>, i: int)
    requires
        0 <= i < bytes.len(),
    ensures
        hex(bytes)[2 * i] == hex_digit(bytes[i] as int / 16),
        hex(bytes)[2 * i + 1] == hex_digit(bytes[i] as int % 16),
    decreases bytes.len(),
{
    let front = bytes.drop_last();
    lemma_hex(bytes);
    lemma_hex(front);
    if i < front.len() {
        lemma_hex_at(front, i);
    }
}

/// Messages with the same hash have the same SHA-256 digest, and messages with the
/// same digest the same hash, however long they are.
pub proof fn same_hash_same_digest(a: Seq<u8>, b: Seq<u8>)
    ensures
        hash_of(a) == hash_of(b) <==> sha256(a) == sha256(b),
{
    if hash_of(a) == hash_of(b) {
        hash_spells_digest(a);
        hash_spells_digest(b);
        assert forall|i: int| 0 <= i < sha256(a).len() implies sha256(a)[i] == sha256(b)[i] by {
            let x = sha256(a)[i] as int;
            let y = sha256(b)[i] as int;
            assert(x / 16 == y / 16 && x % 16 == y % 16);
        }
        assert(sha256(a) =~= sha256(b));
    }
}

/// The full hash of a file is that of all its bytes. The quick hash is that of the
/// first 131072 bytes, whatever follows them, and of all bytes where there are no
/// more than that.
pub proof fn hashes_of_files(start: Seq<u8>, rest: Seq<u8>)
    requires
        start.len() == 131072 || (start.len() < 131072 && rest.len() == 0),
    ensures
        full_hash(start + rest) == hash_of(start + rest),
        quick_hash(start + rest) == hash_of(start),
{
    if rest.len() == 0 {
        assert(start + rest =~= start);
    } else {
        assert((start + rest).take(131072) =~= start);
    }
}

/// A read stays within the buffer and within what is to be hashed, and something is
/// read as long as the hash is not complete.
pub proof fn reads_stay_within(hasher: FileHasher, buffer_len: nat)
    requires
        hasher.wf(),
        buffer_len > 0,
    ensures
        hasher.wanted(buffer_len) <= buffer_len,
        hasher.limit() matches Some(n) ==> hasher.message().len() + hasher.wanted(buffer_len) <= n,
        hasher.wanted(buffer_len) == 0 <==> hasher.at_end() || (hasher.limit() matches Some(n)
            && hasher.message().len() == n),
        hasher.complete() <==> hasher.wanted(buffer_len) == 0,
{
}

} // verus!
