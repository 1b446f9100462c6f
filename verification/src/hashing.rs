//! Content hashes, and the files that have the same.

use crate::bucket;
use crate::bucket::{group_twins, BucketKey};
use crate::cli::HashAlgo;
use crate::index;
use crate::index::hash_text;
use crate::scan;
use crate::scan::{EntryView, FileEntry};
use crate::text::same_text;
use md5::Digest;
use vstd::prelude::*;
use vstd::slice::slice_subrange;

verus! {

/// Number of leading bytes used for the cheap partial-hash pre-filter.
/// Files that share size and partial hash are then fully hashed.
pub const PARTIAL_BYTES: usize = 65_536;

/// Contents are shorter than this: hashers count the bits of a content in 64
/// bits.
pub const CONTENT_LIMIT: u64 = 0x2000_0000_0000_0000;

/// The BLAKE3 hash of some bytes.
pub uninterp spec fn blake3_of(data: Seq<u8>) -> Seq<u8>;

/// The SHA-256 hash of some bytes.
pub uninterp spec fn sha256_of(data: Seq<u8>) -> Seq<u8>;

/// The MD5 hash of some bytes.
pub uninterp spec fn md5_of(data: Seq<u8>) -> Seq<u8>;

/// `blake3::hash` computes the BLAKE3 hash of its input, which has 32 bytes.
#[verifier::external_body]
fn blake3_hash(data: &[u8]) -> (r: Vec<u8>)
    requires
        data@.len() < CONTENT_LIMIT,
    ensures
        r@ == blake3_of(data@),
        r@.len() == 32,
{
    blake3::hash(data).as_bytes().to_vec()
}

/// An incremental BLAKE3 hasher.
#[verifier::external_type_specification]
#[verifier::external_body]
pub struct ExBlake3Hasher(blake3::Hasher);

/// The bytes that an incremental BLAKE3 hasher has taken in.
pub uninterp spec fn blake3_taken(h: blake3::Hasher) -> Seq<u8>;

/// `blake3::Hasher::new` makes a hasher that has taken in nothing.
#[verifier::external_body]
fn blake3_new() -> (h: blake3::Hasher)
    ensures
        blake3_taken(h) == Seq::<u8>::empty(),
{
    blake3::Hasher::new()
}

/// `blake3::Hasher::update` takes in bytes behind those taken in before.
#[verifier::external_body]
fn blake3_update(h: &mut blake3::Hasher, data: &[u8])
    requires
        blake3_taken(*old(h)).len() + data@.len() < CONTENT_LIMIT,
    ensures
        blake3_taken(*final(h)) == blake3_taken(*old(h)) + data@,
{
    h.update(data);
}

/// `blake3::Hasher::finalize` computes the hash of all the bytes taken in.
#[verifier::external_body]
fn blake3_finalize(h: &blake3::Hasher) -> (r: Vec<u8>)
    requires
        blake3_taken(*h).len() < CONTENT_LIMIT,
    ensures
        r@ == blake3_of(blake3_taken(*h)),
        r@.len() == 32,
{
    h.finalize().as_bytes().to_vec()
}

/// An incremental SHA-256 hasher.
#[verifier::external_body]
pub struct Sha256State {
    inner: sha2::Sha256,
}

/// The bytes that an incremental SHA-256 hasher has taken in.
pub uninterp spec fn sha256_taken(h: Sha256State) -> Seq<u8>;

/// `sha2::Sha256::new` makes a hasher that has taken in nothing.
#[verifier::external_body]
fn sha256_new() -> (h: Sha256State)
    ensures
        sha256_taken(h) == Seq::<u8>::empty(),
{
    Sha256State { inner: sha2::Sha256::new() }
}

/// `sha2::Sha256::update` takes in bytes behind those taken in before.
#[verifier::external_body]
fn sha256_update(h: &mut Sha256State, data: &[u8])
    requires
        sha256_taken(*old(h)).len() + data@.len() < CONTENT_LIMIT,
    ensures
        sha256_taken(*final(h)) == sha256_taken(*old(h)) + data@,
{
    h.inner.update(data);
}

/// `sha2::Sha256::finalize` computes the SHA-256 hash, which has 32 bytes, of
/// all the bytes taken in.
#[verifier::external_body]
fn sha256_finalize(h: Sha256State) -> (r: Vec<u8>)
    requires
        sha256_taken(h).len() < CONTENT_LIMIT,
    ensures
        r@ == sha256_of(sha256_taken(h)),
        r@.len() == 32,
{
    h.inner.finalize().to_vec()
}

/// An incremental MD5 hasher.
#[verifier::external_body]
pub struct Md5State {
    inner: md5::Md5,
}

/// The bytes that an incremental MD5 hasher has taken in.
pub uninterp spec fn md5_taken(h: Md5State) -> Seq<u8>;

/// `md5::Md5::new` makes a hasher that has taken in nothing.
#[verifier::external_body]
fn md5_new() -> (h: Md5State)
    ensures
        md5_taken(h) == Seq::<u8>::empty(),
{
    Md5State { inner: md5::Md5::new() }
}

/// `md5::Md5::update` takes in bytes behind those taken in before.
#[verifier::external_body]
fn md5_update(h: &mut Md5State, data: &[u8])
    requires
        md5_taken(*old(h)).len() + data@.len() < CONTENT_LIMIT,
    ensures
        md5_taken(*final(h)) == md5_taken(*old(h)) + data@,
{
    h.inner.update(data);
}

/// `md5::Md5::finalize` computes the MD5 hash, which has 16 bytes, of all the
/// bytes taken in.
#[verifier::external_body]
fn md5_finalize(h: Md5State) -> (r: Vec<u8>)
    requires
        md5_taken(h).len() < CONTENT_LIMIT,
    ensures
        r@ == md5_of(md5_taken(h)),
        r@.len() == 16,
{
    h.inner.finalize().to_vec()
}

/// The hash of some bytes under an algorithm.
pub open spec fn digest_of(algo: HashAlgo, data: Seq<u8>) -> Seq<u8> {
    match algo {
        HashAlgo::Blake3 => blake3_of(data),
        HashAlgo::Sha256 => sha256_of(data),
        HashAlgo::Md5 => md5_of(data),
    }
}

/// The name of an algorithm.
pub open spec fn algo_name(algo: HashAlgo) -> Seq<char> {
    match algo {
        HashAlgo::Blake3 => "blake3"@,
        HashAlgo::Sha256 => "sha256"@,
        HashAlgo::Md5 => "md5"@,
    }
}

/// A hexadecimal digit, in lower case.
pub open spec fn hex_digit(n: int) -> char {
    if n < 10 {
        (48 + n) as u8 as char
    } else {
        (87 + n) as u8 as char
    }
}

/// Bytes in hexadecimal, two digits each.
pub open spec fn hex(data: Seq<u8>) -> Seq<char>
    decreases data.len(),
{
    if data.len() == 0 {
        Seq::empty()
    } else {
        hex(data.drop_last()) + seq![
            hex_digit(data.last() as int / 16),
            hex_digit(data.last() as int % 16),
        ]
    }
}

fn push_hex_digit(out: &mut String, n: u8)
    requires
        n < 16,
    ensures
        final(out)@ == old(out)@.push(hex_digit(n as int)),
{
    if n < 10 {
        out.push((48 + n) as char);
    } else {
        out.push((87 + n) as char);
    }
}

fn hex_text(data: &Vec<u8>) -> (out: String)
    ensures
        out@ == hex(data@),
{
    let mut out = String::new();
    let mut i: usize = 0;
    while i < data.len()
        invariant
            0 <= i <= data@.len(),
            out@ == hex(data@.take(i as int)),
        decreases data@.len() - i,
    {
        let ghost before = out@;
        push_hex_digit(&mut out, data[i] / 16);
        push_hex_digit(&mut out, data[i] % 16);
        i = i + 1;
        assert(data@.take(i as int).drop_last() =~= data@.take(i - 1));
        assert(out@ =~= hex(data@.take(i as int)));
    }
    assert(data@.take(i as int) =~= data@);
    out
}

/// The hash of a content, as text.
pub open spec fn full_hash(algo: HashAlgo, content: Seq<u8>) -> Seq<char> {
    hex(digest_of(algo, content))
}

/// The bytes of a content that the partial hash looks at.
pub open spec fn head(content: Seq<u8>) -> Seq<u8> {
    if content.len() > PARTIAL_BYTES {
        content.take(PARTIAL_BYTES as int)
    } else {
        content
    }
}

/// The partial hash of a content, as text.
pub open spec fn partial_hash(algo: HashAlgo, content: Seq<u8>) -> Seq<char> {
    full_hash(algo, head(content))
}

/// Wraps a hash algorithm and knows how to hash contents, partially or fully.
pub struct HashEngine {
    algo: HashAlgo,
}

impl HashEngine {
    /// The algorithm of the engine.
    pub closed spec fn algorithm(&self) -> HashAlgo {
        self.algo
    }

    pub fn new(algo: HashAlgo) -> (r: Self)
        ensures
            r.algorithm() == algo,
    {
        HashEngine { algo }
    }

    pub fn name(&self) -> (r: &'static str)
        ensures
            r@ == match self.algorithm() {
                HashAlgo::Blake3 => "blake3"@,
                HashAlgo::Sha256 => "sha256"@,
                HashAlgo::Md5 => "md5"@,
            },
            r@ == algo_name(self.algorithm()),
    {
        match self.algo {
            HashAlgo::Blake3 => "blake3",
            HashAlgo::Sha256 => "sha256",
            HashAlgo::Md5 => "md5",
        }
    }

    /// Hashes bytes that are all at hand.
    pub fn digest_bytes(&self, data: &[u8]) -> (r: String)
        requires
            data@.len() < CONTENT_LIMIT,
        ensures
            r@ == full_hash(self.algorithm(), data@),
    {
        let bytes = match self.algo {
            HashAlgo::Blake3 => blake3_hash(data),
            HashAlgo::Sha256 => {
                let mut hasher = sha256_new();
                sha256_update(&mut hasher, data);
                assert(sha256_taken(hasher) =~= data@);
                sha256_finalize(hasher)
            },
            HashAlgo::Md5 => {
                let mut hasher = md5_new();
                md5_update(&mut hasher, data);
                assert(md5_taken(hasher) =~= data@);
                md5_finalize(hasher)
            },
        };
        hex_text(&bytes)
    }

    /// Hash the first `PARTIAL_BYTES` of a content.
    pub fn partial(&self, content: &[u8]) -> (r: String)
        ensures
            r@ == partial_hash(self.algorithm(), content@),
    {
        if content.len() > PARTIAL_BYTES {
            let data = slice_subrange(content, 0, PARTIAL_BYTES);
            assert(data@ =~= content@.take(PARTIAL_BYTES as int));
            self.digest_bytes(data)
        } else {
            self.digest_bytes(content)
        }
    }

    /// Hash an entire content.
    pub fn full(&self, content: &[u8]) -> (r: String)
        requires
            content@.len() < CONTENT_LIMIT,
        ensures
            r@ == full_hash(self.algorithm(), content@),
    {
        self.digest_bytes(content)
    }

    /// Begins to hash a content that is read piece by piece.
    pub fn start(&self) -> (r: HashState)
        ensures
            r.algorithm() == self.algorithm(),
            r.taken() == Seq::<u8>::empty(),
    {
        match self.algo {
            HashAlgo::Blake3 => HashState::Blake3(Blake3State { inner: blake3_new() }),
            HashAlgo::Sha256 => HashState::Sha256(sha256_new()),
            HashAlgo::Md5 => HashState::Md5(md5_new()),
        }
    }

    /// Hashes the content that a reader delivers, given what each read gave. A
    /// read of nothing is the last; where a read fails there is no hash. A content
    /// that is too long has none either.
    pub fn hash_reader(&self, reads: &Vec<Option<Vec<u8>>>) -> (r: Option<String>)
        ensures
            match r {
                Some(h) => {
                    &&& delivered(read_views(reads@)) < CONTENT_LIMIT
                    &&& hash_of_reads(self.algorithm(), Seq::empty(), read_views(reads@)) == Some(
                        h@,
                    )
                },
                None => delivered(read_views(reads@)) >= CONTENT_LIMIT || hash_of_reads(
                    self.algorithm(),
                    Seq::empty(),
                    read_views(reads@),
                ) is None,
            },
    {
        let ghost views = read_views(reads@);
        let ghost algo = self.algorithm();
        let mut state = self.start();
        let mut room: u64 = CONTENT_LIMIT - 1;
        let mut i: usize = 0;
        assert(views.skip(0) =~= views);
        while i < reads.len()
            invariant
                0 <= i <= reads@.len(),
                views == read_views(reads@),
                algo == self.algorithm(),
                state.algorithm() == algo,
                state.taken().len() + room == CONTENT_LIMIT - 1,
                state.taken().len() + delivered(views.skip(i as int)) == delivered(views),
                hash_of_reads(algo, Seq::empty(), views) == hash_of_reads(
                    algo,
                    state.taken(),
                    views.skip(i as int),
                ),
            decreases reads@.len() - i,
        {
            let ghost rest = views.skip(i as int);
            assert(rest[0] == views[i as int]);
            assert(rest.drop_first() =~= views.skip(i + 1));
            let read = match &reads[i] {
                Some(data) => {
                    if data.len() as u64 > room {
                        return None;
                    }
                    room = room - data.len() as u64;
                    Some(data.as_slice())
                },
                None => None,
            };
            match state.step(read) {
                HashStep::More(next) => {
                    state = next;
                },
                HashStep::Done(hash) => {
                    return Some(hash);
                },
                HashStep::Failed => {
                    return None;
                },
            }
            i = i + 1;
        }
        None
    }
}

/// The number of bytes that reads deliver, up to one that fails or is the last.
pub open spec fn delivered(reads: Seq<Option<Seq<u8>>>) -> nat
    decreases reads.len(),
{
    if reads.len() == 0 {
        0
    } else {
        match reads[0] {
            None => 0,
            Some(data) => if data.len() == 0 {
                0
            } else {
                data.len() + delivered(reads.drop_first())
            },
        }
    }
}

/// The reads that deliver these pieces one by one, and then nothing.
pub open spec fn reads_of(pieces: Seq<Seq<u8>>) -> Seq<Option<Seq<u8>>> {
    pieces.map_values(|p: Seq<u8>| Some(p)).push(Some(Seq::empty()))
}

/// However a content is split into pieces, reading them one by one gives the
/// hash of the whole content.
pub proof fn lemma_any_split(algo: HashAlgo, before: Seq<u8>, pieces: Seq<Seq<u8>>)
    requires
        forall|i: int| 0 <= i < pieces.len() ==> (#[trigger] pieces[i]).len() > 0,
    ensures
        hash_of_reads(algo, before, reads_of(pieces)) == Some(
            full_hash(algo, before + pieces.flatten()),
        ),
        delivered(reads_of(pieces)) == pieces.flatten().len(),
    decreases pieces.len(),
{
    let reads = reads_of(pieces);
    if pieces.len() == 0 {
        assert(before + pieces.flatten() =~= before);
    } else {
        let rest = pieces.drop_first();
        assert(reads[0] == Some(pieces[0]));
        assert(reads.drop_first() =~= reads_of(rest));
        assert forall|i: int| 0 <= i < rest.len() implies (#[trigger] rest[i]).len() > 0 by {
            assert(rest[i] == pieces[i + 1]);
        }
        lemma_any_split(algo, before + pieces[0], rest);
        assert(before + pieces.flatten() =~= before + pieces[0] + rest.flatten());
    }
}

/// A content of which a part cannot be read has no hash: not even that of the
/// part read before.
pub proof fn lemma_failed_read(
    algo: HashAlgo,
    before: Seq<u8>,
    reads: Seq<Option<Seq<u8>>>,
    k: int,
)
    requires
        0 <= k < reads.len(),
        reads[k] is None,
        forall|i: int| 0 <= i < k ==> ((#[trigger] reads[i]) matches Some(data) ==> data.len() > 0),
    ensures
        hash_of_reads(algo, before, reads) is None,
    decreases k,
{
    if k > 0 && reads[0] is Some {
        let rest = reads.drop_first();
        assert forall|i: int| 0 <= i < k - 1 implies ((#[trigger] rest[i]) matches Some(data)
            ==> data.len() > 0) by {
            assert(rest[i] == reads[i + 1]);
        }
        lemma_failed_read(algo, before + reads[0]->0, rest, k - 1);
    }
}

/// The content that reads deliver, each the bytes that it gives, with what was
/// read before them, hashed: a read of nothing is the last. Where a read fails,
/// or none is the last, there is no hash.
pub open spec fn hash_of_reads(
    algo: HashAlgo,
    before: Seq<u8>,
    reads: Seq<Option<Seq<u8>>>,
) -> Option<Seq<char>>
    decreases reads.len(),
{
    if reads.len() == 0 {
        None
    } else {
        match reads[0] {
            None => None,
            Some(data) => if data.len() == 0 {
                Some(full_hash(algo, before))
            } else {
                hash_of_reads(algo, before + data, reads.drop_first())
            },
        }
    }
}

/// What each read gave; `None` where it failed.
pub open spec fn read_views(reads: Seq<Option<Vec<u8>>>) -> Seq<Option<Seq<u8>>> {
    reads.map_values(
        |r: Option<Vec<u8>>|
            match r {
                Some(data) => Some(data@),
                None => None,
            },
    )
}

/// An incremental BLAKE3 hasher.
pub struct Blake3State {
    inner: blake3::Hasher,
}

impl Blake3State {
    /// The bytes that the hasher has taken in.
    pub closed spec fn taken(self) -> Seq<u8> {
        blake3_taken(self.inner)
    }
}

/// A hash in the making.
pub enum HashState {
    Blake3(Blake3State),
    Sha256(Sha256State),
    Md5(Md5State),
}

impl HashState {
    /// The algorithm of the hash.
    pub open spec fn algorithm(self) -> HashAlgo {
        match self {
            HashState::Blake3(_) => HashAlgo::Blake3,
            HashState::Sha256(_) => HashAlgo::Sha256,
            HashState::Md5(_) => HashAlgo::Md5,
        }
    }

    /// The bytes read so far.
    pub open spec fn taken(self) -> Seq<u8> {
        match self {
            HashState::Blake3(h) => h.taken(),
            HashState::Sha256(h) => sha256_taken(h),
            HashState::Md5(h) => md5_taken(h),
        }
    }

    /// Takes note of a read that filled the first `n` bytes of a buffer, and
    /// tells whether there may be more to read: a read of nothing is the last.
    pub fn feed(&mut self, buf: &[u8], n: usize) -> (more: bool)
        requires
            n <= buf@.len(),
            old(self).taken().len() + n < CONTENT_LIMIT,
        ensures
            more == (n > 0),
            final(self).algorithm() == old(self).algorithm(),
            final(self).taken() == old(self).taken() + buf@.take(n as int),
    {
        if n == 0 {
            assert(buf@.take(0) =~= Seq::<u8>::empty());
            assert(self.taken() =~= old(self).taken() + buf@.take(0));
            return false;
        }
        let data = slice_subrange(buf, 0, n);
        assert(data@ =~= buf@.take(n as int));
        match self {
            HashState::Blake3(h) => blake3_update(&mut h.inner, data),
            HashState::Sha256(h) => sha256_update(h, data),
            HashState::Md5(h) => md5_update(h, data),
        }
        true
    }

    /// Goes on after a read, given the bytes that it gave, if it did not fail.
    pub fn step(self, read: Option<&[u8]>) -> (r: HashStep)
        requires
            read matches Some(data) ==> self.taken().len() + data@.len() < CONTENT_LIMIT,
        ensures
            match read {
                None => r is Failed,
                Some(data) => if data@.len() == 0 {
                    r matches HashStep::Done(h) && h@ == full_hash(self.algorithm(), self.taken())
                } else {
                    r matches HashStep::More(s) && s.algorithm() == self.algorithm() && s.taken()
                        == self.taken() + data@
                },
            },
    {
        let data = match read {
            Some(d) => d,
            None => {
                return HashStep::Failed;
            },
        };
        let mut state = self;
        assert(data@.take(data@.len() as int) =~= data@);
        if state.feed(data, data.len()) {
            HashStep::More(state)
        } else {
            assert(state.taken() =~= self.taken());
            HashStep::Done(state.finish())
        }
    }

    /// The hash of all that was read.
    pub fn finish(self) -> (r: String)
        requires
            self.taken().len() < CONTENT_LIMIT,
        ensures
            r@ == full_hash(self.algorithm(), self.taken()),
    {
        let bytes = match self {
            HashState::Blake3(h) => blake3_finalize(&h.inner),
            HashState::Sha256(h) => sha256_finalize(h),
            HashState::Md5(h) => md5_finalize(h),
        };
        hex_text(&bytes)
    }
}

/// What comes of a read.
pub enum HashStep {
    /// There may be more to read.
    More(HashState),
    /// All has been read, and this is its hash.
    Done(String),
    /// The read failed, and there is no hash.
    Failed,
}

/// One set of files proven (by full hash) to be identical.
#[derive(Debug)]
pub struct DuplicateGroup {
    pub hash: String,
    pub members: Vec<FileEntry>,
}

/// What a set of identical files is.
#[verifier::ext_equal]
pub struct DuplicateView {
    pub hash: Seq<char>,
    pub members: Seq<EntryView>,
}

impl View for DuplicateGroup {
    type V = DuplicateView;

    open spec fn view(&self) -> DuplicateView {
        DuplicateView { hash: self.hash@, members: scan::entry_views(self.members@) }
    }
}

/// The hash texts in a list; a file that could not be read has none.
pub open spec fn hash_views(hashes: Seq<Option<String>>) -> Seq<Option<Seq<char>>> {
    hashes.map_values(
        |h: Option<String>|
            match h {
                Some(s) => Some(s@),
                None => None,
            },
    )
}

/// A file's size and hashes as one key.
pub open spec fn stage_ident(size: u64, partial: Seq<char>, full: Seq<char>) -> Seq<int> {
    seq![size as int, partial.len() as int] + bucket::text_ident(partial) + bucket::text_ident(full)
}

/// The key says what the size and the hashes are.
pub proof fn lemma_stage_ident(
    s: u64,
    p: Seq<char>,
    f: Seq<char>,
    t: u64,
    q: Seq<char>,
    g: Seq<char>,
)
    ensures
        stage_ident(s, p, f) == stage_ident(t, q, g) <==> s == t && p == q && f == g,
{
    let a = stage_ident(s, p, f);
    let b = stage_ident(t, q, g);
    if a == b {
        assert(a[0] == s && b[0] == t);
        assert(a[1] == p.len() && b[1] == q.len());
        let n = p.len() as int;
        assert(a.subrange(2, 2 + n) =~= bucket::text_ident(p));
        assert(b.subrange(2, 2 + n) =~= bucket::text_ident(q));
        assert(a.skip(2 + n) =~= bucket::text_ident(f));
        assert(b.skip(2 + n) =~= bucket::text_ident(g));
        bucket::lemma_text_ident(p, q);
        bucket::lemma_text_ident(f, g);
    }
}

/// A file's size and hashes.
pub struct StageKey {
    pub size: u64,
    pub partial: String,
    pub full: String,
}

impl BucketKey for StageKey {
    open spec fn ident(&self) -> Seq<int> {
        stage_ident(self.size, self.partial@, self.full@)
    }

    open spec fn ident_hash(id: Seq<int>) -> u64 {
        index::hash_numbers(id.subrange(2, 2 + id[1])) ^ index::hash_numbers(id.skip(2 + id[1]))
    }

    fn hash(&self) -> (h: u64) {
        let ghost id = self.ident();
        assert(id[1] == self.partial@.len());
        assert(id.subrange(2, 2 + id[1]) =~= self.partial@.map_values(|c: char| c as int));
        assert(id.skip(2 + id[1]) =~= self.full@.map_values(|c: char| c as int));
        hash_text(self.partial.as_str()) ^ hash_text(self.full.as_str())
    }

    fn same(&self, other: &Self) -> (r: bool) {
        proof {
            lemma_stage_ident(
                self.size,
                self.partial@,
                self.full@,
                other.size,
                other.partial@,
                other.full@,
            );
        }
        self.size == other.size && same_text(self.partial.as_str(), other.partial.as_str())
            && same_text(self.full.as_str(), other.full.as_str())
    }
}

/// What files are grouped by first: their sizes.
pub open spec fn size_idents(entries: Seq<EntryView>) -> Seq<Option<Seq<int>>> {
    entries.map_values(|e: EntryView| Some(seq![e.size as int]))
}

/// What files are grouped by next: their sizes and partial hashes.
pub open spec fn partial_idents(
    entries: Seq<EntryView>,
    partials: Seq<Option<Seq<char>>>,
) -> Seq<Option<Seq<int>>> {
    Seq::new(
        entries.len(),
        |i: int|
            match partials[i] {
                Some(p) => Some(stage_ident(entries[i].size, p, Seq::empty())),
                None => None,
            },
    )
}

/// What files are grouped by last: their sizes, partial and full hashes.
pub open spec fn full_idents(
    entries: Seq<EntryView>,
    partials: Seq<Option<Seq<char>>>,
    fulls: Seq<Option<Seq<char>>>,
) -> Seq<Option<Seq<int>>> {
    Seq::new(
        entries.len(),
        |i: int|
            match (partials[i], fulls[i]) {
                (Some(p), Some(f)) => Some(stage_ident(entries[i].size, p, f)),
                _ => None,
            },
    )
}

/// The first stage: groups of at least two files of the same size.
pub fn size_candidates(entries: &Vec<FileEntry>) -> (groups: Vec<Vec<usize>>)
    ensures
        bucket::is_twin_partition(size_idents(scan::entry_views(entries@)), groups@),
{
    let mut keys: Vec<Option<u64>> = Vec::new();
    let mut i: usize = 0;
    while i < entries.len()
        invariant
            0 <= i <= entries@.len(),
            keys@.len() == i,
            forall|j: int| 0 <= j < i ==> #[trigger] keys@[j] == Some(entries@[j].size),
        decreases entries@.len() - i,
    {
        keys.push(Some(entries[i].size));
        i = i + 1;
    }
    assert(bucket::idents(keys@) =~= size_idents(scan::entry_views(entries@)));
    group_twins(&keys)
}

/// The second stage: groups of at least two files of the same size and partial
/// hash.
pub fn partial_candidates(entries: &Vec<FileEntry>, partials: &Vec<Option<String>>) -> (groups: Vec<
    Vec<usize>,
>)
    requires
        partials@.len() == entries@.len(),
    ensures
        bucket::is_twin_partition(
            partial_idents(scan::entry_views(entries@), hash_views(partials@)),
            groups@,
        ),
{
    let ghost ids = partial_idents(scan::entry_views(entries@), hash_views(partials@));
    let mut keys: Vec<Option<StageKey>> = Vec::new();
    let mut i: usize = 0;
    while i < entries.len()
        invariant
            0 <= i <= entries@.len(),
            partials@.len() == entries@.len(),
            ids == partial_idents(scan::entry_views(entries@), hash_views(partials@)),
            keys@.len() == i,
            forall|j: int|
                0 <= j < i ==> (match #[trigger] keys@[j] {
                    Some(k) => Some(k.ident()),
                    None => None,
                }) == ids[j],
        decreases entries@.len() - i,
    {
        match &partials[i] {
            Some(p) => {
                let key = StageKey {
                    size: entries[i].size,
                    partial: p.clone(),
                    full: String::new(),
                };
                assert(Some(key.ident()) == ids[i as int]);
                keys.push(Some(key));
            },
            None => {
                keys.push(None);
            },
        }
        i = i + 1;
    }
    assert(bucket::idents(keys@) =~= ids);
    group_twins(&keys)
}

/// The groups that classes of positions stand for.
pub open spec fn duplicates_at(
    entries: Seq<EntryView>,
    fulls: Seq<Option<Seq<char>>>,
    classes: Seq<Vec<usize>>,
) -> Seq<DuplicateView> {
    classes.map_values(
        |g: Vec<usize>|
            DuplicateView {
                hash: fulls[g@[0] as int]->0,
                members: g@.map_values(|i: usize| entries[i as int]),
            },
    )
}

/// `groups` are the sets of at least two files whose size, partial and full
/// hash are the same, in the order of their first files; each lists its files
/// in their order.
pub open spec fn are_duplicates(
    entries: Seq<EntryView>,
    partials: Seq<Option<Seq<char>>>,
    fulls: Seq<Option<Seq<char>>>,
    groups: Seq<DuplicateView>,
) -> bool {
    exists|classes: Seq<Vec<usize>>|
        #[trigger] bucket::is_twin_partition(full_idents(entries, partials, fulls), classes)
            && groups == duplicates_at(entries, fulls, classes)
}

/// What each group in a list is.
pub open spec fn duplicate_views(groups: Seq<DuplicateGroup>) -> Seq<DuplicateView> {
    groups.map_values(|g: DuplicateGroup| g@)
}

/// Copies the files at some positions.
fn entries_at(entries: &Vec<FileEntry>, at: &Vec<usize>) -> (out: Vec<FileEntry>)
    requires
        forall|k: int| 0 <= k < at@.len() ==> #[trigger] at@[k] < entries@.len(),
    ensures
        scan::entry_views(out@) == at@.map_values(
            |i: usize| scan::entry_views(entries@)[i as int],
        ),
{
    let mut out: Vec<FileEntry> = Vec::new();
    let mut k: usize = 0;
    while k < at.len()
        invariant
            0 <= k <= at@.len(),
            forall|j: int| 0 <= j < at@.len() ==> #[trigger] at@[j] < entries@.len(),
            out@.len() == k,
            forall|j: int| 0 <= j < k ==> (#[trigger] out@[j])@ == entries@[at@[j] as int]@,
        decreases at@.len() - k,
    {
        out.push(entries[at[k]].clone());
        k = k + 1;
    }
    assert(scan::entry_views(out@) =~= at@.map_values(
        |i: usize| scan::entry_views(entries@)[i as int],
    ));
    out
}

/// The last stage of detection: given the partial and the full hash of each
/// file that has one, the groups of at least two files that agree in both and
/// in size. Only files that share their size need a partial hash, and only
/// files that share size and partial hash a full one.
pub fn find_duplicate_groups(
    entries: &Vec<FileEntry>,
    partials: &Vec<Option<String>>,
    fulls: &Vec<Option<String>>,
) -> (groups: Vec<DuplicateGroup>)
    requires
        partials@.len() == entries@.len(),
        fulls@.len() == entries@.len(),
    ensures
        are_duplicates(
            scan::entry_views(entries@),
            hash_views(partials@),
            hash_views(fulls@),
            duplicate_views(groups@),
        ),
{
    let ghost views = scan::entry_views(entries@);
    let ghost ids = full_idents(views, hash_views(partials@), hash_views(fulls@));
    let mut keys: Vec<Option<StageKey>> = Vec::new();
    let mut i: usize = 0;
    while i < entries.len()
        invariant
            0 <= i <= entries@.len(),
            partials@.len() == entries@.len(),
            fulls@.len() == entries@.len(),
            views == scan::entry_views(entries@),
            ids == full_idents(views, hash_views(partials@), hash_views(fulls@)),
            keys@.len() == i,
            forall|j: int|
                0 <= j < i ==> (match #[trigger] keys@[j] {
                    Some(k) => Some(k.ident()),
                    None => None,
                }) == ids[j],
        decreases entries@.len() - i,
    {
        match (&partials[i], &fulls[i]) {
            (Some(p), Some(f)) => {
                let key = StageKey { size: entries[i].size, partial: p.clone(), full: f.clone() };
                assert(Some(key.ident()) == ids[i as int]);
                keys.push(Some(key));
            },
            _ => {
                assert(ids[i as int] is None);
                keys.push(None);
            },
        }
        i = i + 1;
    }
    assert(bucket::idents(keys@) =~= ids);
    let classes = group_twins(&keys);
    let ghost expected = duplicates_at(views, hash_views(fulls@), classes@);
    let mut groups: Vec<DuplicateGroup> = Vec::new();
    let mut a: usize = 0;
    while a < classes.len()
        invariant
            0 <= a <= classes@.len(),
            fulls@.len() == entries@.len(),
            views == scan::entry_views(entries@),
            ids == full_idents(views, hash_views(partials@), hash_views(fulls@)),
            bucket::is_twin_partition(ids, classes@),
            expected == duplicates_at(views, hash_views(fulls@), classes@),
            groups@.len() == a,
            forall|j: int| 0 <= j < a ==> (#[trigger] groups@[j])@ == expected[j],
        decreases classes@.len() - a,
    {
        let class = &classes[a];
        assert(bucket::is_class(ids, classes@[a as int]@));
        let first = class[0];
        let members = entries_at(entries, class);
        match &fulls[first] {
            Some(h) => {
                groups.push(DuplicateGroup { hash: h.clone(), members });
            },
            None => {
                assert(ids[first as int] is None);
            },
        }
        assert(groups@[a as int]@ == expected[a as int]);
        a = a + 1;
    }
    assert(duplicate_views(groups@) =~= expected);
    groups
}

/// How many files some groups hold.
pub open spec fn group_total(groups: Seq<Vec<usize>>) -> nat
    decreases groups.len(),
{
    if groups.len() == 0 {
        0
    } else {
        group_total(groups.drop_last()) + groups.last()@.len()
    }
}

/// Counts the files in some groups: the work that one stage has before it.
pub fn candidate_count(groups: &Vec<Vec<usize>>) -> (n: usize)
    requires
        group_total(groups@) <= usize::MAX,
    ensures
        n == group_total(groups@),
{
    let mut n: usize = 0;
    let mut a: usize = 0;
    while a < groups.len()
        invariant
            0 <= a <= groups@.len(),
            n == group_total(groups@.take(a as int)),
            group_total(groups@) <= usize::MAX,
        decreases groups@.len() - a,
    {
        proof {
            lemma_progress(groups@, a + 1);
            assert(groups@.take(a + 1).drop_last() =~= groups@.take(a as int));
        }
        n = n + groups[a].len();
        a = a + 1;
    }
    assert(groups@.take(a as int) =~= groups@);
    n
}

/// A progress bar that moves on by the length of each group, one after the
/// other, never moves past the number of files in all of them.
pub proof fn lemma_progress(groups: Seq<Vec<usize>>, done: int)
    requires
        0 <= done <= groups.len(),
    ensures
        group_total(groups.take(done)) <= group_total(groups),
    decreases groups.len() - done,
{
    if done < groups.len() {
        lemma_progress(groups, done + 1);
        assert(groups.take(done + 1).drop_last() =~= groups.take(done));
    } else {
        assert(groups.take(done) =~= groups);
    }
}

/// A content that the partial hash covers has the same partial and full hash.
pub proof fn lemma_small_content(algo: HashAlgo, content: Seq<u8>)
    requires
        content.len() <= PARTIAL_BYTES,
    ensures
        partial_hash(algo, content) == full_hash(algo, content),
{
}

/// The files of a group are at least two, have the group's hash as their full
/// hash, and agree in size and in partial hash.
pub proof fn lemma_group_agrees(
    entries: Seq<EntryView>,
    partials: Seq<Option<Seq<char>>>,
    fulls: Seq<Option<Seq<char>>>,
    groups: Seq<DuplicateView>,
    a: int,
)
    requires
        are_duplicates(entries, partials, fulls, groups),
        0 <= a < groups.len(),
    ensures
        groups[a].members.len() >= 2,
        forall|k: int|
            0 <= k < groups[a].members.len() ==> {
                &&& (#[trigger] groups[a].members[k]).size == groups[a].members[0].size
                &&& exists|i: int|
                    {
                        &&& 0 <= i < entries.len()
                        &&& groups[a].members[k] == #[trigger] entries[i]
                        &&& fulls[i] == Some(groups[a].hash)
                    }
            },
{
    let ids = full_idents(entries, partials, fulls);
    let classes = choose|classes: Seq<Vec<usize>>|
        #[trigger] bucket::is_twin_partition(ids, classes) && groups == duplicates_at(
            entries,
            fulls,
            classes,
        );
    let g = classes[a]@;
    assert(bucket::is_class(ids, classes[a]@));
    assert(groups[a].members =~= g.map_values(|i: usize| entries[i as int]));
    let first = g[0] as int;
    assert(ids[first] is Some);
    assert forall|k: int| 0 <= k < groups[a].members.len() implies {
        &&& (#[trigger] groups[a].members[k]).size == groups[a].members[0].size
        &&& exists|i: int|
            {
                &&& 0 <= i < entries.len()
                &&& groups[a].members[k] == #[trigger] entries[i]
                &&& fulls[i] == Some(groups[a].hash)
            }
    } by {
        let i = g[k] as int;
        assert(ids[g[k] as int] == ids[g[0] as int]);
        lemma_stage_ident(
            entries[i].size,
            partials[i]->0,
            fulls[i]->0,
            entries[first].size,
            partials[first]->0,
            fulls[first]->0,
        );
        assert(groups[a].members[k] == entries[i]);
    }
}

/// Two files that agree in size, partial and full hash are in one group.
pub proof fn lemma_equals_are_grouped(
    entries: Seq<EntryView>,
    partials: Seq<Option<Seq<char>>>,
    fulls: Seq<Option<Seq<char>>>,
    groups: Seq<DuplicateView>,
    i: int,
    j: int,
)
    requires
        are_duplicates(entries, partials, fulls, groups),
        entries.len() <= usize::MAX,
        0 <= i < entries.len(),
        0 <= j < entries.len(),
        i != j,
        entries[i].size == entries[j].size,
        partials[i] is Some,
        partials[i] == partials[j],
        fulls[i] is Some,
        fulls[i] == fulls[j],
    ensures
        exists|a: int|
            {
                &&& 0 <= a < groups.len()
                &&& #[trigger] groups[a].members.contains(entries[i])
                &&& groups[a].members.contains(entries[j])
                &&& groups[a].hash == fulls[i]->0
            },
{
    let ids = full_idents(entries, partials, fulls);
    let classes = choose|classes: Seq<Vec<usize>>|
        #[trigger] bucket::is_twin_partition(ids, classes) && groups == duplicates_at(
            entries,
            fulls,
            classes,
        );
    assert(ids[j] == ids[i]);
    assert(bucket::has_twin(ids, i));
    assert(bucket::is_placed(classes, i as usize));
    let a = choose|a: int| 0 <= a < classes.len() && #[trigger] classes[a]@.contains(i as usize);
    let g = classes[a]@;
    assert(bucket::is_class(ids, classes[a]@));
    let k = choose|k: int| 0 <= k < g.len() && g[k] == i as usize;
    assert(ids[g[k] as int] == ids[g[0] as int]);
    assert(g.contains(j as usize)) by {
        assert(ids[j] == ids[g[0] as int]);
    }
    let l = choose|l: int| 0 <= l < g.len() && g[l] == j as usize;
    assert(groups[a].members[k] == entries[i]);
    assert(groups[a].members[l] == entries[j]);
    let first = g[0] as int;
    lemma_stage_ident(
        entries[i].size,
        partials[i]->0,
        fulls[i]->0,
        entries[first].size,
        partials[first]->0,
        fulls[first]->0,
    );
    assert(groups[a].members.contains(entries[i]));
}

/// Two files with the same content are in one group, whatever else was
/// scanned.
pub proof fn lemma_same_content_is_grouped(
    algo: HashAlgo,
    entries: Seq<EntryView>,
    content: Seq<u8>,
    partials: Seq<Option<Seq<char>>>,
    fulls: Seq<Option<Seq<char>>>,
    groups: Seq<DuplicateView>,
    i: int,
    j: int,
)
    requires
        are_duplicates(entries, partials, fulls, groups),
        entries.len() <= usize::MAX,
        0 <= i < entries.len(),
        0 <= j < entries.len(),
        i != j,
        entries[i].size == content.len(),
        entries[j].size == content.len(),
        partials[i] == Some(partial_hash(algo, content)),
        partials[j] == Some(partial_hash(algo, content)),
        fulls[i] == Some(full_hash(algo, content)),
        fulls[j] == Some(full_hash(algo, content)),
    ensures
        exists|a: int|
            {
                &&& 0 <= a < groups.len()
                &&& #[trigger] groups[a].members.contains(entries[i])
                &&& groups[a].members.contains(entries[j])
                &&& groups[a].hash == full_hash(algo, content)
            },
{
    lemma_equals_are_grouped(entries, partials, fulls, groups, i, j);
}

/// Files of different paths are in one group at most, and once.
pub proof fn lemma_groups_are_disjoint(
    entries: Seq<EntryView>,
    partials: Seq<Option<Seq<char>>>,
    fulls: Seq<Option<Seq<char>>>,
    groups: Seq<DuplicateView>,
    a: int,
    k: int,
    b: int,
    l: int,
)
    requires
        are_duplicates(entries, partials, fulls, groups),
        forall|i: int, j: int|
            0 <= i < j < entries.len() ==> !(#[trigger] entries[i]).path.same(
                (#[trigger] entries[j]).path,
            ),
        0 <= a < groups.len(),
        0 <= k < groups[a].members.len(),
        0 <= b < groups.len(),
        0 <= l < groups[b].members.len(),
        groups[a].members[k].path.same(groups[b].members[l].path),
    ensures
        a == b && k == l,
{
    let ids = full_idents(entries, partials, fulls);
    let classes = choose|classes: Seq<Vec<usize>>|
        #[trigger] bucket::is_twin_partition(ids, classes) && groups == duplicates_at(
            entries,
            fulls,
            classes,
        );
    let g = classes[a]@;
    let h = classes[b]@;
    assert(bucket::is_class(ids, classes[a]@));
    assert(bucket::is_class(ids, classes[b]@));
    let i = g[k];
    let j = h[l];
    assert(groups[a].members[k] == entries[i as int]);
    assert(groups[b].members[l] == entries[j as int]);
    if i < j {
        assert(!entries[i as int].path.same(entries[j as int].path));
    }
    if j < i {
        assert(!entries[j as int].path.same(entries[i as int].path));
    }
    assert(g.contains(i) && h.contains(i));
    bucket::lemma_class_meet(ids, g, h, i);
    if a < b {
        assert(classes[a]@[0] < classes[b]@[0]);
    }
    if b < a {
        assert(classes[b]@[0] < classes[a]@[0]);
    }
    if k < l {
        assert(g[k] < g[l]);
    }
    if l < k {
        assert(g[l] < g[k]);
    }
}

/// The hashes of the files at the positions in some groups; those of other
/// files are left out.
pub open spec fn hashes_in(hashes: Seq<Option<Seq<char>>>, groups: Seq<Vec<usize>>) -> Seq<
    Option<Seq<char>>,
> {
    Seq::new(
        hashes.len(),
        |i: int|
            if bucket::is_placed(groups, i as usize) {
                hashes[i]
            } else {
                None
            },
    )
}

/// A file that has a twin by size, partial and full hash has one by size and
/// partial hash, and one by size: the earlier stages lose no duplicates.
pub proof fn lemma_twins_survive(
    entries: Seq<EntryView>,
    partials: Seq<Option<Seq<char>>>,
    fulls: Seq<Option<Seq<char>>>,
    i: int,
)
    requires
        0 <= i < entries.len(),
    ensures
        bucket::has_twin(full_idents(entries, partials, fulls), i) ==> bucket::has_twin(
            partial_idents(entries, partials),
            i,
        ),
        bucket::has_twin(partial_idents(entries, partials), i) ==> bucket::has_twin(
            size_idents(entries),
            i,
        ),
{
    let none = Seq::<char>::empty();
    let ids = full_idents(entries, partials, fulls);
    let mids = partial_idents(entries, partials);
    if bucket::has_twin(ids, i) {
        let j = choose|j: int| 0 <= j < ids.len() && j != i && #[trigger] ids[j] == ids[i];
        lemma_stage_ident(
            entries[i].size,
            partials[i]->0,
            fulls[i]->0,
            entries[j].size,
            partials[j]->0,
            fulls[j]->0,
        );
        assert(mids[j] == mids[i]);
    }
    if bucket::has_twin(mids, i) {
        let j = choose|j: int| 0 <= j < mids.len() && j != i && #[trigger] mids[j] == mids[i];
        lemma_stage_ident(
            entries[i].size,
            partials[i]->0,
            none,
            entries[j].size,
            partials[j]->0,
            none,
        );
        assert(size_idents(entries)[j] == size_idents(entries)[i]);
    }
}

/// It is enough to hash what the stages ask for: with the partial hashes of
/// the files that share their size, and the full hashes of those that share
/// size and partial hash, the groups are those that all hashes would give.
pub proof fn lemma_candidates_suffice(
    entries: Seq<EntryView>,
    partials: Seq<Option<Seq<char>>>,
    fulls: Seq<Option<Seq<char>>>,
    sized: Seq<Vec<usize>>,
    survivors: Seq<Vec<usize>>,
    groups: Seq<DuplicateView>,
)
    requires
        entries.len() <= usize::MAX,
        partials.len() == entries.len(),
        fulls.len() == entries.len(),
        bucket::is_twin_partition(size_idents(entries), sized),
        bucket::is_twin_partition(partial_idents(entries, hashes_in(partials, sized)), survivors),
        are_duplicates(
            entries,
            hashes_in(partials, sized),
            hashes_in(fulls, survivors),
            groups,
        ),
    ensures
        are_duplicates(entries, partials, fulls, groups),
{
    let none = Seq::<char>::empty();
    let few = hashes_in(partials, sized);
    let fewer = hashes_in(fulls, survivors);
    let ids = full_idents(entries, few, fewer);
    let all = full_idents(entries, partials, fulls);
    let mids = partial_idents(entries, partials);
    let kept = partial_idents(entries, few);
    let sizes = size_idents(entries);
    let classes = choose|classes: Seq<Vec<usize>>|
        #[trigger] bucket::is_twin_partition(ids, classes) && groups == duplicates_at(
            entries,
            fewer,
            classes,
        );
    // Where a hash was left out, nothing else has the same.
    assert forall|i: int| 0 <= i < entries.len() && bucket::has_twin(all, i) implies {
        &&& few[i] == partials[i]
        &&& fewer[i] == fulls[i]
        &&& ids[i] == all[i]
    } by {
        lemma_twins_survive(entries, partials, fulls, i);
        assert(bucket::is_placed(sized, i as usize));
        let j = choose|j: int| 0 <= j < all.len() && j != i && #[trigger] all[j] == all[i];
        lemma_stage_ident(
            entries[i].size,
            partials[i]->0,
            fulls[i]->0,
            entries[j].size,
            partials[j]->0,
            fulls[j]->0,
        );
        assert(all[i] == all[j]);
        assert(bucket::has_twin(all, j));
        lemma_twins_survive(entries, partials, fulls, j);
        assert(bucket::is_placed(sized, j as usize));
        assert(kept[j] == kept[i]);
        assert(bucket::has_twin(kept, i));
        assert(bucket::is_placed(survivors, i as usize));
    }
    assert forall|i: int| 0 <= i < entries.len() && ids[i] is Some implies ids[i] == all[i] by {}
    assert forall|a: int| 0 <= a < classes.len() implies bucket::is_class(
        all,
        #[trigger] classes[a]@,
    ) by {
        let g = classes[a]@;
        assert(bucket::is_class(ids, g));
        assert(g[0] < g[1]);
        assert(ids[g[1] as int] == ids[g[0] as int]);
        assert(all[g[1] as int] == all[g[0] as int]);
        assert forall|k: int| 0 <= k < g.len() implies all[#[trigger] g[k] as int]
            == all[g[0] as int] by {
            assert(ids[g[k] as int] == ids[g[0] as int]);
        }
        assert forall|i: int| 0 <= i < all.len() && #[trigger] all[i] == all[g[0] as int] implies g.contains(
            i as usize,
        ) by {
            if i != g[0] as int {
                assert(bucket::has_twin(all, i));
            }
            assert(ids[i] == ids[g[0] as int]);
        }
    }
    assert(bucket::is_twin_partition(all, classes)) by {
        assert forall|i: int| 0 <= i < all.len() && #[trigger] bucket::has_twin(all, i) implies bucket::is_placed(
            classes,
            i as usize,
        ) by {
            let j = choose|j: int| 0 <= j < all.len() && j != i && #[trigger] all[j] == all[i];
            assert(all[i] == all[j]);
            assert(bucket::has_twin(all, j));
            assert(ids[j] == ids[i]);
            assert(bucket::has_twin(ids, i));
        }
    }
    assert(duplicates_at(entries, fewer, classes) =~= duplicates_at(entries, fulls, classes)) by {
        assert forall|a: int| 0 <= a < classes.len() implies duplicates_at(entries, fewer, classes)[a]
            == duplicates_at(entries, fulls, classes)[a] by {
            assert(bucket::is_class(ids, classes[a]@));
            let first = classes[a]@[0] as int;
            assert(ids[first] is Some);
            assert(fewer[first] == fulls[first]);
        }
    }
}

/// A hash as text has two characters for each byte: the hexadecimal digits of
/// the byte's upper and lower half.
pub proof fn lemma_hex(data: Seq<u8>, i: int)
    requires
        0 <= i < data.len(),
    ensures
        hex(data).len() == 2 * data.len(),
        hex(data)[2 * i] == "0123456789abcdef"@[data[i] as int / 16],
        hex(data)[2 * i + 1] == "0123456789abcdef"@[data[i] as int % 16],
    decreases data.len(),
{
    lemma_hex_len(data);
    let front = data.drop_last();
    lemma_hex_len(front);
    if i == data.len() - 1 {
        lemma_hex_digit(data[i] as int / 16);
        lemma_hex_digit(data[i] as int % 16);
    } else {
        lemma_hex(front, i);
        assert(front[i] == data[i]);
        assert(hex(data)[2 * i] == hex(front)[2 * i]);
        assert(hex(data)[2 * i + 1] == hex(front)[2 * i + 1]);
    }
}

proof fn lemma_hex_len(data: Seq<u8>)
    ensures
        hex(data).len() == 2 * data.len(),
    decreases data.len(),
{
    if data.len() > 0 {
        lemma_hex_len(data.drop_last());
    }
}

proof fn lemma_hex_digit(n: int)
    requires
        0 <= n < 16,
    ensures
        hex_digit(n) == "0123456789abcdef"@[n],
{
    reveal_strlit("0123456789abcdef");
    assert("0123456789abcdef"@ =~= seq![
        '0',
        '1',
        '2',
        '3',
        '4',
        '5',
        '6',
        '7',
        '8',
        '9',
        'a',
        'b',
        'c',
        'd',
        'e',
        'f',
    ]);
}

/// The partial hash is that of the first 64 kibibytes, or of the whole content
/// where it has no more; what follows does not count.
pub proof fn lemma_partial(algo: HashAlgo, start: Seq<u8>, rest: Seq<u8>, other: Seq<u8>)
    requires
        start.len() == 64 * 1024,
    ensures
        partial_hash(algo, start + rest) == full_hash(algo, start),
        partial_hash(algo, start + rest) == partial_hash(algo, start + other),
{
    assert(head(start + rest) =~= start);
    assert(head(start + other) =~= start);
}

/// Each algorithm hashes with the function that it is named after.
pub proof fn lemma_algorithms(content: Seq<u8>)
    ensures
        full_hash(HashAlgo::Blake3, content) == hex(blake3_of(content)),
        full_hash(HashAlgo::Sha256, content) == hex(sha256_of(content)),
        full_hash(HashAlgo::Md5, content) == hex(md5_of(content)),
{
}

/// The number of files in some groups is that in one part of them and that in
/// the other, and that of one group is its length.
pub proof fn lemma_group_total(a: Seq<Vec<usize>>, b: Seq<Vec<usize>>, g: Vec<usize>)
    ensures
        group_total(a + b) == group_total(a) + group_total(b),
        group_total(seq![g]) == g@.len(),
        group_total(Seq::<Vec<usize>>::empty()) == 0,
    decreases b.len(),
{
    let one = seq![g];
    assert(one.drop_last() =~= Seq::<Vec<usize>>::empty());
    assert(group_total(one.drop_last()) == 0);
    if b.len() == 0 {
        assert(a + b =~= a);
    } else {
        assert((a + b).drop_last() =~= a + b.drop_last());
        lemma_group_total(a, b.drop_last(), g);
    }
}

/// The algorithms have the names that they are known by.
pub proof fn lemma_algo_names()
    ensures
        algo_name(HashAlgo::Blake3) == seq!['b', 'l', 'a', 'k', 'e', '3'],
        algo_name(HashAlgo::Sha256) == seq!['s', 'h', 'a', '2', '5', '6'],
        algo_name(HashAlgo::Md5) == seq!['m', 'd', '5'],
{
    reveal_strlit("blake3");
    reveal_strlit("sha256");
    reveal_strlit("md5");
    assert("blake3"@ =~= seq!['b', 'l', 'a', 'k', 'e', '3']);
    assert("sha256"@ =~= seq!['s', 'h', 'a', '2', '5', '6']);
    assert("md5"@ =~= seq!['m', 'd', '5']);
}

/// Groups stand in the order of their first files, and the files of a group in
/// their own order.
pub proof fn lemma_groups_in_order(
    entries: Seq<EntryView>,
    partials: Seq<Option<Seq<char>>>,
    fulls: Seq<Option<Seq<char>>>,
    groups: Seq<DuplicateView>,
    a: int,
    b: int,
    k: int,
    l: int,
) -> (at: (int, int, int, int))
    requires
        are_duplicates(entries, partials, fulls, groups),
        0 <= a < b < groups.len(),
        0 <= k < l < groups[a].members.len(),
    ensures
        0 <= at.0 < at.1 < entries.len(),
        groups[a].members[0] == entries[at.0],
        groups[b].members[0] == entries[at.1],
        0 <= at.2 < at.3 < entries.len(),
        groups[a].members[k] == entries[at.2],
        groups[a].members[l] == entries[at.3],
{
    let ids = full_idents(entries, partials, fulls);
    let classes = choose|classes: Seq<Vec<usize>>|
        #[trigger] bucket::is_twin_partition(ids, classes) && groups == duplicates_at(
            entries,
            fulls,
            classes,
        );
    let g = classes[a]@;
    let h = classes[b]@;
    assert(bucket::is_class(ids, classes[a]@));
    assert(bucket::is_class(ids, classes[b]@));
    assert(classes[a]@[0] < classes[b]@[0]);
    assert(groups[a].members =~= g.map_values(|i: usize| entries[i as int]));
    assert(groups[b].members =~= h.map_values(|i: usize| entries[i as int]));
    assert(g[k] < g[l]);
    (g[0] as int, h[0] as int, g[k] as int, g[l] as int)
}

} // verus!
