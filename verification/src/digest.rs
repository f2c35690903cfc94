//! Content digests, and the byte-level decisions made while files are read.

use sha2::Digest;
use vstd::prelude::*;

verus! {

/// How much of a file the quick hash looks at.
pub const PARTIAL_CHUNK_SIZE: usize = 8192;

/// How much of a file is read at a time.
pub const FULL_READ_CHUNK_SIZE: usize = 1048576;

/// The hash counts bits in 64 bits, so it takes fewer bytes than this.
pub const DIGEST_LIMIT: u64 = 0x2000_0000_0000_0000;

/// A running SHA-256 computation, `sha2::Sha256`. That type is an instance of a
/// generic wrapper whose bounds are traits of its own crate, so it stands here
/// behind a private field.
#[verifier::external_body]
pub struct Sha256State {
    inner: sha2::Sha256,
}

/// The bytes that a running computation has taken in.
pub uninterp spec fn absorbed(h: Sha256State) -> Seq<u8>;

/// The SHA-256 digest of a byte string.
pub uninterp spec fn sha256(data: Seq<u8>) -> Seq<u8>;

/// `Sha256::new`: a computation that has taken in nothing.
#[verifier::external_body]
fn sha256_new() -> (h: Sha256State)
    ensures
        absorbed(h) == Seq::<u8>::empty(),
{
    Sha256State { inner: sha2::Sha256::new() }
}

/// `Digest::update`: the data is taken in after all that came before.
#[verifier::external_body]
fn sha256_update(h: &mut Sha256State, data: &[u8])
    ensures
        absorbed(*final(h)) == absorbed(*old(h)) + data@,
{
    h.inner.update(data);
}

/// `Digest::finalize`: the 32 bytes of the digest of all that was taken in.
/// The length in bits has to fit in 64 bits.
#[verifier::external_body]
fn sha256_finalize(h: Sha256State) -> (r: Vec<u8>)
    requires
        absorbed(h).len() < DIGEST_LIMIT,
    ensures
        r@ == sha256(absorbed(h)),
        r@.len() == 32,
{
    h.inner.finalize().to_vec()
}

// ----------------------------------------------------------------------- hex

/// A hexadecimal digit in lower case.
pub open spec fn hex_digit(n: int) -> char {
    if n < 10 {
        ((48 + n) as u32) as char
    } else {
        ((87 + n) as u32) as char
    }
}

/// Bytes in lower-case hexadecimal, two digits each.
pub open spec fn hex(bytes: Seq<u8>) -> Seq<char> {
    Seq::new(
        bytes.len() * 2,
        |i: int|
            if i % 2 == 0 {
                hex_digit(bytes[i / 2] as int / 16)
            } else {
                hex_digit(bytes[i / 2] as int % 16)
            },
    )
}

fn hex_char(n: u8) -> (c: char)
    requires
        n < 16,
    ensures
        c == hex_digit(n as int),
{
    if n < 10 {
        (48u8 + n) as char
    } else {
        (87u8 + n) as char
    }
}

/// Writes bytes in hexadecimal.
pub fn hex_text(bytes: &Vec<u8>) -> (r: String)
    ensures
        r@ == hex(bytes@),
{
    let mut r = String::new();
    let mut i: usize = 0;
    assert(hex(bytes@.take(0)) =~= Seq::<char>::empty());
    while i < bytes.len()
        invariant
            i <= bytes@.len(),
            r@ == hex(bytes@.take(i as int)),
        decreases bytes@.len() - i,
    {
        let b: u8 = bytes[i];
        let ghost before = r@;
        r.push(hex_char(b / 16));
        r.push(hex_char(b % 16));
        i = i + 1;
        assert(r@ =~= hex(bytes@.take(i as int))) by {
            assert forall|k: int| 0 <= k < i * 2 implies r@[k] == hex(bytes@.take(i as int))[k] by {
                if k < before.len() {
                    assert(before[k] == hex(bytes@.take(i - 1))[k]);
                }
            }
        }
    }
    assert(bytes@.take(i as int) =~= bytes@);
    r
}

/// Bytes can be told from their hexadecimal digits.
pub proof fn law_hex_injective(a: Seq<u8>, b: Seq<u8>)
    requires
        hex(a) == hex(b),
    ensures
        a == b,
{
    assert(hex(a).len() == a.len() * 2);
    assert(hex(b).len() == b.len() * 2);
    assert forall|i: int| 0 <= i < a.len() implies a[i] == b[i] by {
        assert(hex(a)[2 * i] == hex_digit(a[i] as int / 16));
        assert(hex(b)[2 * i] == hex_digit(b[i] as int / 16));
        assert(hex(a)[2 * i + 1] == hex_digit(a[i] as int % 16));
        assert(hex(b)[2 * i + 1] == hex_digit(b[i] as int % 16));
        lemma_digits(a[i] as int / 16, b[i] as int / 16);
        lemma_digits(a[i] as int % 16, b[i] as int % 16);
    }
    assert(a =~= b);
}

proof fn lemma_digits(m: int, n: int)
    requires
        0 <= m < 16,
        0 <= n < 16,
        hex_digit(m) == hex_digit(n),
    ensures
        m == n,
{
}

/// The digest by which contents are told apart: SHA-256 in hexadecimal.
pub open spec fn content_digest(bytes: Seq<u8>) -> Seq<char> {
    hex(sha256(bytes))
}

// ------------------------------------------------------------------- hashing

/// Hashes a content that arrives in chunks.
pub struct ContentHasher {
    state: Sha256State,
    fed: u64,
}

impl View for ContentHasher {
    type V = Seq<u8>;

    closed spec fn view(&self) -> Seq<u8> {
        absorbed(self.state)
    }
}

impl ContentHasher {
    /// The byte count is right and within what the hash can take.
    pub closed spec fn wf(&self) -> bool {
        self.fed == absorbed(self.state).len() && self.fed < DIGEST_LIMIT
    }

    pub fn new() -> (r: ContentHasher)
        ensures
            r.wf(),
            r@ == Seq::<u8>::empty(),
    {
        ContentHasher { state: sha256_new(), fed: 0 }
    }

    /// Takes in the next chunk. Refuses a chunk that the hash has no room for.
    pub fn feed(&mut self, chunk: &[u8]) -> (taken: bool)
        requires
            old(self).wf(),
        ensures
            final(self).wf(),
            taken == (old(self)@.len() + chunk@.len() < DIGEST_LIMIT),
            final(self)@ == (if taken {
                old(self)@ + chunk@
            } else {
                old(self)@
            }),
    {
        let n: u64 = chunk.len() as u64;
        if n >= DIGEST_LIMIT - self.fed {
            return false;
        }
        sha256_update(&mut self.state, chunk);
        self.fed = self.fed + n;
        true
    }

    /// The digest of all chunks together.
    pub fn finish(self) -> (r: String)
        requires
            self.wf(),
        ensures
            r@ == content_digest(self@),
    {
        let bytes = sha256_finalize(self.state);
        hex_text(&bytes)
    }
}

/// The digest of a whole content, unless it is longer than the hash can take.
pub fn digest_of(bytes: &[u8]) -> (r: Option<String>)
    ensures
        match r {
            Some(d) => bytes@.len() < DIGEST_LIMIT && d@ == content_digest(bytes@),
            None => bytes@.len() >= DIGEST_LIMIT,
        },
{
    let mut h = ContentHasher::new();
    if !h.feed(bytes) {
        return None;
    }
    assert(Seq::<u8>::empty() + bytes@ =~= bytes@);
    Some(h.finish())
}

/// The quick hash of a file that begins with `head`.
pub fn partial_hash(head: &[u8]) -> (r: String)
    requires
        head@.len() <= PARTIAL_CHUNK_SIZE,
    ensures
        r@ == content_digest(head@),
{
    let mut h = ContentHasher::new();
    let taken = h.feed(head);
    assert(Seq::<u8>::empty() + head@ =~= head@);
    h.finish()
}

// ------------------------------------------------------------------- reading

/// What one read from a file gave.
#[derive(Clone, Copy, Debug, PartialEq, Eq, Structural)]
pub enum ReadOutcome {
    /// This many bytes; none at the end of the file.
    Bytes(usize),
    /// A signal came first; nothing was read.
    Interrupted,
    /// The read failed.
    Failed,
}

/// What to do after a read into a buffer.
#[derive(Clone, Copy, Debug, PartialEq, Eq, Structural)]
pub enum ReadStep {
    /// Read again behind the bytes that the buffer now holds.
    Again(usize),
    /// The chunk is complete with this many bytes.
    Complete(usize),
    /// Give up.
    Fail,
}

/// Decides how filling a buffer of `capacity` bytes, `filled` of which are
/// there, goes on after a read: until it is full, the file ends, or a read fails.
pub fn read_chunk(filled: usize, capacity: usize, outcome: ReadOutcome) -> (r: ReadStep)
    requires
        filled < capacity,
        outcome matches ReadOutcome::Bytes(n) ==> n <= capacity - filled,
    ensures
        r == (match outcome {
            ReadOutcome::Bytes(n) => if n == 0 {
                ReadStep::Complete(filled)
            } else if filled + n < capacity {
                ReadStep::Again((filled + n) as usize)
            } else {
                ReadStep::Complete(capacity)
            },
            ReadOutcome::Interrupted => ReadStep::Again(filled),
            ReadOutcome::Failed => ReadStep::Fail,
        }),
{
    match outcome {
        ReadOutcome::Bytes(n) => {
            if n == 0 {
                ReadStep::Complete(filled)
            } else if n < capacity - filled {
                ReadStep::Again(filled + n)
            } else {
                ReadStep::Complete(capacity)
            }
        },
        ReadOutcome::Interrupted => ReadStep::Again(filled),
        ReadOutcome::Failed => ReadStep::Fail,
    }
}

// ----------------------------------------------------------------- comparing

/// What a pair of chunks says about two files.
#[derive(Clone, Copy, Debug, PartialEq, Eq, Structural)]
pub enum ChunkVerdict {
    /// The files differ.
    Differ,
    /// Both ended, and all that came before was the same.
    Same,
    /// The same so far: compare the next chunks.
    Continue,
}

/// The verdict on a pair of chunks.
pub open spec fn chunk_verdict(a: Seq<u8>, b: Seq<u8>) -> ChunkVerdict {
    if a != b {
        ChunkVerdict::Differ
    } else if a.len() == 0 {
        ChunkVerdict::Same
    } else {
        ChunkVerdict::Continue
    }
}

/// Compares the next chunk of two files.
pub fn compare_chunks(a: &[u8], b: &[u8]) -> (r: ChunkVerdict)
    ensures
        r == chunk_verdict(a@, b@),
{
    if a.len() != b.len() {
        return ChunkVerdict::Differ;
    }
    let mut i: usize = 0;
    while i < a.len()
        invariant
            i <= a@.len(),
            a@.len() == b@.len(),
            forall|j: int| 0 <= j < i ==> a@[j] == b@[j],
        decreases a@.len() - i,
    {
        if a[i] != b[i] {
            return ChunkVerdict::Differ;
        }
        i = i + 1;
    }
    assert(a@ =~= b@);
    if a.len() == 0 {
        ChunkVerdict::Same
    } else {
        ChunkVerdict::Continue
    }
}

/// The chunk of `size` bytes that starts at `pos`, shorter at the end of the
/// content and empty past it.
pub open spec fn chunk_from(content: Seq<u8>, pos: int, size: int) -> Seq<u8> {
    if pos >= content.len() {
        Seq::empty()
    } else if pos + size >= content.len() {
        content.skip(pos)
    } else {
        content.subrange(pos, pos + size)
    }
}

/// What comparing two contents chunk by chunk from `pos` on comes to.
pub open spec fn compared_from(a: Seq<u8>, b: Seq<u8>, size: int, pos: int) -> bool
    decreases
            (if pos < a.len() {
                a.len() - pos
            } else {
                0
            }),
    when size > 0
{
    match chunk_verdict(chunk_from(a, pos, size), chunk_from(b, pos, size)) {
        ChunkVerdict::Differ => false,
        ChunkVerdict::Same => true,
        ChunkVerdict::Continue => compared_from(a, b, size, pos + size),
    }
}

proof fn lemma_compared_from(a: Seq<u8>, b: Seq<u8>, size: int, pos: int)
    requires
        size > 0,
        pos >= 0,
    ensures
        compared_from(a, b, size, pos) == (chunk_from(a, pos, a.len() + size) == chunk_from(b, pos, b.len() + size)),
    decreases
            (if pos < a.len() {
                a.len() - pos
            } else {
                0
            }),
{
    let ca = chunk_from(a, pos, size);
    let cb = chunk_from(b, pos, size);
    let ra = chunk_from(a, pos, a.len() + size);
    let rb = chunk_from(b, pos, b.len() + size);
    if ca != cb {
        if ra == rb {
            assert(ca =~= (if ra.len() <= size {
                ra
            } else {
                ra.take(size)
            }));
            assert(cb =~= (if rb.len() <= size {
                rb
            } else {
                rb.take(size)
            }));
        }
    } else if ca.len() == 0 {
        assert(ra =~= Seq::<u8>::empty());
        assert(rb =~= Seq::<u8>::empty());
    } else {
        lemma_compared_from(a, b, size, pos + size);
        let na = chunk_from(a, pos + size, a.len() + size);
        let nb = chunk_from(b, pos + size, b.len() + size);
        assert(ra =~= ca + na);
        assert(rb =~= cb + nb);
        if ra == rb {
            assert(na =~= ra.skip(ca.len() as int));
            assert(nb =~= rb.skip(cb.len() as int));
        }
    }
}

/// Comparing two files chunk by chunk, stopping at the first difference or at
/// the end, finds them equal exactly when their contents are byte for byte the
/// same, whatever the chunk size.
pub proof fn law_comparison_is_exact(a: Seq<u8>, b: Seq<u8>, size: int)
    requires
        size > 0,
    ensures
        compared_from(a, b, size, 0) == (a == b),
{
    lemma_compared_from(a, b, size, 0);
    assert(chunk_from(a, 0, a.len() + size) =~= a);
    assert(chunk_from(b, 0, b.len() + size) =~= b);
}

} // verus!
