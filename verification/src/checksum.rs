//! Content digests: BLAKE3 over a file's bytes, taken in pieces, and the
//! verdict on a copy from the digests of its two ends.

use vstd::prelude::*;

verus! {

/// The number of bytes in a digest.
pub const DIGEST_LEN: usize = 32;

/// The incremental BLAKE3 state of the `blake3` crate, carried as it is.
#[verifier::external_type_specification]
#[verifier::external_body]
pub struct ExHasher(blake3::Hasher);

/// The bytes that a hasher has been given so far, in the order given.
pub uninterp spec fn hasher_input(hasher: blake3::Hasher) -> Seq<u8>;

/// The BLAKE3 hash of `input`: the 32 bytes that `blake3::Hasher::finalize`
/// returns for a hasher that was given exactly `input`.
pub uninterp spec fn blake3_digest(input: Seq<u8>) -> Seq<u8>;

/// Calls `blake3::Hasher::new`: a hasher for the plain hash function that has
/// been given nothing yet.
#[verifier::external_body]
fn hasher_new() -> (hasher: blake3::Hasher)
    ensures
        hasher_input(hasher) == Seq::<u8>::empty(),
{
    blake3::Hasher::new()
}

/// Calls `blake3::Hasher::update`, which adds `data` behind the input given
/// before. BLAKE3 takes up to 2^64 - 1 bytes; the call is kept inside that.
#[verifier::external_body]
fn hasher_update(hasher: &mut blake3::Hasher, data: &[u8])
    requires
        hasher_input(*old(hasher)).len() + data@.len() <= u64::MAX,
    ensures
        hasher_input(*final(hasher)) == hasher_input(*old(hasher)) + data@,
    no_unwind
{
    hasher.update(data);
}

/// Calls `blake3::Hasher::count`, which returns the number of bytes given to
/// the hasher so far.
#[verifier::external_body]
fn hasher_count(hasher: &blake3::Hasher) -> (count: u64)
    requires
        hasher_input(*hasher).len() <= u64::MAX,
    ensures
        count == hasher_input(*hasher).len(),
{
    hasher.count()
}

/// Calls `blake3::Hasher::finalize`, which returns the hash of the input
/// given so far and leaves the hasher as it is.
#[verifier::external_body]
fn hasher_finalize(hasher: &blake3::Hasher) -> (bytes: [u8; DIGEST_LEN])
    ensures
        bytes@ == blake3_digest(hasher_input(*hasher)),
{
    *hasher.finalize().as_bytes()
}

/// The digest of a file's content.
#[derive(Clone, Copy, Debug, PartialEq, Eq)]
pub struct Digest {
    pub bytes: [u8; DIGEST_LEN],
}

impl View for Digest {
    type V = Seq<u8>;

    open spec fn view(&self) -> Seq<u8> {
        self.bytes@
    }
}

impl DeepView for Digest {
    type V = Seq<u8>;

    open spec fn deep_view(&self) -> Seq<u8> {
        self@
    }
}

impl Digest {
    /// Whether the two digests are the same, byte for byte.
    pub fn matches(&self, other: &Digest) -> (same: bool)
        ensures
            same == (self@ == other@),
    {
        let mut i: usize = 0;
        while i < DIGEST_LEN
            invariant
                i <= DIGEST_LEN,
                forall|j: int| 0 <= j < i ==> self.bytes@[j] == other.bytes@[j],
            decreases DIGEST_LEN - i,
        {
            if self.bytes[i] != other.bytes[i] {
                return false;
            }
            i += 1;
        }
        assert(self@ =~= other@);
        true
    }
}

/// A digest in the making: it takes a file's bytes piece by piece.
pub struct Checksum {
    hasher: blake3::Hasher,
}

impl Checksum {
    #[verifier::type_invariant]
    spec fn within_limit(self) -> bool {
        hasher_input(self.hasher).len() <= u64::MAX
    }

    /// Everything taken so far, in the order in which it was taken.
    pub closed spec fn absorbed(&self) -> Seq<u8> {
        hasher_input(self.hasher)
    }

    /// A checksum that has taken nothing yet.
    pub fn new() -> (checksum: Self)
        ensures
            checksum.absorbed() == Seq::<u8>::empty(),
    {
        Checksum { hasher: hasher_new() }
    }

    /// The number of bytes taken so far.
    pub fn len(&self) -> (length: u64)
        ensures
            length == self.absorbed().len(),
    {
        proof {
            use_type_invariant(self);
        }
        hasher_count(&self.hasher)
    }

    /// Takes `chunk` behind what was taken before. A digest covers at most
    /// 2^64 - 1 bytes: a chunk that would go beyond is not taken, and the
    /// answer is `false`.
    pub fn update(&mut self, chunk: &[u8]) -> (taken: bool)
        ensures
            taken == (old(self).absorbed().len() + chunk@.len() <= u64::MAX),
            taken ==> final(self).absorbed() == old(self).absorbed() + chunk@,
            !taken ==> final(self).absorbed() == old(self).absorbed(),
    {
        let room = u64::MAX - self.len();
        if chunk.len() as u64 > room {
            return false;
        }
        hasher_update(&mut self.hasher, chunk);
        true
    }

    /// The digest of everything taken so far. More may be taken afterwards.
    pub fn finalize(&self) -> (digest: Digest)
        ensures
            digest@ == blake3_digest(self.absorbed()),
    {
        Digest { bytes: hasher_finalize(&self.hasher) }
    }
}

/// The digest of `data`.
pub fn digest_bytes(data: &[u8]) -> (digest: Digest)
    ensures
        digest@ == blake3_digest(data@),
{
    let mut checksum = Checksum::new();
    proof {
        // A slice is no longer than a `usize` can say.
        assert(data@.len() == vstd::slice::spec_slice_len(data));
        assert(Seq::<u8>::empty() + data@ =~= data@);
    }
    checksum.update(data);
    checksum.finalize()
}

/// The digest of content held in pieces: that of the pieces joined in order,
/// however the content was cut. `None` where the pieces together exceed
/// 2^64 - 1 bytes.
pub fn digest_chunks(chunks: &Vec<Vec<u8>>) -> (digest: Option<Digest>)
    ensures
        digest is Some <==> chunks@.map_values(|c: Vec<u8>| c@).flatten().len() <= u64::MAX,
        digest matches Some(d) ==> d@ == blake3_digest(
            chunks@.map_values(|c: Vec<u8>| c@).flatten(),
        ),
{
    let ghost pieces = chunks@.map_values(|c: Vec<u8>| c@);
    let mut checksum = Checksum::new();
    let mut i: usize = 0;
    assert(pieces.take(0).flatten() =~= Seq::<u8>::empty());
    while i < chunks.len()
        invariant
            i <= chunks.len(),
            pieces == chunks@.map_values(|c: Vec<u8>| c@),
            checksum.absorbed() == pieces.take(i as int).flatten(),
        decreases chunks.len() - i,
    {
        proof {
            assert(pieces.take(i + 1) =~= pieces.take(i as int).push(pieces[i as int]));
            pieces.take(i as int).lemma_flatten_push(pieces[i as int]);
            lemma_flatten_prefix_len(pieces, i + 1);
        }
        let taken = checksum.update(chunks[i].as_slice());
        if !taken {
            return None;
        }
        i += 1;
    }
    proof {
        use_type_invariant(&checksum);
        assert(pieces.take(chunks.len() as int) =~= pieces);
    }
    Some(checksum.finalize())
}

/// The first pieces joined are no longer than all pieces joined.
proof fn lemma_flatten_prefix_len(pieces: Seq<Seq<u8>>, n: int)
    requires
        0 <= n <= pieces.len(),
    ensures
        pieces.take(n).flatten().len() <= pieces.flatten().len(),
    decreases pieces.len() - n,
{
    if n < pieces.len() {
        assert(pieces.take(n + 1) =~= pieces.take(n).push(pieces[n]));
        pieces.take(n).lemma_flatten_push(pieces[n]);
        lemma_flatten_prefix_len(pieces, n + 1);
    } else {
        assert(pieces.take(n) =~= pieces);
    }
}

/// What the digests of a file and of its copy say about the copy.
#[derive(Clone, Copy, Debug, PartialEq, Eq)]
pub enum Verification {
    /// Both digests were computed and they are equal.
    Verified,
    /// Both digests were computed and they differ.
    Mismatch,
    /// A digest could not be computed.
    ChecksumError,
}

/// The verdict on a copy, from the digest of the source and the digest of
/// the copy, each absent where it could not be computed.
pub open spec fn verdict(source: Option<Seq<u8>>, copy: Option<Seq<u8>>) -> Verification {
    match (source, copy) {
        (Some(s), Some(c)) => if s == c {
            Verification::Verified
        } else {
            Verification::Mismatch
        },
        _ => Verification::ChecksumError,
    }
}

/// Judges a copy by the digest of the source and the digest of the copy.
/// Pass `None` for a digest that could not be computed.
pub fn verify_copy(source: &Option<Digest>, copy: &Option<Digest>) -> (verification: Verification)
    ensures
        verification == verdict(source.deep_view(), copy.deep_view()),
{
    match (source, copy) {
        (Some(s), Some(c)) => if s.matches(c) {
            Verification::Verified
        } else {
            Verification::Mismatch
        },
        _ => Verification::ChecksumError,
    }
}

/// A copy with the content of its source is verified, whenever both digests
/// could be taken: the digest is a function of the content alone. A copy is
/// only ever verified where the two digests are equal, and two digests that
/// differ always give a mismatch.
pub proof fn lemma_copy_integrity(source: Seq<u8>, copy: Seq<u8>, other: Seq<u8>)
    ensures
        source == copy ==> verdict(Some(blake3_digest(source)), Some(blake3_digest(copy)))
            is Verified,
        verdict(Some(blake3_digest(source)), Some(other)) is Verified <==> blake3_digest(source)
            == other,
        verdict(Some(blake3_digest(source)), Some(other)) is Mismatch <==> blake3_digest(source)
            != other,
{
}

/// Content that has not changed has the digest it had before, in however
/// many pieces it is read each time.
pub proof fn lemma_digest_repeats(first: Seq<Seq<u8>>, second: Seq<Seq<u8>>)
    requires
        first.flatten() == second.flatten(),
    ensures
        blake3_digest(first.flatten()) == blake3_digest(second.flatten()),
{
}

} // verus!
