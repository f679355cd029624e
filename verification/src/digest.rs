//! Content digests: the hash function behind cache keys and duplicate detection.

use vstd::prelude::*;

verus! {

/// Number of bytes in a digest.
pub const DIGEST_LEN: usize = 32;

/// How many bytes of a file are hashed at a time.
pub const CHUNK_SIZE: usize = 65536;

/// A fixed-length content digest.
#[derive(Clone, Copy, Debug)]
pub struct Digest {
    pub bytes: [u8; 32],
}

impl View for Digest {
    type V = Seq<u8>;

    open spec fn view(&self) -> Seq<u8> {
        self.bytes@
    }
}

/// The digest that the hash function gives to a byte string.
pub uninterp spec fn content_digest(input: Seq<u8>) -> Seq<u8>;

/// Two inputs collide when they differ and have the same digest.
pub open spec fn collide(a: Seq<u8>, b: Seq<u8>) -> bool {
    a != b && content_digest(a) == content_digest(b)
}

/// The lower-case hexadecimal digit for `v`, for `v` below sixteen.
pub open spec fn hex_digit(v: nat) -> char
    recommends
        v < 16,
{
    if v < 10 {
        (v + '0' as nat) as char
    } else {
        (v - 10 + 'a' as nat) as char
    }
}

/// Lower-case hexadecimal: two digits for each byte, the high half first.
pub open spec fn hex_lower(bytes: Seq<u8>) -> Seq<char> {
    Seq::new(
        2 * bytes.len(),
        |i: int|
            if i % 2 == 0 {
                hex_digit((bytes[i / 2] / 16) as nat)
            } else {
                hex_digit((bytes[i / 2] % 16) as nat)
            },
    )
}

/// Whether `c` is a lower-case hexadecimal digit.
pub open spec fn is_hex_digit(c: char) -> bool {
    ('0' <= c <= '9') || ('a' <= c <= 'f')
}

/// Hexadecimal text holds hexadecimal digits only.
pub proof fn lemma_hex_lower_digits(bytes: Seq<u8>)
    ensures
        hex_lower(bytes).len() == 2 * bytes.len(),
        forall|i: int| 0 <= i < 2 * bytes.len() ==> is_hex_digit(#[trigger] hex_lower(bytes)[i]),
{
}

/// Different byte strings have different hexadecimal text.
pub proof fn lemma_hex_lower_injective(a: Seq<u8>, b: Seq<u8>)
    requires
        hex_lower(a) == hex_lower(b),
    ensures
        a == b,
{
    assert(hex_lower(a).len() == 2 * a.len());
    assert(hex_lower(b).len() == 2 * b.len());
    assert forall|i: int| 0 <= i < a.len() implies a[i] == b[i] by {
        let hi_a = hex_lower(a)[2 * i];
        let lo_a = hex_lower(a)[2 * i + 1];
        assert(hi_a == hex_lower(b)[2 * i]);
        assert(lo_a == hex_lower(b)[2 * i + 1]);
        assert(hi_a == hex_digit((a[i] / 16) as nat));
        assert(lo_a == hex_digit((a[i] % 16) as nat));
        assert(hex_lower(b)[2 * i] == hex_digit((b[i] / 16) as nat));
        assert(hex_lower(b)[2 * i + 1] == hex_digit((b[i] % 16) as nat));
    }
    assert(a =~= b);
}

/// Calls `blake3::hash` on `input` and copies the 32 bytes out of the
/// `blake3::Hash` it returns. Believed: the bytes are a function of the input
/// alone, named `content_digest`.
#[verifier::external_body]
fn hash_all(input: &[u8]) -> (d: Digest)
    ensures
        d@ == content_digest(input@),
{
    Digest { bytes: *blake3::hash(input).as_bytes() }
}

/// Calls `blake3::Hash::to_hex` on the digest's bytes. Believed: the text is
/// the lower-case hexadecimal form of the bytes, two digits per byte, the
/// high half of each byte first.
#[verifier::external_body]
fn hex_text(d: &Digest) -> (s: String)
    ensures
        s@ == hex_lower(d@),
{
    blake3::Hash::from_bytes(d.bytes).to_hex().to_string()
}

/// The digest of `input`.
pub fn digest_bytes(input: &[u8]) -> (d: Digest)
    ensures
        d@ == content_digest(input@),
        d@.len() == 32,
{
    hash_all(input)
}

impl Digest {
    /// The digest in lower-case hexadecimal, 64 characters.
    pub fn to_hex(&self) -> (s: String)
        ensures
            s@ == hex_lower(self@),
            s@.len() == 64,
    {
        hex_text(self)
    }

    /// Whether two digests hold the same bytes.
    pub fn same(&self, other: &Digest) -> (b: bool)
        ensures
            b == (self@ == other@),
    {
        let mut i: usize = 0;
        while i < 32
            invariant
                i <= 32,
                forall|j: int| 0 <= j < i ==> self.bytes@[j] == other.bytes@[j],
            decreases 32 - i,
        {
            if self.bytes[i] != other.bytes[i] {
                return false;
            }
            i += 1;
        }
        assert(self@ =~= other@);
        true
    }
}

#[verifier::external_type_specification]
#[verifier::external_body]
pub struct ExHasher(blake3::Hasher);

/// The bytes that a hasher has taken in so far, in order.
pub uninterp spec fn absorbed(h: blake3::Hasher) -> Seq<u8>;

/// Where in a larger input a hasher was told that its input starts; zero for
/// a hasher that hashes a whole input.
pub uninterp spec fn input_offset(h: blake3::Hasher) -> nat;

/// Whether a hasher computes the regular hash function: it was made without
/// a key and without a context to derive keys from.
pub uninterp spec fn is_regular(h: blake3::Hasher) -> bool;

/// Calls `blake3::Hasher::new`. Believed: the new hasher has taken in
/// nothing, hashes a whole input, and computes the regular hash function.
#[verifier::external_body]
fn hasher_new() -> (h: blake3::Hasher)
    ensures
        absorbed(h) == Seq::<u8>::empty(),
        input_offset(h) == 0,
        is_regular(h),
{
    blake3::Hasher::new()
}

/// Calls `blake3::Hasher::update`. Believed: the hasher has then taken in
/// `input` after what it held before, and its input offset and the function
/// that it computes are what they were. Only a hasher that was given an
/// input offset limits how much it takes (and panics beyond), so none is
/// admitted.
#[verifier::external_body]
fn hasher_update(h: &mut blake3::Hasher, input: &[u8])
    requires
        input_offset(*old(h)) == 0,
    ensures
        absorbed(*final(h)) == absorbed(*old(h)) + input@,
        input_offset(*final(h)) == 0,
        is_regular(*final(h)) == is_regular(*old(h)),
    no_unwind
{
    h.update(input);
}

/// Calls `blake3::Hasher::finalize` and copies the 32 bytes out. Believed: of
/// a hasher that computes the regular hash function, the result is what
/// `blake3::hash` gives for the bytes taken in so far. A keyed hasher or one
/// that derives keys gives something else, and the call panics on a hasher
/// that was given an input offset, so neither is admitted.
#[verifier::external_body]
fn hasher_finalize(h: &blake3::Hasher) -> (d: Digest)
    requires
        input_offset(*h) == 0,
        is_regular(*h),
    ensures
        d@ == content_digest(absorbed(*h)),
{
    Digest { bytes: *h.finalize().as_bytes() }
}

/// Hashes a byte stream piece by piece.
pub struct ContentHasher {
    inner: blake3::Hasher,
}

impl ContentHasher {
    #[verifier::type_invariant]
    spec fn regular_on_whole_input(&self) -> bool {
        input_offset(self.inner) == 0 && is_regular(self.inner)
    }

    /// The bytes fed so far.
    pub closed spec fn fed(&self) -> Seq<u8> {
        absorbed(self.inner)
    }

    /// A hasher that has been fed nothing.
    pub fn new() -> (h: ContentHasher)
        ensures
            h.fed() == Seq::<u8>::empty(),
    {
        ContentHasher { inner: hasher_new() }
    }

    /// Feeds the next piece of the stream.
    pub fn update(&mut self, piece: &[u8])
        ensures
            final(self).fed() == old(self).fed() + piece@,
    {
        proof {
            use_type_invariant(&*self);
        }
        hasher_update(&mut self.inner, piece);
    }

    /// The digest of everything fed so far.
    pub fn finalize(&self) -> (d: Digest)
        ensures
            d@ == content_digest(self.fed()),
            d@.len() == 32,
    {
        proof {
            use_type_invariant(self);
        }
        hasher_finalize(&self.inner)
    }
}

/// The concatenation of `pieces`, in order.
pub open spec fn concat_all(pieces: Seq<Seq<u8>>) -> Seq<u8>
    decreases pieces.len(),
{
    if pieces.len() == 0 {
        Seq::empty()
    } else {
        concat_all(pieces.drop_last()) + pieces.last()
    }
}

/// The digest of a stream that arrives as `pieces`: it is the digest of
/// their concatenation, however the stream was cut.
pub fn digest_pieces(pieces: &Vec<Vec<u8>>) -> (d: Digest)
    ensures
        d@ == content_digest(concat_all(pieces.deep_view())),
{
    let mut h = ContentHasher::new();
    let mut i: usize = 0;
    while i < pieces.len()
        invariant
            i <= pieces.len(),
            h.fed() == concat_all(pieces.deep_view().take(i as int)),
        decreases pieces.len() - i,
    {
        proof {
            let next = pieces.deep_view().take(i + 1);
            assert(next.drop_last() == pieces.deep_view().take(i as int));
            assert(next.last() == pieces[i as int]@);
        }
        h.update(pieces[i].as_slice());
        i += 1;
    }
    assert(pieces.deep_view().take(i as int) == pieces.deep_view());
    h.finalize()
}

/// How hashing a file goes on after one attempt to read from it.
pub enum HashStep {
    /// There may be more to read.
    More(ContentHasher),
    /// The file is read to its end, or reading failed and the file has no
    /// digest.
    Done(Option<Digest>),
}

/// What one attempt to read does to the hashing of a file. `read` is the
/// number of bytes that the attempt put at the front of `buffer`, or nothing
/// if it failed. A failure ends the hashing without a digest; so does a
/// number beyond the buffer. Zero bytes are the end of the file: the digest
/// is that of all that was read. Anything else is fed to the hasher.
pub fn hash_step(hasher: ContentHasher, buffer: &[u8], read: Option<usize>) -> (step: HashStep)
    ensures
        match read {
            None => step matches HashStep::Done(None),
            Some(n) => if n > buffer@.len() {
                step matches HashStep::Done(None)
            } else if n == 0 {
                step matches HashStep::Done(Some(d)) && d@ == content_digest(hasher.fed())
            } else {
                step matches HashStep::More(h) && h.fed() == hasher.fed() + buffer@.subrange(
                    0,
                    n as int,
                )
            },
        },
{
    match read {
        None => HashStep::Done(None),
        Some(n) => {
            if n > buffer.len() {
                HashStep::Done(None)
            } else if n == 0 {
                HashStep::Done(Some(hasher.finalize()))
            } else {
                let mut hasher = hasher;
                let piece = vstd::slice::slice_subrange(buffer, 0, n);
                hasher.update(piece);
                HashStep::More(hasher)
            }
        },
    }
}

} // verus!
