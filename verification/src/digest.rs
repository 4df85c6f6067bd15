//! BLAKE3 digests of byte streams: what is written is hashed on the way out
//! and hashed again on the way back.
use vstd::prelude::*;

verus! {

/// The `Hasher` of the `blake3` crate: a hash state that takes its input in
/// pieces. Nothing inside it is visible here.
#[verifier::external_type_specification]
#[verifier::external_body]
pub struct ExHasher(blake3::Hasher);

/// The bytes that a hasher has been given, in order.
pub uninterp spec fn absorbed(h: blake3::Hasher) -> Seq<u8>;

/// The hasher is one for the plain hash of its whole input: it was not set
/// to start in the middle of another.
pub uninterp spec fn from_the_start(h: blake3::Hasher) -> bool;

/// The BLAKE3 hash of a byte string.
pub uninterp spec fn blake3_of(bytes: Seq<u8>) -> Seq<u8>;

/// `blake3::Hasher::new`: a hasher that has been given nothing.
#[verifier::external_body]
fn hasher_new() -> (h: blake3::Hasher)
    ensures
        absorbed(h) == Seq::<u8>::empty(),
        from_the_start(h),
{
    blake3::Hasher::new()
}

/// `blake3::Hasher::update`: the bytes are added behind what the hasher was
/// given before. (One that was set to start in the middle of another input
/// takes no more than a part of it, and is left out.)
#[verifier::external_body]
fn hasher_update(h: &mut blake3::Hasher, bytes: &[u8])
    requires
        from_the_start(*old(h)),
    ensures
        absorbed(*final(h)) == absorbed(*old(h)) + bytes@,
        from_the_start(*final(h)),
{
    h.update(bytes);
}

/// `blake3::Hasher::finalize`: the hash of all the bytes that the hasher was
/// given, which are 32. It depends on those bytes alone; what it is for given
/// bytes is not stated here.
#[verifier::external_body]
fn hasher_finalize(h: &blake3::Hasher) -> (d: [u8; 32])
    requires
        from_the_start(*h),
    ensures
        d@ == blake3_of(absorbed(*h)),
{
    *h.finalize().as_bytes()
}

/// A 32-byte digest.
pub type Digest = [u8; 32];

/// The digest of a stream, taken piece by piece.
pub struct Stream {
    hasher: blake3::Hasher,
}

impl Stream {
    pub closed spec fn wf(&self) -> bool {
        from_the_start(self.hasher)
    }

    /// The bytes so far.
    pub closed spec fn fed(&self) -> Seq<u8> {
        absorbed(self.hasher)
    }

    pub fn new() -> (s: Stream)
        ensures
            s.wf(),
            s.fed() == Seq::<u8>::empty(),
    {
        Stream { hasher: hasher_new() }
    }

    pub fn update(&mut self, bytes: &[u8])
        requires
            old(self).wf(),
        ensures
            final(self).wf(),
            final(self).fed() == old(self).fed() + bytes@,
    {
        hasher_update(&mut self.hasher, bytes);
    }

    pub fn finalize(&self) -> (d: Digest)
        requires
            self.wf(),
        ensures
            d@ == blake3_of(self.fed()),
    {
        hasher_finalize(&self.hasher)
    }
}

/// The digest of bytes that are held in memory.
pub fn digest_of(bytes: &[u8]) -> (d: Digest)
    ensures
        d@ == blake3_of(bytes@),
{
    let mut s = Stream::new();
    s.update(bytes);
    assert(Seq::<u8>::empty() + bytes@ =~= bytes@);
    s.finalize()
}

/// Are these the same digest?
pub fn same_digest(a: &Digest, b: &Digest) -> (r: bool)
    ensures
        r == (a@ == b@),
{
    let mut i: usize = 0;
    while i < 32
        invariant
            i <= 32,
            forall|j: int| 0 <= j < i ==> #[trigger] a@[j] == b@[j],
        decreases 32 - i,
    {
        if a[i] != b[i] {
            return false;
        }
        i = i + 1;
    }
    assert(a@ =~= b@);
    true
}

} // verus!
