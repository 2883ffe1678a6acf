//! Content digests.

use sha2::Digest;
use vstd::prelude::*;

verus! {

/// The SHA-256 hasher of the `sha2` crate, held as an opaque value:
/// its type is an instance of a generic type of the `digest` crate whose
/// parameters are types of further crates.
#[verifier::external_body]
pub struct Sha256State {
    hasher: sha2::Sha256,
}

/// The SHA-256 digest of a byte string, as the `sha2` crate computes it.
pub uninterp spec fn sha256(content: Seq<u8>) -> Seq<u8>;

/// The bytes that a hasher has absorbed so far, in order.
pub uninterp spec fn absorbed(state: Sha256State) -> Seq<u8>;

/// The longest content, in bytes, that can be hashed. SHA-256 is defined for
/// messages of fewer than 2^64 bits, and the hasher counts the bits of its
/// input in 64 bits.
pub const MAX_CONTENT: u64 = 0x1fff_ffff_ffff_ffff;

/// A hasher that has absorbed nothing. Calls `Sha256::new`.
#[verifier::external_body]
fn hasher_new() -> (state: Sha256State)
    ensures
        absorbed(state) == Seq::<u8>::empty(),
{
    Sha256State { hasher: sha2::Sha256::new() }
}

/// Feeds `chunk` to the hasher. Calls `Digest::update`: the hasher has then
/// absorbed what it had before, followed by the chunk. Content beyond the
/// limit is left out: the hasher's count of its input would overflow.
#[verifier::external_body]
fn hasher_update(state: &mut Sha256State, chunk: &[u8])
    requires
        absorbed(*old(state)).len() + chunk@.len() <= MAX_CONTENT,
    ensures
        absorbed(*final(state)) == absorbed(*old(state)) + chunk@,
{
    state.hasher.update(chunk);
}

/// Ends the hashing. Calls `Digest::finalize`: the 32 bytes that come back
/// are the SHA-256 digest of all that the hasher absorbed. Content beyond the
/// limit is left out: its length in bits would not fit the hasher's count.
#[verifier::external_body]
fn hasher_finalize(state: Sha256State) -> (digest: Sha256Sum)
    requires
        absorbed(state).len() <= MAX_CONTENT,
    ensures
        digest@ == sha256(absorbed(state)),
{
    state.hasher.finalize().into()
}

/// A SHA-256 digest: 32 raw bytes, compared byte for byte.
pub type Sha256Sum = [u8; 32];

/// Whether two digests hold the same bytes.
pub fn same_digest(a: &Sha256Sum, b: &Sha256Sum) -> (same: bool)
    ensures
        same == (a@ == b@),
{
    let mut i: usize = 0;
    while i < 32
        invariant
            i <= 32,
            forall|k: int| 0 <= k < i ==> a@[k] == b@[k],
        decreases 32 - i,
    {
        if a[i] != b[i] {
            return false;
        }
        i += 1;
    }
    assert(a@ =~= b@);
    true
}

/// The streaming hash engine: content goes in chunk by chunk, in bounded
/// memory, and one digest comes out at the end.
pub struct HashEngine {
    state: Sha256State,
    length: u64,
}

impl HashEngine {
    /// The content streamed into the engine so far.
    pub closed spec fn content(&self) -> Seq<u8> {
        absorbed(self.state)
    }

    /// The engine's invariant: it knows the length of its content, and the
    /// content is within the limit.
    pub closed spec fn wf(&self) -> bool {
        self.length == absorbed(self.state).len() && self.length <= MAX_CONTENT
    }

    /// An engine that has seen no content yet.
    pub fn new() -> (engine: HashEngine)
        ensures
            engine.wf(),
            engine.content() == Seq::<u8>::empty(),
    {
        HashEngine { state: hasher_new(), length: 0 }
    }

    /// The length of the content streamed in so far, in bytes.
    pub fn len(&self) -> (length: u64)
        requires
            self.wf(),
        ensures
            length == self.content().len(),
            length <= MAX_CONTENT,
    {
        self.length
    }

    /// Streams the next chunk of content into the engine.
    pub fn update(&mut self, chunk: &[u8])
        requires
            old(self).wf(),
            old(self).content().len() + chunk@.len() <= MAX_CONTENT,
        ensures
            final(self).wf(),
            final(self).content() == old(self).content() + chunk@,
    {
        hasher_update(&mut self.state, chunk);
        self.length = self.length + chunk.len() as u64;
    }

    /// Streams the next chunk of content into the engine, unless the content
    /// would then be longer than the limit: in that case the engine is left
    /// as it is. Says whether the chunk went in.
    pub fn try_update(&mut self, chunk: &[u8]) -> (done: bool)
        requires
            old(self).wf(),
        ensures
            final(self).wf(),
            done == (old(self).content().len() + chunk@.len() <= MAX_CONTENT),
            final(self).content() == if done {
                old(self).content() + chunk@
            } else {
                old(self).content()
            },
    {
        if chunk.len() as u64 <= MAX_CONTENT - self.length {
            self.update(chunk);
            true
        } else {
            false
        }
    }

    /// The digest of the content that was streamed in. It depends on the
    /// bytes alone, not on how they were cut into chunks nor on where they
    /// came from.
    pub fn finalize(self) -> (digest: Sha256Sum)
        requires
            self.wf(),
        ensures
            digest@ == sha256(self.content()),
    {
        hasher_finalize(self.state)
    }
}

/// The digest of `content`, hashed in one piece.
pub fn digest_of(content: &[u8]) -> (digest: Sha256Sum)
    requires
        content@.len() <= MAX_CONTENT,
    ensures
        digest@ == sha256(content@),
{
    let mut engine = HashEngine::new();
    engine.update(content);
    assert(engine.content() =~= content@);
    engine.finalize()
}

/// The sixteen digits of lowercase hexadecimal, by value.
pub open spec fn hex_digits() -> Seq<char> {
    "0123456789abcdef"@
}

/// Lowercase hexadecimal: two digits for each byte, high half first.
pub open spec fn lower_hex(bytes: Seq<u8>) -> Seq<char> {
    Seq::new(
        2 * bytes.len(),
        |i: int|
            if i % 2 == 0 {
                hex_digits()[bytes[i / 2] as int / 16]
            } else {
                hex_digits()[bytes[i / 2] as int % 16]
            },
    )
}

/// Renders bytes as text. Calls `hex::encode`, which writes each byte as two
/// lowercase hexadecimal digits, high half first.
#[verifier::external_body]
fn hex_encode(bytes: &[u8]) -> (text: String)
    ensures
        text@ == lower_hex(bytes@),
{
    hex::encode(bytes)
}

/// The digest as 64 lowercase hexadecimal digits.
pub fn digest_hex(digest: &Sha256Sum) -> (text: String)
    ensures
        text@ == lower_hex(digest@),
{
    hex_encode(digest.as_slice())
}

} // verus!
