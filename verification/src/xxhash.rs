//! XXHash digests, the integrity checks of data records and hint files.

use vstd::prelude::*;
use vstd::slice::*;
use xxhash_rust::xxh32::Xxh32;

verus! {

/// Seed of every digest that is stored on disk.
pub const SEED: u32 = 0;

/// The most bytes that are fed to a streaming hasher at once.
pub const CHUNK_SIZE: usize = 0x1000_0000;

/// The 32-bit XXHash digest of `data` under `seed`.
pub uninterp spec fn xxh32_digest(data: Seq<u8>, seed: u32) -> u32;

/// The digest that a streaming 32-bit hasher under `seed` gives once it has
/// been fed `data`, in whatever pieces.
pub uninterp spec fn xxh32_running_digest(data: Seq<u8>, seed: u32) -> u32;

/// The 64-bit XXHash digest of `data` under `seed`.
pub uninterp spec fn xxh64_digest(data: Seq<u8>, seed: u64) -> u64;

/// The bytes a streaming hasher has been fed since it was created.
pub uninterp spec fn xxh32_fed(state: Xxh32) -> Seq<u8>;

/// The seed a streaming hasher was created with.
pub uninterp spec fn xxh32_seed(state: Xxh32) -> u32;

/// `xxhash_rust::xxh32::Xxh32`, the state of a streaming hasher. Nothing is
/// known of what it holds but what the two names above say.
#[verifier::external_type_specification]
#[verifier::external_body]
pub struct ExXxh32(Xxh32);

/// `xxhash_rust::xxh32::xxh32`: the one-shot 32-bit digest. The digest is a
/// function of the input and the seed alone; the contract gives it its name
/// and claims nothing else.
#[verifier::external_body]
fn xxh32_oneshot(input: &[u8], seed: u32) -> (digest: u32)
    ensures
        digest == xxh32_digest(input@, seed),
{
    xxhash_rust::xxh32::xxh32(input, seed)
}

/// `xxhash_rust::xxh64::xxh64`: the one-shot 64-bit digest, named like the
/// 32-bit one.
#[verifier::external_body]
fn xxh64_oneshot(input: &[u8], seed: u64) -> (digest: u64)
    ensures
        digest == xxh64_digest(input@, seed),
{
    xxhash_rust::xxh64::xxh64(input, seed)
}

/// `Xxh32::new`: a streaming hasher that has been fed nothing yet.
#[verifier::external_body]
fn xxh32_new(seed: u32) -> (state: Xxh32)
    ensures
        xxh32_fed(state) == Seq::<u8>::empty(),
        xxh32_seed(state) == seed,
{
    Xxh32::new(seed)
}

/// `Xxh32::update`: feeds `input` to the hasher after what it was fed before.
/// Inputs close to 4 GiB are left out: the hasher adds the input's length to
/// its buffer fill in 32 bits.
#[verifier::external_body]
fn xxh32_update(state: &mut Xxh32, input: &[u8])
    requires
        input@.len() + 16 <= u32::MAX,
    ensures
        xxh32_fed(*final(state)) == xxh32_fed(*old(state)) + input@,
        xxh32_seed(*final(state)) == xxh32_seed(*old(state)),
{
    state.update(input)
}

/// `Xxh32::digest`: the digest of everything fed so far. It is a function
/// of the bytes fed and of the seed; the contract gives it its name.
#[verifier::external_body]
fn xxh32_finish(state: &Xxh32) -> (digest: u32)
    ensures
        digest == xxh32_running_digest(xxh32_fed(*state), xxh32_seed(*state)),
{
    state.digest()
}

/// The 32-bit digest of `input` under the store's seed.
pub fn xxhash32(input: &[u8]) -> (digest: u32)
    ensures
        digest == xxh32_digest(input@, SEED),
{
    xxh32_oneshot(input, SEED)
}

/// The 64-bit digest of `input` under the store's seed.
pub fn xxhash64(input: &[u8]) -> (digest: u64)
    ensures
        digest == xxh64_digest(input@, SEED as u64),
{
    xxh64_oneshot(input, SEED as u64)
}

/// A running 32-bit digest over a growing sequence of bytes.
pub struct XxHash32 {
    state: Xxh32,
}

impl XxHash32 {
    /// The bytes written so far.
    pub closed spec fn view(&self) -> Seq<u8> {
        xxh32_fed(self.state)
    }

    /// Whether the digest runs under the store's seed.
    pub closed spec fn wf(&self) -> bool {
        xxh32_seed(self.state) == SEED
    }

    pub fn new() -> (hasher: XxHash32)
        ensures
            hasher.wf(),
            hasher@ == Seq::<u8>::empty(),
    {
        XxHash32 { state: xxh32_new(SEED) }
    }

    /// Appends `bytes` to what has been written.
    pub fn write(&mut self, bytes: &[u8])
        requires
            old(self).wf(),
        ensures
            final(self).wf(),
            final(self)@ == old(self)@ + bytes@,
    {
        assert(bytes@.len() == bytes.len());
        let mut from: usize = 0;
        assert(bytes@.subrange(0, 0) =~= Seq::<u8>::empty());
        assert(self@ + Seq::<u8>::empty() =~= self@);
        while bytes.len() - from > CHUNK_SIZE
            invariant
                from <= bytes.len() == bytes@.len(),
                self.wf(),
                self@ == old(self)@ + bytes@.subrange(0, from as int),
            decreases bytes.len() - from,
        {
            let chunk = slice_subrange(bytes, from, from + CHUNK_SIZE);
            xxh32_update(&mut self.state, chunk);
            assert(bytes@.subrange(0, from as int) + chunk@ =~= bytes@.subrange(
                0,
                from + CHUNK_SIZE,
            ));
            from = from + CHUNK_SIZE;
        }
        let chunk = slice_subrange(bytes, from, bytes.len());
        xxh32_update(&mut self.state, chunk);
        assert(bytes@.subrange(0, from as int) + chunk@ =~= bytes@);
    }

    /// The digest of everything written so far.
    pub fn get(&self) -> (digest: u32)
        requires
            self.wf(),
        ensures
            digest == xxh32_running_digest(self@, SEED),
    {
        xxh32_finish(&self.state)
    }
}

} // verus!
