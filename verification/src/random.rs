//! The random number generators of `rand` that the simulation draws from.
//!
//! Every item here is trusted: Verus believes its contract. Which value a
//! generator yields depends on its seed or on chance, so the contracts say
//! only what holds of every draw.

use vstd::prelude::*;
use rand::rngs::{SmallRng, ThreadRng};
use rand::{Rng, SeedableRng};

verus! {

/// `rand::rngs::SmallRng`, a small deterministic generator.
#[verifier::external_type_specification]
#[verifier::external_body]
pub struct ExSmallRng(SmallRng);

/// `rand::rngs::ThreadRng`, the generator of the current thread, seeded by
/// the operating system.
#[verifier::external_type_specification]
#[verifier::external_body]
pub struct ExThreadRng(ThreadRng);

/// Calls `rand::thread_rng`. Nothing is claimed of the generator handed back.
#[verifier::external_body]
pub(crate) fn thread_rng() -> ThreadRng {
    rand::thread_rng()
}

/// Calls `Rng::gen_range` on the thread generator with the inclusive range
/// `lo..=hi`. Claims only that the draw lies in that range; `rand` asserts
/// that the range is not empty, so `lo <= hi` is required.
#[verifier::external_body]
pub(crate) fn thread_gen_range_inclusive(rng: &mut ThreadRng, lo: u8, hi: u8) -> (r: u8)
    requires
        lo <= hi,
    ensures
        lo <= r <= hi,
{
    rng.gen_range(lo..=hi)
}

/// Calls `SeedableRng::seed_from_u64` for `SmallRng`. Nothing is claimed of
/// the generator: `rand` documents its algorithm as platform dependent.
#[verifier::external_body]
pub(crate) fn small_rng_seed_from_u64(seed: u64) -> SmallRng {
    SmallRng::seed_from_u64(seed)
}

/// Calls `Rng::gen_range` on a `SmallRng` with the half-open range `lo..hi`
/// of bytes. Claims only that the draw lies in that range; `rand` asserts
/// that the range is not empty, so `lo < hi` is required.
#[verifier::external_body]
pub(crate) fn small_gen_range_u8(rng: &mut SmallRng, lo: u8, hi: u8) -> (r: u8)
    requires
        lo < hi,
    ensures
        lo <= r < hi,
{
    rng.gen_range(lo..hi)
}

/// Calls `Rng::gen_range` on a `SmallRng` with the half-open range `lo..hi`
/// of indices. Claims only that the draw lies in that range; `rand` asserts
/// that the range is not empty, so `lo < hi` is required.
#[verifier::external_body]
pub(crate) fn small_gen_range_usize(rng: &mut SmallRng, lo: usize, hi: usize) -> (r: usize)
    requires
        lo < hi,
    ensures
        lo <= r < hi,
{
    rng.gen_range(lo..hi)
}

/// Calls `Rng::gen::<u32>` on a `SmallRng`. Any `u32` may come back.
#[verifier::external_body]
pub(crate) fn small_gen_u32(rng: &mut SmallRng) -> u32 {
    rng.gen::<u32>()
}

/// Calls `Rng::gen::<u8>` on a `SmallRng`. Any `u8` may come back.
#[verifier::external_body]
pub(crate) fn small_gen_u8(rng: &mut SmallRng) -> u8 {
    rng.gen::<u8>()
}

/// A `SmallRng` that remembers, as ghost state, every value it has handed
/// out: the `u32` words, the indices drawn from ranges and the bytes, each
/// in the order drawn. Only its own draws extend these records.
pub struct DrawingRng {
    rng: SmallRng,
    words: Ghost<Seq<u32>>,
    indices: Ghost<Seq<usize>>,
    bytes: Ghost<Seq<u8>>,
}

impl DrawingRng {
    /// The words drawn so far.
    pub closed spec fn words(&self) -> Seq<u32> {
        self.words@
    }

    /// The indices drawn so far.
    pub closed spec fn indices(&self) -> Seq<usize> {
        self.indices@
    }

    /// The bytes drawn so far.
    pub closed spec fn bytes(&self) -> Seq<u8> {
        self.bytes@
    }

    /// A generator seeded with `seed` that has drawn nothing yet.
    pub fn seeded(seed: u64) -> (g: Self)
        ensures
            g.words() == Seq::<u32>::empty(),
            g.indices() == Seq::<usize>::empty(),
            g.bytes() == Seq::<u8>::empty(),
    {
        DrawingRng {
            rng: small_rng_seed_from_u64(seed),
            words: Ghost(Seq::empty()),
            indices: Ghost(Seq::empty()),
            bytes: Ghost(Seq::empty()),
        }
    }

    /// Draws a word.
    pub fn next_u32(&mut self) -> (d: u32)
        ensures
            final(self).words() == old(self).words().push(d),
            final(self).indices() == old(self).indices(),
            final(self).bytes() == old(self).bytes(),
    {
        let d = small_gen_u32(&mut self.rng);
        self.words = Ghost(self.words@.push(d));
        d
    }

    /// Draws an index in `lo..hi`.
    pub fn next_index(&mut self, lo: usize, hi: usize) -> (d: usize)
        requires
            lo < hi,
        ensures
            lo <= d < hi,
            final(self).words() == old(self).words(),
            final(self).indices() == old(self).indices().push(d),
            final(self).bytes() == old(self).bytes(),
    {
        let d = small_gen_range_usize(&mut self.rng, lo, hi);
        self.indices = Ghost(self.indices@.push(d));
        d
    }

    /// Draws a byte.
    pub fn next_byte(&mut self) -> (d: u8)
        ensures
            final(self).words() == old(self).words(),
            final(self).indices() == old(self).indices(),
            final(self).bytes() == old(self).bytes().push(d),
    {
        let d = small_gen_u8(&mut self.rng);
        self.bytes = Ghost(self.bytes@.push(d));
        d
    }
}

/// The thread's generator, remembering as ghost state every byte it has
/// handed out, in order. Only its own draws extend the record.
pub struct ThreadDraws {
    rng: ThreadRng,
    drawn: Ghost<Seq<u8>>,
}

/// What a `ThreadDraws` had drawn when the record was taken. Only a
/// `ThreadDraws` makes a nonempty one.
pub struct DrawRecord {
    drawn: Ghost<Seq<u8>>,
}

impl DrawRecord {
    /// The bytes on record.
    pub closed spec fn drawn(&self) -> Seq<u8> {
        self.drawn@
    }

    /// A record of no draws.
    pub fn empty() -> (r: Self)
        ensures
            r.drawn() == Seq::<u8>::empty(),
    {
        DrawRecord { drawn: Ghost(Seq::empty()) }
    }
}

impl ThreadDraws {
    /// The bytes drawn so far.
    pub closed spec fn drawn(&self) -> Seq<u8> {
        self.drawn@
    }

    /// The thread's generator, with nothing drawn yet.
    pub fn new() -> (g: Self)
        ensures
            g.drawn() == Seq::<u8>::empty(),
    {
        ThreadDraws { rng: thread_rng(), drawn: Ghost(Seq::empty()) }
    }

    /// Draws a byte in `lo..=hi`.
    pub fn next_in(&mut self, lo: u8, hi: u8) -> (d: u8)
        requires
            lo <= hi,
        ensures
            lo <= d <= hi,
            final(self).drawn() == old(self).drawn().push(d),
    {
        let d = thread_gen_range_inclusive(&mut self.rng, lo, hi);
        self.drawn = Ghost(self.drawn@.push(d));
        d
    }

    /// The record of what has been drawn so far.
    pub fn record(&self) -> (r: DrawRecord)
        ensures
            r.drawn() == self.drawn(),
    {
        DrawRecord { drawn: Ghost(self.drawn@) }
    }
}

} // verus!
