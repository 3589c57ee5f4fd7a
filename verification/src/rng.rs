//! Reproducible random streams for benchmark episodes.
//!
//! A stream is either drawn from OS entropy (ordinary gameplay) or from a
//! `StdRng` seeded with a 64-bit value.  Once an episode seed is active, a
//! semantic sub-stream for `(seed, domain, key)` is selected by hashing those
//! three with FNV-1a, so the stream for a given key never depends on what was
//! drawn before.

use rand::rngs::{StdRng, SysError, SysRng};
use rand::seq::SliceRandom;
use rand::{SeedableRng, TryRng};
use vstd::prelude::*;
use vstd::string::StringSliceAdditionalSpecFns;

verus! {

/// FNV-1a 64-bit offset basis.
pub const FNV_OFFSET: u64 = 0xcbf2_9ce4_8422_2325;

/// FNV-1a 64-bit prime.
pub const FNV_PRIME: u64 = 0x0000_0100_0000_01b3;

/// One FNV-1a round: xor the byte in, then multiply modulo 2^64.
pub open spec fn fnv1a_step(h: u64, b: u8) -> u64 {
    (h ^ (b as u64)).wrapping_mul(FNV_PRIME)
}

/// FNV-1a 64-bit hash of a byte string.
pub open spec fn fnv1a(bytes: Seq<u8>) -> u64
    decreases bytes.len(),
{
    if bytes.len() == 0 {
        FNV_OFFSET
    } else {
        fnv1a_step(fnv1a(bytes.drop_last()), bytes.last())
    }
}

/// FNV-1a 64-bit: stable across Rust versions, unlike std's default hasher.
pub fn stable_hash(input: &[u8]) -> (h: u64)
    ensures
        h == fnv1a(input@),
{
    let mut h: u64 = FNV_OFFSET;
    let mut i: usize = 0;
    while i < input.len()
        invariant
            i <= input.len(),
            h == fnv1a(input@.take(i as int)),
        decreases input.len() - i,
    {
        let b: u8 = input[i];
        h = (h ^ (b as u64)).wrapping_mul(FNV_PRIME);
        assert(input@.take(i + 1).drop_last() =~= input@.take(i as int));
        i = i + 1;
    }
    assert(input@.take(input.len() as int) =~= input@);
    h
}

/// The eight little-endian bytes of `x`.
pub open spec fn le_bytes(x: u64) -> Seq<u8> {
    Seq::new(8, |i: int| ((x >> ((8 * i) as u64)) & 0xff) as u8)
}

/// The seed of the sub-stream `(base, domain, key)`: FNV-1a of the domain's
/// UTF-8 bytes, then the key, then the base seed in little-endian order.
pub open spec fn stream_seed(base: u64, domain: Seq<u8>, key: Seq<u8>) -> u64 {
    fnv1a(domain + key + le_bytes(base))
}

/// Computes [`stream_seed`] for a domain name given as text.
pub fn domain_stream_seed(base: u64, domain: &str, key: &[u8]) -> (s: u64)
    ensures
        s == stream_seed(base, domain.spec_bytes(), key@),
{
    let mut buf: Vec<u8> = Vec::new();
    buf.extend_from_slice(domain.as_bytes());
    buf.extend_from_slice(key);
    let ghost prefix = buf@;
    let mut k: u64 = 0;
    while k < 8
        invariant
            k <= 8,
            buf@ =~= prefix + le_bytes(base).take(k as int),
        decreases 8 - k,
    {
        let byte: u8 = ((base >> (8 * k)) & 0xff) as u8;
        buf.push(byte);
        assert(le_bytes(base).take(k + 1) =~= le_bytes(base).take(k as int).push(byte));
        k = k + 1;
    }
    assert(le_bytes(base).take(8) =~= le_bytes(base));
    assert(buf@ =~= domain.spec_bytes() + key@ + le_bytes(base));
    stable_hash(buf.as_slice())
}


#[verifier::external_type_specification]
#[verifier::external_body]
pub struct ExStdRng(StdRng);

/// `StdRng::seed_from_u64` (rand): a ChaCha12 generator whose 32-byte seed
/// is expanded from `seed`.  rand documents `StdRng` output as not portable
/// across versions or platforms, so nothing is stated of what it yields.
#[verifier::external_body]
fn std_rng_seeded(seed: u64) -> StdRng {
    StdRng::seed_from_u64(seed)
}

#[verifier::external_type_specification]
#[verifier::external_body]
pub struct ExSysError(SysError);

/// `StdRng::try_from_rng(&mut SysRng)` (rand): a generator seeded with 32
/// bytes from the operating system's random source, or that source's error
/// when it fails.  The outcome depends on chance and on the machine, so
/// nothing is stated of it.
#[verifier::external_body]
fn std_rng_from_entropy() -> Result<StdRng, SysError> {
    StdRng::try_from_rng(&mut SysRng)
}

/// `TryRng::try_next_u64` on `StdRng` (rand); its error type is `Infallible`.
/// The value depends on the generator's hidden state, so nothing is stated.
#[verifier::external_body]
fn std_rng_next_u64(rng: &mut StdRng) -> u64 {
    rng.try_next_u64().unwrap()
}

/// `TryRng::try_next_u32` on `StdRng` (rand); its error type is `Infallible`.
/// The value depends on the generator's hidden state, so nothing is stated.
#[verifier::external_body]
fn std_rng_next_u32(rng: &mut StdRng) -> u32 {
    rng.try_next_u32().unwrap()
}

/// `TryRng::try_fill_bytes` on `StdRng` (rand): overwrites every byte of
/// `dst` in place, so its length is kept; the bytes themselves are not stated.
#[verifier::external_body]
fn std_rng_fill_bytes(rng: &mut StdRng, dst: &mut [u8])
    ensures
        final(dst)@.len() == old(dst)@.len(),
{
    rng.try_fill_bytes(dst).unwrap()
}

/// `SliceRandom::shuffle` (rand) with a `StdRng`: a Fisher-Yates shuffle
/// in place, so the elements are permuted (none added, none lost).  Which
/// permutation comes out depends on the generator's hidden state and is not
/// stated.
#[verifier::external_body]
fn std_rng_shuffle(rng: &mut StdRng, v: &mut Vec<usize>)
    ensures
        final(v)@.to_multiset() == old(v)@.to_multiset(),
{
    v.shuffle(rng)
}

/// The operating system's random source failed.
#[derive(Clone, Copy, Debug, PartialEq, Eq, Structural)]
pub enum RngError {
    Entropy,
}

/// One request for randomness made of the generator in use.
pub enum Draw {
    /// A 32-bit word.
    Word32,
    /// A 64-bit word.
    Word64,
    /// A run of this many bytes.
    Bytes(usize),
    /// A shuffle of a sequence of this length.
    Shuffle(usize),
}

/// Where the generator in use came from, and how far it has been drawn.
pub struct RngView {
    /// The active episode seed (`None` in ordinary, entropy-backed play).
    pub seed: Option<u64>,
    /// `Some(s)`: the generator started as `StdRng::seed_from_u64(s)`;
    /// `None`: it was seeded from OS entropy.
    pub origin: Option<u64>,
    /// The requests made of it since it started, in order: its position in
    /// the stream.
    pub draws: Seq<Draw>,
}

/// The state a reproducible episode draws from: the active episode seed and
/// the generator currently in use.
pub struct EpisodeRng {
    seed: Option<u64>,
    rng: StdRng,
    origin: Ghost<Option<u64>>,
    draws: Ghost<Seq<Draw>>,
}

impl View for EpisodeRng {
    type V = RngView;

    closed spec fn view(&self) -> RngView {
        RngView { seed: self.seed, origin: self.origin@, draws: self.draws@ }
    }
}

/// The state after [`EpisodeRng::set_seed`]: whatever came before.
pub open spec fn after_set_seed(seed: u64) -> RngView {
    RngView { seed: Some(seed), origin: Some(seed), draws: Seq::empty() }
}

/// State `v` with one more request `d` made of the generator.
pub open spec fn after_draw(v: RngView, d: Draw) -> RngView {
    RngView { draws: v.draws.push(d), ..v }
}

/// The state without an episode seed, on a fresh entropy-seeded generator.
pub open spec fn entropy_state() -> RngView {
    RngView { seed: None, origin: None, draws: Seq::empty() }
}

/// The state after [`EpisodeRng::set_domain`] from state `v`.
pub open spec fn after_set_domain(v: RngView, domain: Seq<u8>, key: Seq<u8>) -> RngView {
    match v.seed {
        Some(s) => RngView {
            seed: Some(s),
            origin: Some(stream_seed(s, domain, key)),
            draws: Seq::empty(),
        },
        None => v,
    }
}

impl EpisodeRng {
    /// A generator for ordinary gameplay: no episode seed, seeded from the
    /// operating system's random source; `Err` when that source fails.
    pub fn new() -> (r: Result<EpisodeRng, RngError>)
        ensures
            r matches Ok(g) ==> g@ == entropy_state(),
            r matches Err(e) ==> e == RngError::Entropy,
    {
        match std_rng_from_entropy() {
            Ok(rng) => Ok(
                EpisodeRng { seed: None, rng, origin: Ghost(None), draws: Ghost(Seq::empty()) },
            ),
            Err(_) => Err(RngError::Entropy),
        }
    }

    /// The active episode seed.
    pub fn seed(&self) -> (s: Option<u64>)
        ensures
            s == self@.seed,
    {
        self.seed
    }

    /// Switch to the deterministic stream for `seed`; every later draw is
    /// reproducible for the same `seed`.
    pub fn set_seed(&mut self, seed: u64)
        ensures
            final(self)@ == after_set_seed(seed),
    {
        self.seed = Some(seed);
        self.rng = std_rng_seeded(seed);
        self.origin = Ghost(Some(seed));
        self.draws = Ghost(Seq::empty());
    }

    /// Revert to entropy-backed randomness (default gameplay behaviour);
    /// when the operating system's random source fails, nothing changes and
    /// `Err` is returned.
    pub fn reset_random(&mut self) -> (r: Result<(), RngError>)
        ensures
            r is Ok ==> final(self)@ == entropy_state(),
            r matches Err(e) ==> e == RngError::Entropy && *final(self) == *old(self),
    {
        match std_rng_from_entropy() {
            Ok(rng) => {
                self.seed = None;
                self.rng = rng;
                self.origin = Ghost(None);
                self.draws = Ghost(Seq::empty());
                Ok(())
            },
            Err(_) => Err(RngError::Entropy),
        }
    }

    /// Re-seed from the sub-stream keyed by `(episode seed, domain, key)`;
    /// does nothing when no episode seed is active.
    pub fn set_domain(&mut self, domain: &str, key: &[u8])
        ensures
            final(self)@ == after_set_domain(old(self)@, domain.spec_bytes(), key@),
            old(self)@.seed is None ==> *final(self) == *old(self),
    {
        match self.seed {
            Some(base) => {
                let stream = domain_stream_seed(base, domain, key);
                self.rng = std_rng_seeded(stream);
                self.origin = Ghost(Some(stream));
                self.draws = Ghost(Seq::empty());
            },
            None => {},
        }
    }

    /// Draw the next 64-bit word from the current stream, which moves on
    /// past it.
    pub fn next_u64(&mut self) -> (x: u64)
        ensures
            final(self)@ == after_draw(old(self)@, Draw::Word64),
    {
        let x = std_rng_next_u64(&mut self.rng);
        self.draws = Ghost(self.draws@.push(Draw::Word64));
        x
    }

    /// Draw the next 32-bit word from the current stream, which moves on
    /// past it.
    pub fn next_u32(&mut self) -> (x: u32)
        ensures
            final(self)@ == after_draw(old(self)@, Draw::Word32),
    {
        let x = std_rng_next_u32(&mut self.rng);
        self.draws = Ghost(self.draws@.push(Draw::Word32));
        x
    }

    /// Shuffle `v` in place with draws from the current stream: its
    /// elements are permuted, and the stream moves on past the shuffle.
    pub fn shuffle(&mut self, v: &mut Vec<usize>)
        ensures
            final(self)@ == after_draw(old(self)@, Draw::Shuffle(old(v)@.len() as usize)),
            final(v)@.to_multiset() == old(v)@.to_multiset(),
            final(v)@.len() == old(v)@.len(),
    {
        let ghost n = v@.len();
        std_rng_shuffle(&mut self.rng, v);
        proof {
            vstd::seq_lib::to_multiset_len(old(v)@);
            vstd::seq_lib::to_multiset_len(v@);
        }
        self.draws = Ghost(self.draws@.push(Draw::Shuffle(n as usize)));
    }

    /// Fill `dst` from the current stream, which moves on past the bytes.
    pub fn fill_bytes(&mut self, dst: &mut [u8])
        ensures
            final(self)@ == after_draw(old(self)@, Draw::Bytes(old(dst)@.len() as usize)),
            final(dst)@.len() == old(dst)@.len(),
    {
        let ghost n = dst@.len();
        std_rng_fill_bytes(&mut self.rng, dst);
        self.draws = Ghost(self.draws@.push(Draw::Bytes(n as usize)));
    }
}

/// Selecting a sub-stream is action-invariant: once the same episode seed is
/// active, the stream for `(domain, key)` does not depend on anything drawn or
/// selected before.
pub proof fn lemma_domain_stream_ignores_history(
    v1: RngView,
    v2: RngView,
    domain: Seq<u8>,
    key: Seq<u8>,
)
    requires
        v1.seed is Some,
        v1.seed == v2.seed,
    ensures
        after_set_domain(v1, domain, key) == after_set_domain(v2, domain, key),
        after_set_domain(v1, domain, key).origin == Some(stream_seed(v1.seed->0, domain, key)),
{
}

/// Selecting the same sub-stream twice in a row lands on the same stream.
pub proof fn lemma_domain_stream_idempotent(v: RngView, domain: Seq<u8>, key: Seq<u8>)
    ensures
        after_set_domain(after_set_domain(v, domain, key), domain, key)
            == after_set_domain(v, domain, key),
{
}

/// Without an episode seed, selecting a sub-stream changes nothing.
pub proof fn lemma_domain_without_seed_is_noop(v: RngView, domain: Seq<u8>, key: Seq<u8>)
    requires
        v.seed is None,
    ensures
        after_set_domain(v, domain, key) == v,
{
}

} // verus!
