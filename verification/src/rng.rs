//! Deterministic RNG service with per-stream generators.
//! Uses SplitMix64 for seeding and xorshift64* for the stream PRNG.
//! Also supports deriving streams from human-readable names via a fast FNV-1a 64-bit hash.
use vstd::prelude::*;
use vstd::string::StringSliceAdditionalSpecFns;
use vstd::wrapping::u64_specs;

verus! {

/// Additive constant of the SplitMix64 finalizer.
pub const SPLITMIX_GAMMA: u64 = 0x9E37_79B9_7F4A_7C15;

/// Multiplier applied to the xorshift64 state to produce an output word.
pub const XORSHIFT_STAR_MULTIPLIER: u64 = 2685821657736338717;

/// FNV-1a 64-bit offset basis.
pub const FNV_OFFSET: u64 = 0xcbf29ce484222325;

/// FNV-1a 64-bit prime.
pub const FNV_PRIME: u64 = 0x00000100000001B3;

/// The SplitMix64 mixing function.
pub open spec fn spec_splitmix64(x: u64) -> u64 {
    let x1 = u64_specs::wrapping_add(x, SPLITMIX_GAMMA);
    let z1 = x1 ^ (x1 >> 30u64);
    let z2 = u64_specs::wrapping_mul(z1, 0xBF58_476D_1CE4_E5B9);
    let z3 = z2 ^ (z2 >> 27u64);
    let z4 = u64_specs::wrapping_mul(z3, 0x94D0_49BB_1331_11EB);
    z4 ^ (z4 >> 31u64)
}

/// FNV-1a 64-bit hash of a byte sequence.
pub open spec fn spec_fnv1a64(bytes: Seq<u8>) -> u64
    decreases bytes.len(),
{
    if bytes.len() == 0 {
        FNV_OFFSET
    } else {
        u64_specs::wrapping_mul(spec_fnv1a64(bytes.drop_last()) ^ (bytes.last() as u64), FNV_PRIME)
    }
}

/// One xorshift64 state transition.
pub open spec fn xorshift64_step(x: u64) -> u64 {
    let a = x ^ (x >> 12u64);
    let b = a ^ (a << 25u64);
    b ^ (b >> 27u64)
}

/// The 64-bit word produced when the stream is in state `x`.
pub open spec fn xorshift64_star_output(x: u64) -> u64 {
    u64_specs::wrapping_mul(xorshift64_step(x), XORSHIFT_STAR_MULTIPLIER)
}

/// The 32-bit word produced when the stream is in state `x`: the low half of the 64-bit word.
pub open spec fn xorshift64_star_output_u32(x: u64) -> u32 {
    (xorshift64_star_output(x) & 0xFFFF_FFFFu64) as u32
}

/// Initial state of the stream derived from `base_seed` and `stream_id`.
pub open spec fn spec_stream_seed(base_seed: u64, stream_id: u64) -> u64 {
    let seed = spec_splitmix64(base_seed ^ stream_id);
    if seed > 1 { seed } else { 1 }
}

/// The pair (final stream state, final data) of the Fisher-Yates pass that visits
/// positions `i, i-1, ..., 1`, starting from stream state `state`.
pub open spec fn spec_shuffle_from<T>(state: u64, data: Seq<T>, i: nat) -> (u64, Seq<T>)
    decreases i,
{
    if i == 0 {
        (state, data)
    } else {
        let j = (xorshift64_star_output_u32(state) as nat) % (i + 1);
        let swapped = data.update(i as int, data[j as int]).update(j as int, data[i as int]);
        spec_shuffle_from(xorshift64_step(state), swapped, (i - 1) as nat)
    }
}

/// The (stream state, data) after `shuffle` on `data` from stream state `state`.
pub open spec fn spec_shuffle<T>(state: u64, data: Seq<T>) -> (u64, Seq<T>) {
    if data.len() <= 1 {
        (state, data)
    } else {
        spec_shuffle_from(state, data, (data.len() - 1) as nat)
    }
}

#[derive(Debug, Clone, Copy)]
pub struct RngService {
    base_seed: u64,
}

#[derive(Debug, Clone, Copy)]
pub struct RngStream {
    state: u64,
}

/// Opaque stream identifier; typically derived from a name.
#[derive(Debug, Clone, Copy, PartialEq, Eq, Hash)]
pub struct RngStreamId(pub u64);

impl View for RngService {
    type V = u64;

    /// The base seed.
    closed spec fn view(&self) -> u64 {
        self.base_seed
    }
}

impl View for RngStream {
    type V = u64;

    /// The current generator state.
    closed spec fn view(&self) -> u64 {
        self.state
    }
}

impl RngStream {
    /// The stream state is never zero (xorshift would then be stuck at zero).
    #[verifier::type_invariant]
    closed spec fn state_nonzero(self) -> bool {
        self.state != 0
    }
}

/// xorshift64 maps every nonzero state to a nonzero state.
pub proof fn lemma_xorshift_step_nonzero(x: u64)
    requires
        x != 0,
    ensures
        xorshift64_step(x) != 0,
{
    assert(x != 0 ==> ((x ^ (x >> 12u64)) ^ ((x ^ (x >> 12u64)) << 25u64)) ^ (((x ^ (x
        >> 12u64)) ^ ((x ^ (x >> 12u64)) << 25u64)) >> 27u64) != 0) by (bit_vector);
}

impl RngService {
    pub fn with_seed(seed: u64) -> (r: Self)
        ensures
            r@ == seed,
    {
        Self { base_seed: seed }
    }

    pub fn derive_stream(&self, stream_id: u64) -> (r: RngStream)
        ensures
            r@ == spec_stream_seed(self@, stream_id),
    {
        let seed = splitmix64(self.base_seed ^ stream_id);
        RngStream { state: seed.max(1) }
    }

    /// Derive a stream from an opaque ID type.
    pub fn derive(&self, id: RngStreamId) -> (r: RngStream)
        ensures
            r@ == spec_stream_seed(self@, id.0),
    {
        self.derive_stream(id.0)
    }

    /// Derive a stream from a human-readable name using FNV-1a 64 hashing.
    pub fn derive_stream_by_name(&self, name: &str) -> (r: RngStream)
        ensures
            r@ == spec_stream_seed(self@, spec_fnv1a64(name.spec_bytes())),
    {
        let id = fnv1a64(name.as_bytes());
        self.derive_stream(id)
    }
}

impl RngStream {
    #[inline]
    pub fn next_u64(&mut self) -> (r: u64)
        ensures
            final(self)@ == xorshift64_step(old(self)@),
            final(self)@ != 0,
            r == xorshift64_star_output(old(self)@),
    {
        proof {
            use_type_invariant(&*self);
            lemma_xorshift_step_nonzero(self.state);
        }
        // xorshift64*
        let mut x = self.state;
        x ^= x >> 12;
        x ^= x << 25;
        x ^= x >> 27;
        self.state = x;
        x.wrapping_mul(2685821657736338717)
    }

    #[inline]
    pub fn next_u32(&mut self) -> (r: u32)
        ensures
            final(self)@ == xorshift64_step(old(self)@),
            r == xorshift64_star_output_u32(old(self)@),
    {
        (self.next_u64() & 0xFFFF_FFFF) as u32
    }

    /// Fisher-Yates shuffle driven by this stream.
    pub fn shuffle<T>(&mut self, data: &mut [T])
        ensures
            (final(self)@, final(data)@) == spec_shuffle(old(self)@, old(data)@),
    {
        let len = data.len();
        if len <= 1 {
            return ;
        }
        let mut i = len - 1;
        while i >= 1
            invariant
                1 <= len == data@.len(),
                i < len,
                spec_shuffle(old(self)@, old(data)@) == spec_shuffle_from(self@, data@, i as nat),
            decreases i,
        {
            let ghost st = self@;
            let ghost d = data@;
            let j = (self.next_u32() as usize) % (i + 1);
            assert(j as nat == (xorshift64_star_output_u32(st) as nat) % (i as nat + 1));
            slice_swap(data, i, j);
            assert(data@ =~= d.update(i as int, d[j as int]).update(j as int, d[i as int]));
            i = i - 1;
        }
    }
}

/// Swaps two elements of a slice.
///
/// Calls `<[T]>::swap`, which std documents as exchanging the elements at positions
/// `a` and `b` (and panicking when either is out of bounds, which `requires` rules out).
#[verifier::external_body]
fn slice_swap<T>(data: &mut [T], a: usize, b: usize)
    requires
        a < old(data)@.len(),
        b < old(data)@.len(),
    ensures
        final(data)@ == old(data)@.update(a as int, old(data)@[b as int]).update(
            b as int,
            old(data)@[a as int],
        ),
{
    data.swap(a, b);
}

/// SplitMix64 finalizer: the seed of a stream derived from `x`.
#[inline]
pub fn splitmix64(x: u64) -> (r: u64)
    ensures
        r == spec_splitmix64(x),
{
    let mut x = x;
    x = x.wrapping_add(0x9E37_79B9_7F4A_7C15);
    let mut z = x;
    z ^= z >> 30;
    z = z.wrapping_mul(0xBF58_476D_1CE4_E5B9);
    z ^= z >> 27;
    z = z.wrapping_mul(0x94D0_49BB_1331_11EB);
    z ^ (z >> 31)
}

/// FNV-1a 64-bit hash of `bytes`: the stream id of a named stream.
#[inline]
pub fn fnv1a64(bytes: &[u8]) -> (r: u64)
    ensures
        r == spec_fnv1a64(bytes@),
{
    let mut hash: u64 = FNV_OFFSET;
    let mut i: usize = 0;
    while i < bytes.len()
        invariant
            i <= bytes@.len(),
            hash == spec_fnv1a64(bytes@.take(i as int)),
        decreases bytes@.len() - i,
    {
        let b = bytes[i];
        assert(bytes@.take(i + 1).drop_last() =~= bytes@.take(i as int));
        hash ^= b as u64;
        hash = hash.wrapping_mul(FNV_PRIME);
        i = i + 1;
    }
    assert(bytes@.take(bytes@.len() as int) =~= bytes@);
    hash
}

/// Shuffling only reorders: the shuffled data holds exactly the elements it held before.
pub proof fn lemma_shuffle_is_permutation<T>(state: u64, data: Seq<T>)
    ensures
        spec_shuffle(state, data).1.to_multiset() == data.to_multiset(),
        spec_shuffle(state, data).1.len() == data.len(),
{
    if data.len() > 1 {
        lemma_shuffle_from_is_permutation(state, data, (data.len() - 1) as nat);
    }
}

proof fn lemma_shuffle_from_is_permutation<T>(state: u64, data: Seq<T>, i: nat)
    requires
        i < data.len(),
    ensures
        spec_shuffle_from(state, data, i).1.to_multiset() == data.to_multiset(),
        spec_shuffle_from(state, data, i).1.len() == data.len(),
    decreases i,
{
    broadcast use {
        vstd::seq_lib::to_multiset_update,
        vstd::seq_lib::to_multiset_contains,
        vstd::multiset::group_multiset_axioms,
        vstd::multiset::group_multiset_properties,
    };

    if i > 0 {
        let j = (xorshift64_star_output_u32(state) as nat) % (i + 1);
        vstd::arithmetic::div_mod::lemma_mod_bound(xorshift64_star_output_u32(state) as int, (i + 1) as int);
        assert(data.contains(data[i as int]));
        assert(data.contains(data[j as int]));
        let s1 = data.update(i as int, data[j as int]);
        let s2 = s1.update(j as int, data[i as int]);
        assert(s1.to_multiset() == data.to_multiset().insert(data[j as int]).remove(data[i as int]));
        assert(s2.to_multiset() == s1.to_multiset().insert(data[i as int]).remove(s1[j as int]));
        assert(s1[j as int] == data[j as int]);
        assert(s2.to_multiset() =~= data.to_multiset());
        lemma_shuffle_from_is_permutation(xorshift64_step(state), s2, (i - 1) as nat);
    }
}

} // verus!
