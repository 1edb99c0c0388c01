//! Random choices, and the cache of sampled vertices.
use crate::query::VertexId;
use dashmap::DashMap;
use rand::rngs::StdRng;
use rand::seq::SliceRandom;
use rand::{Rng, SeedableRng};
use vstd::prelude::*;
use vstd::string::*;
use vstd::utf8::encode_utf8;

verus! {

/// The generator of `rand`. Nothing is known of what it holds.
#[verifier::external_type_specification]
#[verifier::external_body]
pub struct ExStdRng(rand::rngs::StdRng);

/// The concurrent map of `dashmap`.
#[verifier::external_type_specification]
#[verifier::external_body]
#[verifier::reject_recursive_types(K)]
#[verifier::reject_recursive_types(V)]
#[verifier::reject_recursive_types(S)]
pub struct ExDashMap<K, V, S>(dashmap::DashMap<K, V, S>);

/// What a cache holds: for a description, the vertices that were picked for it.
pub uninterp spec fn contents(cache: DashMap<String, Vec<VertexId>>) -> Map<
    Seq<char>,
    Seq<VertexId>,
>;

/// `SeedableRng::seed_from_u64` of `rand`: a generator that starts from a seed. Nothing is
/// claimed of what it will yield.
#[verifier::external_body]
pub(crate) fn seeded(seed: u64) -> (result: StdRng) {
    StdRng::seed_from_u64(seed)
}

/// `Rng::gen_range` of `rand`, from zero up to a bound: the number is less than the bound. The
/// call panics on an empty range, so the bound is not zero.
#[verifier::external_body]
pub(crate) fn index_below(rng: &mut StdRng, bound: usize) -> (result: usize)
    requires
        bound > 0,
    ensures
        result < bound,
{
    rng.gen_range(0..bound)
}

/// `rand::seq::index::sample`: exactly so many distinct indices below a length. The call panics
/// where more are asked for than there are, and, where the length is more than 32 bits hold, a
/// debug build also panics where all are asked for.
#[verifier::external_body]
pub(crate) fn distinct_indices(rng: &mut StdRng, length: usize, amount: usize) -> (result: Vec<
    usize,
>)
    requires
        amount < length || (amount == length && length <= u32::MAX),
    ensures
        result@.len() == amount,
        result@.no_duplicates(),
        forall|i: int| 0 <= i < result@.len() ==> #[trigger] result@[i] < length,
{
    rand::seq::index::sample(rng, length, amount).into_vec()
}

/// `SliceRandom::shuffle` of `rand`: the ids are put in some order.
#[verifier::external_body]
pub(crate) fn shuffle(rng: &mut StdRng, ids: &mut Vec<u64>)
    ensures
        final(ids)@.to_multiset() == old(ids)@.to_multiset(),
{
    ids.shuffle(rng)
}

/// `DashMap::get` of `dashmap`: what the cache holds for a key. Nobody else can change the cache
/// meanwhile, since the reference to it is the only one.
#[verifier::external_body]
pub(crate) fn cached(cache: &mut DashMap<String, Vec<VertexId>>, key: &String) -> (result: Option<
    Vec<VertexId>,
>)
    ensures
        contents(*final(cache)) == contents(*old(cache)),
        match result {
            Some(ids) => contents(*old(cache)).contains_key(key@) && ids@ == contents(
                *old(cache),
            )[key@],
            None => !contents(*old(cache)).contains_key(key@),
        },
{
    cache.get(key).map(|entry| entry.value().clone())
}

/// `DashMap::insert` of `dashmap`: the cache holds vertices for a key, in place of what it held
/// for it before. Nobody else can change the cache meanwhile, since the reference to it is the
/// only one.
#[verifier::external_body]
pub(crate) fn remember(cache: &mut DashMap<String, Vec<VertexId>>, key: String, ids: Vec<VertexId>)
    ensures
        contents(*final(cache)) == contents(*old(cache)).insert(key@, ids@),
{
    cache.insert(key, ids);
}

/// One byte taken into a hash.
pub open spec fn hashed(hash: u64, byte: u8) -> u64 {
    (((hash ^ (byte as u64)) as nat * 0x100000001b3) % 0x1_0000_0000_0000_0000) as u64
}

/// The hash of bytes, one after the other (FNV-1a).
pub open spec fn hash_of(bytes: Seq<u8>) -> u64
    decreases bytes.len(),
{
    if bytes.len() == 0 {
        0xcbf29ce484222325
    } else {
        hashed(hash_of(bytes.drop_last()), bytes.last())
    }
}

/// The seed for what a text describes; it is the same wherever and whenever it is asked for.
pub fn sample_seed(text: &str) -> (result: u64)
    ensures
        result == hash_of(encode_utf8(text@)),
{
    let bytes = text.as_bytes();
    let mut hash: u64 = 0xcbf29ce484222325;
    let mut i: usize = 0;
    while i < bytes.len()
        invariant
            i <= bytes@.len(),
            hash == hash_of(bytes@.take(i as int)),
        decreases bytes.len() - i,
    {
        assert(bytes@.take(i + 1).drop_last() =~= bytes@.take(i as int));
        let mixed: u64 = hash ^ (bytes[i] as u64);
        hash = mixed.wrapping_mul(0x100000001b3u64);
        i = i + 1;
    }
    assert(bytes@.take(i as int) =~= bytes@);
    hash
}

} // verus!
