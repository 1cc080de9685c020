//! The two-tier cache behind the candidate generator: a small hot LRU tier
//! checked first, in front of a larger concurrent cold tier.  Both tiers are
//! keyed by a 64-bit digest of the query, and every entry stores the query it
//! answers beside the result, so a hit is checked against the query before it
//! is believed.

use vstd::prelude::*;

verus! {

/// A two-tier cache for candidate lists.  The hot tier is a bounded LRU, the
/// cold tier an unbounded concurrent map whose entries carry an access count.
#[verifier::external_body]
pub struct CandidateCache {
    hot: lru::LruCache<u64, (String, bool, Vec<String>)>,
    cold: dashmap::DashMap<u64, (String, bool, Vec<String>, usize)>,
}

/// What the hot tier holds: for each key, the query (prefix and distance-2
/// switch) and the candidate list stored for it.
pub uninterp spec fn cc_hot(c: CandidateCache) -> Map<u64, (Seq<char>, bool, Seq<Seq<char>>)>;

/// What the cold tier holds: for each key, the query, the candidate list
/// stored for it, and how often the entry has been hit.
pub uninterp spec fn cc_cold(c: CandidateCache) -> Map<
    u64,
    (Seq<char>, bool, Seq<Seq<char>>, nat),
>;

/// An empty hot tier.
pub open spec fn cc_hot_empty() -> Map<u64, (Seq<char>, bool, Seq<Seq<char>>)> {
    Map::empty()
}

/// An empty cold tier.
pub open spec fn cc_cold_empty() -> Map<u64, (Seq<char>, bool, Seq<Seq<char>>, nat)> {
    Map::empty()
}

/// Relies on `lru::LruCache::new` and `dashmap::DashMap::with_capacity`:
/// both collections start empty.
#[verifier::external_body]
pub fn cc_new(hot_cap: usize, cold_hint: usize) -> (r: CandidateCache)
    requires
        hot_cap >= 1,
    ensures
        cc_hot(r) == cc_hot_empty(),
        cc_cold(r) == cc_cold_empty(),
{
    CandidateCache {
        hot: lru::LruCache::new(std::num::NonZeroUsize::new(hot_cap).unwrap()),
        cold: dashmap::DashMap::with_capacity(cold_hint),
    }
}

/// Relies on `lru::LruCache::get`: returns a copy of the entry stored under
/// the key, if any; only recency changes, never the contents.
#[verifier::external_body]
pub fn cc_hot_get(c: &mut CandidateCache, key: u64) -> (r: Option<(String, bool, Vec<String>)>)
    ensures
        cc_hot(*final(c)) == cc_hot(*old(c)),
        cc_cold(*final(c)) == cc_cold(*old(c)),
        match r {
            Some(e) => cc_hot(*old(c)).contains_key(key) && e.0@ == cc_hot(*old(c))[key].0 && e.1
                == cc_hot(*old(c))[key].1 && e.2.deep_view() == cc_hot(*old(c))[key].2,
            None => !cc_hot(*old(c)).contains_key(key),
        },
{
    c.hot.get(&key).cloned()
}

/// Relies on `lru::LruCache::put`: stores the entry under the key; at most
/// one other entry (the least recently used) may leave the tier for it.
#[verifier::external_body]
pub fn cc_hot_put(c: &mut CandidateCache, key: u64, prefix: String, d2: bool, value: Vec<String>)
    ensures
        cc_cold(*final(c)) == cc_cold(*old(c)),
        cc_hot(*final(c)).contains_key(key),
        cc_hot(*final(c))[key] == (prefix@, d2, value.deep_view()),
        forall|k: u64|
            #[trigger] cc_hot(*final(c)).contains_key(k) ==> k == key || (cc_hot(
                *old(c),
            ).contains_key(k) && cc_hot(*final(c))[k] == cc_hot(*old(c))[k]),
{
    c.hot.put(key, (prefix, d2, value));
}

/// Relies on `dashmap::DashMap::get`: returns a copy of the entry stored
/// under the key, if any; nothing changes.
#[verifier::external_body]
pub fn cc_cold_get(c: &CandidateCache, key: u64) -> (r: Option<(String, bool, Vec<String>, usize)>)
    ensures
        match r {
            Some(e) => {
                let v = cc_cold(*c)[key];
                cc_cold(*c).contains_key(key) && e.0@ == v.0 && e.1 == v.1 && e.2.deep_view()
                    == v.2 && e.3 as nat == v.3
            },
            None => !cc_cold(*c).contains_key(key),
        },
{
    match c.cold.get(&key) {
        Some(e) => Some((e.0.clone(), e.1, e.2.clone(), e.3)),
        None => None,
    }
}

/// Relies on `dashmap::DashMap::insert`: stores the entry under the key
/// with the given access count; nothing else changes.
#[verifier::external_body]
pub fn cc_cold_put(
    c: &mut CandidateCache,
    key: u64,
    prefix: String,
    d2: bool,
    value: Vec<String>,
    count: usize,
)
    ensures
        cc_hot(*final(c)) == cc_hot(*old(c)),
        cc_cold(*final(c)) == cc_cold(*old(c)).insert(
            key,
            (prefix@, d2, value.deep_view(), count as nat),
        ),
{
    c.cold.insert(key, (prefix, d2, value, count));
}

/// Relies on `fxhash::FxHasher` through std's `Hasher` trait: digests the
/// query into the 64-bit cache key.  Nothing is promised of the value; every
/// cache entry stores its query and a hit is checked against it, so no claim
/// about the digest is ever needed.
#[verifier::external_body]
pub fn create_cache_key(prefix: &str, include_distance_2: bool) -> u64 {
    let mut hasher = fxhash::FxHasher::default();
    std::hash::Hasher::write(&mut hasher, prefix.as_bytes());
    std::hash::Hasher::write_u8(&mut hasher, include_distance_2 as u8);
    std::hash::Hasher::finish(&hasher)
}

} // verus!
