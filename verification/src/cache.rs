//! The read-through cache in front of the query engine.
//!
//! An unfiltered request is served under a key derived from the locale
//! alone: a present, fresh, well-formed entry is returned as stored;
//! anything else falls through to the engine, whose result is written back
//! with a fixed time to live. A request with search text bypasses the cache
//! entirely — its key is never read and never written.
//!
//! The store is an injected dependency (`MemoryStore` in process; an
//! external store behind the same step functions in a deployment), so the
//! whole state machine of one request is verified here.

use vstd::prelude::*;
use vstd::string::StringExecFns;

use crate::catalog::{Catalog, CategoryWithProducts, CategoryWithProductsView};
use crate::codec::{
    dec_payload, decode_payload, enc_ok_payload, enc_payload, encode_payload,
    lemma_payload_round_trip,
};
use crate::engine::{
    fetch_grouped, lemma_missing_ordinals_last, lemma_no_active_products_empty, lemma_no_match_empty,
    lemma_result_unique, matches_terms, order_rank, spec_search_terms, valid_result,
};
use crate::text::{chars_of, terms_of, terms_vec};

verus! {

/// Seconds a stored entry stays fresh.
pub const CACHE_TTL_SECONDS: u64 = 3600;

/// The cache key of a locale. Search text never enters a key.
pub open spec fn spec_cache_key(loc: Seq<char>) -> Seq<char> {
    "products_grouped_by_category:"@ + loc
}

/// Executable key derivation; agrees with `spec_cache_key`.
pub fn cache_key(locale: &str) -> (r: String)
    ensures
        r@ == spec_cache_key(locale@),
{
    let mut s = String::from_str("products_grouped_by_category:");
    s.append(locale);
    s
}

/// The view of an optional string slice.
pub open spec fn opt_text_view(o: Option<&str>) -> Option<Seq<char>> {
    match o {
        Option::Some(s) => Option::Some(s@),
        Option::None => Option::None,
    }
}

/// The cache decision for a request: the key to read through, or none
/// because the search text forces a bypass.
pub open spec fn spec_plan(loc: Seq<char>, search: Option<Seq<char>>) -> Option<Seq<char>> {
    match search {
        Option::Some(s) => if terms_of(s).len() == 0 {
            Option::Some(spec_cache_key(loc))
        } else {
            Option::None
        },
        Option::None => Option::Some(spec_cache_key(loc)),
    }
}

/// A request with search text never touches the cache: no key exists for
/// it, so nothing can be read or written under one.
pub proof fn lemma_filtered_request_bypasses_cache(loc: Seq<char>, s: Seq<char>)
    requires
        terms_of(s).len() > 0,
    ensures
        spec_plan(loc, Option::Some(s)) is None,
{
}

/// The query parameters of a catalog request.
pub struct QueryParams {
    pub search: Option<String>,
}

impl QueryParams {
    /// The raw search text, if any.
    pub fn search_text(&self) -> (r: Option<&str>)
        ensures
            opt_text_view(r) == crate::catalog::opt_str_view(self.search),
    {
        match &self.search {
            Some(s) => Some(s.as_str()),
            None => None,
        }
    }
}

/// What one request does to the cache.
pub enum CachePlan {
    /// Search text is present: call the engine directly.
    Bypass,
    /// No filter: read through the given key.
    Lookup { key: String },
}

/// Decide the cache step for a request; agrees with `spec_plan`.
pub fn plan_request(locale: &str, search: Option<&str>) -> (r: CachePlan)
    ensures
        match r {
            CachePlan::Bypass => spec_plan(locale@, opt_text_view(search)) is None,
            CachePlan::Lookup { key } => spec_plan(locale@, opt_text_view(search))
                == Option::Some(key@) && key@ == spec_cache_key(locale@),
        },
{
    let bypass = match search {
        Some(s) => {
            let sv = chars_of(s);
            let terms = terms_vec(&sv);
            let n = terms.len();
            proof {
                assert(terms.deep_view().len() == terms@.len());
            }
            n > 0
        },
        None => false,
    };
    if bypass {
        CachePlan::Bypass
    } else {
        CachePlan::Lookup { key: cache_key(locale) }
    }
}

/// One stored entry of the in-process store.
struct StoreEntry {
    key: String,
    value: Vec<u8>,
    expires_at: u64,
}

/// The stored value and expiry for `key` among `entries`: the newest entry
/// (closest to the front) wins.
spec fn lookup_at(entries: Seq<StoreEntry>, key: Seq<char>) -> Option<(Seq<u8>, u64)>
    decreases entries.len(),
{
    if entries.len() == 0 {
        Option::None
    } else if entries[0].key@ == key {
        Option::Some((entries[0].value@, entries[0].expires_at))
    } else {
        lookup_at(entries.drop_first(), key)
    }
}

/// An in-process key/value store with per-entry expiry: the injectable
/// stand-in for the external store, so tests and callers can run the whole
/// read path without one.
pub struct MemoryStore {
    entries: Vec<StoreEntry>,
}

impl MemoryStore {
    /// The stored value and expiry for `key`, if any.
    pub closed spec fn lookup(self, key: Seq<char>) -> Option<(Seq<u8>, u64)> {
        lookup_at(self.entries@, key)
    }

    /// What a read at time `now` yields: the value if present and fresh.
    pub open spec fn spec_get(self, key: Seq<char>, now: u64) -> Option<Seq<u8>> {
        match self.lookup(key) {
            Option::Some((v, exp)) => if now < exp {
                Option::Some(v)
            } else {
                Option::None
            },
            Option::None => Option::None,
        }
    }

    /// An empty store.
    pub fn new() -> (r: Self)
        ensures
            forall|k: Seq<char>| r.lookup(k) is None,
    {
        MemoryStore { entries: Vec::new() }
    }

    /// Read `key` at time `now`.
    pub fn get(&self, key: &str, now: u64) -> (r: Option<Vec<u8>>)
        ensures
            match r {
                Option::Some(v) => self.spec_get(key@, now) == Option::Some(v@),
                Option::None => self.spec_get(key@, now) is None,
            },
    {
        broadcast use vstd::std_specs::vec::vec_clone_deep_view_proof;

        let kv = chars_of(key);
        let mut i: usize = 0;
        proof {
            assert(self.entries@.skip(0) =~= self.entries@);
        }
        while i < self.entries.len()
            invariant
                i <= self.entries@.len(),
                kv@ == key@,
                lookup_at(self.entries@, key@) == lookup_at(self.entries@.skip(i as int), key@),
            decreases self.entries@.len() - i,
        {
            let e = &self.entries[i];
            let ek = chars_of(e.key.as_str());
            proof {
                assert(self.entries@.skip(i as int)[0] == self.entries@[i as int]);
                assert(self.entries@.skip(i as int).drop_first() =~= self.entries@.skip(i + 1));
            }
            if crate::text::chars_eq(&ek, &kv) {
                if now < e.expires_at {
                    let v = e.value.clone();
                    proof {
                        assert(v.deep_view() == self.entries@[i as int].value.deep_view());
                        assert(v@ =~= self.entries@[i as int].value@);
                    }
                    return Some(v);
                } else {
                    return None;
                }
            }
            i += 1;
        }
        proof {
            assert(self.entries@.skip(self.entries@.len() as int).len() == 0);
        }
        None
    }

    /// Write `value` under `key` at time `now`, fresh for `ttl` seconds.
    pub fn set(&mut self, key: &str, value: Vec<u8>, now: u64, ttl: u64)
        requires
            now + ttl <= u64::MAX,
        ensures
            final(self).lookup(key@) == Option::Some((value@, (now + ttl) as u64)),
            forall|k: Seq<char>|
                k != key@ ==> #[trigger] final(self).lookup(k) == old(self).lookup(k),
    {
        let ghost value0 = value@;
        let entry = StoreEntry { key: String::from_str(key), value, expires_at: now + ttl };
        let ghost entries0 = self.entries@;
        self.entries.insert(0, entry);
        proof {
            entries0.insert_ensures(0, entry);
            assert(self.entries@[0].key@ == key@);
            assert(self.entries@[0].value@ == value0);
            assert(self.entries@.drop_first() =~= entries0);
        }
    }
}

/// The value a fresh cache entry would stand for at read time, if its bytes
/// are present, fresh and well formed.
pub open spec fn cached_view(store: MemoryStore, loc: Seq<char>, now: u64) -> Option<
    Seq<CategoryWithProductsView>,
> {
    match store.spec_get(spec_cache_key(loc), now) {
        Option::Some(bytes) => dec_payload(bytes),
        Option::None => Option::None,
    }
}

/// The store after a miss: the fresh result is stored under the locale's
/// key with the fixed time to live, and no other key moves.
pub open spec fn wrote_fresh(
    old_store: MemoryStore,
    new_store: MemoryStore,
    loc: Seq<char>,
    now: u64,
    rv: Seq<CategoryWithProductsView>,
) -> bool {
    &&& new_store.lookup(spec_cache_key(loc)) == Option::Some(
        (enc_payload(rv), (now + CACHE_TTL_SECONDS) as u64),
    )
    &&& forall|k: Seq<char>|
        k != spec_cache_key(loc) ==> #[trigger] new_store.lookup(k) == old_store.lookup(k)
}

/// Fetch from the engine and store the result under `key`.
fn fetch_and_store(
    catalog: &Catalog,
    store: &mut MemoryStore,
    now: u64,
    locale: &str,
    key: &String,
) -> (r: Vec<CategoryWithProducts>)
    requires
        catalog.wf(),
        now + CACHE_TTL_SECONDS <= u64::MAX,
        key@ == spec_cache_key(locale@),
    ensures
        valid_result(*catalog, locale@, Seq::empty(), r.deep_view()),
        enc_ok_payload(r.deep_view()),
        wrote_fresh(*old(store), *final(store), locale@, now, r.deep_view()),
{
    let r = fetch_grouped(catalog, locale, None);
    let bytes = encode_payload(&r);
    store.set(key.as_str(), bytes, now, CACHE_TTL_SECONDS);
    proof {
        assert(spec_search_terms(None) =~~= Seq::<Seq<char>>::empty());
    }
    r
}

impl crate::catalog::Product {
    /// The catalog read path: resolve one request against the engine and
    /// the injected store.
    ///
    /// With search text whose terms are non-empty the cache is bypassed:
    /// the store is untouched and the engine's filtered result is returned.
    /// Without one, a present, fresh, well-formed entry under the locale's
    /// key is returned exactly as stored; otherwise the engine runs and its
    /// result is written back, fresh for `CACHE_TTL_SECONDS`.
    pub fn get_products_grouped_by_category(
        catalog: &Catalog,
        store: &mut MemoryStore,
        now: u64,
        locale: &str,
        search: Option<&str>,
    ) -> (r: Vec<CategoryWithProducts>)
        requires
            catalog.wf(),
            now + CACHE_TTL_SECONDS <= u64::MAX,
        ensures
            valid_result(*catalog, locale@, spec_search_terms(search), r.deep_view()) || (
            spec_search_terms(search).len() == 0 && Option::Some(r.deep_view()) == cached_view(
                *old(store),
                locale@,
                now,
            )),
            spec_search_terms(search).len() > 0 ==> *final(store) == *old(store) && valid_result(
                *catalog,
                locale@,
                spec_search_terms(search),
                r.deep_view(),
            ),
            spec_search_terms(search).len() == 0 && cached_view(*old(store), locale@, now)
                is Some ==> *final(store) == *old(store) && Option::Some(r.deep_view())
                == cached_view(*old(store), locale@, now),
            spec_search_terms(search).len() == 0 && cached_view(*old(store), locale@, now)
                is None ==> valid_result(*catalog, locale@, spec_search_terms(search), r.deep_view())
                && enc_ok_payload(r.deep_view()) && wrote_fresh(
                *old(store),
                *final(store),
                locale@,
                now,
                r.deep_view(),
            ),
    {
        let filtered = match search {
            Some(s) => {
                let sv = chars_of(s);
                let terms = terms_vec(&sv);
                proof {
                    assert(terms.deep_view().len() == terms@.len());
                }
                terms.len() > 0
            },
            None => false,
        };
        if filtered {
            return fetch_grouped(catalog, locale, search);
        }
        proof {
            assert(spec_search_terms(search).len() == 0);
            assert(spec_search_terms(search) =~~= Seq::<Seq<char>>::empty());
        }
        let key = cache_key(locale);
        match store.get(key.as_str(), now) {
            Some(bytes) => {
                match decode_payload(&bytes) {
                    Some(v) => v,
                    None => fetch_and_store(catalog, store, now, locale, &key),
                }
            },
            None => fetch_and_store(catalog, store, now, locale, &key),
        }
    }
}

/// Freshness of the read-through pair: after a miss at `now` stored the
/// computed result, any unfiltered read strictly within the time to live
/// sees the same bytes and decodes them to exactly that result — the second
/// call returns what the first one computed, byte for byte.
pub proof fn lemma_second_read_within_ttl(
    store0: MemoryStore,
    store1: MemoryStore,
    loc: Seq<char>,
    now: u64,
    later: u64,
    rv: Seq<CategoryWithProductsView>,
)
    requires
        enc_ok_payload(rv),
        wrote_fresh(store0, store1, loc, now, rv),
        now + CACHE_TTL_SECONDS <= u64::MAX,
        now <= later < now + CACHE_TTL_SECONDS,
    ensures
        store1.spec_get(spec_cache_key(loc), later) == Option::Some(enc_payload(rv)),
        cached_view(store1, loc, later) == Option::Some(rv),
{
    lemma_payload_round_trip(rv);
}

/// The full first law of the cache: within the time to live, the cached
/// result equals what a fresh computation for the same locale would return,
/// because the engine's contract admits exactly one result.
pub proof fn lemma_cache_hit_equals_fresh(
    catalog: Catalog,
    store0: MemoryStore,
    store1: MemoryStore,
    loc: Seq<char>,
    now: u64,
    later: u64,
    rv: Seq<CategoryWithProductsView>,
    fresh: Seq<CategoryWithProductsView>,
)
    requires
        catalog.wf(),
        valid_result(catalog, loc, Seq::empty(), rv),
        enc_ok_payload(rv),
        wrote_fresh(store0, store1, loc, now, rv),
        now + CACHE_TTL_SECONDS <= u64::MAX,
        now <= later < now + CACHE_TTL_SECONDS,
        valid_result(catalog, loc, Seq::empty(), fresh),
    ensures
        cached_view(store1, loc, later) == Option::Some(fresh),
        enc_payload(fresh) == enc_payload(rv),
{
    lemma_second_read_within_ttl(store0, store1, loc, now, later, rv);
    lemma_result_unique(catalog, loc, Seq::empty(), rv, fresh);
}

/// The boundary law at the read-path level, on a fresh read. When the
/// cache holds no valid entry for the locale, the read path's result
/// satisfies the engine's contract, and a catalog with no active product
/// then yields the empty list — a successful outcome, never an error. A
/// present, unexpired entry is returned as stored instead: its staleness
/// is bounded by the time to live, never corrected earlier.
pub proof fn lemma_fresh_read_empty_when_no_active(
    store: MemoryStore,
    cat: Catalog,
    now: u64,
    loc: Seq<char>,
    terms: Seq<Seq<char>>,
    rv: Seq<CategoryWithProductsView>,
)
    requires
        cached_view(store, loc, now) is None,
        valid_result(cat, loc, terms, rv),
        forall|i: int| 0 <= i < cat.products@.len() ==> !(#[trigger] cat.products@[i]).is_active,
    ensures
        rv.len() == 0,
{
    lemma_no_active_products_empty(cat, loc, terms, rv);
}

/// As above, for a search whose terms match no name: the fresh result is
/// the empty list, not an error. A filtered request never consults the
/// cache at all, so no stored entry can interfere with this case.
pub proof fn lemma_fresh_read_empty_when_no_match(
    store: MemoryStore,
    cat: Catalog,
    now: u64,
    loc: Seq<char>,
    terms: Seq<Seq<char>>,
    rv: Seq<CategoryWithProductsView>,
)
    requires
        cached_view(store, loc, now) is None,
        valid_result(cat, loc, terms, rv),
        forall|pn: Seq<char>, cn: Seq<char>| !matches_terms(terms, pn, cn),
    ensures
        rv.len() == 0,
{
    lemma_no_match_empty(cat, loc, terms, rv);
}

/// The ordering law at the read-path level, on a fresh read: when the
/// cache holds no valid entry for the locale, the groups come back with
/// ordinal ranks ascending and every missing ordinal after all present
/// ones. A present, unexpired entry is returned as stored instead, within
/// the staleness bound of the time to live.
pub proof fn lemma_fresh_read_ordering(
    store: MemoryStore,
    cat: Catalog,
    now: u64,
    loc: Seq<char>,
    terms: Seq<Seq<char>>,
    rv: Seq<CategoryWithProductsView>,
)
    requires
        cached_view(store, loc, now) is None,
        valid_result(cat, loc, terms, rv),
    ensures
        forall|i: int, j: int|
            0 <= i < j < rv.len() ==> order_rank((#[trigger] rv[i]).order) <= order_rank(
                (#[trigger] rv[j]).order,
            ),
        forall|i: int, j: int|
            0 <= i < j < rv.len() && (#[trigger] rv[i]).order is None ==> (#[trigger] rv[j]).order
                is None,
{
    lemma_missing_ordinals_last(cat, loc, terms, rv);
}

} // verus!
