//! Decisions of the cache endpoints, apart from their transport: the
//! mapping from a cache key and version to the logical path in the store,
//! the identifier a reservation answers with, and the lookup of which of
//! several candidate keys already has a cached entry.

use crate::store::Store;
use crate::strutil::{find_sub, first_occurrence, str_eq};
use vstd::prelude::*;
use vstd::string::*;

verus! {

/// A cache reservation request: the key, its version, and the declared
/// total size.
pub struct ReserveCacheQuery {
    pub key: String,
    pub version: String,
    pub size: usize,
}

/// The total size a cache finalize request declares.
pub struct FinalizeQuery {
    pub size: usize,
}

/// A cache lookup: candidate keys, comma-separated, and the version.
pub struct EnumerateQuery {
    pub keys: String,
    pub version: String,
}

/// The logical path a cache entry is stored under.
pub open spec fn cache_path_spec(key: Seq<char>, version: Seq<char>) -> Seq<char> {
    "caches/"@ + key + "/"@ + version
}

/// The logical path a cache entry is stored under.
pub fn cache_entry_path(key: &str, version: &str) -> (r: String)
    ensures
        r@ == cache_path_spec(key@, version@),
{
    let mut s: String = String::from_str("caches/");
    s.append(key);
    s.append("/");
    s.append(version);
    s
}

/// The pattern that selects a cache entry's chunks on finalize.
pub fn cache_finalize_pattern(key: &str, version: &str) -> (r: String)
    ensures
        r@ == cache_path_spec(key@, version@) + "*"@,
{
    let mut s = cache_entry_path(key, version);
    s.append("*");
    s
}

/// The identifier a reservation answers with: the key and version joined.
pub fn reserve_cache_id(query: &ReserveCacheQuery) -> (r: String)
    ensures
        r@ == query.key@ + "/"@ + query.version@,
{
    let mut s: String = query.key.as_str().to_owned();
    s.append("/");
    s.append(query.version.as_str());
    s
}

/// A comma-separated list, split at every comma, in order; an empty list
/// text yields one empty element, as splitting does.
pub open spec fn split_commas_spec(s: Seq<char>) -> Seq<Seq<char>>
    decreases s.len(),
{
    let i = first_occurrence(s, ","@);
    if i < 0 || i >= s.len() {
        seq![s]
    } else {
        seq![s.take(i)] + split_commas_spec(s.skip(i + 1))
    }
}

/// Splits a comma-separated list of keys, in order.
pub fn split_keys(s: &str) -> (r: Vec<String>)
    ensures
        r.deep_view() == split_commas_spec(s@),
    decreases s@.len(),
{
    proof {
        reveal_strlit(",");
    }
    match find_sub(s, ",") {
        None => {
            let mut v: Vec<String> = Vec::new();
            v.push(s.to_owned());
            assert(v.deep_view() =~= split_commas_spec(s@));
            v
        },
        Some(i) => {
            let len: usize = s.unicode_len();
            let head: String = s.substring_char(0, i).to_owned();
            let rest: &str = s.substring_char(i + 1, len);
            assert(head@ =~= s@.take(i as int));
            assert(rest@ =~= s@.skip(i as int + 1));
            let mut v: Vec<String> = Vec::new();
            v.push(head);
            let mut tail = split_keys(rest);
            v.append(&mut tail);
            assert(v.deep_view() =~= split_commas_spec(s@));
            v
        },
    }
}

/// The candidate keys, in order, whose cache entry for `version` exists
/// in `m`.
pub open spec fn matching_keys_spec(
    m: Map<Seq<char>, Seq<u8>>,
    ks: Seq<Seq<char>>,
    version: Seq<char>,
) -> Seq<Seq<char>>
    decreases ks.len(),
{
    if ks.len() == 0 {
        Seq::empty()
    } else {
        let rest = matching_keys_spec(m, ks.drop_last(), version);
        if m.contains_key(cache_path_spec(ks.last(), version)) {
            rest.push(ks.last())
        } else {
            rest
        }
    }
}

/// Of the comma-separated candidate keys, those whose cache entry for
/// `version` is present, in order.
pub fn matching_cache_keys(store: &Store, keys: &str, version: &str) -> (r: Vec<String>)
    requires
        store.wf(),
    ensures
        r.deep_view() == matching_keys_spec(store@, split_commas_spec(keys@), version@),
{
    let ks = split_keys(keys);
    let ghost ksv = split_commas_spec(keys@);
    let n = ks.len();
    let mut out: Vec<String> = Vec::new();
    let mut i: usize = 0;
    while i < n
        invariant
            n == ks@.len(),
            i <= n,
            store.wf(),
            ks.deep_view() == ksv,
            out.deep_view() == matching_keys_spec(store@, ksv.take(i as int), version@),
        decreases n - i,
    {
        let ghost prev = out.deep_view();
        let path = cache_entry_path(ks[i].as_str(), version);
        assert(ks@[i as int]@ == ksv[i as int]);
        if store.contains_name(path.as_str()) {
            out.push(ks[i].as_str().to_owned());
        }
        i = i + 1;
        proof {
            assert(ksv.take(i as int).drop_last() =~= ksv.take(i as int - 1));
            assert(ksv.take(i as int).last() == ksv[i as int - 1]);
            assert(out.deep_view() =~= matching_keys_spec(store@, ksv.take(i as int), version@));
        }
    }
    proof {
        assert(ksv.take(n as int) =~= ksv);
    }
    out
}

/// The key a cache lookup answers with: the last candidate whose entry
/// exists, or none.
pub fn select_cache_key(store: &Store, keys: &str, version: &str) -> (r: Option<String>)
    requires
        store.wf(),
    ensures
        ({
            let ms = matching_keys_spec(store@, split_commas_spec(keys@), version@);
            match r {
                Some(k) => ms.len() > 0 && k@ == ms.last(),
                None => ms.len() == 0,
            }
        }),
{
    let mut ms = matching_cache_keys(store, keys, version);
    let ghost msv = matching_keys_spec(store@, split_commas_spec(keys@), version@);
    let ghost ms0 = ms@;
    match ms.pop() {
        Some(k) => {
            proof {
                assert(k == ms0[ms0.len() - 1]);
                assert(msv[msv.len() - 1] == ms0[ms0.len() - 1]@);
            }
            Some(k)
        },
        None => None,
    }
}

} // verus!
