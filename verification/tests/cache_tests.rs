use gistdb::cache::{
    cache_key, cached_search, collection_search_prefix, database_search_prefix, SearchCache,
};
use gistdb::codec::parse_json;
use gistdb::json::JsonValue;
use gistdb::models::get_auth_token;

fn b(x: &str) -> Vec<u8> {
    x.as_bytes().to_vec()
}

fn snapshot(text: &str) -> JsonValue {
    parse_json(text.as_bytes()).unwrap()
}

#[test]
fn cache_key_is_canonical() {
    assert_eq!(
        cache_key(b"g1", b"items", b"milk", None),
        b("https://gistdb.com/search/g1/items/milk")
    );
    assert_eq!(
        cache_key(b"g1", b"items", b"milk", Some(b"title")),
        b("https://gistdb.com/search/g1/items/milk/title")
    );
}

#[test]
fn get_and_put() {
    let mut cache = SearchCache::new();
    assert!(cache.get(b"k").is_none());
    cache.put(b"k", vec![b("a"), b("b")]);
    assert_eq!(cache.get(b"k").unwrap(), &vec![b("a"), b("b")]);
    cache.put(b"k", vec![b("c")]);
    assert_eq!(cache.get(b"k").unwrap(), &vec![b("c")]);
    assert!(cache.get(b"other").is_none());
}

#[test]
fn miss_computes_and_stores() {
    let mut cache = SearchCache::new();
    let snap = snapshot("{\"one\":{\"t\":\"milk\"},\"two\":{\"t\":\"tea\"}}");
    let key = cache_key(b"g1", b"items", b"milk", None);
    let r = cached_search(&mut cache, &key, &snap, b"milk", None);
    assert_eq!(r, vec![b("one")]);
    assert_eq!(cache.get(&key).unwrap(), &vec![b("one")]);
}

#[test]
fn hit_returns_stored_result_until_invalidated() {
    // a cached answer is returned as stored until a mutation invalidates it;
    // the invalidation is therefore mandatory after every mutation.
    let mut cache = SearchCache::new();
    let key = cache_key(b"g1", b"items", b"milk", None);
    cache.put(&key, vec![b("stale")]);
    let snap = snapshot("{\"fresh\":{\"t\":\"milk\"}}");
    let r = cached_search(&mut cache, &key, &snap, b"milk", None);
    assert_eq!(r, vec![b("stale")]);
    let prefix = collection_search_prefix(b"g1", b"items");
    cache.invalidate_prefix(&prefix);
    let r = cached_search(&mut cache, &key, &snap, b"milk", None);
    assert_eq!(r, vec![b("fresh")]);
}

#[test]
fn invalidation_clears_a_collection_and_spares_others() {
    let mut cache = SearchCache::new();
    let k1 = cache_key(b"g1", b"items", b"milk", None);
    let k2 = cache_key(b"g1", b"items", b"tea", Some(b"t"));
    let k3 = cache_key(b"g1", b"other", b"milk", None);
    let k4 = cache_key(b"g2", b"items", b"milk", None);
    cache.put(&k1, vec![b("a")]);
    cache.put(&k2, vec![b("b")]);
    cache.put(&k3, vec![b("c")]);
    cache.put(&k4, vec![b("d")]);
    let prefix = collection_search_prefix(b"g1", b"items");
    cache.invalidate_prefix(&prefix);
    assert!(cache.get(&k1).is_none());
    assert!(cache.get(&k2).is_none());
    assert_eq!(cache.get(&k3).unwrap(), &vec![b("c")]);
    assert_eq!(cache.get(&k4).unwrap(), &vec![b("d")]);
    // deleting the whole database clears every collection of it
    cache.invalidate_prefix(&database_search_prefix(b"g1"));
    assert!(cache.get(&k3).is_none());
    assert_eq!(cache.get(&k4).unwrap(), &vec![b("d")]);
}

#[test]
fn identical_misses_compute_the_same_answer() {
    let snap = snapshot("{\"one\":{\"t\":\"milk\"}}");
    let key = cache_key(b"g1", b"items", b"milk", None);
    let mut c1 = SearchCache::new();
    let mut c2 = SearchCache::new();
    let r1 = cached_search(&mut c1, &key, &snap, b"milk", None);
    let r2 = cached_search(&mut c2, &key, &snap, b"milk", None);
    assert_eq!(r1, r2);
}

#[test]
fn auth_token_strips_bearer_marker() {
    assert_eq!(get_auth_token(b"Bearer tok123"), b("tok123"));
    assert_eq!(get_auth_token(b"tok123"), b("tok123"));
    assert_eq!(get_auth_token(b""), b(""));
    // every occurrence goes, as `replace` would do
    assert_eq!(get_auth_token(b"Bearer Bearer x"), b("x"));
    // a partial marker stays
    assert_eq!(get_auth_token(b"Bearerx"), b("Bearerx"));
}
