use gistdb::codec::parse_json;
use gistdb::json::JsonValue;
use gistdb::search::{contains_sub, json_contains, matches_query, search_json};
use gistdb::cache::{cache_key, cached_search, collection_search_prefix, SearchCache};
use gistdb::store::{apply_patch, create_object, delete_object, get_collection, new_database_container};

fn b(x: &str) -> Vec<u8> {
    x.as_bytes().to_vec()
}

fn snapshot(text: &str) -> JsonValue {
    parse_json(text.as_bytes()).unwrap()
}

fn ids(r: &[Vec<u8>]) -> Vec<String> {
    r.iter().map(|x| String::from_utf8(x.clone()).unwrap()).collect()
}

#[test]
fn substring_search_on_bytes() {
    assert!(contains_sub(b"buy milk", b"milk"));
    assert!(contains_sub(b"buy milk", b""));
    assert!(!contains_sub(b"buy milk", b"Milk"));
    assert!(!contains_sub(b"mil", b"milk"));
}

#[test]
fn contains_descends_through_arrays_and_objects() {
    let v = snapshot("{\"a\":[{\"b\":[\"deep milk\"]}]}");
    assert!(json_contains(&v, b"milk"));
    assert!(!json_contains(&v, b"tea"));
}

#[test]
fn non_string_leaves_never_match() {
    let v = snapshot("{\"n\":12345,\"t\":true,\"z\":null}");
    assert!(!json_contains(&v, b"123"));
    assert!(!json_contains(&v, b"true"));
    assert!(!json_contains(&v, b"null"));
}

#[test]
fn field_match_needs_string_field() {
    let v = snapshot("{\"title\":\"buy milk\",\"count\":3}");
    assert!(matches_query(&v, b"milk", Some(b"title")));
    assert!(!matches_query(&v, b"milk", Some(b"count")));
    assert!(!matches_query(&v, b"milk", Some(b"missing")));
    assert!(matches_query(&v, b"milk", None));
}

#[test]
fn search_returns_matches_in_snapshot_order() {
    let snap = snapshot(
        "{\"one\":{\"t\":\"milk here\"},\"two\":{\"t\":\"tea\"},\"three\":[\"milky\"],\"four\":\"milk\"}",
    );
    let r = search_json(&snap, b"milk", None);
    assert_eq!(ids(&r), vec!["one", "three", "four"]);
}

#[test]
fn search_with_field_narrows() {
    let snap = snapshot(
        "{\"one\":{\"t\":\"milk\"},\"two\":{\"u\":\"milk\"},\"three\":{\"t\":\"water\"}}",
    );
    let r = search_json(&snap, b"milk", Some(b"t"));
    assert_eq!(ids(&r), vec!["one"]);
}

#[test]
fn empty_query_matches_any_object_with_a_string() {
    let snap = snapshot("{\"one\":{\"t\":\"\"},\"two\":{\"n\":5},\"three\":\"x\"}");
    let r = search_json(&snap, b"", None);
    assert_eq!(ids(&r), vec!["one", "three"]);
}

#[test]
fn search_of_non_object_snapshot_is_empty() {
    let snap = snapshot("[\"milk\"]");
    assert!(search_json(&snap, b"milk", None).is_empty());
}

#[test]
fn repeated_searches_agree() {
    let snap = snapshot("{\"a\":{\"t\":\"foo bar\"},\"b\":{\"t\":\"foo\"}}");
    let r1 = search_json(&snap, b"foo", None);
    let r2 = search_json(&snap, b"foo", None);
    let r3 = search_json(&snap, b"foo", None);
    assert_eq!(r1, r2);
    assert_eq!(r2, r3);
}

#[test]
fn create_search_delete_scenario() {
    // create database "Notes" with collection "items", insert an object,
    // find it by substring through the cache, delete it — which invalidates
    // the collection's cached searches — and find nothing afterwards.
    let notes = {
        let mut c = new_database_container(b"items");
        c.description = b("Notes");
        c
    };
    let mut cache = SearchCache::new();
    let key = cache_key(b"gist-0", b"items", b"milk", None);
    let v = parse_json(b"{\"title\":\"buy milk\"}").unwrap();
    let object_id = b("generated-id-0001");
    let c = apply_patch(
        &notes,
        &create_object(&notes, b"items", &object_id, v).unwrap(),
    );
    cache.invalidate_prefix(&collection_search_prefix(b"gist-0", b"items"));
    let snap = get_collection(&c, b"items").unwrap();
    let found = cached_search(&mut cache, &key, &snap, b"milk", None);
    assert_eq!(found, vec![object_id.clone()]);
    let c = apply_patch(&c, &delete_object(&c, b"items", &object_id).unwrap());
    cache.invalidate_prefix(&collection_search_prefix(b"gist-0", b"items"));
    let snap = get_collection(&c, b"items").unwrap();
    let found = cached_search(&mut cache, &key, &snap, b"milk", None);
    assert!(found.is_empty());
    // the plain engine agrees with the cached path
    assert!(search_json(&snap, b"milk", None).is_empty());
}
