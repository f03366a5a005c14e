use gistdb::codec::{encode_json, parse_json};
use gistdb::index::SparseIndex;
use gistdb::json::JsonValue;

fn pairs_of(text: &str) -> Vec<(Vec<u8>, JsonValue)> {
    match parse_json(text.as_bytes()).unwrap() {
        JsonValue::Obj(pairs) => pairs,
        _ => panic!("snapshot must be an object"),
    }
}

fn enc(v: &JsonValue) -> String {
    String::from_utf8(encode_json(v)).unwrap()
}

#[test]
fn samples_every_nth_entry_with_the_field() {
    let data = pairs_of(
        "{\"a\":{\"t\":\"x\"},\"b\":{\"t\":\"y\"},\"c\":{\"t\":\"z\"},\"d\":{\"t\":\"w\"},\"e\":{\"u\":1}}",
    );
    let mut idx = SparseIndex::new(2);
    let sample = idx.create_index(&data, b"t");
    // entries at counters 0 and 2 carry the field; counter 4 does not.
    assert_eq!(enc(&JsonValue::Obj(sample)), "{\"a\":\"x\",\"c\":\"z\"}");
}

#[test]
fn granularity_one_samples_everything_with_the_field() {
    let data = pairs_of("{\"a\":{\"t\":\"x\"},\"b\":{\"n\":1},\"c\":{\"t\":\"y\"}}");
    let mut idx = SparseIndex::new(1);
    let sample = idx.create_index(&data, b"t");
    assert_eq!(enc(&JsonValue::Obj(sample)), "{\"a\":\"x\",\"c\":\"y\"}");
}

#[test]
fn sampled_values_are_always_acknowledged() {
    let data = pairs_of("{\"a\":{\"t\":\"milk\"},\"b\":{\"t\":\"tea\"},\"c\":{\"t\":\"rum\"}}");
    let mut idx = SparseIndex::new(1);
    idx.create_index(&data, b"t");
    // no false negatives against the sample
    assert!(idx.exists_in_index(b"t", b"milk"));
    assert!(idx.exists_in_index(b"t", b"tea"));
    assert!(idx.exists_in_index(b"t", b"rum"));
}

#[test]
fn unindexed_field_answers_false() {
    let data = pairs_of("{\"a\":{\"t\":\"milk\"}}");
    let mut idx = SparseIndex::new(1);
    idx.create_index(&data, b"t");
    assert!(!idx.exists_in_index(b"other", b"milk"));
    let fresh = SparseIndex::new(1);
    assert!(!fresh.exists_in_index(b"t", b"milk"));
}

#[test]
fn rebuilding_keeps_earlier_samples() {
    let mut idx = SparseIndex::new(1);
    let first = pairs_of("{\"a\":{\"t\":\"milk\"}}");
    idx.create_index(&first, b"t");
    let second = pairs_of("{\"b\":{\"t\":\"tea\"}}");
    idx.create_index(&second, b"t");
    assert!(idx.exists_in_index(b"t", b"milk"));
    assert!(idx.exists_in_index(b"t", b"tea"));
}

#[test]
fn only_string_values_feed_the_filter() {
    // non-string sampled values are recorded in the sample map but the filter
    // only learns strings; a never-inserted probe on a small filter is
    // overwhelmingly reported absent, but that is probabilistic, so assert
    // only the guaranteed direction here.
    let data = pairs_of("{\"a\":{\"t\":42},\"b\":{\"t\":\"real\"}}");
    let mut idx = SparseIndex::new(1);
    let sample = idx.create_index(&data, b"t");
    assert_eq!(enc(&JsonValue::Obj(sample)), "{\"a\":42,\"b\":\"real\"}");
    assert!(idx.exists_in_index(b"t", b"real"));
}
