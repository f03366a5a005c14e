use gistdb::json::JsonValue;
use gistdb::models::{api_response, parse_body};
use gistdb::store::DbError;

#[test]
fn parses_a_full_search_request() {
    let req = parse_body(
        b"{\"gist_id\":\"g1\",\"collection_name\":\"items\",\"query\":\"milk\",\"field\":\"title\"}",
    )
    .unwrap();
    assert_eq!(req.gist_id, "g1");
    assert_eq!(req.collection_name, "items");
    assert_eq!(req.query, "milk");
    assert_eq!(req.field.as_deref(), Some("title"));
}

#[test]
fn field_may_be_missing_or_null() {
    let req =
        parse_body(b"{\"gist_id\":\"g\",\"collection_name\":\"c\",\"query\":\"q\"}").unwrap();
    assert!(req.field.is_none());
    let req =
        parse_body(b"{\"gist_id\":\"g\",\"collection_name\":\"c\",\"query\":\"q\",\"field\":null}")
            .unwrap();
    assert!(req.field.is_none());
}

#[test]
fn malformed_bodies_are_bad_requests() {
    for body in [
        "not json",
        "[]",
        "{}",
        "{\"gist_id\":\"g\",\"collection_name\":\"c\"}",
        "{\"gist_id\":1,\"collection_name\":\"c\",\"query\":\"q\"}",
        "{\"gist_id\":\"g\",\"collection_name\":\"c\",\"query\":\"q\",\"field\":7}",
    ] {
        assert_eq!(
            parse_body(body.as_bytes()).unwrap_err(),
            DbError::BadRequest,
            "accepted: {body}"
        );
    }
}

#[test]
fn response_envelope_keeps_its_fields() {
    let r = api_response(201, Some(JsonValue::Bool(true)), "Object created", "");
    assert_eq!(r.status, 201);
    assert!(r.data.is_some());
    assert_eq!(r.message, "Object created");
    assert_eq!(r.error, "");
    let r = api_response(404, None, "", "Not found");
    assert_eq!(r.status, 404);
    assert!(r.data.is_none());
    assert_eq!(r.error, "Not found");
}
