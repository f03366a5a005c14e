use gistdb::codec::{encode_json, parse_json};
use gistdb::json::JsonValue;
use gistdb::store::{
    apply_patch, collection_filename, container_of_response, create_collection, create_object,
    delete_collection, delete_object, file_chunk, get_collection, get_database_dump, get_gist_file,
    new_database_container, update_object, Container, DbError,
};

fn b(x: &str) -> Vec<u8> {
    x.as_bytes().to_vec()
}

fn enc(v: &JsonValue) -> String {
    String::from_utf8(encode_json(v)).unwrap()
}

fn notes_container() -> Container {
    new_database_container(b"items".as_slice())
}

fn collection_text(c: &Container, name: &str) -> String {
    let v = get_collection(c, name.as_bytes()).unwrap();
    enc(&v)
}

#[test]
fn filename_gets_json_suffix() {
    assert_eq!(collection_filename(b"items"), b"items.json".to_vec());
}

#[test]
fn new_database_holds_one_empty_collection() {
    let c = notes_container();
    assert_eq!(c.description, b("items"));
    assert_eq!(c.files.len(), 1);
    assert_eq!(c.files[0].0, b("items.json"));
    assert_eq!(c.files[0].1, b("{}"));
}

#[test]
fn create_collection_conflicts_on_existing_name() {
    let c = notes_container();
    match create_collection(&c, b"items") {
        Err(e) => assert_eq!(e, DbError::Conflict),
        Ok(_) => panic!("expected a conflict"),
    }
}

#[test]
fn create_collection_fresh_name_writes_empty_object() {
    let c = notes_container();
    let p = create_collection(&c, b"archive").unwrap();
    assert_eq!(p.filename, b("archive.json"));
    assert_eq!(p.content.as_ref().unwrap(), &b("{}"));
    assert_eq!(p.description, c.description);
    let c2 = apply_patch(&c, &p);
    assert_eq!(collection_text(&c2, "archive"), "{}");
    // the collection that was already there is untouched
    assert_eq!(collection_text(&c2, "items"), "{}");
}

#[test]
fn get_collection_absent_is_not_found() {
    let c = notes_container();
    assert_eq!(get_collection(&c, b"nope").unwrap_err(), DbError::NotFound);
}

#[test]
fn create_object_then_read_back() {
    let c = notes_container();
    let v = parse_json(b"{\"title\":\"buy milk\"}").unwrap();
    let p = create_object(&c, b"items", b"id-1", v).unwrap();
    let c2 = apply_patch(&c, &p);
    assert_eq!(
        collection_text(&c2, "items"),
        "{\"id-1\":{\"title\":\"buy milk\"}}"
    );
}

#[test]
fn create_object_missing_collection_is_not_found() {
    let c = notes_container();
    let v = parse_json(b"1").unwrap();
    assert_eq!(
        create_object(&c, b"other", b"id-1", v).unwrap_err(),
        DbError::NotFound
    );
}

#[test]
fn create_object_corrupt_file_fails_fast() {
    let mut c = notes_container();
    c.files[0].1 = b("not json at all");
    let v = parse_json(b"1").unwrap();
    assert_eq!(
        create_object(&c, b"items", b"id-1", v).unwrap_err(),
        DbError::DecodeFailure
    );
}

#[test]
fn update_replaces_wholesale() {
    // update a nonexistent object: NotFound; then insert {"x":1} and replace
    // it with {"y":2}: the stored value is exactly {"y":2}, never merged.
    let c = notes_container();
    let v1 = parse_json(b"{\"x\":1}").unwrap();
    assert_eq!(
        update_object(&c, b"items", b"id-9", v1).unwrap_err(),
        DbError::NotFound
    );
    let v1 = parse_json(b"{\"x\":1}").unwrap();
    let c2 = apply_patch(&c, &create_object(&c, b"items", b"id-9", v1).unwrap());
    assert_eq!(collection_text(&c2, "items"), "{\"id-9\":{\"x\":1}}");
    let v2 = parse_json(b"{\"y\":2}").unwrap();
    let c3 = apply_patch(&c2, &update_object(&c2, b"items", b"id-9", v2).unwrap());
    assert_eq!(collection_text(&c3, "items"), "{\"id-9\":{\"y\":2}}");
}

#[test]
fn update_keeps_other_objects() {
    let c = notes_container();
    let c = apply_patch(
        &c,
        &create_object(&c, b"items", b"a", parse_json(b"1").unwrap()).unwrap(),
    );
    let c = apply_patch(
        &c,
        &create_object(&c, b"items", b"z", parse_json(b"2").unwrap()).unwrap(),
    );
    let c = apply_patch(
        &c,
        &update_object(&c, b"items", b"a", parse_json(b"3").unwrap()).unwrap(),
    );
    assert_eq!(collection_text(&c, "items"), "{\"a\":3,\"z\":2}");
}

#[test]
fn delete_object_removes_and_absent_is_not_found() {
    let c = notes_container();
    let c = apply_patch(
        &c,
        &create_object(&c, b"items", b"a", parse_json(b"1").unwrap()).unwrap(),
    );
    let c = apply_patch(&c, &delete_object(&c, b"items", b"a").unwrap());
    assert_eq!(collection_text(&c, "items"), "{}");
    assert_eq!(
        delete_object(&c, b"items", b"a").unwrap_err(),
        DbError::NotFound
    );
}

#[test]
fn delete_collection_marks_file_deleted() {
    let c = notes_container();
    let p = delete_collection(&c, b"items").unwrap();
    assert!(p.content.is_none());
    let c2 = apply_patch(&c, &p);
    assert_eq!(
        get_collection(&c2, b"items").unwrap_err(),
        DbError::NotFound
    );
    assert_eq!(
        delete_collection(&c2, b"items").unwrap_err(),
        DbError::NotFound
    );
}

#[test]
fn dump_degrades_bad_files_to_null() {
    let mut c = notes_container();
    c.files.push((b("broken.json"), b("{oops")));
    let dump = get_database_dump(&c);
    assert_eq!(enc(&dump), "{\"items.json\":{},\"broken.json\":null}");
}

#[test]
fn description_is_preserved_by_every_mutation() {
    let c = notes_container();
    let p1 = create_collection(&c, b"extra").unwrap();
    assert_eq!(p1.description, b("items"));
    let p2 = create_object(&c, b"items", b"a", parse_json(b"1").unwrap()).unwrap();
    assert_eq!(p2.description, b("items"));
    let p3 = delete_collection(&c, b"items").unwrap();
    assert_eq!(p3.description, b("items"));
}

#[test]
fn error_statuses_and_messages() {
    assert_eq!(DbError::BadRequest.status(), 400);
    assert_eq!(DbError::Unauthorized.status(), 401);
    assert_eq!(DbError::NotFound.status(), 404);
    assert_eq!(DbError::Conflict.status(), 409);
    assert_eq!(DbError::UpstreamFailure.status(), 500);
    assert_eq!(DbError::DecodeFailure.status(), 500);
    assert_eq!(DbError::Conflict.message(), "Collection already exists");
    assert_eq!(DbError::Unauthorized.message(), "Authorization header required");
}

#[test]
fn response_decoding_reads_description_and_files() {
    let reply = parse_json(
        b"{\"description\":\"Notes\",\"files\":{\"items.json\":{\"content\":\"{}\",\"size\":2},\"a.json\":{\"content\":\"{\\\"k\\\":1}\"}}}",
    )
    .unwrap();
    let c = container_of_response(&reply);
    assert_eq!(c.description, b("Notes"));
    assert_eq!(c.files.len(), 2);
    assert_eq!(c.files[0].0, b("items.json"));
    assert_eq!(c.files[0].1, b("{}"));
    assert_eq!(c.files[1].0, b("a.json"));
    assert_eq!(c.files[1].1, b("{\"k\":1}"));
}

#[test]
fn response_decoding_falls_back() {
    // a missing or non-string description falls back; a file without a
    // string content reads as the empty object; no files object, no files.
    let reply = parse_json(b"{\"files\":{\"x.json\":{\"truncated\":false}}}").unwrap();
    let c = container_of_response(&reply);
    assert_eq!(c.description, b("GistDB Database"));
    assert_eq!(c.files.len(), 1);
    assert_eq!(c.files[0].1, b("{}"));

    let reply = parse_json(b"{\"description\":null}").unwrap();
    let c = container_of_response(&reply);
    assert_eq!(c.description, b("GistDB Database"));
    assert!(c.files.is_empty());
}

#[test]
fn file_chunks_window_the_content() {
    assert_eq!(file_chunk("abcdefgh", 1, 3), "abc");
    assert_eq!(file_chunk("abcdefgh", 2, 3), "def");
    assert_eq!(file_chunk("abcdefgh", 3, 3), "gh");
    assert_eq!(file_chunk("abcdefgh", 4, 3), "");
}

#[test]
fn file_chunks_count_characters_not_bytes() {
    // a two-byte character fills one slot and is never split
    assert_eq!(file_chunk("h\u{e9}llo", 1, 2), "h\u{e9}");
    assert_eq!(file_chunk("h\u{e9}llo", 2, 2), "ll");
    assert_eq!(file_chunk("\u{20ac}\u{20ac}x", 1, 1), "\u{20ac}");
}

#[test]
fn gist_file_read_is_strict() {
    let reply = parse_json(
        b"{\"files\":{\"items.json\":{\"content\":\"{}\"},\"odd.json\":{\"truncated\":true}}}",
    )
    .unwrap();
    assert_eq!(get_gist_file(&reply, b"items.json").unwrap(), b("{}"));
    // a present file without a string content is an error here, unlike the
    // store's read paths, which assume the empty object
    assert_eq!(
        get_gist_file(&reply, b"odd.json").unwrap_err(),
        DbError::NotFound
    );
    assert_eq!(
        get_gist_file(&reply, b"missing.json").unwrap_err(),
        DbError::NotFound
    );
    let no_files = parse_json(b"{}").unwrap();
    assert_eq!(
        get_gist_file(&no_files, b"items.json").unwrap_err(),
        DbError::NotFound
    );
}
