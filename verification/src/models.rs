//! The request and response shapes of the store's operations. Handlers parse
//! a request body into one of these and hand it, already validated, to the
//! store; every answer goes back out as an `ApiResponse`.

use crate::json::{lemma_obj_key_idx, obj_find, obj_get, obj_has_key, view_obj, JsonVal, JsonValue};
use crate::codec::{json_parse, parse_json};
use crate::store::DbError;
use vstd::prelude::*;

verus! {

broadcast use crate::json::group_json_view;

pub struct CreateDatabaseRequest {
    pub name: String,
}

pub struct CreateCollectionRequest {
    pub gist_id: String,
    pub name: String,
}

pub struct CreateObjectRequest {
    pub gist_id: String,
    pub collection_name: String,
    pub data: JsonValue,
}

pub struct GetDatabaseRequest {
    pub _gist_id: String,
}

pub struct UpdateObjectRequest {
    pub gist_id: String,
    pub collection_name: String,
    pub object_id: String,
    pub data: JsonValue,
}

pub struct DeleteObjectRequest {
    pub gist_id: String,
    pub collection_name: String,
    pub object_id: String,
}

pub struct DeleteCollectionRequest {
    pub gist_id: String,
    pub collection_name: String,
}

pub struct DeleteDatabaseRequest {
    pub gist_id: String,
}

#[derive(Debug)]
pub struct SearchRequest {
    pub gist_id: String,
    pub collection_name: String,
    pub query: String,
    pub field: Option<String>,
}

/// The uniform response envelope.
pub struct ApiResponse {
    pub status: u16,
    pub data: Option<JsonValue>,
    pub message: String,
    pub error: String,
}

/// Builds the response envelope, field for field.
pub fn api_response(status: u16, data: Option<JsonValue>, message: &str, error: &str) -> (r:
    ApiResponse)
    ensures
        r.status == status,
        (match r.data {
            Some(v) => data matches Some(d) && v@ == d@,
            None => data is None,
        }),
        r.message@ == message@,
        r.error@ == error@,
{
    ApiResponse { status, data, message: message.to_owned(), error: error.to_owned() }
}

/// Removing every occurrence of a pattern, scanning left to right: at a
/// pattern occurrence the pattern is skipped, anywhere else one byte is kept.
pub open spec fn strip_all(s: Seq<u8>, pat: Seq<u8>) -> Seq<u8>
    decreases s.len(),
{
    if s.len() == 0 {
        s
    } else if 0 < pat.len() <= s.len() && s.subrange(0, pat.len() as int) == pat {
        strip_all(s.subrange(pat.len() as int, s.len() as int), pat)
    } else {
        seq![s[0]] + strip_all(s.subrange(1, s.len() as int), pat)
    }
}

/// The bytes of `Bearer ` (with its trailing space).
pub open spec fn bearer_prefix() -> Seq<u8> {
    seq![0x42u8, 0x65, 0x61, 0x72, 0x65, 0x72, 0x20]
}

/// The credential carried by an authorization header: the header's text with
/// every `Bearer ` marker removed.
pub fn get_auth_token(header: &[u8]) -> (r: Vec<u8>)
    ensures
        r@ == strip_all(header@, bearer_prefix()),
{
    let mut out: Vec<u8> = Vec::new();
    let mut i: usize = 0;
    proof {
        assert(header@.subrange(0, header@.len() as int) =~= header@);
        assert(out@ + strip_all(header@, bearer_prefix()) =~= strip_all(header@, bearer_prefix()));
    }
    while i < header.len()
        invariant
            i <= header.len(),
            out@ + strip_all(header@.subrange(i as int, header@.len() as int), bearer_prefix())
                == strip_all(header@, bearer_prefix()),
        decreases header.len() - i,
    {
        let ghost rest = header@.subrange(i as int, header@.len() as int);
        if header.len() - i >= 7 && header[i] == 0x42 && header[i + 1] == 0x65 && header[i + 2]
            == 0x61 && header[i + 3] == 0x72 && header[i + 4] == 0x65 && header[i + 5] == 0x72
            && header[i + 6] == 0x20 {
            proof {
                assert(rest.subrange(0, 7) =~= bearer_prefix());
                assert(rest.subrange(7, rest.len() as int) =~= header@.subrange(
                    i + 7,
                    header@.len() as int,
                ));
            }
            i = i + 7;
        } else {
            proof {
                if rest.len() >= 7 {
                    assert forall|mq: int| 0 <= mq < 7 implies rest.subrange(0, 7)[mq] == header@[i
                        + mq] by {}
                    assert(rest.subrange(0, 7) != bearer_prefix()) by {
                        if rest.subrange(0, 7) == bearer_prefix() {
                            assert(rest.subrange(0, 7)[0] == 0x42 && rest.subrange(0, 7)[1] == 0x65
                                && rest.subrange(0, 7)[2] == 0x61 && rest.subrange(0, 7)[3] == 0x72
                                && rest.subrange(0, 7)[4] == 0x65 && rest.subrange(0, 7)[5] == 0x72
                                && rest.subrange(0, 7)[6] == 0x20);
                        }
                    }
                }
                assert(rest[0] == header@[i as int]);
                assert(rest.subrange(1, rest.len() as int) =~= header@.subrange(
                    i + 1,
                    header@.len() as int,
                ));
            }
            let ghost preout = out@;
            out.push(header[i]);
            proof {
                assert(preout + (seq![header@[i as int]] + strip_all(
                    header@.subrange(i + 1, header@.len() as int),
                    bearer_prefix(),
                )) =~= out@ + strip_all(
                    header@.subrange(i + 1, header@.len() as int),
                    bearer_prefix(),
                ));
            }
            i = i + 1;
        }
    }
    proof {
        assert(strip_all(header@.subrange(header@.len() as int, header@.len() as int),
            bearer_prefix()) =~= Seq::<u8>::empty());
        assert(out@ + Seq::<u8>::empty() =~= out@);
    }
    out
}

// ---------------------------------------------------------------------------
// Decoding a search request's body
// ---------------------------------------------------------------------------
/// Relies on String::from_utf8: accepted exactly when the bytes are valid
/// UTF-8, and the string's characters are then their decoding.
#[verifier::external_body]
fn string_from_utf8(v: Vec<u8>) -> (r: Option<String>)
    ensures
        match r {
            Some(s) => vstd::utf8::valid_utf8(v@) && s@ == vstd::utf8::decode_utf8(v@),
            None => !vstd::utf8::valid_utf8(v@),
        },
{
    String::from_utf8(v).ok()
}

/// The bytes of `gist_id`.
pub open spec fn gist_id_key() -> Seq<u8> {
    seq![0x67u8, 0x69, 0x73, 0x74, 0x5f, 0x69, 0x64]
}

/// The bytes of `collection_name`.
pub open spec fn collection_name_key() -> Seq<u8> {
    seq![0x63u8, 0x6f, 0x6c, 0x6c, 0x65, 0x63, 0x74, 0x69, 0x6f, 0x6e, 0x5f, 0x6e, 0x61, 0x6d,
        0x65]
}

/// The bytes of `query`.
pub open spec fn query_key() -> Seq<u8> {
    seq![0x71u8, 0x75, 0x65, 0x72, 0x79]
}

/// The bytes of `field`.
pub open spec fn field_key() -> Seq<u8> {
    seq![0x66u8, 0x69, 0x65, 0x6c, 0x64]
}

/// A member's string value, when the member is there and holds a string.
pub open spec fn str_field(m: Seq<(Seq<u8>, JsonVal)>, key: Seq<u8>) -> Option<Seq<u8>> {
    if obj_has_key(m, key) {
        match obj_get(m, key) {
            JsonVal::Str(s) => Some(s),
            _ => None,
        }
    } else {
        None
    }
}

/// A member's text, when it is a string of valid UTF-8.
pub open spec fn utf8_field(m: Seq<(Seq<u8>, JsonVal)>, key: Seq<u8>) -> Option<Seq<char>> {
    match str_field(m, key) {
        Some(s) => if vstd::utf8::valid_utf8(s) {
            Some(vstd::utf8::decode_utf8(s))
        } else {
            None
        },
        None => None,
    }
}

/// What a search request's body must hold: an object with UTF-8 string
/// members `gist_id`, `collection_name` and `query`, and a `field` member
/// that, if present, is null or a UTF-8 string.
pub open spec fn is_search_request(v: JsonVal) -> bool {
    match v {
        JsonVal::Obj(m) => {
            &&& utf8_field(m, gist_id_key()) is Some
            &&& utf8_field(m, collection_name_key()) is Some
            &&& utf8_field(m, query_key()) is Some
            &&& (!obj_has_key(m, field_key()) || obj_get(m, field_key()) is Null || utf8_field(
                m,
                field_key(),
            ) is Some)
        },
        _ => false,
    }
}

/// Decodes a search request from a request body: a bad request exactly when
/// the body is not a JSON object of the expected shape.
#[verifier::rlimit(100)]
pub fn parse_body(body: &[u8]) -> (r: Result<SearchRequest, DbError>)
    ensures
        match r {
            Ok(req) => json_parse(body@) matches Some(v) && is_search_request(v) && (
            match v {
                JsonVal::Obj(m) => {
                    &&& req.gist_id@ == utf8_field(m, gist_id_key()).unwrap()
                    &&& req.collection_name@ == utf8_field(m, collection_name_key()).unwrap()
                    &&& req.query@ == utf8_field(m, query_key()).unwrap()
                    &&& (match req.field {
                        Some(f) => utf8_field(m, field_key()) == Some(f@),
                        None => !obj_has_key(m, field_key()) || obj_get(m, field_key()) is Null,
                    })
                },
                _ => false,
            }),
            Err(e) => e == DbError::BadRequest && !(json_parse(body@) matches Some(v)
                && is_search_request(v)),
        },
{
    let parsed = match parse_json(body) {
        Some(v) => v,
        None => {
            return Err(DbError::BadRequest);
        },
    };
    proof {
        crate::roundtrip::lemma_parse_wf(body@);
    }
    let ghost pv = parsed@;
    match parsed {
        JsonValue::Obj(pairs) => {
            let ghost m = view_obj(pairs@);
            proof {
                assert(pv == JsonVal::Obj(m));
                assert(crate::json::wf(pv));
                assert(crate::json::obj_keys_unique(m));
            }
            let gist_id = match take_string_member(&pairs, &[
                0x67, 0x69, 0x73, 0x74, 0x5f, 0x69, 0x64,
            ]) {
                Some(s) => s,
                None => {
                    return Err(DbError::BadRequest);
                },
            };
            let collection_name = match take_string_member(&pairs, &[
                0x63, 0x6f, 0x6c, 0x6c, 0x65, 0x63, 0x74, 0x69, 0x6f, 0x6e, 0x5f, 0x6e, 0x61,
                0x6d, 0x65,
            ]) {
                Some(s) => s,
                None => {
                    return Err(DbError::BadRequest);
                },
            };
            let query = match take_string_member(&pairs, &[0x71, 0x75, 0x65, 0x72, 0x79]) {
                Some(s) => s,
                None => {
                    return Err(DbError::BadRequest);
                },
            };
            let fkey: [u8; 5] = [0x66, 0x69, 0x65, 0x6c, 0x64];
            let field: Option<String> = match obj_find(&pairs, &fkey) {
                None => {
                    proof {
                        assert forall|jj: int| 0 <= jj < m.len() implies m[jj].0 != field_key() by {
                            assert(m[jj].0 == pairs@[jj].0@);
                        }
                    }
                    None
                },
                Some(idx) => {
                    proof {
                        assert(m[idx as int].0 == field_key());
                        lemma_obj_key_idx(m, field_key(), idx as int);
                        assert(obj_get(m, field_key()) == pairs@[idx as int].1@);
                    }
                    match &pairs[idx].1 {
                        JsonValue::Null => None,
                        JsonValue::Str(s) => {
                            match string_from_utf8(vstd::slice::slice_to_vec(s.as_slice())) {
                                Some(text) => Some(text),
                                None => {
                                    return Err(DbError::BadRequest);
                                },
                            }
                        },
                        _ => {
                            return Err(DbError::BadRequest);
                        },
                    }
                },
            };
            Ok(SearchRequest { gist_id, collection_name, query, field })
        },
        _ => Err(DbError::BadRequest),
    }
}

/// A member's text out of an object's entries: present, a string, valid
/// UTF-8.
fn take_string_member(pairs: &Vec<(Vec<u8>, JsonValue)>, key: &[u8]) -> (r: Option<String>)
    requires
        crate::json::obj_keys_unique(view_obj(pairs@)),
    ensures
        match r {
            Some(s) => utf8_field(view_obj(pairs@), key@) == Some(s@),
            None => utf8_field(view_obj(pairs@), key@) is None,
        },
{
    proof {
        broadcast use crate::json::group_json_view;

    }
    let ghost m = view_obj(pairs@);
    match obj_find(pairs, key) {
        None => {
            proof {
                assert forall|jj: int| 0 <= jj < m.len() implies m[jj].0 != key@ by {
                    assert(m[jj].0 == pairs@[jj].0@);
                }
                assert(!obj_has_key(m, key@));
            }
            None
        },
        Some(idx) => {
            proof {
                assert(m[idx as int].0 == key@);
                lemma_obj_key_idx(m, key@, idx as int);
                assert(obj_get(m, key@) == pairs@[idx as int].1@);
            }
            match &pairs[idx].1 {
                JsonValue::Str(s) => string_from_utf8(vstd::slice::slice_to_vec(s.as_slice())),
                _ => None,
            }
        },
    }
}

} // verus!
