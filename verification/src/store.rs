//! The document store: databases, collections and objects mapped onto a
//! remote blob container with named text files.
//!
//! Every mutation follows the read-modify-write protocol: the caller fetches
//! the whole container, one of these functions decodes the collection's file,
//! performs the change in memory, re-encodes the complete map, and hands back
//! a patch that rewrites the whole file with the container's description
//! preserved. Two concurrent writers race on the remote file and the last
//! write wins in full; nothing here detects that, by design.

use crate::codec::{encode_json, json_parse, parse_json, ser};
use crate::json::{
    lemma_obj_key_idx, lemma_obj_remove, lemma_obj_set, obj_del, obj_find, obj_get, obj_has_key,
    obj_keys_unique, obj_put, obj_remove, obj_set, view_obj, wf, JsonVal, JsonValue,
};
use vstd::prelude::*;
use vstd::string::StrSliceExecFns;

verus! {

broadcast use crate::json::group_json_view;

// ---------------------------------------------------------------------------
// Errors
// ---------------------------------------------------------------------------
/// The classified failures of the store.
#[derive(Clone, Copy, PartialEq, Eq, Structural, Debug)]
pub enum DbError {
    /// Malformed or missing required input.
    BadRequest,
    /// Missing or invalid credential.
    Unauthorized,
    /// Database, collection or object absent.
    NotFound,
    /// The collection already exists.
    Conflict,
    /// The blob-store call failed or returned an unusable reply.
    UpstreamFailure,
    /// A stored file is not valid JSON where a write path must parse it
    /// before mutating: corrupted content is never silently overwritten.
    DecodeFailure,
}

impl DbError {
    /// The HTTP status a handler reports for this failure.
    pub fn status(&self) -> (r: u16)
        ensures
            r == match self {
                DbError::BadRequest => 400u16,
                DbError::Unauthorized => 401u16,
                DbError::NotFound => 404u16,
                DbError::Conflict => 409u16,
                DbError::UpstreamFailure => 500u16,
                DbError::DecodeFailure => 500u16,
            },
    {
        match self {
            DbError::BadRequest => 400,
            DbError::Unauthorized => 401,
            DbError::NotFound => 404,
            DbError::Conflict => 409,
            DbError::UpstreamFailure => 500,
            DbError::DecodeFailure => 500,
        }
    }

    /// The human-readable message a handler reports for this failure.
    pub fn message(&self) -> (r: &'static str)
        ensures
            self is BadRequest ==> r@ == "Invalid request body"@,
            self is Unauthorized ==> r@ == "Authorization header required"@,
            self is NotFound ==> r@ == "Not found"@,
            self is Conflict ==> r@ == "Collection already exists"@,
            self is UpstreamFailure ==> r@ == "Upstream request failed"@,
            self is DecodeFailure ==> r@ == "Stored content is not valid JSON"@,
    {
        match self {
            DbError::BadRequest => "Invalid request body",
            DbError::Unauthorized => "Authorization header required",
            DbError::NotFound => "Not found",
            DbError::Conflict => "Collection already exists",
            DbError::UpstreamFailure => "Upstream request failed",
            DbError::DecodeFailure => "Stored content is not valid JSON",
        }
    }
}

// ---------------------------------------------------------------------------
// The container model
// ---------------------------------------------------------------------------
/// The collection's backing file: its name with the `.json` suffix.
pub open spec fn filename_of(name: Seq<u8>) -> Seq<u8> {
    name + seq![0x2e, 0x6a, 0x73, 0x6f, 0x6e]
}

/// Appends the `.json` suffix that names a collection's backing file inside
/// its database's container.
pub fn collection_filename(name: &[u8]) -> (r: Vec<u8>)
    ensures
        r@ == filename_of(name@),
{
    let mut out: Vec<u8> = vstd::slice::slice_to_vec(name);
    out.push(0x2e);
    out.push(0x6a);
    out.push(0x73);
    out.push(0x6f);
    out.push(0x6e);
    proof {
        assert(out@ =~= filename_of(name@));
    }
    out
}

/// A snapshot of one remote container: its description and its named text
/// files, one per collection.
#[derive(Debug)]
pub struct Container {
    pub description: Vec<u8>,
    pub files: Vec<(Vec<u8>, Vec<u8>)>,
}

/// The model of the file list: names and contents as byte sequences.
pub open spec fn view_files(files: Seq<(Vec<u8>, Vec<u8>)>) -> Seq<(Seq<u8>, Seq<u8>)>
    decreases files,
{
    if files.len() == 0 {
        Seq::empty()
    } else {
        view_files(files.subrange(0, files.len() - 1)).push(
            (files[files.len() - 1].0@, files[files.len() - 1].1@),
        )
    }
}

pub broadcast proof fn lemma_view_files_len(files: Seq<(Vec<u8>, Vec<u8>)>)
    ensures
        #[trigger] view_files(files).len() == files.len(),
    decreases files,
{
    if files.len() > 0 {
        lemma_view_files_len(files.subrange(0, files.len() - 1));
        assert(view_files(files) == view_files(files.subrange(0, files.len() - 1)).push(
            (files[files.len() - 1].0@, files[files.len() - 1].1@),
        ));
    } else {
        assert(view_files(files) == Seq::<(Seq<u8>, Seq<u8>)>::empty());
    }
}

pub broadcast proof fn lemma_view_files_index(files: Seq<(Vec<u8>, Vec<u8>)>, i: int)
    requires
        0 <= i < files.len(),
    ensures
        #[trigger] view_files(files)[i] == (files[i].0@, files[i].1@),
    decreases files,
{
    lemma_view_files_len(files);
    lemma_view_files_len(files.subrange(0, files.len() - 1));
    assert(view_files(files) == view_files(files.subrange(0, files.len() - 1)).push(
        (files[files.len() - 1].0@, files[files.len() - 1].1@),
    ));
    if i < files.len() - 1 {
        lemma_view_files_index(files.subrange(0, files.len() - 1), i);
        assert(files.subrange(0, files.len() - 1)[i] == files[i]);
    }
}

pub broadcast group group_files_view {
    lemma_view_files_len,
    lemma_view_files_index,
}

/// A container is well formed when its file names are pairwise distinct.
pub open spec fn container_wf(c: Container) -> bool {
    obj_keys_unique(view_files(c.files@))
}

/// One write against the remote container: the description to send back and
/// one file either rewritten in full or deleted (`None`).
#[derive(Debug)]
pub struct Patch {
    pub description: Vec<u8>,
    pub filename: Vec<u8>,
    pub content: Option<Vec<u8>>,
}

pub open spec fn content_view(p: Patch) -> Option<Seq<u8>> {
    match p.content {
        Some(t) => Some(t@),
        None => None,
    }
}

/// What the remote store does with a patch: a file is replaced in full or
/// created; a `None` content deletes it.
pub open spec fn patched_files(
    files: Seq<(Seq<u8>, Seq<u8>)>,
    name: Seq<u8>,
    content: Option<Seq<u8>>,
) -> Seq<(Seq<u8>, Seq<u8>)> {
    match content {
        Some(t) => obj_set(files, name, t),
        None => obj_remove(files, name),
    }
}

/// The remote store's application of a patch, as an in-memory model: used by
/// tests and by an in-process backing store.
pub fn apply_patch(c: &Container, p: &Patch) -> (r: Container)
    requires
        container_wf(*c),
    ensures
        r.description@ == p.description@,
        view_files(r.files@) == patched_files(view_files(c.files@), p.filename@, content_view(*p)),
        container_wf(r),
{
    proof {
        broadcast use group_files_view;

    }
    let ghost oldv = view_files(c.files@);
    let mut files: Vec<(Vec<u8>, Vec<u8>)> = Vec::new();
    let mut i: usize = 0;
    while i < c.files.len()
        invariant
            i <= c.files.len(),
            files@.len() == i,
            forall|j: int|
                0 <= j < i ==> files@[j].0@ == c.files@[j].0@ && files@[j].1@ == c.files@[j].1@,
        decreases c.files.len() - i,
    {
        let name = vstd::slice::slice_to_vec(c.files[i].0.as_slice());
        let content = vstd::slice::slice_to_vec(c.files[i].1.as_slice());
        files.push((name, content));
        i = i + 1;
    }
    proof {
        broadcast use group_files_view;

        assert(view_files(files@) =~= oldv);
    }
    match &p.content {
        Some(t) => {
            files_put(&mut files, p.filename.as_slice(), vstd::slice::slice_to_vec(t.as_slice()));
        },
        None => {
            files_del(&mut files, p.filename.as_slice());
        },
    }
    Container { description: vstd::slice::slice_to_vec(p.description.as_slice()), files }
}

/// Insert-or-replace among the container's files.
fn files_put(files: &mut Vec<(Vec<u8>, Vec<u8>)>, name: &[u8], content: Vec<u8>)
    requires
        obj_keys_unique(view_files(old(files)@)),
    ensures
        view_files(final(files)@) == obj_set(view_files(old(files)@), name@, content@),
        obj_keys_unique(view_files(final(files)@)),
{
    proof {
        broadcast use group_files_view;

    }
    let ghost accq = files@;
    let ghost accv = view_files(files@);
    let ghost cv = content@;
    match obj_find(files, name) {
        Some(idx) => {
            proof {
                assert(accv[idx as int].0 == name@);
                lemma_obj_key_idx(accv, name@, idx as int);
                assert(obj_has_key(accv, name@));
            }
            let key = vstd::slice::slice_to_vec(name);
            files[idx] = (key, content);
            proof {
                assert(files@ == accq.update(idx as int, files@[idx as int]));
                assert(files@[idx as int].0@ == name@ && files@[idx as int].1@ == cv);
                assert(view_files(files@) =~= accv.update(idx as int, (name@, cv)));
                assert(view_files(files@) == obj_set(accv, name@, cv));
            }
        },
        None => {
            proof {
                assert forall|jj: int| 0 <= jj < accv.len() implies accv[jj].0 != name@ by {
                    assert(accv[jj].0 == accq[jj].0@);
                }
                assert(!obj_has_key(accv, name@));
            }
            let key = vstd::slice::slice_to_vec(name);
            files.push((key, content));
            proof {
                assert(files@ == accq.push(files@[files@.len() - 1]));
                assert(view_files(files@) =~= accv.push((name@, cv)));
                assert(view_files(files@) == obj_set(accv, name@, cv));
            }
        },
    }
    proof {
        lemma_obj_set(accv, name@, cv);
    }
}

/// Removal of a file; without it the list is unchanged.
fn files_del(files: &mut Vec<(Vec<u8>, Vec<u8>)>, name: &[u8]) -> (r: bool)
    requires
        obj_keys_unique(view_files(old(files)@)),
    ensures
        r == obj_has_key(view_files(old(files)@), name@),
        view_files(final(files)@) == obj_remove(view_files(old(files)@), name@),
        obj_keys_unique(view_files(final(files)@)),
{
    proof {
        broadcast use group_files_view;

    }
    let ghost accq = files@;
    let ghost accv = view_files(files@);
    match obj_find(files, name) {
        Some(idx) => {
            proof {
                assert(accv[idx as int].0 == name@);
                lemma_obj_key_idx(accv, name@, idx as int);
                assert(obj_has_key(accv, name@));
            }
            files.remove(idx);
            proof {
                assert(files@ == accq.remove(idx as int));
                accq.remove_ensures(idx as int);
                assert(view_files(files@) =~= view_files(accq).remove(idx as int)) by {
                    view_files(accq).remove_ensures(idx as int);
                }
                lemma_obj_remove(accv, name@);
            }
            true
        },
        None => {
            proof {
                assert forall|jj: int| 0 <= jj < accv.len() implies accv[jj].0 != name@ by {
                    assert(accv[jj].0 == accq[jj].0@);
                }
                assert(!obj_has_key(accv, name@));
            }
            false
        },
    }
}


// ---------------------------------------------------------------------------
// Decoding the remote's reply
// ---------------------------------------------------------------------------
/// The fallback description: `GistDB Database`.
pub open spec fn default_description() -> Seq<u8> {
    seq![0x47u8, 0x69, 0x73, 0x74, 0x44, 0x42, 0x20, 0x44, 0x61, 0x74, 0x61, 0x62, 0x61, 0x73,
        0x65]
}

/// The bytes of `description`.
pub open spec fn description_key() -> Seq<u8> {
    seq![0x64u8, 0x65, 0x73, 0x63, 0x72, 0x69, 0x70, 0x74, 0x69, 0x6f, 0x6e]
}

/// The bytes of `files`.
pub open spec fn files_key() -> Seq<u8> {
    seq![0x66u8, 0x69, 0x6c, 0x65, 0x73]
}

/// The bytes of `content`.
pub open spec fn content_key() -> Seq<u8> {
    seq![0x63u8, 0x6f, 0x6e, 0x74, 0x65, 0x6e, 0x74]
}

/// The description a fetched reply carries: its `description` string, with
/// the fallback where the field is missing or not a string.
pub open spec fn response_description(v: JsonVal) -> Seq<u8> {
    match crate::index::val_field(v, description_key()) {
        Some(JsonVal::Str(s)) => s,
        _ => default_description(),
    }
}

/// One fetched file's text as the store's read paths take it: its `content`
/// string, or the empty object's text where the field is missing or not a
/// string. The search path does not use this fallback: `get_gist_file` reads
/// strictly and surfaces a malformed entry as an error.
pub open spec fn response_content(fv: JsonVal) -> Seq<u8> {
    match crate::index::val_field(fv, content_key()) {
        Some(JsonVal::Str(s)) => s,
        _ => seq![0x7bu8, 0x7du8],
    }
}

/// The files a fetched reply carries: each entry of its `files` object, in
/// order, with the entry's content text.
pub open spec fn response_file_entries(ps: Seq<(Seq<u8>, JsonVal)>) -> Seq<(Seq<u8>, Seq<u8>)>
    decreases ps,
{
    if ps.len() == 0 {
        Seq::empty()
    } else {
        response_file_entries(ps.subrange(0, ps.len() - 1)).push(
            (ps[ps.len() - 1].0, response_content(ps[ps.len() - 1].1)),
        )
    }
}

pub open spec fn response_files(v: JsonVal) -> Seq<(Seq<u8>, Seq<u8>)> {
    match crate::index::val_field(v, files_key()) {
        Some(JsonVal::Obj(ps)) => response_file_entries(ps),
        _ => Seq::empty(),
    }
}


/// A field's value on a well-formed value is itself well formed.
pub proof fn lemma_val_field_wf(v: JsonVal, f: Seq<u8>)
    requires
        wf(v),
        crate::index::val_field(v, f) is Some,
    ensures
        wf(crate::index::val_field(v, f).unwrap()),
{
    match v {
        JsonVal::Obj(ps) => {
            let i = crate::json::obj_key_idx(ps, f);
            assert(0 <= i < ps.len() && ps[i].0 == f);
            crate::json::lemma_wf_obj_index(ps, i);
        },
        _ => {},
    }
}

/// Reads a fetched container out of the remote's decoded JSON reply: the
/// description with its fallback, and each named file's content text. A reply
/// without a `files` object shows no files.
#[verifier::loop_isolation(false)]
pub fn container_of_response(v: &JsonValue) -> (r: Container)
    requires
        wf(v@),
    ensures
        r.description@ == response_description(v@),
        view_files(r.files@) == response_files(v@),
        container_wf(r),
{
    let description: Vec<u8> = match lookup_field(v, &[
        0x64, 0x65, 0x73, 0x63, 0x72, 0x69, 0x70, 0x74, 0x69, 0x6f, 0x6e,
    ]) {
        Some(JsonValue::Str(s)) => vstd::slice::slice_to_vec(s.as_slice()),
        _ => {
            let d: Vec<u8> = vec![
                0x47, 0x69, 0x73, 0x74, 0x44, 0x42, 0x20, 0x44, 0x61, 0x74, 0x61, 0x62, 0x61,
                0x73, 0x65,
            ];
            proof {
                assert(d@ =~= default_description());
            }
            d
        },
    };
    let mut files: Vec<(Vec<u8>, Vec<u8>)> = Vec::new();
    proof {
        assert(view_files(files@) =~= Seq::<(Seq<u8>, Seq<u8>)>::empty());
    }
    match lookup_field(v, &[0x66, 0x69, 0x6c, 0x65, 0x73]) {
        Some(JsonValue::Obj(ps)) => {
            let ghost psv = view_obj(ps@);
            proof {
                assert(response_files(v@) == response_file_entries(psv));
                assert(psv.subrange(0, 0) =~= Seq::<(Seq<u8>, JsonVal)>::empty());
                assert(response_file_entries(psv.subrange(0, 0)) == Seq::<(Seq<u8>, Seq<u8>)>::empty());
                lemma_val_field_wf(v@, files_key());
            }
            let mut i: usize = 0;
            while i < ps.len()
                invariant
                    i <= ps.len(),
                    psv == view_obj(ps@),
                    view_files(files@) == response_file_entries(psv.subrange(0, i as int)),
                decreases ps.len() - i,
            {
                proof {
                    assert(psv[i as int] == (ps@[i as int].0@, ps@[i as int].1@));
                    crate::json::lemma_wf_obj_index(psv, i as int);
                }
                let name = vstd::slice::slice_to_vec(ps[i].0.as_slice());
                let content: Vec<u8> = match lookup_field(&ps[i].1, &[
                    0x63, 0x6f, 0x6e, 0x74, 0x65, 0x6e, 0x74,
                ]) {
                    Some(JsonValue::Str(s)) => vstd::slice::slice_to_vec(s.as_slice()),
                    _ => {
                        let d: Vec<u8> = vec![0x7b, 0x7d];
                        proof {
                            assert(d@ =~= seq![0x7bu8, 0x7du8]);
                        }
                        d
                    },
                };
                proof {
                    assert(content@ == response_content(psv[i as int].1));
                }
                let ghost preq = files@;
                files.push((name, content));
                proof {
                    assert(files@ == preq.push(files@[files@.len() - 1]));
                    assert(files@.subrange(0, files@.len() - 1) =~= preq);
                    assert(view_files(files@) =~= view_files(preq).push(
                        (psv[i as int].0, response_content(psv[i as int].1)),
                    ));
                    assert(psv.subrange(0, i + 1).subrange(0, i as int) =~= psv.subrange(
                        0,
                        i as int,
                    ));
                    assert(psv.subrange(0, i + 1)[i as int] == psv[i as int]);
                }
                i = i + 1;
            }
            proof {
                assert(psv.subrange(0, psv.len() as int) =~= psv);
            }
        },
        _ => {},
    }
    let r = Container { description, files };
    proof {
        broadcast use group_files_view;

        lemma_response_files_unique(v@);
        assert(container_wf(r)) by {
            assert(obj_keys_unique(response_files(v@)));
        }
    }
    r
}

/// The file names of a well-formed reply are pairwise distinct, since a
/// well-formed object's keys are.
proof fn lemma_response_files_unique(v: JsonVal)
    requires
        wf(v),
    ensures
        obj_keys_unique(response_files(v)),
{
    match crate::index::val_field(v, files_key()) {
        Some(fv) => {
            match v {
                JsonVal::Obj(ps) => {
                    if obj_has_key(ps, files_key()) {
                        let idx = crate::json::obj_key_idx(ps, files_key());
                        crate::json::lemma_wf_obj_index(ps, idx);
                        match fv {
                            JsonVal::Obj(fs) => {
                                lemma_response_file_entries_keys(fs);
                            },
                            _ => {},
                        }
                    }
                },
                _ => {},
            }
        },
        None => {
            assert(response_files(v) =~= Seq::<(Seq<u8>, Seq<u8>)>::empty());
        },
    }
}

/// The entries of the reply's files object keep their keys, in order.
proof fn lemma_response_file_entries_keys(ps: Seq<(Seq<u8>, JsonVal)>)
    ensures
        response_file_entries(ps).len() == ps.len(),
        forall|i: int|
            0 <= i < ps.len() ==> #[trigger] response_file_entries(ps)[i].0 == ps[i].0,
        obj_keys_unique(ps) ==> obj_keys_unique(response_file_entries(ps)),
    decreases ps,
{
    if ps.len() > 0 {
        lemma_response_file_entries_keys(ps.subrange(0, ps.len() - 1));
        assert(response_file_entries(ps) == response_file_entries(ps.subrange(0, ps.len() - 1)).push(
            (ps[ps.len() - 1].0, response_content(ps[ps.len() - 1].1)),
        ));
        assert forall|i: int|
            0 <= i < ps.len() implies #[trigger] response_file_entries(ps)[i].0 == ps[i].0 by {
            if i < ps.len() - 1 {
                assert(ps.subrange(0, ps.len() - 1)[i] == ps[i]);
            }
        }
    }
}

/// Looks a field up on a JSON value, as `.get` would: present only on an
/// object carrying it.
fn lookup_field<'a>(v: &'a JsonValue, field: &[u8]) -> (r: Option<&'a JsonValue>)
    requires
        wf(v@),
    ensures
        match r {
            Some(fv) => crate::index::val_field(v@, field@) == Some(fv@),
            None => crate::index::val_field(v@, field@) is None,
        },
{
    match v {
        JsonValue::Obj(ps) => {
            let ghost psv = view_obj(ps@);
            match obj_find(ps, field) {
                Some(idx) => {
                    proof {
                        assert(psv[idx as int].0 == field@);
                        lemma_obj_key_idx(psv, field@, idx as int);
                        assert(obj_get(psv, field@) == ps@[idx as int].1@);
                    }
                    Some(&ps[idx].1)
                },
                None => {
                    proof {
                        assert forall|jj: int| 0 <= jj < psv.len() implies psv[jj].0 != field@ by {
                            assert(psv[jj].0 == ps@[jj].0@);
                        }
                    }
                    None
                },
            }
        },
        _ => None,
    }
}


/// The content the search path takes from a fetched reply: `Some` exactly
/// when the reply's `files` object carries the named file with a string
/// `content`.
pub open spec fn file_content_of(v: JsonVal, filename: Seq<u8>) -> Option<Seq<u8>> {
    match crate::index::val_field(v, files_key()) {
        Some(JsonVal::Obj(fs)) => {
            match crate::index::val_field(JsonVal::Obj(fs), filename) {
                Some(fv) => match crate::index::val_field(fv, content_key()) {
                    Some(JsonVal::Str(c)) => Some(c),
                    _ => None,
                },
                None => None,
            }
        },
        _ => None,
    }
}

/// Reads one file's content out of the remote's decoded reply, strictly: a
/// missing file, or a file without a string `content`, is an error rather
/// than a fallback — unlike the store's read paths, which assume `{}`.
pub fn get_gist_file(reply: &JsonValue, filename: &[u8]) -> (r: Result<Vec<u8>, DbError>)
    requires
        wf(reply@),
    ensures
        match r {
            Ok(c) => file_content_of(reply@, filename@) == Some(c@),
            Err(e) => e == DbError::NotFound && file_content_of(reply@, filename@) is None,
        },
{
    let fs = match lookup_field(reply, &[0x66, 0x69, 0x6c, 0x65, 0x73]) {
        Some(v) => v,
        None => {
            return Err(DbError::NotFound);
        },
    };
    proof {
        lemma_val_field_wf(reply@, files_key());
    }
    let fv = match lookup_field(fs, filename) {
        Some(v) => v,
        None => {
            return Err(DbError::NotFound);
        },
    };
    proof {
        lemma_val_field_wf(fs@, filename@);
    }
    match lookup_field(fv, &[0x63, 0x6f, 0x6e, 0x74, 0x65, 0x6e, 0x74]) {
        Some(JsonValue::Str(c)) => Ok(vstd::slice::slice_to_vec(c.as_slice())),
        _ => Err(DbError::NotFound),
    }
}

// ---------------------------------------------------------------------------
// Decoding a collection's file
// ---------------------------------------------------------------------------
/// The decoded object map of a collection's file: `Some` exactly when the
/// content parses as a JSON object.
pub open spec fn decoded_map(content: Seq<u8>) -> Option<Seq<(Seq<u8>, JsonVal)>> {
    match json_parse(content) {
        Some(JsonVal::Obj(m)) => Some(m),
        _ => None,
    }
}

/// Reads a collection's file out of a container snapshot and decodes it into
/// an object map, failing fast when the stored content is not a JSON object.
fn load_collection(c: &Container, filename: &[u8]) -> (r: Result<
    Vec<(Vec<u8>, JsonValue)>,
    DbError,
>)
    requires
        container_wf(*c),
    ensures
        match r {
            Ok(pairs) => obj_has_key(view_files(c.files@), filename@) && decoded_map(
                obj_get(view_files(c.files@), filename@),
            ) == Some(view_obj(pairs@)) && obj_keys_unique(view_obj(pairs@)) && crate::json::wf_obj(
                view_obj(pairs@),
            ),
            Err(DbError::NotFound) => !obj_has_key(view_files(c.files@), filename@),
            Err(DbError::DecodeFailure) => obj_has_key(view_files(c.files@), filename@)
                && decoded_map(obj_get(view_files(c.files@), filename@)) is None,
            Err(_) => false,
        },
{
    proof {
        broadcast use group_files_view;

    }
    let ghost fv = view_files(c.files@);
    match obj_find(&c.files, filename) {
        None => {
            proof {
                assert forall|jj: int| 0 <= jj < fv.len() implies fv[jj].0 != filename@ by {
                    assert(fv[jj].0 == c.files@[jj].0@);
                }
            }
            Err(DbError::NotFound)
        },
        Some(idx) => {
            proof {
                assert(fv[idx as int].0 == filename@);
                lemma_obj_key_idx(fv, filename@, idx as int);
                assert(obj_get(fv, filename@) == c.files@[idx as int].1@);
            }
            let content = &c.files[idx].1;
            proof {
                crate::roundtrip::lemma_parse_wf(content@);
            }
            match parse_json(content.as_slice()) {
                Some(JsonValue::Obj(pairs)) => {
                    proof {
                        assert(wf(JsonVal::Obj(view_obj(pairs@))));
                    }
                    Ok(pairs)
                },
                Some(_) => Err(DbError::DecodeFailure),
                None => Err(DbError::DecodeFailure),
            }
        },
    }
}

// ---------------------------------------------------------------------------
// The operations
// ---------------------------------------------------------------------------
/// What a create-database request carries: a fresh container whose
/// description is the database's name, holding one collection file that
/// contains the empty object.
pub fn new_database_container(name: &[u8]) -> (r: Container)
    ensures
        r.description@ == name@,
        view_files(r.files@) == seq![(filename_of(name@), ser(JsonVal::Obj(Seq::empty())))],
        container_wf(r),
{
    proof {
        broadcast use group_files_view;

    }
    let filename = collection_filename(name);
    let empty = encode_json(&JsonValue::Obj(Vec::new()));
    proof {
        assert(crate::json::view_obj(Seq::<(Vec<u8>, JsonValue)>::empty())
            =~= Seq::<(Seq<u8>, JsonVal)>::empty());
    }
    let mut files: Vec<(Vec<u8>, Vec<u8>)> = Vec::new();
    files.push((filename, empty));
    let r = Container { description: vstd::slice::slice_to_vec(name), files };
    proof {
        assert(view_files(r.files@) =~= seq![(filename_of(name@), ser(JsonVal::Obj(Seq::empty())))]);
    }
    r
}

/// Creating a collection: a conflict exactly when the file already exists;
/// otherwise a patch that adds the file holding the empty object, with the
/// container's description sent back unchanged.
pub fn create_collection(c: &Container, name: &[u8]) -> (r: Result<Patch, DbError>)
    requires
        container_wf(*c),
    ensures
        match r {
            Ok(p) => !obj_has_key(view_files(c.files@), filename_of(name@)) && p.description@
                == c.description@ && p.filename@ == filename_of(name@) && content_view(p) == Some(
                ser(JsonVal::Obj(Seq::<(Seq<u8>, JsonVal)>::empty())),
            ),
            Err(e) => e == DbError::Conflict && obj_has_key(
                view_files(c.files@),
                filename_of(name@),
            ),
        },
{
    proof {
        broadcast use group_files_view;

    }
    let ghost fv = view_files(c.files@);
    let filename = collection_filename(name);
    match obj_find(&c.files, filename.as_slice()) {
        Some(idx) => {
            proof {
                assert(fv[idx as int].0 == filename_of(name@));
            }
            Err(DbError::Conflict)
        },
        None => {
            proof {
                assert forall|jj: int| 0 <= jj < fv.len() implies fv[jj].0 != filename_of(
                    name@,
                ) by {
                    assert(fv[jj].0 == c.files@[jj].0@);
                }
                assert(crate::json::view_obj(Seq::<(Vec<u8>, JsonValue)>::empty())
                    =~= Seq::<(Seq<u8>, JsonVal)>::empty());
            }
            let empty = encode_json(&JsonValue::Obj(Vec::new()));
            Ok(
                Patch {
                    description: vstd::slice::slice_to_vec(c.description.as_slice()),
                    filename,
                    content: Some(empty),
                },
            )
        },
    }
}

/// Reading one collection: the decoded content of its file, or `NotFound`
/// when the file is absent; unparseable content fails the read.
pub fn get_collection(c: &Container, name: &[u8]) -> (r: Result<JsonValue, DbError>)
    requires
        container_wf(*c),
    ensures
        match r {
            Ok(v) => obj_has_key(view_files(c.files@), filename_of(name@)) && json_parse(
                obj_get(view_files(c.files@), filename_of(name@)),
            ) == Some(v@),
            Err(DbError::NotFound) => !obj_has_key(view_files(c.files@), filename_of(name@)),
            Err(DbError::DecodeFailure) => obj_has_key(view_files(c.files@), filename_of(name@))
                && json_parse(obj_get(view_files(c.files@), filename_of(name@))) is None,
            Err(_) => false,
        },
{
    proof {
        broadcast use group_files_view;

    }
    let ghost fv = view_files(c.files@);
    let filename = collection_filename(name);
    match obj_find(&c.files, filename.as_slice()) {
        None => {
            proof {
                assert forall|jj: int| 0 <= jj < fv.len() implies fv[jj].0 != filename_of(
                    name@,
                ) by {
                    assert(fv[jj].0 == c.files@[jj].0@);
                }
            }
            Err(DbError::NotFound)
        },
        Some(idx) => {
            proof {
                assert(fv[idx as int].0 == filename_of(name@));
                lemma_obj_key_idx(fv, filename_of(name@), idx as int);
                assert(obj_get(fv, filename_of(name@)) == c.files@[idx as int].1@);
            }
            match parse_json(c.files[idx].1.as_slice()) {
                Some(v) => Ok(v),
                None => Err(DbError::DecodeFailure),
            }
        },
    }
}

/// The value a whole-database read shows for one file: the decoded content,
/// degrading to null when the stored text does not parse.
pub open spec fn dump_entry(content: Seq<u8>) -> JsonVal {
    match json_parse(content) {
        Some(v) => v,
        None => JsonVal::Null,
    }
}

/// Reading the whole database: every file name mapped to its decoded
/// content; a file that fails to decode is shown as null rather than
/// failing the read — deliberately unlike the write paths.
pub fn get_database_dump(c: &Container) -> (r: JsonValue)
    requires
        container_wf(*c),
    ensures
        r@ matches JsonVal::Obj(entries) && entries.len() == c.files@.len() && forall|i: int|
            0 <= i < entries.len() ==> #[trigger] entries[i] == (
                view_files(c.files@)[i].0,
                dump_entry(view_files(c.files@)[i].1),
            ),
{
    proof {
        broadcast use group_files_view;
        broadcast use crate::json::group_json_view;

    }
    let mut entries: Vec<(Vec<u8>, JsonValue)> = Vec::new();
    let mut i: usize = 0;
    while i < c.files.len()
        invariant
            container_wf(*c),
            i <= c.files.len(),
            entries@.len() == i,
            forall|j: int|
                0 <= j < i ==> #[trigger] view_obj(entries@)[j] == (
                    view_files(c.files@)[j].0,
                    dump_entry(view_files(c.files@)[j].1),
                ),
        decreases c.files.len() - i,
    {
        proof {
            broadcast use group_files_view;
            broadcast use crate::json::group_json_view;

        }
        let name = vstd::slice::slice_to_vec(c.files[i].0.as_slice());
        let value = match parse_json(c.files[i].1.as_slice()) {
            Some(v) => v,
            None => JsonValue::Null,
        };
        proof {
            assert(value@ == dump_entry(c.files@[i as int].1@));
            assert(view_files(c.files@)[i as int] == (c.files@[i as int].0@, c.files@[i as int].1@));
        }
        let ghost prev = entries@;
        let ghost namev = name@;
        let ghost valuev = value@;
        entries.push((name, value));
        proof {
            assert(entries@ == prev.push(entries@[entries@.len() - 1]));
            assert forall|j: int|
                0 <= j < i + 1 implies #[trigger] view_obj(entries@)[j] == (
                view_files(c.files@)[j].0,
                dump_entry(view_files(c.files@)[j].1),
            ) by {
                crate::json::lemma_view_obj_index(entries@, j);
                lemma_view_files_index(c.files@, j);
                if j < i {
                    assert(entries@[j] == prev[j]);
                    crate::json::lemma_view_obj_index(prev, j);
                } else {
                    assert(entries@[j].0@ == namev && entries@[j].1@ == valuev);
                }
            }
        }
        i = i + 1;
    }
    let r = JsonValue::Obj(entries);
    proof {
        broadcast use crate::json::group_json_view;

        assert(r@ == JsonVal::Obj(view_obj(entries@)));
        crate::json::lemma_view_obj_len(entries@);
        assert(view_obj(entries@).len() == c.files@.len());
        assert forall|j: int|
            0 <= j < entries@.len() implies #[trigger] view_obj(entries@)[j] == (
            view_files(c.files@)[j].0,
            dump_entry(view_files(c.files@)[j].1),
        ) by {
            crate::json::lemma_view_obj_index(entries@, j);
        }
    }
    r
}

/// Inserting a new object: the collection's file is decoded, the object is
/// added under the given identifier, and the whole re-encoded map is written
/// back with the description preserved.
pub fn create_object(
    c: &Container,
    collection_name: &[u8],
    object_id: &[u8],
    value: JsonValue,
) -> (r: Result<Patch, DbError>)
    requires
        container_wf(*c),
    ensures
        match r {
            Ok(p) => {
                let fname = filename_of(collection_name@);
                let m = decoded_map(obj_get(view_files(c.files@), fname)).unwrap();
                &&& obj_has_key(view_files(c.files@), fname)
                &&& decoded_map(obj_get(view_files(c.files@), fname)) is Some
                &&& p.description@ == c.description@
                &&& p.filename@ == fname
                &&& content_view(p) == Some(ser(JsonVal::Obj(obj_set(m, object_id@, value@))))
            },
            Err(e) => {
                let fname = filename_of(collection_name@);
                ||| (e == DbError::NotFound && !obj_has_key(view_files(c.files@), fname))
                ||| (e == DbError::DecodeFailure && obj_has_key(view_files(c.files@), fname)
                    && decoded_map(obj_get(view_files(c.files@), fname)) is None)
            },
        },
{
    let filename = collection_filename(collection_name);
    let mut pairs = match load_collection(c, filename.as_slice()) {
        Ok(pairs) => pairs,
        Err(e) => {
            return Err(e);
        },
    };
    obj_put(&mut pairs, object_id, value);
    let content = encode_json(&JsonValue::Obj(pairs));
    Ok(
        Patch {
            description: vstd::slice::slice_to_vec(c.description.as_slice()),
            filename,
            content: Some(content),
        },
    )
}

/// Replacing an object's value wholesale: `NotFound` when the collection's
/// file or the identifier is absent; no fields of the prior value survive.
pub fn update_object(
    c: &Container,
    collection_name: &[u8],
    object_id: &[u8],
    value: JsonValue,
) -> (r: Result<Patch, DbError>)
    requires
        container_wf(*c),
    ensures
        match r {
            Ok(p) => {
                let fname = filename_of(collection_name@);
                let m = decoded_map(obj_get(view_files(c.files@), fname)).unwrap();
                &&& obj_has_key(view_files(c.files@), fname)
                &&& decoded_map(obj_get(view_files(c.files@), fname)) is Some
                &&& obj_has_key(m, object_id@)
                &&& p.description@ == c.description@
                &&& p.filename@ == fname
                &&& content_view(p) == Some(ser(JsonVal::Obj(obj_set(m, object_id@, value@))))
            },
            Err(e) => {
                let fname = filename_of(collection_name@);
                ||| (e == DbError::NotFound && (!obj_has_key(view_files(c.files@), fname) || (
                decoded_map(obj_get(view_files(c.files@), fname)) matches Some(m) && !obj_has_key(
                    m,
                    object_id@,
                ))))
                ||| (e == DbError::DecodeFailure && obj_has_key(view_files(c.files@), fname)
                    && decoded_map(obj_get(view_files(c.files@), fname)) is None)
            },
        },
{
    proof {
        broadcast use crate::json::group_json_view;

    }
    let filename = collection_filename(collection_name);
    let mut pairs = match load_collection(c, filename.as_slice()) {
        Ok(pairs) => pairs,
        Err(e) => {
            return Err(e);
        },
    };
    match obj_find(&pairs, object_id) {
        None => {
            proof {
                let m = view_obj(pairs@);
                assert forall|jj: int| 0 <= jj < m.len() implies m[jj].0 != object_id@ by {
                    assert(m[jj].0 == pairs@[jj].0@);
                }
            }
            Err(DbError::NotFound)
        },
        Some(idx) => {
            proof {
                assert(view_obj(pairs@)[idx as int].0 == object_id@);
            }
            obj_put(&mut pairs, object_id, value);
            let content = encode_json(&JsonValue::Obj(pairs));
            Ok(
                Patch {
                    description: vstd::slice::slice_to_vec(c.description.as_slice()),
                    filename,
                    content: Some(content),
                },
            )
        },
    }
}

/// Removing an object: `NotFound` when the collection's file or the
/// identifier is absent.
pub fn delete_object(c: &Container, collection_name: &[u8], object_id: &[u8]) -> (r: Result<
    Patch,
    DbError,
>)
    requires
        container_wf(*c),
    ensures
        match r {
            Ok(p) => {
                let fname = filename_of(collection_name@);
                let m = decoded_map(obj_get(view_files(c.files@), fname)).unwrap();
                &&& obj_has_key(view_files(c.files@), fname)
                &&& decoded_map(obj_get(view_files(c.files@), fname)) is Some
                &&& obj_has_key(m, object_id@)
                &&& p.description@ == c.description@
                &&& p.filename@ == fname
                &&& content_view(p) == Some(ser(JsonVal::Obj(obj_remove(m, object_id@))))
            },
            Err(e) => {
                let fname = filename_of(collection_name@);
                ||| (e == DbError::NotFound && (!obj_has_key(view_files(c.files@), fname) || (
                decoded_map(obj_get(view_files(c.files@), fname)) matches Some(m) && !obj_has_key(
                    m,
                    object_id@,
                ))))
                ||| (e == DbError::DecodeFailure && obj_has_key(view_files(c.files@), fname)
                    && decoded_map(obj_get(view_files(c.files@), fname)) is None)
            },
        },
{
    proof {
        broadcast use crate::json::group_json_view;

    }
    let filename = collection_filename(collection_name);
    let mut pairs = match load_collection(c, filename.as_slice()) {
        Ok(pairs) => pairs,
        Err(e) => {
            return Err(e);
        },
    };
    let present = obj_del(&mut pairs, object_id);
    if !present {
        return Err(DbError::NotFound);
    }
    let content = encode_json(&JsonValue::Obj(pairs));
    Ok(
        Patch {
            description: vstd::slice::slice_to_vec(c.description.as_slice()),
            filename,
            content: Some(content),
        },
    )
}

/// Removing a whole collection: a patch that deletes its file, or `NotFound`
/// when the file is absent.
pub fn delete_collection(c: &Container, collection_name: &[u8]) -> (r: Result<Patch, DbError>)
    requires
        container_wf(*c),
    ensures
        match r {
            Ok(p) => obj_has_key(view_files(c.files@), filename_of(collection_name@))
                && p.description@ == c.description@ && p.filename@ == filename_of(collection_name@)
                && content_view(p) is None,
            Err(e) => e == DbError::NotFound && !obj_has_key(
                view_files(c.files@),
                filename_of(collection_name@),
            ),
        },
{
    proof {
        broadcast use group_files_view;

    }
    let ghost fv = view_files(c.files@);
    let filename = collection_filename(collection_name);
    match obj_find(&c.files, filename.as_slice()) {
        None => {
            proof {
                assert forall|jj: int| 0 <= jj < fv.len() implies fv[jj].0 != filename_of(
                    collection_name@,
                ) by {
                    assert(fv[jj].0 == c.files@[jj].0@);
                }
            }
            Err(DbError::NotFound)
        },
        Some(idx) => {
            proof {
                assert(fv[idx as int].0 == filename_of(collection_name@));
            }
            Ok(
                Patch {
                    description: vstd::slice::slice_to_vec(c.description.as_slice()),
                    filename,
                    content: None,
                },
            )
        },
    }
}


/// Relies on uuid::Uuid::new_v4 and its hyphenated rendering: a freshly
/// drawn random identifier, 36 ASCII characters long. Nothing more can be
/// promised of a random value.
#[verifier::external_body]
fn new_object_id() -> (r: Vec<u8>)
    ensures
        r@.len() == 36,
{
    uuid::Uuid::new_v4().as_hyphenated().to_string().into_bytes()
}

/// Inserting a new object under a server-generated identifier: draws a fresh
/// random identifier and files the object under it. The contract speaks of
/// the returned identifier, whatever was drawn; identifier collisions are
/// treated as overwrites, with probability taken as zero.
pub fn create_object_with_new_id(c: &Container, collection_name: &[u8], value: JsonValue) -> (r:
    Result<(Patch, Vec<u8>), DbError>)
    requires
        container_wf(*c),
    ensures
        match r {
            Ok((p, id)) => {
                let fname = filename_of(collection_name@);
                let m = decoded_map(obj_get(view_files(c.files@), fname)).unwrap();
                &&& id@.len() == 36
                &&& obj_has_key(view_files(c.files@), fname)
                &&& decoded_map(obj_get(view_files(c.files@), fname)) is Some
                &&& p.description@ == c.description@
                &&& p.filename@ == fname
                &&& content_view(p) == Some(ser(JsonVal::Obj(obj_set(m, id@, value@))))
            },
            Err(e) => {
                let fname = filename_of(collection_name@);
                ||| (e == DbError::NotFound && !obj_has_key(view_files(c.files@), fname))
                ||| (e == DbError::DecodeFailure && obj_has_key(view_files(c.files@), fname)
                    && decoded_map(obj_get(view_files(c.files@), fname)) is None)
            },
        },
{
    let id = new_object_id();
    match create_object(c, collection_name, id.as_slice(), value) {
        Ok(p) => Ok((p, id)),
        Err(e) => Err(e),
    }
}


/// One page of a file's text: a window of at most `chunk_size` characters —
/// characters, not bytes, so a multi-byte character is never split. Pages
/// are numbered from one; a window past the end is clipped to empty.
pub fn file_chunk(content: &str, page: usize, chunk_size: usize) -> (r: String)
    requires
        page >= 1,
        (page - 1) as int * chunk_size as int + chunk_size as int <= usize::MAX as int,
    ensures
        r@ == content@.subrange(
            if (page - 1) as int * chunk_size as int <= content@.len() {
                (page - 1) as int * chunk_size as int
            } else {
                content@.len() as int
            },
            if (page - 1) as int * chunk_size as int + chunk_size as int <= content@.len() {
                (page - 1) as int * chunk_size as int + chunk_size as int
            } else {
                content@.len() as int
            },
        ),
{
    let start = (page - 1) * chunk_size;
    let n = content.unicode_len();
    let lo = if start <= n {
        start
    } else {
        n
    };
    let hi = if start + chunk_size <= n {
        start + chunk_size
    } else {
        n
    };
    let piece = content.substring_char(lo, hi);
    piece.to_owned()
}

// ---------------------------------------------------------------------------
// Laws of the read-modify-write cycle
// ---------------------------------------------------------------------------
/// A fresh collection file holds exactly the two-byte empty object, and it
/// decodes to the empty map.
pub proof fn lemma_new_collection_empty()
    ensures
        ser(JsonVal::Obj(Seq::<(Seq<u8>, JsonVal)>::empty())) == seq![0x7bu8, 0x7du8],
        json_parse(ser(JsonVal::Obj(Seq::<(Seq<u8>, JsonVal)>::empty()))) == Some(
            JsonVal::Obj(Seq::<(Seq<u8>, JsonVal)>::empty()),
        ),
{
    let empty = JsonVal::Obj(Seq::<(Seq<u8>, JsonVal)>::empty());
    assert(ser(empty) =~= seq![0x7bu8, 0x7du8]);
    assert(wf(empty));
    crate::roundtrip::lemma_codec_roundtrip(empty);
}

/// Writing an object and committing the patch, then reading the collection
/// back, shows the identifier mapped to exactly the written value — no
/// residual fields of any prior value — and every other object untouched.
/// This covers both insertion of a fresh identifier and wholesale
/// replacement under an existing one.
pub proof fn lemma_put_object_read_back(
    files: Seq<(Seq<u8>, Seq<u8>)>,
    fname: Seq<u8>,
    id: Seq<u8>,
    v: JsonVal,
)
    requires
        obj_keys_unique(files),
        obj_has_key(files, fname),
        decoded_map(obj_get(files, fname)) is Some,
        wf(v),
    ensures
        ({
            let m = decoded_map(obj_get(files, fname)).unwrap();
            let m2 = obj_set(m, id, v);
            let nf = patched_files(files, fname, Some(ser(JsonVal::Obj(m2))));
            &&& obj_keys_unique(nf)
            &&& obj_has_key(nf, fname)
            &&& decoded_map(obj_get(nf, fname)) == Some(m2)
            &&& obj_has_key(m2, id)
            &&& obj_get(m2, id) == v
            &&& forall|k2: Seq<u8>|
                k2 != id && #[trigger] obj_has_key(m, k2) ==> obj_has_key(m2, k2) && obj_get(
                    m2,
                    k2,
                ) == obj_get(m, k2)
        }),
{
    let content = obj_get(files, fname);
    let m = decoded_map(content).unwrap();
    crate::roundtrip::lemma_parse_wf(content);
    assert(wf(JsonVal::Obj(m)));
    let m2 = obj_set(m, id, v);
    crate::json::lemma_wf_obj_set(m, id, v);
    assert(wf(JsonVal::Obj(m2)));
    crate::roundtrip::lemma_codec_roundtrip(JsonVal::Obj(m2));
    lemma_obj_set(files, fname, ser(JsonVal::Obj(m2)));
    lemma_obj_set(m, id, v);
}

/// Deleting an object and committing the patch, then reading the collection
/// back, no longer shows the identifier; every other object is untouched.
pub proof fn lemma_delete_object_read_back(
    files: Seq<(Seq<u8>, Seq<u8>)>,
    fname: Seq<u8>,
    id: Seq<u8>,
)
    requires
        obj_keys_unique(files),
        obj_has_key(files, fname),
        decoded_map(obj_get(files, fname)) is Some,
        obj_has_key(decoded_map(obj_get(files, fname)).unwrap(), id),
    ensures
        ({
            let m = decoded_map(obj_get(files, fname)).unwrap();
            let m2 = obj_remove(m, id);
            let nf = patched_files(files, fname, Some(ser(JsonVal::Obj(m2))));
            &&& obj_keys_unique(nf)
            &&& obj_has_key(nf, fname)
            &&& decoded_map(obj_get(nf, fname)) == Some(m2)
            &&& !obj_has_key(m2, id)
            &&& forall|k2: Seq<u8>|
                k2 != id && #[trigger] obj_has_key(m, k2) ==> obj_has_key(m2, k2) && obj_get(
                    m2,
                    k2,
                ) == obj_get(m, k2)
        }),
{
    let content = obj_get(files, fname);
    let m = decoded_map(content).unwrap();
    crate::roundtrip::lemma_parse_wf(content);
    assert(wf(JsonVal::Obj(m)));
    let m2 = obj_remove(m, id);
    crate::json::lemma_wf_obj_remove(m, id);
    assert(wf(JsonVal::Obj(m2)));
    crate::roundtrip::lemma_codec_roundtrip(JsonVal::Obj(m2));
    lemma_obj_set(files, fname, ser(JsonVal::Obj(m2)));
    lemma_obj_remove(m, id);
}

} // verus!
