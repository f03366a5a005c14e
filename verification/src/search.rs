//! Exact-substring search over a collection snapshot.
//!
//! A query matches an object either through one named field — the field must
//! be present, hold a string, and contain the query literally — or, with no
//! field given, when the query occurs in any string reachable by descending
//! through the value's arrays and objects. Matching is case-sensitive with no
//! normalization; identifiers come back in snapshot order.

use crate::json::{
    lemma_obj_key_idx, lemma_wf_obj_index, obj_get, obj_has_key, view_arr, view_obj, wf, JsonVal,
    JsonValue,
};
use vstd::prelude::*;

verus! {

broadcast use crate::json::group_json_view;

// ---------------------------------------------------------------------------
// Substring containment on bytes
// ---------------------------------------------------------------------------
/// The query occurs contiguously somewhere in the text.
pub open spec fn bytes_contains(hay: Seq<u8>, q: Seq<u8>) -> bool {
    exists|i: int| 0 <= i <= hay.len() - q.len() && #[trigger] hay.subrange(i, i + q.len()) == q
}

/// Whether the query sits at position `i` of the text.
fn match_at(hay: &[u8], q: &[u8], i: usize) -> (r: bool)
    requires
        i + q.len() <= hay.len(),
    ensures
        r == (hay@.subrange(i as int, i + q@.len()) == q@),
{
    let mut k: usize = 0;
    while k < q.len()
        invariant
            i + q.len() <= hay.len(),
            k <= q.len(),
            forall|m: int| 0 <= m < k ==> hay@[i + m] == q@[m],
        decreases q.len() - k,
    {
        if hay[i + k] != q[k] {
            proof {
                assert(hay@.subrange(i as int, i + q@.len())[k as int] == hay@[i + k]);
            }
            return false;
        }
        k = k + 1;
    }
    proof {
        assert(hay@.subrange(i as int, i + q@.len()) =~= q@);
    }
    true
}

/// Literal substring search.
pub fn contains_sub(hay: &[u8], q: &[u8]) -> (r: bool)
    ensures
        r == bytes_contains(hay@, q@),
{
    if q.len() == 0 {
        proof {
            let qi: int = q@.len() as int;
            assert(hay@.subrange(0, 0 + qi) =~= q@);
        }
        return true;
    }
    if q.len() > hay.len() {
        return false;
    }
    let mut i: usize = 0;
    while i <= hay.len() - q.len()
        invariant
            1 <= q.len() <= hay.len(),
            i <= hay.len() - q.len() + 1,
            forall|j: int| 0 <= j < i ==> #[trigger] hay@.subrange(j, j + q@.len()) != q@,
        decreases hay.len() - q.len() + 1 - i,
    {
        if match_at(hay, q, i) {
            return true;
        }
        i = i + 1;
    }
    false
}

// ---------------------------------------------------------------------------
// Matching a value
// ---------------------------------------------------------------------------
/// The query occurs in some string reachable inside the value; leaves that
/// are not strings never match.
pub open spec fn contains_rec(v: JsonVal, q: Seq<u8>) -> bool
    decreases v,
{
    match v {
        JsonVal::Str(s) => bytes_contains(s, q),
        JsonVal::Arr(items) => contains_arr(items, q),
        JsonVal::Obj(m) => contains_obj(m, q),
        _ => false,
    }
}

/// The query occurs inside some element.
pub open spec fn contains_arr(items: Seq<JsonVal>, q: Seq<u8>) -> bool
    decreases items,
{
    items.len() > 0 && (contains_rec(items[0], q) || contains_arr(
        items.subrange(1, items.len() as int),
        q,
    ))
}

/// The query occurs inside some member's value.
pub open spec fn contains_obj(m: Seq<(Seq<u8>, JsonVal)>, q: Seq<u8>) -> bool
    decreases m,
{
    m.len() > 0 && (contains_rec(m[0].1, q) || contains_obj(m.subrange(1, m.len() as int), q))
}

/// An array contains the query exactly when one of its elements does.
pub proof fn lemma_contains_arr_iff(items: Seq<JsonVal>, q: Seq<u8>)
    ensures
        contains_arr(items, q) <==> exists|i: int|
            0 <= i < items.len() && contains_rec(#[trigger] items[i], q),
    decreases items,
{
    if items.len() > 0 {
        let tail = items.subrange(1, items.len() as int);
        lemma_contains_arr_iff(tail, q);
        if contains_arr(items, q) {
            if !contains_rec(items[0], q) {
                let i = choose|i: int| 0 <= i < tail.len() && contains_rec(#[trigger] tail[i], q);
                assert(items[i + 1] == tail[i]);
            }
        }
        if exists|i: int| 0 <= i < items.len() && contains_rec(#[trigger] items[i], q) {
            let i = choose|i: int| 0 <= i < items.len() && contains_rec(#[trigger] items[i], q);
            if i > 0 {
                assert(tail[i - 1] == items[i]);
            }
        }
    }
}

/// An object contains the query exactly when one of its values does.
pub proof fn lemma_contains_obj_iff(m: Seq<(Seq<u8>, JsonVal)>, q: Seq<u8>)
    ensures
        contains_obj(m, q) <==> exists|i: int|
            0 <= i < m.len() && contains_rec(#[trigger] m[i].1, q),
    decreases m,
{
    if m.len() > 0 {
        let tail = m.subrange(1, m.len() as int);
        lemma_contains_obj_iff(tail, q);
        if contains_obj(m, q) {
            if !contains_rec(m[0].1, q) {
                let i = choose|i: int| 0 <= i < tail.len() && contains_rec(#[trigger] tail[i].1, q);
                assert(m[i + 1] == tail[i]);
            }
        }
        if exists|i: int| 0 <= i < m.len() && contains_rec(#[trigger] m[i].1, q) {
            let i = choose|i: int| 0 <= i < m.len() && contains_rec(#[trigger] m[i].1, q);
            if i > 0 {
                assert(tail[i - 1] == m[i]);
            }
        }
    }
}

/// The named field is present, holds a string, and that string contains the
/// query.
pub open spec fn field_match(v: JsonVal, field: Seq<u8>, q: Seq<u8>) -> bool {
    match v {
        JsonVal::Obj(m) => obj_has_key(m, field) && (obj_get(m, field) matches JsonVal::Str(s)
            && bytes_contains(s, q)),
        _ => false,
    }
}

pub open spec fn opt_view(field: Option<&[u8]>) -> Option<Seq<u8>> {
    match field {
        Some(f) => Some(f@),
        None => None,
    }
}

/// What it means for one object of the snapshot to match the query.
pub open spec fn matches_spec(v: JsonVal, q: Seq<u8>, field: Option<Seq<u8>>) -> bool {
    match field {
        Some(f) => field_match(v, f, q),
        None => contains_rec(v, q),
    }
}


/// Whether the query occurs in any string reachable inside the value.
#[verifier::loop_isolation(false)]
pub fn json_contains(value: &JsonValue, query: &[u8]) -> (r: bool)
    ensures
        r == contains_rec(value@, query@),
    decreases value,
{
    match value {
        JsonValue::Str(s) => contains_sub(s.as_slice(), query),
        JsonValue::Arr(items) => {
            let ghost model = view_arr(items@);
            let mut i: usize = 0;
            proof {
                assert(model.subrange(0, model.len() as int) =~= model);
            }
            while i < items.len()
                invariant
                    i <= items.len(),
                    contains_arr(model, query@) == contains_arr(
                        model.subrange(i as int, model.len() as int),
                        query@,
                    ),
                decreases items.len() - i,
            {
                let ghost rest = model.subrange(i as int, model.len() as int);
                proof {
                    assert(rest[0] == model[i as int]);
                    assert(rest.subrange(1, rest.len() as int) =~= model.subrange(
                        i + 1,
                        model.len() as int,
                    ));
                    assert(model[i as int] == items@[i as int]@);
                }
                if json_contains(&items[i], query) {
                    return true;
                }
                i = i + 1;
            }
            proof {
                assert(!contains_arr(model.subrange(model.len() as int, model.len() as int), query@));
            }
            false
        },
        JsonValue::Obj(pairs) => {
            let ghost model = view_obj(pairs@);
            let mut i: usize = 0;
            proof {
                assert(model.subrange(0, model.len() as int) =~= model);
            }
            while i < pairs.len()
                invariant
                    i <= pairs.len(),
                    contains_obj(model, query@) == contains_obj(
                        model.subrange(i as int, model.len() as int),
                        query@,
                    ),
                decreases pairs.len() - i,
            {
                let ghost rest = model.subrange(i as int, model.len() as int);
                proof {
                    assert(rest[0] == model[i as int]);
                    assert(rest.subrange(1, rest.len() as int) =~= model.subrange(
                        i + 1,
                        model.len() as int,
                    ));
                    assert(model[i as int].1 == pairs@[i as int].1@);
                }
                if json_contains(&pairs[i].1, query) {
                    return true;
                }
                i = i + 1;
            }
            proof {
                assert(!contains_obj(model.subrange(model.len() as int, model.len() as int), query@));
            }
            false
        },
        _ => false,
    }
}

/// Whether one object matches the query, through the named field if one is
/// given. The value must be well formed, as every decoded snapshot is.
pub fn matches_query(value: &JsonValue, query: &[u8], field: Option<&[u8]>) -> (r: bool)
    requires
        wf(value@),
    ensures
        r == matches_spec(value@, query@, opt_view(field)),
{
    match field {
        None => json_contains(value, query),
        Some(f) => {
            match value {
                JsonValue::Obj(pairs) => {
                    let ghost m = view_obj(pairs@);
                    match crate::json::obj_find(pairs, f) {
                        Some(idx) => {
                            proof {
                                assert(m[idx as int].0 == f@);
                                lemma_obj_key_idx(m, f@, idx as int);
                                assert(obj_get(m, f@) == m[idx as int].1);
                                assert(m[idx as int].1 == pairs@[idx as int].1@);
                            }
                            match &pairs[idx].1 {
                                JsonValue::Str(s) => contains_sub(s.as_slice(), query),
                                _ => false,
                            }
                        },
                        None => {
                            proof {
                                assert forall|jj: int| 0 <= jj < m.len() implies m[jj].0 != f@ by {
                                    assert(m[jj].0 == pairs@[jj].0@);
                                }
                            }
                            false
                        },
                    }
                },
                _ => false,
            }
        },
    }
}

// ---------------------------------------------------------------------------
// Searching a snapshot
// ---------------------------------------------------------------------------
/// The identifiers of the matching objects, in snapshot order.
pub open spec fn search_spec(m: Seq<(Seq<u8>, JsonVal)>, q: Seq<u8>, field: Option<Seq<u8>>) -> Seq<
    Seq<u8>,
>
    decreases m,
{
    if m.len() == 0 {
        Seq::empty()
    } else {
        let tail = search_spec(m.subrange(1, m.len() as int), q, field);
        if matches_spec(m[0].1, q, field) {
            seq![m[0].0] + tail
        } else {
            tail
        }
    }
}

/// Runs the query over a snapshot: the identifiers of the matching objects,
/// in snapshot order. A snapshot that is not a JSON object holds no objects,
/// so nothing matches.
#[verifier::loop_isolation(false)]
pub fn search_json(data: &JsonValue, query: &[u8], field: Option<&[u8]>) -> (r: Vec<Vec<u8>>)
    requires
        wf(data@),
    ensures
        r.deep_view() == (match data@ {
            JsonVal::Obj(m) => search_spec(m, query@, opt_view(field)),
            _ => Seq::<Seq<u8>>::empty(),
        }),
{
    let mut out: Vec<Vec<u8>> = Vec::new();
    match data {
        JsonValue::Obj(pairs) => {
            let ghost m = view_obj(pairs@);
            let mut i: usize = 0;
            proof {
                assert(m.subrange(0, m.len() as int) =~= m);
                assert(out.deep_view() =~~= Seq::<Seq<u8>>::empty());
            }
            while i < pairs.len()
                invariant
                    wf(data@),
                    data@ == JsonVal::Obj(m),
                    m == view_obj(pairs@),
                    i <= pairs.len(),
                    out.deep_view() + search_spec(
                        m.subrange(i as int, m.len() as int),
                        query@,
                        opt_view(field),
                    ) == search_spec(m, query@, opt_view(field)),
                decreases pairs.len() - i,
            {
                let ghost rest = m.subrange(i as int, m.len() as int);
                proof {
                    assert(rest[0] == m[i as int]);
                    assert(rest.subrange(1, rest.len() as int) =~= m.subrange(
                        i + 1,
                        m.len() as int,
                    ));
                    assert(m[i as int].1 == pairs@[i as int].1@);
                    lemma_wf_obj_index(m, i as int);
                }
                let ghost preout = out.deep_view();
                if matches_query(&pairs[i].1, query, field) {
                    let key = vstd::slice::slice_to_vec(pairs[i].0.as_slice());
                    out.push(key);
                    proof {
                        assert(out.deep_view() =~~= preout.push(m[i as int].0));
                        assert(preout + (seq![m[i as int].0] + search_spec(
                            m.subrange(i + 1, m.len() as int),
                            query@,
                            opt_view(field),
                        )) =~= out.deep_view() + search_spec(
                            m.subrange(i + 1, m.len() as int),
                            query@,
                            opt_view(field),
                        ));
                    }
                }
                i = i + 1;
            }
            proof {
                assert(search_spec(m.subrange(m.len() as int, m.len() as int), query@, opt_view(field))
                    =~= Seq::<Seq<u8>>::empty());
                assert(out.deep_view() + Seq::<Seq<u8>>::empty() =~= out.deep_view());
            }
        },
        _ => {},
    }
    out
}

// ---------------------------------------------------------------------------
// Laws
// ---------------------------------------------------------------------------
/// Search is deterministic: repeated identical queries against an unchanged
/// snapshot return the same ordered identifier list, since the result is a
/// function of the snapshot, the query and the field alone.
pub proof fn lemma_search_deterministic(
    m: Seq<(Seq<u8>, JsonVal)>,
    q: Seq<u8>,
    field: Option<Seq<u8>>,
    r1: Seq<Seq<u8>>,
    r2: Seq<Seq<u8>>,
)
    requires
        r1 == search_spec(m, q, field),
        r2 == search_spec(m, q, field),
    ensures
        r1 == r2,
{
}

/// An identifier is in the result exactly when the snapshot holds it with a
/// matching value.
pub proof fn lemma_search_membership(m: Seq<(Seq<u8>, JsonVal)>, q: Seq<u8>, field: Option<Seq<u8>>)
    ensures
        forall|id: Seq<u8>|
            #[trigger] search_spec(m, q, field).contains(id) <==> exists|i: int|
                0 <= i < m.len() && #[trigger] m[i].0 == id && matches_spec(m[i].1, q, field),
    decreases m,
{
    if m.len() == 0 {
    } else {
        let tail = m.subrange(1, m.len() as int);
        lemma_search_membership(tail, q, field);
        let r = search_spec(m, q, field);
        let rt = search_spec(tail, q, field);
        assert forall|id: Seq<u8>| #[trigger] r.contains(id) implies exists|i: int|
            0 <= i < m.len() && #[trigger] m[i].0 == id && matches_spec(m[i].1, q, field) by {
            if matches_spec(m[0].1, q, field) && id == m[0].0 {
                assert(m[0].0 == id && matches_spec(m[0].1, q, field));
            } else {
                assert(rt.contains(id)) by {
                    let j = choose|j: int| 0 <= j < r.len() && r[j] == id;
                    if matches_spec(m[0].1, q, field) {
                        assert(r == seq![m[0].0] + rt);
                        assert(j != 0);
                        assert(rt[j - 1] == id);
                    }
                }
                let i = choose|i: int|
                    0 <= i < tail.len() && #[trigger] tail[i].0 == id && matches_spec(
                        tail[i].1,
                        q,
                        field,
                    );
                assert(m[i + 1] == tail[i]);
            }
        }
        assert forall|id: Seq<u8>|
            (exists|i: int|
                0 <= i < m.len() && #[trigger] m[i].0 == id && matches_spec(
                    m[i].1,
                    q,
                    field,
                )) implies #[trigger] r.contains(id) by {
            let i = choose|i: int|
                0 <= i < m.len() && #[trigger] m[i].0 == id && matches_spec(m[i].1, q, field);
            if i == 0 {
                assert(r == seq![m[0].0] + rt);
                assert(r[0] == id);
            } else {
                assert(tail[i - 1] == m[i]);
                assert(rt.contains(id));
                let j = choose|j: int| 0 <= j < rt.len() && rt[j] == id;
                if matches_spec(m[0].1, q, field) {
                    assert(r == seq![m[0].0] + rt);
                    assert(r[j + 1] == id);
                } else {
                    assert(r == rt);
                }
            }
        }
    }
}

} // verus!
