//! The JSON value model.
//!
//! `JsonValue` is the executable document value; its mathematical model is
//! `JsonVal`, whose strings are byte sequences (UTF-8 text) and whose numbers
//! carry their decimal literal spelling, so that no precision is lost between
//! decoding a stored file and encoding it again. An object is an
//! insertion-ordered list of key/value pairs with pairwise-distinct keys.

use vstd::prelude::*;

verus! {

broadcast use vstd::std_specs::vec::axiom_vec_index_decreases;

/// The mathematical model of a JSON value.
#[verifier::ext_equal]
pub enum JsonVal {
    Null,
    Bool(bool),
    /// The decimal literal, kept verbatim (e.g. `1`, `-2.5e3`).
    Num(Seq<u8>),
    /// The text, as unescaped UTF-8 bytes.
    Str(Seq<u8>),
    Arr(Seq<JsonVal>),
    /// Key/value pairs in document order.
    Obj(Seq<(Seq<u8>, JsonVal)>),
}

/// An executable JSON value; `@` yields its `JsonVal` model.
#[derive(Debug)]
pub enum JsonValue {
    Null,
    Bool(bool),
    Num(Vec<u8>),
    Str(Vec<u8>),
    Arr(Vec<JsonValue>),
    Obj(Vec<(Vec<u8>, JsonValue)>),
}

pub open spec fn view_arr(items: Seq<JsonValue>) -> Seq<JsonVal>
    decreases items,
{
    if items.len() == 0 {
        Seq::empty()
    } else {
        view_arr(items.subrange(0, items.len() - 1)).push(items[items.len() - 1]@)
    }
}

pub open spec fn view_obj(pairs: Seq<(Vec<u8>, JsonValue)>) -> Seq<(Seq<u8>, JsonVal)>
    decreases pairs,
{
    if pairs.len() == 0 {
        Seq::empty()
    } else {
        view_obj(pairs.subrange(0, pairs.len() - 1)).push(
            (pairs[pairs.len() - 1].0@, pairs[pairs.len() - 1].1@),
        )
    }
}

impl View for JsonValue {
    type V = JsonVal;

    open spec fn view(&self) -> JsonVal
        decreases self,
    {
        match self {
            JsonValue::Null => JsonVal::Null,
            JsonValue::Bool(b) => JsonVal::Bool(*b),
            JsonValue::Num(t) => JsonVal::Num(t@),
            JsonValue::Str(s) => JsonVal::Str(s@),
            JsonValue::Arr(items) => JsonVal::Arr(view_arr(items@)),
            JsonValue::Obj(pairs) => JsonVal::Obj(view_obj(pairs@)),
        }
    }
}

pub broadcast proof fn lemma_view_arr_len(items: Seq<JsonValue>)
    ensures
        #[trigger] view_arr(items).len() == items.len(),
    decreases items,
{
    if items.len() > 0 {
        lemma_view_arr_len(items.subrange(0, items.len() - 1));
        assert(view_arr(items) == view_arr(items.subrange(0, items.len() - 1)).push(
            items[items.len() - 1]@,
        ));
    } else {
        assert(view_arr(items) == Seq::<JsonVal>::empty());
    }
}

pub broadcast proof fn lemma_view_arr_index(items: Seq<JsonValue>, i: int)
    requires
        0 <= i < items.len(),
    ensures
        #[trigger] view_arr(items)[i] == items[i]@,
    decreases items,
{
    lemma_view_arr_len(items);
    lemma_view_arr_len(items.subrange(0, items.len() - 1));
    assert(view_arr(items) == view_arr(items.subrange(0, items.len() - 1)).push(
        items[items.len() - 1]@,
    ));
    if i < items.len() - 1 {
        lemma_view_arr_index(items.subrange(0, items.len() - 1), i);
        assert(items.subrange(0, items.len() - 1)[i] == items[i]);
    }
}

pub broadcast proof fn lemma_view_obj_len(pairs: Seq<(Vec<u8>, JsonValue)>)
    ensures
        #[trigger] view_obj(pairs).len() == pairs.len(),
    decreases pairs,
{
    if pairs.len() > 0 {
        lemma_view_obj_len(pairs.subrange(0, pairs.len() - 1));
        assert(view_obj(pairs) == view_obj(pairs.subrange(0, pairs.len() - 1)).push(
            (pairs[pairs.len() - 1].0@, pairs[pairs.len() - 1].1@),
        ));
    } else {
        assert(view_obj(pairs) == Seq::<(Seq<u8>, JsonVal)>::empty());
    }
}

pub broadcast proof fn lemma_view_obj_index(pairs: Seq<(Vec<u8>, JsonValue)>, i: int)
    requires
        0 <= i < pairs.len(),
    ensures
        #[trigger] view_obj(pairs)[i] == (pairs[i].0@, pairs[i].1@),
    decreases pairs,
{
    lemma_view_obj_len(pairs);
    lemma_view_obj_len(pairs.subrange(0, pairs.len() - 1));
    assert(view_obj(pairs) == view_obj(pairs.subrange(0, pairs.len() - 1)).push(
        (pairs[pairs.len() - 1].0@, pairs[pairs.len() - 1].1@),
    ));
    if i < pairs.len() - 1 {
        lemma_view_obj_index(pairs.subrange(0, pairs.len() - 1), i);
        assert(pairs.subrange(0, pairs.len() - 1)[i] == pairs[i]);
    }
}

pub broadcast group group_json_view {
    lemma_view_arr_len,
    lemma_view_arr_index,
    lemma_view_obj_len,
    lemma_view_obj_index,
}


/// Appending an element appends its model.
pub proof fn lemma_view_arr_push(a: Seq<JsonValue>, x: JsonValue)
    ensures
        view_arr(a.push(x)) == view_arr(a).push(x@),
{
    let b = a.push(x);
    assert(b.subrange(0, b.len() - 1) =~= a);
    assert(b[b.len() - 1] == x);
}

/// Appending an entry appends its model.
pub proof fn lemma_view_obj_push(a: Seq<(Vec<u8>, JsonValue)>, x: (Vec<u8>, JsonValue))
    ensures
        view_obj(a.push(x)) == view_obj(a).push((x.0@, x.1@)),
{
    let b = a.push(x);
    assert(b.subrange(0, b.len() - 1) =~= a);
    assert(b[b.len() - 1] == x);
}

/// Replacing an entry replaces its model.
pub proof fn lemma_view_obj_update(a: Seq<(Vec<u8>, JsonValue)>, i: int, x: (Vec<u8>, JsonValue))
    requires
        0 <= i < a.len(),
    ensures
        view_obj(a.update(i, x)) == view_obj(a).update(i, (x.0@, x.1@)),
{
    broadcast use group_json_view;

    assert(view_obj(a.update(i, x)) =~= view_obj(a).update(i, (x.0@, x.1@)));
}

// ---------------------------------------------------------------------------
// Number literals
// ---------------------------------------------------------------------------
pub open spec fn is_digit(b: u8) -> bool {
    0x30 <= b <= 0x39
}

/// First index at or after `i` that does not hold a decimal digit.
pub open spec fn digits_end(t: Seq<u8>, i: int) -> int
    decreases t.len() - i,
{
    if 0 <= i < t.len() && is_digit(t[i]) {
        digits_end(t, i + 1)
    } else {
        i
    }
}

/// The JSON number grammar: an optional minus sign, an integer part without a
/// superfluous leading zero, an optional fraction, an optional exponent.
pub open spec fn is_number_token(t: Seq<u8>) -> bool {
    let i0: int = if t.len() > 0 && t[0] == 0x2d {
        1
    } else {
        0
    };
    if !(i0 < t.len() && is_digit(t[i0])) {
        false
    } else {
        let i1: int = if t[i0] == 0x30 {
            i0 + 1
        } else {
            digits_end(t, i0)
        };
        let i2: int = if i1 < t.len() && t[i1] == 0x2e {
            if i1 + 1 < t.len() && is_digit(t[i1 + 1]) {
                digits_end(t, i1 + 1)
            } else {
                -1
            }
        } else {
            i1
        };
        if i2 < 0 {
            false
        } else {
            let i3: int = if i2 < t.len() && (t[i2] == 0x65 || t[i2] == 0x45) {
                let k: int = if i2 + 1 < t.len() && (t[i2 + 1] == 0x2b || t[i2 + 1] == 0x2d) {
                    i2 + 2
                } else {
                    i2 + 1
                };
                if k < t.len() && is_digit(t[k]) {
                    digits_end(t, k)
                } else {
                    -1
                }
            } else {
                i2
            };
            i3 == t.len()
        }
    }
}

// ---------------------------------------------------------------------------
// Well-formedness
// ---------------------------------------------------------------------------
/// The keys of an object's entry list are pairwise distinct.
pub open spec fn obj_keys_unique<V>(m: Seq<(Seq<u8>, V)>) -> bool {
    forall|i: int, j: int| 0 <= i < j < m.len() ==> m[i].0 != m[j].0
}

/// A value is well formed when every number in it is a valid literal and
/// every object in it has pairwise-distinct keys.
pub open spec fn wf(v: JsonVal) -> bool
    decreases v,
{
    match v {
        JsonVal::Null => true,
        JsonVal::Bool(_) => true,
        JsonVal::Num(t) => is_number_token(t),
        JsonVal::Str(_) => true,
        JsonVal::Arr(items) => wf_arr(items),
        JsonVal::Obj(ps) => obj_keys_unique(ps) && wf_obj(ps),
    }
}

pub open spec fn wf_arr(items: Seq<JsonVal>) -> bool
    decreases items,
{
    items.len() == 0 || (wf_arr(items.subrange(0, items.len() - 1)) && wf(
        items[items.len() - 1],
    ))
}

pub open spec fn wf_obj(ps: Seq<(Seq<u8>, JsonVal)>) -> bool
    decreases ps,
{
    ps.len() == 0 || (wf_obj(ps.subrange(0, ps.len() - 1)) && wf(ps[ps.len() - 1].1))
}

pub broadcast proof fn lemma_wf_arr_index(items: Seq<JsonVal>, i: int)
    requires
        wf_arr(items),
        0 <= i < items.len(),
    ensures
        #[trigger] wf(items[i]),
    decreases items,
{
    if i < items.len() - 1 {
        assert(items.subrange(0, items.len() - 1)[i] == items[i]);
        lemma_wf_arr_index(items.subrange(0, items.len() - 1), i);
    }
}

pub broadcast proof fn lemma_wf_obj_index(ps: Seq<(Seq<u8>, JsonVal)>, i: int)
    requires
        wf_obj(ps),
        0 <= i < ps.len(),
    ensures
        #[trigger] wf(ps[i].1),
    decreases ps,
{
    if i < ps.len() - 1 {
        assert(ps.subrange(0, ps.len() - 1)[i] == ps[i]);
        lemma_wf_obj_index(ps.subrange(0, ps.len() - 1), i);
    }
}

/// Builds `wf_obj` back up from well-formedness of every entry's value.
pub proof fn lemma_wf_obj_all(ps: Seq<(Seq<u8>, JsonVal)>)
    requires
        forall|i: int| 0 <= i < ps.len() ==> wf(#[trigger] ps[i].1),
    ensures
        wf_obj(ps),
    decreases ps,
{
    if ps.len() > 0 {
        let pre = ps.subrange(0, ps.len() - 1);
        assert(forall|i: int| 0 <= i < pre.len() ==> wf(#[trigger] pre[i].1));
        lemma_wf_obj_all(pre);
    }
}

// ---------------------------------------------------------------------------
// The object map: lookup, insert-or-replace, removal
// ---------------------------------------------------------------------------
pub open spec fn obj_has_key<V>(m: Seq<(Seq<u8>, V)>, k: Seq<u8>) -> bool {
    exists|i: int| 0 <= i < m.len() && m[i].0 == k
}

/// The index of a key's entry (meaningful when the key is present and the
/// keys are distinct).
pub open spec fn obj_key_idx<V>(m: Seq<(Seq<u8>, V)>, k: Seq<u8>) -> int {
    choose|i: int| 0 <= i < m.len() && m[i].0 == k
}

/// The value at a key (meaningful when the key is present).
pub open spec fn obj_get<V>(m: Seq<(Seq<u8>, V)>, k: Seq<u8>) -> V {
    m[obj_key_idx(m, k)].1
}

/// Insert-or-replace: a present key keeps its position and gets the new
/// value; a fresh key is appended. The value is replaced wholesale.
pub open spec fn obj_set<V>(m: Seq<(Seq<u8>, V)>, k: Seq<u8>, v: V) -> Seq<(Seq<u8>, V)> {
    if obj_has_key(m, k) {
        m.update(obj_key_idx(m, k), (k, v))
    } else {
        m.push((k, v))
    }
}

/// Removal of a key's entry; without the key the map is unchanged.
pub open spec fn obj_remove<V>(m: Seq<(Seq<u8>, V)>, k: Seq<u8>) -> Seq<(Seq<u8>, V)> {
    if obj_has_key(m, k) {
        m.remove(obj_key_idx(m, k))
    } else {
        m
    }
}

pub proof fn lemma_obj_key_idx<V>(m: Seq<(Seq<u8>, V)>, k: Seq<u8>, i: int)
    requires
        obj_keys_unique(m),
        0 <= i < m.len(),
        m[i].0 == k,
    ensures
        obj_key_idx(m, k) == i,
{
    assert(obj_has_key(m, k));
    let j = obj_key_idx(m, k);
    assert(0 <= j < m.len() && m[j].0 == k);
}

/// What insert-or-replace does to every key: the inserted key maps to the new
/// value, every other key is untouched, and keys stay distinct.
pub proof fn lemma_obj_set<V>(m: Seq<(Seq<u8>, V)>, k: Seq<u8>, v: V)
    requires
        obj_keys_unique(m),
    ensures
        obj_keys_unique(obj_set(m, k, v)),
        obj_has_key(obj_set(m, k, v), k),
        obj_get(obj_set(m, k, v), k) == v,
        forall|k2: Seq<u8>|
            k2 != k ==> #[trigger] obj_has_key(obj_set(m, k, v), k2) == obj_has_key(m, k2),
        forall|k2: Seq<u8>|
            k2 != k && obj_has_key(m, k2) ==> #[trigger] obj_get(obj_set(m, k, v), k2) == obj_get(
                m,
                k2,
            ),
        obj_has_key(m, k) ==> obj_set(m, k, v).len() == m.len(),
        !obj_has_key(m, k) ==> obj_set(m, k, v).len() == m.len() + 1,
{
    let m2 = obj_set(m, k, v);
    if obj_has_key(m, k) {
        let i = obj_key_idx(m, k);
        assert(0 <= i < m.len() && m[i].0 == k);
        assert(forall|j: int| 0 <= j < m.len() && j != i ==> m2[j] == m[j]);
        assert(m2[i] == (k, v));
        lemma_obj_key_idx(m2, k, i);
        assert forall|k2: Seq<u8>| k2 != k implies #[trigger] obj_has_key(m2, k2) == obj_has_key(
            m,
            k2,
        ) by {
            if obj_has_key(m, k2) {
                let j = choose|j: int| 0 <= j < m.len() && m[j].0 == k2;
                assert(m2[j].0 == k2);
            }
            if obj_has_key(m2, k2) {
                let j = choose|j: int| 0 <= j < m2.len() && m2[j].0 == k2;
                assert(m[j].0 == k2);
            }
        }
        assert forall|k2: Seq<u8>| k2 != k && obj_has_key(m, k2) implies #[trigger] obj_get(
            m2,
            k2,
        ) == obj_get(m, k2) by {
            let j = obj_key_idx(m, k2);
            assert(0 <= j < m.len() && m[j].0 == k2);
            assert(j != i);
            lemma_obj_key_idx(m2, k2, j);
        }
    } else {
        assert(forall|j: int| 0 <= j < m.len() ==> m2[j] == m[j]);
        assert(m2[m.len() as int] == (k, v));
        assert(forall|j: int| 0 <= j < m.len() ==> m[j].0 != k);
        lemma_obj_key_idx(m2, k, m.len() as int);
        assert forall|k2: Seq<u8>| k2 != k implies #[trigger] obj_has_key(m2, k2) == obj_has_key(
            m,
            k2,
        ) by {
            if obj_has_key(m2, k2) {
                let j = choose|j: int| 0 <= j < m2.len() && m2[j].0 == k2;
                assert(j < m.len());
                assert(m[j].0 == k2);
            }
        }
        assert forall|k2: Seq<u8>| k2 != k && obj_has_key(m, k2) implies #[trigger] obj_get(
            m2,
            k2,
        ) == obj_get(m, k2) by {
            let j = obj_key_idx(m, k2);
            assert(0 <= j < m.len() && m[j].0 == k2);
            lemma_obj_key_idx(m2, k2, j);
        }
    }
}

/// What removal does to every key: the removed key is gone, every other key
/// keeps its value, and keys stay distinct.
pub proof fn lemma_obj_remove<V>(m: Seq<(Seq<u8>, V)>, k: Seq<u8>)
    requires
        obj_keys_unique(m),
        obj_has_key(m, k),
    ensures
        obj_keys_unique(obj_remove(m, k)),
        !obj_has_key(obj_remove(m, k), k),
        obj_remove(m, k).len() == m.len() - 1,
        forall|k2: Seq<u8>|
            k2 != k ==> #[trigger] obj_has_key(obj_remove(m, k), k2) == obj_has_key(m, k2),
        forall|k2: Seq<u8>|
            k2 != k && obj_has_key(m, k2) ==> #[trigger] obj_get(obj_remove(m, k), k2) == obj_get(
                m,
                k2,
            ),
{
    let i = obj_key_idx(m, k);
    assert(0 <= i < m.len() && m[i].0 == k);
    let m2 = obj_remove(m, k);
    m.remove_ensures(i);
    assert(forall|j: int| 0 <= j < i ==> m2[j] == m[j]);
    assert(forall|j: int| i <= j < m.len() - 1 ==> m2[j] == m[j + 1]);
    assert forall|j: int| 0 <= j < m2.len() implies m2[j].0 != k by {
        if j < i {
            assert(m2[j] == m[j]);
        } else {
            assert(m2[j] == m[j + 1]);
        }
    }
    assert forall|k2: Seq<u8>| k2 != k implies #[trigger] obj_has_key(m2, k2) == obj_has_key(
        m,
        k2,
    ) by {
        if obj_has_key(m, k2) {
            let j = choose|j: int| 0 <= j < m.len() && m[j].0 == k2;
            if j < i {
                assert(m2[j].0 == k2);
            } else {
                assert(j != i);
                assert(m2[j - 1].0 == k2);
            }
        }
        if obj_has_key(m2, k2) {
            let j = choose|j: int| 0 <= j < m2.len() && m2[j].0 == k2;
            if j < i {
                assert(m[j].0 == k2);
            } else {
                assert(m[j + 1].0 == k2);
            }
        }
    }
    assert forall|k2: Seq<u8>| k2 != k && obj_has_key(m, k2) implies #[trigger] obj_get(m2, k2)
        == obj_get(m, k2) by {
        let j = obj_key_idx(m, k2);
        assert(0 <= j < m.len() && m[j].0 == k2);
        if j < i {
            lemma_obj_key_idx(m2, k2, j);
        } else {
            assert(j != i);
            assert(m2[j - 1] == m[j]);
            lemma_obj_key_idx(m2, k2, j - 1);
        }
    }
}


/// Insert-or-replace keeps an object well formed.
pub proof fn lemma_wf_obj_set(m: Seq<(Seq<u8>, JsonVal)>, k: Seq<u8>, v: JsonVal)
    requires
        obj_keys_unique(m),
        wf_obj(m),
        wf(v),
    ensures
        obj_keys_unique(obj_set(m, k, v)),
        wf_obj(obj_set(m, k, v)),
{
    lemma_obj_set(m, k, v);
    let m2 = obj_set(m, k, v);
    assert forall|ii: int| 0 <= ii < m2.len() implies wf(#[trigger] m2[ii].1) by {
        if obj_has_key(m, k) {
            let idx = obj_key_idx(m, k);
            if ii != idx {
                assert(m2[ii] == m[ii]);
                lemma_wf_obj_index(m, ii);
            }
        } else {
            if ii < m.len() {
                assert(m2[ii] == m[ii]);
                lemma_wf_obj_index(m, ii);
            }
        }
    }
    lemma_wf_obj_all(m2);
}

/// Removal keeps an object well formed.
pub proof fn lemma_wf_obj_remove(m: Seq<(Seq<u8>, JsonVal)>, k: Seq<u8>)
    requires
        obj_keys_unique(m),
        wf_obj(m),
        obj_has_key(m, k),
    ensures
        obj_keys_unique(obj_remove(m, k)),
        wf_obj(obj_remove(m, k)),
{
    lemma_obj_remove(m, k);
    let idx = obj_key_idx(m, k);
    let m2 = obj_remove(m, k);
    m.remove_ensures(idx);
    assert forall|ii: int| 0 <= ii < m2.len() implies wf(#[trigger] m2[ii].1) by {
        if ii < idx {
            assert(m2[ii] == m[ii]);
            lemma_wf_obj_index(m, ii);
        } else {
            assert(m2[ii] == m[ii + 1]);
            lemma_wf_obj_index(m, ii + 1);
        }
    }
    lemma_wf_obj_all(m2);
}

// ---------------------------------------------------------------------------
// Executable helpers
// ---------------------------------------------------------------------------
/// Byte-for-byte equality of two byte strings.
pub fn bytes_eq(a: &[u8], b: &[u8]) -> (r: bool)
    ensures
        r == (a@ == b@),
{
    if a.len() != b.len() {
        proof {
            assert(a@.len() != b@.len());
        }
        return false;
    }
    let mut i: usize = 0;
    while i < a.len()
        invariant
            i <= a.len(),
            a.len() == b.len(),
            forall|j: int| 0 <= j < i ==> a@[j] == b@[j],
        decreases a.len() - i,
    {
        if a[i] != b[i] {
            return false;
        }
        i = i + 1;
    }
    proof {
        assert(a@ =~= b@);
    }
    true
}

/// The position of a key among a map's entries, if it is there.
pub fn obj_find<V>(pairs: &Vec<(Vec<u8>, V)>, k: &[u8]) -> (r: Option<usize>)
    ensures
        match r {
            Some(i) => i < pairs.len() && pairs@[i as int].0@ == k@,
            None => forall|j: int| 0 <= j < pairs.len() ==> pairs@[j].0@ != k@,
        },
{
    let mut i: usize = 0;
    while i < pairs.len()
        invariant
            i <= pairs.len(),
            forall|j: int| 0 <= j < i ==> pairs@[j].0@ != k@,
        decreases pairs.len() - i,
    {
        if bytes_eq(pairs[i].0.as_slice(), k) {
            return Some(i);
        }
        i = i + 1;
    }
    None
}


/// Insert-or-replace on an object's entries: a present key keeps its place,
/// a fresh key is appended.
pub fn obj_put(pairs: &mut Vec<(Vec<u8>, JsonValue)>, k: &[u8], v: JsonValue)
    requires
        obj_keys_unique(view_obj(old(pairs)@)),
    ensures
        view_obj(final(pairs)@) == obj_set(view_obj(old(pairs)@), k@, v@),
        obj_keys_unique(view_obj(final(pairs)@)),
{
    let ghost accq = pairs@;
    let ghost accv = view_obj(pairs@);
    let ghost vv = v@;
    proof {
        broadcast use group_json_view;

    }
    match obj_find(pairs, k) {
        Some(idx) => {
            proof {
                assert(accv[idx as int].0 == k@);
                lemma_obj_key_idx(accv, k@, idx as int);
                assert(obj_has_key(accv, k@));
            }
            let key = vstd::slice::slice_to_vec(k);
            pairs[idx] = (key, v);
            proof {
                assert(pairs@ == accq.update(idx as int, pairs@[idx as int]));
                assert(pairs@[idx as int].0@ == k@ && pairs@[idx as int].1@ == vv);
                lemma_view_obj_update(accq, idx as int, pairs@[idx as int]);
                assert(view_obj(pairs@) == obj_set(accv, k@, vv));
            }
        },
        None => {
            proof {
                assert forall|jj: int| 0 <= jj < accv.len() implies accv[jj].0 != k@ by {
                    assert(accv[jj].0 == accq[jj].0@);
                }
                assert(!obj_has_key(accv, k@));
            }
            let key = vstd::slice::slice_to_vec(k);
            pairs.push((key, v));
            proof {
                assert(pairs@ == accq.push(pairs@[pairs@.len() - 1]));
                assert(pairs@[pairs@.len() - 1].0@ == k@ && pairs@[pairs@.len() - 1].1@ == vv);
                lemma_view_obj_push(accq, pairs@[pairs@.len() - 1]);
                assert(view_obj(pairs@) == obj_set(accv, k@, vv));
            }
        },
    }
    proof {
        lemma_obj_set(accv, k@, vv);
    }
}

/// Removal of a key's entry; reports whether the key was there.
pub fn obj_del(pairs: &mut Vec<(Vec<u8>, JsonValue)>, k: &[u8]) -> (r: bool)
    requires
        obj_keys_unique(view_obj(old(pairs)@)),
    ensures
        r == obj_has_key(view_obj(old(pairs)@), k@),
        view_obj(final(pairs)@) == obj_remove(view_obj(old(pairs)@), k@),
        obj_keys_unique(view_obj(final(pairs)@)),
{
    let ghost accq = pairs@;
    let ghost accv = view_obj(pairs@);
    proof {
        broadcast use group_json_view;

    }
    match obj_find(pairs, k) {
        Some(idx) => {
            proof {
                assert(accv[idx as int].0 == k@);
                lemma_obj_key_idx(accv, k@, idx as int);
                assert(obj_has_key(accv, k@));
            }
            pairs.remove(idx);
            proof {
                assert(pairs@ == accq.remove(idx as int));
                accq.remove_ensures(idx as int);
                assert(view_obj(pairs@) =~= view_obj(accq).remove(idx as int)) by {
                    view_obj(accq).remove_ensures(idx as int);
                }
                lemma_obj_remove(accv, k@);
            }
            true
        },
        None => {
            proof {
                assert forall|jj: int| 0 <= jj < accv.len() implies accv[jj].0 != k@ by {
                    assert(accv[jj].0 == accq[jj].0@);
                }
                assert(!obj_has_key(accv, k@));
            }
            false
        },
    }
}

impl JsonValue {
    /// A structural copy; the copy models the same value.
    #[verifier::loop_isolation(false)]
    pub fn deep_clone(&self) -> (r: JsonValue)
        ensures
            r@ == self@,
        decreases self,
    {
        match self {
            JsonValue::Null => JsonValue::Null,
            JsonValue::Bool(b) => JsonValue::Bool(*b),
            JsonValue::Num(t) => JsonValue::Num(vstd::slice::slice_to_vec(t.as_slice())),
            JsonValue::Str(s) => JsonValue::Str(vstd::slice::slice_to_vec(s.as_slice())),
            JsonValue::Arr(items) => {
                let mut out: Vec<JsonValue> = Vec::new();
                let mut i: usize = 0;
                while i < items.len()
                    invariant
                        i <= items.len(),
                        out@.len() == i,
                        forall|j: int| 0 <= j < i ==> out@[j]@ == items@[j]@,
                    decreases items.len() - i,
                {
                    out.push(items[i].deep_clone());
                    i = i + 1;
                }
                proof {
                    broadcast use group_json_view;

                    assert(view_arr(out@) =~= view_arr(items@));
                }
                JsonValue::Arr(out)
            },
            JsonValue::Obj(ps) => {
                let mut out: Vec<(Vec<u8>, JsonValue)> = Vec::new();
                let mut i: usize = 0;
                while i < ps.len()
                    invariant
                        i <= ps.len(),
                        out@.len() == i,
                        forall|j: int|
                            0 <= j < i ==> out@[j].0@ == ps@[j].0@ && out@[j].1@ == ps@[j].1@,
                    decreases ps.len() - i,
                {
                    let key = vstd::slice::slice_to_vec(ps[i].0.as_slice());
                    let val = ps[i].1.deep_clone();
                    out.push((key, val));
                    i = i + 1;
                }
                proof {
                    broadcast use group_json_view;

                    assert(view_obj(out@) =~= view_obj(ps@));
                }
                JsonValue::Obj(out)
            },
        }
    }
}

} // verus!
