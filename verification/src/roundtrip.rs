//! Losslessness of the codec: parsing the serialized text of any well-formed
//! value yields that value again.

use crate::codec::{
    esc_byte, esc_char, esc_from, hex_digit, hex_val, is_hex, is_ws, json_parse, num_char, num_end,
    p_elems, p_members, p_string, p_value, ser, ser_items_from, ser_members_from, skip_ws,
    utf8_bytes,
};
use crate::json::{
    digits_end, is_digit, is_number_token, lemma_wf_arr_index, lemma_wf_obj_index,
    lemma_wf_obj_set, obj_has_key, obj_keys_unique, obj_set, wf, wf_arr, wf_obj, JsonVal,
};
use vstd::prelude::*;

verus! {

// ---------------------------------------------------------------------------
// Small facts about the scanners
// ---------------------------------------------------------------------------
/// A byte of a window known to sit inside the text.
proof fn lemma_at(s: Seq<u8>, i: int, w: Seq<u8>, m: int)
    requires
        0 <= i,
        0 <= m < w.len(),
        i + w.len() <= s.len(),
        s.subrange(i, i + w.len()) == w,
    ensures
        s[i + m] == w[m],
{
    assert(s.subrange(i, i + w.len())[m] == s[i + m]);
}

proof fn lemma_skip_ws_at(s: Seq<u8>, i: int)
    requires
        !(0 <= i < s.len()) || !is_ws(s[i]),
    ensures
        skip_ws(s, i) == i,
{
}

proof fn lemma_digits_end(t: Seq<u8>, i: int)
    requires
        0 <= i <= t.len(),
    ensures
        i <= digits_end(t, i) <= t.len(),
        forall|p: int| i <= p < digits_end(t, i) ==> is_digit(#[trigger] t[p]),
        digits_end(t, i) == t.len() || !is_digit(t[digits_end(t, i)]),
    decreases t.len() - i,
{
    if i < t.len() && is_digit(t[i]) {
        lemma_digits_end(t, i + 1);
    }
}

proof fn lemma_num_end_exact(s: Seq<u8>, i: int, e: int)
    requires
        0 <= i <= e <= s.len(),
        forall|p: int| i <= p < e ==> num_char(#[trigger] s[p]),
        e == s.len() || !num_char(s[e]),
    ensures
        num_end(s, i) == e,
    decreases e - i,
{
    if i < e {
        lemma_num_end_exact(s, i + 1, e);
    }
}

/// Every byte of a valid number literal is a number character, and the
/// literal starts with a minus sign or a digit.
proof fn lemma_number_chars(t: Seq<u8>)
    requires
        is_number_token(t),
    ensures
        t.len() > 0,
        t[0] == 0x2d || is_digit(t[0]),
        forall|p: int| 0 <= p < t.len() ==> num_char(#[trigger] t[p]),
{
    let i0: int = if t.len() > 0 && t[0] == 0x2d {
        1
    } else {
        0
    };
    lemma_digits_end(t, i0);
    let i1: int = if t[i0] == 0x30 {
        i0 + 1
    } else {
        digits_end(t, i0)
    };
    assert(i0 <= i1 <= t.len());
    assert(forall|p: int| i0 <= p < i1 ==> is_digit(#[trigger] t[p]));
    let i2: int = if i1 < t.len() && t[i1] == 0x2e {
        if i1 + 1 < t.len() && is_digit(t[i1 + 1]) {
            digits_end(t, i1 + 1)
        } else {
            -1
        }
    } else {
        i1
    };
    if i1 < t.len() && t[i1] == 0x2e {
        lemma_digits_end(t, i1 + 1);
    }
    assert(i1 <= i2 <= t.len());
    assert(forall|p: int| i1 <= p < i2 ==> num_char(#[trigger] t[p]));
    let i3: int = if i2 < t.len() && (t[i2] == 0x65 || t[i2] == 0x45) {
        let k: int = if i2 + 1 < t.len() && (t[i2 + 1] == 0x2b || t[i2 + 1] == 0x2d) {
            i2 + 2
        } else {
            i2 + 1
        };
        if k < t.len() && is_digit(t[k]) {
            digits_end(t, k)
        } else {
            -1
        }
    } else {
        i2
    };
    if i2 < t.len() && (t[i2] == 0x65 || t[i2] == 0x45) {
        let k: int = if i2 + 1 < t.len() && (t[i2 + 1] == 0x2b || t[i2 + 1] == 0x2d) {
            i2 + 2
        } else {
            i2 + 1
        };
        lemma_digits_end(t, k);
        assert(forall|p: int| i2 <= p < i3 ==> num_char(#[trigger] t[p]));
    }
    assert(i3 == t.len());
    assert forall|p: int| 0 <= p < t.len() implies num_char(#[trigger] t[p]) by {
        if p < i0 {
            assert(t[p] == 0x2d);
        } else if p < i1 {
        } else if p < i2 {
        } else {
        }
    }
}

/// The first byte a serialized value can start with: never whitespace, never
/// a separator or a closing bracket.
proof fn lemma_ser_head(v: JsonVal)
    requires
        wf(v),
    ensures
        ser(v).len() > 0,
        !is_ws(ser(v)[0]),
        ser(v)[0] != 0x5d,
        ser(v)[0] != 0x7d,
        ser(v)[0] != 0x2c,
        ser(v)[0] != 0x3a,
{
    match v {
        JsonVal::Num(t) => {
            lemma_number_chars(t);
        },
        _ => {},
    }
}

// ---------------------------------------------------------------------------
// Strings: parsing an escaped body recovers the bytes
// ---------------------------------------------------------------------------
proof fn lemma_hex_digit(n: u8)
    requires
        n < 16,
    ensures
        is_hex(hex_digit(n)),
        hex_val(hex_digit(n)) == n as int,
        !is_ws(hex_digit(n)),
{
}

#[verifier::rlimit(60)]
proof fn lemma_p_string_esc(t: Seq<u8>, k: int, s: Seq<u8>, i: int)
    requires
        0 <= k <= t.len(),
        0 <= i,
        i + esc_from(t, k).len() + 1 <= s.len(),
        s.subrange(i, i + esc_from(t, k).len()) == esc_from(t, k),
        s[i + esc_from(t, k).len()] == 0x22,
    ensures
        p_string(s, i) == Some((t.subrange(k, t.len() as int), i + esc_from(t, k).len() + 1)),
    decreases t.len() - k,
{
    let e = esc_from(t, k);
    if k == t.len() {
        assert(e.len() == 0);
        assert(s[i] == 0x22);
        assert(t.subrange(k, t.len() as int) =~= Seq::<u8>::empty());
    } else {
        let b = t[k];
        let eb = esc_byte(b);
        let e2 = esc_from(t, k + 1);
        assert(e == eb + e2);
        assert(e.len() == eb.len() + e2.len());
        let i2 = i + eb.len();
        assert(s.subrange(i2, i2 + e2.len()) =~= e2) by {
            assert forall|m: int| 0 <= m < e2.len() implies s.subrange(i2, i2 + e2.len())[m]
                == e2[m] by {
                assert(s.subrange(i2, i2 + e2.len())[m] == s[i2 + m]);
                lemma_at(s, i, e, eb.len() + m);
                assert(e[eb.len() + m] == e2[m]);
            }
        }
        lemma_p_string_esc(t, k + 1, s, i2);
        let tail = t.subrange(k + 1, t.len() as int);
        if b == 0x22 || b == 0x5c {
            lemma_at(s, i, e, 0);
            lemma_at(s, i, e, 1);
            assert(e[0] == eb[0] && e[1] == eb[1]);
            assert(s[i] == 0x5c);
            assert(esc_char(s[i + 1]) == Some(b));
            assert(seq![b] + tail =~= t.subrange(k, t.len() as int));
        } else if b < 0x20 {
            lemma_at(s, i, e, 0);
            lemma_at(s, i, e, 1);
            lemma_at(s, i, e, 2);
            lemma_at(s, i, e, 3);
            lemma_at(s, i, e, 4);
            lemma_at(s, i, e, 5);
            assert(e[0] == eb[0] && e[1] == eb[1] && e[2] == eb[2] && e[3] == eb[3] && e[4] == eb[4]
                && e[5] == eb[5]);
            assert(s[i] == 0x5c && s[i + 1] == 0x75);
            assert(s[i + 2] == 0x30 && s[i + 3] == 0x30);
            assert(s[i + 4] == hex_digit(b / 16) && s[i + 5] == hex_digit(b % 16));
            lemma_hex_digit(b / 16);
            lemma_hex_digit(b % 16);
            assert(hex_val(0x30) == 0 && is_hex(0x30));
            let cp = 4096 * hex_val(s[i + 2]) + 256 * hex_val(s[i + 3]) + 16 * hex_val(s[i + 4])
                + hex_val(s[i + 5]);
            assert(cp == 16 * (b / 16) + (b % 16));
            assert(cp == b) by {
                assert(16 * (b / 16) + (b % 16) == b) by (nonlinear_arith);
            }
            assert(utf8_bytes(cp) == seq![b]);
            assert(seq![b] + tail =~= t.subrange(k, t.len() as int));
        } else {
            lemma_at(s, i, e, 0);
            assert(e[0] == eb[0]);
            assert(s[i] == b);
            assert(seq![b] + tail =~= t.subrange(k, t.len() as int));
        }
    }
}

// ---------------------------------------------------------------------------
// The main induction: parsing serialized text
// ---------------------------------------------------------------------------
/// Nothing a number literal could run into: the end of the text or a byte
/// that is not a number character.
pub open spec fn ends_num(s: Seq<u8>, e: int) -> bool {
    e == s.len() || !num_char(s[e])
}


/// The main induction, for the leaf values: literals, numbers, strings.
#[verifier::rlimit(100)]
proof fn lemma_ser_parses_leaf(v: JsonVal, s: Seq<u8>, i: int)
    requires
        wf(v),
        !(v is Arr),
        !(v is Obj),
        0 <= i,
        i + ser(v).len() <= s.len(),
        s.subrange(i, i + ser(v).len()) == ser(v),
        ends_num(s, i + ser(v).len()),
    ensures
        p_value(s, i) == Some((v, i + ser(v).len())),
{
    let w = ser(v);
    lemma_ser_head(v);
    lemma_at(s, i, w, 0);
    assert(s[i] == w[0]);
    lemma_skip_ws_at(s, i);
    match v {
        JsonVal::Null => {
            lemma_at(s, i, w, 1);
            lemma_at(s, i, w, 2);
            lemma_at(s, i, w, 3);
        },
        JsonVal::Bool(b) => {
            lemma_at(s, i, w, 1);
            lemma_at(s, i, w, 2);
            lemma_at(s, i, w, 3);
            if !b {
                lemma_at(s, i, w, 4);
            }
        },
        JsonVal::Num(t) => {
            lemma_number_chars(t);
            assert forall|p: int| i <= p < i + t.len() implies num_char(#[trigger] s[p]) by {
                lemma_at(s, i, w, p - i);
            }
            lemma_num_end_exact(s, i, i + t.len());
            assert(s.subrange(i, i + t.len()) == t);
        },
        JsonVal::Str(st) => {
            assert(s[i] == 0x22);
            let e = esc_from(st, 0);
            assert(w == seq![0x22u8] + e + seq![0x22u8]);
            assert(s.subrange(i + 1, i + 1 + e.len()) =~= e) by {
                assert forall|m: int| 0 <= m < e.len() implies s.subrange(i + 1, i + 1 + e.len())[m]
                    == e[m] by {
                    assert(s.subrange(i + 1, i + 1 + e.len())[m] == s[i + 1 + m]);
                    lemma_at(s, i, w, 1 + m);
                    assert(w[1 + m] == e[m]);
                }
            }
            lemma_at(s, i, w, w.len() - 1);
            assert(s[i + 1 + e.len()] == 0x22);
            lemma_p_string_esc(st, 0, s, i + 1);
            assert(st.subrange(0, st.len() as int) =~= st);
        },
        _ => {},
    }
}

/// The main induction, for arrays.
#[verifier::rlimit(100)]
proof fn lemma_ser_parses_arr(items: Seq<JsonVal>, s: Seq<u8>, i: int)
    requires
        wf(JsonVal::Arr(items)),
        0 <= i,
        i + ser(JsonVal::Arr(items)).len() <= s.len(),
        s.subrange(i, i + ser(JsonVal::Arr(items)).len()) == ser(JsonVal::Arr(items)),
    ensures
        p_value(s, i) == Some((JsonVal::Arr(items), i + ser(JsonVal::Arr(items)).len())),
    decreases JsonVal::Arr(items), 1int,
{
    let v = JsonVal::Arr(items);
    let w = ser(v);
    lemma_at(s, i, w, 0);
    assert(s[i] == w[0] == 0x5b);
    lemma_skip_ws_at(s, i);
    let body = ser_items_from(items, 0);
    assert(w == seq![0x5bu8] + body + seq![0x5du8]);
    let e = i + 1 + body.len();
    lemma_at(s, i, w, w.len() - 1);
    assert(s[e] == 0x5d);
    if items.len() == 0 {
        assert(body.len() == 0);
        lemma_skip_ws_at(s, i + 1);
        assert(items =~= Seq::<JsonVal>::empty());
    } else {
        assert(s.subrange(i + 1, e) =~= body) by {
            assert forall|m: int| 0 <= m < body.len() implies s.subrange(i + 1, e)[m]
                == body[m] by {
                assert(s.subrange(i + 1, e)[m] == s[i + 1 + m]);
                lemma_at(s, i, w, 1 + m);
                assert(w[1 + m] == body[m]);
            }
        }
        lemma_wf_arr_index(items, 0);
        lemma_ser_head(items[0]);
        lemma_at(s, i + 1, body, 0);
        assert(body[0] == ser(items[0])[0]);
        assert(s[i + 1] == ser(items[0])[0]);
        lemma_skip_ws_at(s, i + 1);
        assert(skip_ws(s, i + 1) == i + 1);
        assert(s[i + 1] != 0x5d);
        lemma_ser_items_parse(items, 0, Seq::empty(), s, i + 1, e);
        assert(Seq::<JsonVal>::empty() + items.subrange(0, items.len() as int) =~= items);
        assert(p_elems(s, i + 1, Seq::empty()) == Some((items, e + 1)));
    }
}

/// The main induction, for objects.
#[verifier::rlimit(100)]
proof fn lemma_ser_parses_obj(ps: Seq<(Seq<u8>, JsonVal)>, s: Seq<u8>, i: int)
    requires
        wf(JsonVal::Obj(ps)),
        0 <= i,
        i + ser(JsonVal::Obj(ps)).len() <= s.len(),
        s.subrange(i, i + ser(JsonVal::Obj(ps)).len()) == ser(JsonVal::Obj(ps)),
    ensures
        p_value(s, i) == Some((JsonVal::Obj(ps), i + ser(JsonVal::Obj(ps)).len())),
    decreases JsonVal::Obj(ps), 1int,
{
    let v = JsonVal::Obj(ps);
    let w = ser(v);
    lemma_at(s, i, w, 0);
    assert(s[i] == w[0] == 0x7b);
    lemma_skip_ws_at(s, i);
    let body = ser_members_from(ps, 0);
    assert(w == seq![0x7bu8] + body + seq![0x7du8]);
    let e = i + 1 + body.len();
    lemma_at(s, i, w, w.len() - 1);
    assert(s[e] == 0x7d);
    if ps.len() == 0 {
        assert(body.len() == 0);
        lemma_skip_ws_at(s, i + 1);
        assert(ps =~= Seq::<(Seq<u8>, JsonVal)>::empty());
    } else {
        assert(s.subrange(i + 1, e) =~= body) by {
            assert forall|m: int| 0 <= m < body.len() implies s.subrange(i + 1, e)[m]
                == body[m] by {
                assert(s.subrange(i + 1, e)[m] == s[i + 1 + m]);
                lemma_at(s, i, w, 1 + m);
                assert(w[1 + m] == body[m]);
            }
        }
        lemma_at(s, i + 1, body, 0);
        assert(body[0] == 0x22);
        assert(s[i + 1] == 0x22);
        lemma_skip_ws_at(s, i + 1);
        assert(s[i + 1] != 0x7d);
        assert(ps.subrange(0, 0) =~= Seq::<(Seq<u8>, JsonVal)>::empty());
        lemma_ser_members_parse(ps, 0, s, i + 1, e);
        assert(p_members(s, i + 1, Seq::empty()) == Some((ps, e + 1)));
    }
}

/// The main induction: at any position where the serialized text of a
/// well-formed value sits, followed by the end of the text or a separator,
/// the parser reads exactly that value.
proof fn lemma_ser_parses(v: JsonVal, s: Seq<u8>, i: int)
    requires
        wf(v),
        0 <= i,
        i + ser(v).len() <= s.len(),
        s.subrange(i, i + ser(v).len()) == ser(v),
        ends_num(s, i + ser(v).len()),
    ensures
        p_value(s, i) == Some((v, i + ser(v).len())),
    decreases v, 2int,
{
    match v {
        JsonVal::Arr(items) => {
            lemma_ser_parses_arr(items, s, i);
        },
        JsonVal::Obj(ps) => {
            lemma_ser_parses_obj(ps, s, i);
        },
        _ => {
            lemma_ser_parses_leaf(v, s, i);
        },
    }
}

/// Parsing the serialized elements `k..` of an array, with the elements
/// before `k` already read, reads the whole array.
#[verifier::rlimit(100)]
proof fn lemma_ser_items_parse(
    items: Seq<JsonVal>,
    k: int,
    acc: Seq<JsonVal>,
    s: Seq<u8>,
    i: int,
    e: int,
)
    requires
        wf_arr(items),
        0 <= k < items.len(),
        0 <= i,
        e == i + ser_items_from(items, k).len(),
        e < s.len(),
        s.subrange(i, e) == ser_items_from(items, k),
        s[e] == 0x5d,
    ensures
        p_elems(s, i, acc) == Some((acc + items.subrange(k, items.len() as int), e + 1)),
    decreases items, items.len() - k,
{
    let body = ser_items_from(items, k);
    lemma_wf_arr_index(items, k);
    let w0 = ser(items[k]);
    let n = i + w0.len();
    assert(s.subrange(i, n) =~= w0) by {
        assert forall|m: int| 0 <= m < w0.len() implies s.subrange(i, n)[m] == w0[m] by {
            assert(s.subrange(i, n)[m] == s[i + m]);
            lemma_at(s, i, body, m);
            assert(body[m] == w0[m]);
        }
    }
    lemma_ser_head(items[k]);
    if k + 1 < items.len() {
        assert(body == w0 + (seq![0x2cu8] + ser_items_from(items, k + 1)));
        lemma_at(s, i, body, w0.len() as int);
        assert(s[n] == 0x2c);
        lemma_ser_parses(items[k], s, i);
        lemma_skip_ws_at(s, n);
        let body2 = ser_items_from(items, k + 1);
        assert(s.subrange(n + 1, e) =~= body2) by {
            assert forall|m: int| 0 <= m < body2.len() implies s.subrange(n + 1, e)[m]
                == body2[m] by {
                assert(s.subrange(n + 1, e)[m] == s[n + 1 + m]);
                lemma_at(s, i, body, w0.len() + 1 + m);
                assert(body[w0.len() + 1 + m] == (seq![0x2cu8] + body2)[1 + m]);
            }
        }
        lemma_ser_items_parse(items, k + 1, acc.push(items[k]), s, n + 1, e);
        assert(acc.push(items[k]) + items.subrange(k + 1, items.len() as int) =~= acc
            + items.subrange(k, items.len() as int));
    } else {
        assert(body =~= w0 + Seq::<u8>::empty());
        assert(body =~= w0);
        assert(n == e);
        lemma_ser_parses(items[k], s, i);
        lemma_skip_ws_at(s, n);
        assert(acc.push(items[k]) =~= acc + items.subrange(k, items.len() as int));
    }
}

/// Parsing the serialized members `k..` of an object, with the members
/// before `k` already read, reads the whole object.
#[verifier::rlimit(100)]
proof fn lemma_ser_members_parse(ps: Seq<(Seq<u8>, JsonVal)>, k: int, s: Seq<u8>, i: int, e: int)
    requires
        obj_keys_unique(ps),
        wf_obj(ps),
        0 <= k < ps.len(),
        0 <= i,
        e == i + ser_members_from(ps, k).len(),
        e < s.len(),
        s.subrange(i, e) == ser_members_from(ps, k),
        s[e] == 0x7d,
    ensures
        p_members(s, i, ps.subrange(0, k)) == Some((ps, e + 1)),
    decreases ps, ps.len() - k,
{
    let body = ser_members_from(ps, k);
    let key = ps[k].0;
    let ke = esc_from(key, 0);
    let w0 = ser(ps[k].1);
    let head = seq![0x22u8] + ke + seq![0x22u8, 0x3au8];
    assert(body == head + w0 + (if k + 1 < ps.len() {
        seq![0x2cu8] + ser_members_from(ps, k + 1)
    } else {
        Seq::<u8>::empty()
    }));
    // the key string
    lemma_at(s, i, body, 0);
    assert(s[i] == 0x22);
    lemma_skip_ws_at(s, i);
    assert(s.subrange(i + 1, i + 1 + ke.len()) =~= ke) by {
        assert forall|m: int| 0 <= m < ke.len() implies s.subrange(i + 1, i + 1 + ke.len())[m]
            == ke[m] by {
            assert(s.subrange(i + 1, i + 1 + ke.len())[m] == s[i + 1 + m]);
            lemma_at(s, i, body, 1 + m);
            assert(body[1 + m] == head[1 + m]);
        }
    }
    lemma_at(s, i, body, (1 + ke.len()) as int);
    assert(s[i + 1 + ke.len()] == head[(1 + ke.len()) as int] == 0x22);
    lemma_p_string_esc(key, 0, s, i + 1);
    assert(key.subrange(0, key.len() as int) =~= key);
    let kq = i + 2 + ke.len();
    assert(p_string(s, i + 1) == Some((key, kq)));
    // the colon
    lemma_at(s, i, body, head.len() - 1);
    assert(s[kq] == head[head.len() - 1] == 0x3a);
    lemma_skip_ws_at(s, kq);
    // the value
    let n = kq + 1 + w0.len();
    assert(s.subrange(kq + 1, n) =~= w0) by {
        assert forall|m: int| 0 <= m < w0.len() implies s.subrange(kq + 1, n)[m] == w0[m] by {
            assert(s.subrange(kq + 1, n)[m] == s[kq + 1 + m]);
            lemma_at(s, i, body, head.len() + m);
            assert(body[head.len() + m] == w0[m]);
        }
    }
    lemma_wf_obj_index(ps, k);
    lemma_ser_head(ps[k].1);
    // the accumulated members: adding this key appends, since keys are unique
    let acc = ps.subrange(0, k);
    assert forall|jj: int| 0 <= jj < acc.len() implies acc[jj].0 != key by {
        assert(acc[jj] == ps[jj]);
    }
    assert(!obj_has_key(acc, key));
    assert(obj_set(acc, key, ps[k].1) =~= ps.subrange(0, k + 1)) by {
        assert(obj_set(acc, key, ps[k].1) == acc.push((key, ps[k].1)));
        assert((key, ps[k].1) == ps[k]);
    }
    if k + 1 < ps.len() {
        lemma_at(s, i, body, (head.len() + w0.len()) as int);
        assert(s[n] == 0x2c);
        lemma_ser_parses(ps[k].1, s, kq + 1);
        lemma_skip_ws_at(s, n);
        let body2 = ser_members_from(ps, k + 1);
        assert(s.subrange(n + 1, e) =~= body2) by {
            assert forall|m: int| 0 <= m < body2.len() implies s.subrange(n + 1, e)[m]
                == body2[m] by {
                assert(s.subrange(n + 1, e)[m] == s[n + 1 + m]);
                lemma_at(s, i, body, head.len() + w0.len() + 1 + m);
                assert(body[head.len() + w0.len() + 1 + m] == (seq![0x2cu8] + body2)[1 + m]);
            }
        }
        lemma_ser_members_parse(ps, k + 1, s, n + 1, e);
    } else {
        assert(body =~= head + w0);
        assert(n == e);
        lemma_ser_parses(ps[k].1, s, kq + 1);
        lemma_skip_ws_at(s, n);
        assert(ps.subrange(0, k + 1) =~= ps);
    }
}

/// The codec is lossless: the text written for a well-formed value reads
/// back as exactly that value.
pub proof fn lemma_codec_roundtrip(v: JsonVal)
    requires
        wf(v),
    ensures
        json_parse(ser(v)) == Some(v),
{
    let s = ser(v);
    assert(s.subrange(0, s.len() as int) =~= s);
    lemma_ser_parses(v, s, 0);
    assert(skip_ws(s, s.len() as int) == s.len());
}

// ---------------------------------------------------------------------------
// Every parsed value is well formed
// ---------------------------------------------------------------------------
#[verifier::rlimit(100)]
proof fn lemma_p_value_wf(s: Seq<u8>, i: int)
    ensures
        match p_value(s, i) {
            Some(r) => wf(r.0),
            None => true,
        },
    decreases s.len() - i, 0int,
{
    let j = skip_ws(s, i);
    if !(i <= j < s.len()) {
    } else if s[j] == 0x22 {
    } else if s[j] == 0x5b {
        let k = skip_ws(s, j + 1);
        if j + 1 <= k < s.len() && s[k] == 0x5d {
        } else {
            lemma_p_elems_wf(s, j + 1, Seq::empty());
        }
    } else if s[j] == 0x7b {
        let k = skip_ws(s, j + 1);
        if j + 1 <= k < s.len() && s[k] == 0x7d {
        } else {
            lemma_p_members_wf(s, j + 1, Seq::empty());
        }
    } else {
    }
}

#[verifier::rlimit(100)]
proof fn lemma_p_elems_wf(s: Seq<u8>, i: int, acc: Seq<JsonVal>)
    requires
        wf_arr(acc),
    ensures
        match p_elems(s, i, acc) {
            Some(r) => wf_arr(r.0),
            None => true,
        },
    decreases s.len() - i, 1int,
{
    lemma_p_value_wf(s, i);
    match p_value(s, i) {
        None => {},
        Some((v, j)) => {
            if !(i < j <= s.len()) {
            } else {
                let q = skip_ws(s, j);
                if !(j <= q < s.len()) {
                } else {
                    let acc2 = acc.push(v);
                    assert(wf_arr(acc2)) by {
                        assert(acc2.subrange(0, acc2.len() - 1) =~= acc);
                    }
                    if s[q] == 0x2c {
                        lemma_p_elems_wf(s, q + 1, acc2);
                    }
                }
            }
        },
    }
}

#[verifier::rlimit(100)]
proof fn lemma_p_members_wf(s: Seq<u8>, i: int, acc: Seq<(Seq<u8>, JsonVal)>)
    requires
        obj_keys_unique(acc),
        wf_obj(acc),
    ensures
        match p_members(s, i, acc) {
            Some(r) => obj_keys_unique(r.0) && wf_obj(r.0),
            None => true,
        },
    decreases s.len() - i, 1int,
{
    let j = skip_ws(s, i);
    if !(i <= j < s.len()) {
    } else if s[j] != 0x22 {
    } else {
        match p_string(s, j + 1) {
            None => {},
            Some((key, k)) => {
                if !(j + 1 < k <= s.len()) {
                } else {
                    let m = skip_ws(s, k);
                    if !(k <= m < s.len()) {
                    } else if s[m] != 0x3a {
                    } else {
                        lemma_p_value_wf(s, m + 1);
                        match p_value(s, m + 1) {
                            None => {},
                            Some((v, n)) => {
                                if !(m + 1 <= n <= s.len()) {
                                } else {
                                    let acc2 = obj_set(acc, key, v);
                                    lemma_wf_obj_set(acc, key, v);
                                    let q = skip_ws(s, n);
                                    if !(n <= q < s.len()) {
                                    } else if s[q] == 0x2c {
                                        lemma_p_members_wf(s, q + 1, acc2);
                                    }
                                }
                            },
                        }
                    }
                }
            },
        }
    }
}

/// Whatever the parser accepts is well formed: numbers are valid literals
/// and object keys are pairwise distinct.
pub proof fn lemma_parse_wf(s: Seq<u8>)
    ensures
        match json_parse(s) {
            Some(v) => wf(v),
            None => true,
        },
{
    lemma_p_value_wf(s, 0);
}

/// Re-encoding a decoded text and decoding it again yields the same value:
/// serialization loses nothing of any value that was ever decoded.
pub proof fn lemma_reencode_stable(s: Seq<u8>)
    requires
        json_parse(s) is Some,
    ensures
        json_parse(ser(json_parse(s).unwrap())) == json_parse(s),
{
    lemma_parse_wf(s);
    lemma_codec_roundtrip(json_parse(s).unwrap());
}

} // verus!
