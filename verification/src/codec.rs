//! The JSON text codec.
//!
//! A collection is stored as one UTF-8 JSON text. `ser` is the text the
//! encoder produces for a value; `p_value` is the value the parser reads at a
//! position. Both are spec-level definitions; `encode_json` and `parse_json`
//! are the executable functions proved against them, and `roundtrip` proves
//! that decoding an encoded well-formed value gives the value back.
//!
//! The parser accepts standard JSON with two stated bounds: an escaped
//! surrogate pair is rejected — a character beyond the basic multilingual
//! plane travels as its raw UTF-8 bytes instead — and numbers keep their
//! literal spelling rather than being converted.

use crate::json::{
    digits_end, is_digit, is_number_token, lemma_obj_key_idx, lemma_obj_set, lemma_view_arr_push,
    lemma_view_obj_push, lemma_view_obj_update, obj_find, obj_has_key, obj_keys_unique, obj_set,
    view_arr, view_obj, JsonVal, JsonValue,
};
use vstd::prelude::*;

verus! {

broadcast use crate::json::group_json_view;

// ---------------------------------------------------------------------------
// The serialized text of a value
// ---------------------------------------------------------------------------
/// The low hex digit (lower case) of a nibble.
pub open spec fn hex_digit(n: u8) -> u8 {
    if n < 10 {
        (0x30 + n) as u8
    } else {
        (0x57 + n) as u8
    }
}

/// How one string byte is written: quote and backslash get a backslash,
/// control bytes get a `\u00XX` escape, everything else stands as itself.
pub open spec fn esc_byte(b: u8) -> Seq<u8> {
    if b == 0x22 {
        seq![0x5c, 0x22]
    } else if b == 0x5c {
        seq![0x5c, 0x5c]
    } else if b < 0x20 {
        seq![0x5c, 0x75, 0x30, 0x30, hex_digit(b / 16), hex_digit(b % 16)]
    } else {
        seq![b]
    }
}

/// The escaped form of a string's bytes from index `k` on.
pub open spec fn esc_from(s: Seq<u8>, k: int) -> Seq<u8>
    decreases s.len() - k,
{
    if 0 <= k < s.len() {
        esc_byte(s[k]) + esc_from(s, k + 1)
    } else {
        Seq::empty()
    }
}

/// The serialized text of a value: minimal JSON, no added whitespace,
/// object entries in document order.
pub open spec fn ser(v: JsonVal) -> Seq<u8>
    decreases v, 0int,
{
    match v {
        JsonVal::Null => seq![0x6e, 0x75, 0x6c, 0x6c],
        JsonVal::Bool(b) => if b {
            seq![0x74, 0x72, 0x75, 0x65]
        } else {
            seq![0x66, 0x61, 0x6c, 0x73, 0x65]
        },
        JsonVal::Num(t) => t,
        JsonVal::Str(s) => seq![0x22] + esc_from(s, 0) + seq![0x22],
        JsonVal::Arr(items) => seq![0x5b] + ser_items_from(items, 0) + seq![0x5d],
        JsonVal::Obj(ps) => seq![0x7b] + ser_members_from(ps, 0) + seq![0x7d],
    }
}

/// The elements from index `k` on, comma-separated.
pub open spec fn ser_items_from(items: Seq<JsonVal>, k: int) -> Seq<u8>
    decreases items, items.len() - k,
{
    if 0 <= k < items.len() {
        ser(items[k]) + (if k + 1 < items.len() {
            seq![0x2c] + ser_items_from(items, k + 1)
        } else {
            Seq::empty()
        })
    } else {
        Seq::empty()
    }
}

/// The members from index `k` on: `"key":value`, comma-separated.
pub open spec fn ser_members_from(ps: Seq<(Seq<u8>, JsonVal)>, k: int) -> Seq<u8>
    decreases ps, ps.len() - k,
{
    if 0 <= k < ps.len() {
        seq![0x22] + esc_from(ps[k].0, 0) + seq![0x22, 0x3a] + ser(ps[k].1) + (if k + 1 < ps.len() {
            seq![0x2c] + ser_members_from(ps, k + 1)
        } else {
            Seq::empty()
        })
    } else {
        Seq::empty()
    }
}

// ---------------------------------------------------------------------------
// The parsed value at a position
// ---------------------------------------------------------------------------
pub open spec fn is_ws(b: u8) -> bool {
    b == 0x20 || b == 0x09 || b == 0x0a || b == 0x0d
}

/// First index at or after `i` that does not hold whitespace.
pub open spec fn skip_ws(s: Seq<u8>, i: int) -> int
    decreases s.len() - i,
{
    if 0 <= i < s.len() && is_ws(s[i]) {
        skip_ws(s, i + 1)
    } else {
        i
    }
}

pub open spec fn is_hex(b: u8) -> bool {
    is_digit(b) || 0x61 <= b <= 0x66 || 0x41 <= b <= 0x46
}

pub open spec fn hex_val(b: u8) -> int {
    if is_digit(b) {
        b - 0x30
    } else if 0x61 <= b <= 0x66 {
        b - 0x57
    } else {
        b - 0x37
    }
}

/// The byte named by a single-character escape, if the character names one.
pub open spec fn esc_char(c: u8) -> Option<u8> {
    if c == 0x22 {
        Some(0x22u8)
    } else if c == 0x5c {
        Some(0x5cu8)
    } else if c == 0x2f {
        Some(0x2fu8)
    } else if c == 0x62 {
        Some(0x08u8)
    } else if c == 0x66 {
        Some(0x0cu8)
    } else if c == 0x6e {
        Some(0x0au8)
    } else if c == 0x72 {
        Some(0x0du8)
    } else if c == 0x74 {
        Some(0x09u8)
    } else {
        None
    }
}

/// The UTF-8 encoding of a code point below 0x10000.
pub open spec fn utf8_bytes(cp: int) -> Seq<u8> {
    if cp < 0x80 {
        seq![cp as u8]
    } else if cp < 0x800 {
        seq![(0xc0 + cp / 64) as u8, (0x80 + cp % 64) as u8]
    } else {
        seq![(0xe0 + cp / 4096) as u8, (0x80 + (cp / 64) % 64) as u8, (0x80 + cp % 64) as u8]
    }
}

/// The string content read from just after an opening quote: the unescaped
/// bytes and the index just past the closing quote.
pub open spec fn p_string(s: Seq<u8>, i: int) -> Option<(Seq<u8>, int)>
    decreases s.len() - i,
{
    if !(0 <= i < s.len()) {
        None
    } else if s[i] == 0x22 {
        Some((Seq::empty(), i + 1))
    } else if s[i] == 0x5c {
        if i + 1 < s.len() {
            let c = s[i + 1];
            if c == 0x75 {
                if i + 6 <= s.len() && is_hex(s[i + 2]) && is_hex(s[i + 3]) && is_hex(s[i + 4])
                    && is_hex(s[i + 5]) {
                    let cp = 4096 * hex_val(s[i + 2]) + 256 * hex_val(s[i + 3]) + 16 * hex_val(
                        s[i + 4],
                    ) + hex_val(s[i + 5]);
                    if 0xd800 <= cp < 0xe000 {
                        None
                    } else {
                        match p_string(s, i + 6) {
                            Some((t, j)) => Some((utf8_bytes(cp) + t, j)),
                            None => None,
                        }
                    }
                } else {
                    None
                }
            } else {
                match esc_char(c) {
                    Some(b) => match p_string(s, i + 2) {
                        Some((t, j)) => Some((seq![b] + t, j)),
                        None => None,
                    },
                    None => None,
                }
            }
        } else {
            None
        }
    } else if s[i] < 0x20 {
        None
    } else {
        match p_string(s, i + 1) {
            Some((t, j)) => Some((seq![s[i]] + t, j)),
            None => None,
        }
    }
}

/// The characters that can occur in a number literal.
pub open spec fn num_char(b: u8) -> bool {
    is_digit(b) || b == 0x2d || b == 0x2b || b == 0x2e || b == 0x65 || b == 0x45
}

/// First index at or after `i` that does not hold a number character.
pub open spec fn num_end(s: Seq<u8>, i: int) -> int
    decreases s.len() - i,
{
    if 0 <= i < s.len() && num_char(s[i]) {
        num_end(s, i + 1)
    } else {
        i
    }
}

/// The number read at `i`: the longest run of number characters, accepted
/// when it spells a valid literal.
pub open spec fn p_number(s: Seq<u8>, i: int) -> Option<(JsonVal, int)> {
    let e = num_end(s, i);
    if 0 <= i <= e <= s.len() && is_number_token(s.subrange(i, e)) {
        Some((JsonVal::Num(s.subrange(i, e)), e))
    } else {
        None
    }
}

/// The value read at `i` (leading whitespace allowed) and the index just
/// past it; `None` when the text is not JSON.
pub open spec fn p_value(s: Seq<u8>, i: int) -> Option<(JsonVal, int)>
    decreases s.len() - i, 0int,
{
    let j = skip_ws(s, i);
    if !(i <= j < s.len()) {
        None
    } else if s[j] == 0x22 {
        match p_string(s, j + 1) {
            Some((t, k)) => Some((JsonVal::Str(t), k)),
            None => None,
        }
    } else if s[j] == 0x5b {
        let k = skip_ws(s, j + 1);
        if j + 1 <= k < s.len() && s[k] == 0x5d {
            Some((JsonVal::Arr(Seq::empty()), k + 1))
        } else {
            match p_elems(s, j + 1, Seq::empty()) {
                Some((vs, k2)) => Some((JsonVal::Arr(vs), k2)),
                None => None,
            }
        }
    } else if s[j] == 0x7b {
        let k = skip_ws(s, j + 1);
        if j + 1 <= k < s.len() && s[k] == 0x7d {
            Some((JsonVal::Obj(Seq::empty()), k + 1))
        } else {
            match p_members(s, j + 1, Seq::empty()) {
                Some((ps, k2)) => Some((JsonVal::Obj(ps), k2)),
                None => None,
            }
        }
    } else if s[j] == 0x6e {
        if j + 4 <= s.len() && s[j + 1] == 0x75 && s[j + 2] == 0x6c && s[j + 3] == 0x6c {
            Some((JsonVal::Null, j + 4))
        } else {
            None
        }
    } else if s[j] == 0x74 {
        if j + 4 <= s.len() && s[j + 1] == 0x72 && s[j + 2] == 0x75 && s[j + 3] == 0x65 {
            Some((JsonVal::Bool(true), j + 4))
        } else {
            None
        }
    } else if s[j] == 0x66 {
        if j + 5 <= s.len() && s[j + 1] == 0x61 && s[j + 2] == 0x6c && s[j + 3] == 0x73 && s[j + 4]
            == 0x65 {
            Some((JsonVal::Bool(false), j + 5))
        } else {
            None
        }
    } else {
        p_number(s, j)
    }
}

/// The array elements read from `i` (just after `[` or a comma), appended
/// to those already read.
pub open spec fn p_elems(s: Seq<u8>, i: int, acc: Seq<JsonVal>) -> Option<(Seq<JsonVal>, int)>
    decreases s.len() - i, 1int,
{
    match p_value(s, i) {
        None => None,
        Some((v, j)) => {
            if !(i < j <= s.len()) {
                None
            } else {
                let q = skip_ws(s, j);
                if !(j <= q < s.len()) {
                    None
                } else if s[q] == 0x2c {
                    p_elems(s, q + 1, acc.push(v))
                } else if s[q] == 0x5d {
                    Some((acc.push(v), q + 1))
                } else {
                    None
                }
            }
        },
    }
}

/// The object members read from `i` (just after `{` or a comma), written
/// into those already read; a repeated key keeps its place and the later
/// value wins.
pub open spec fn p_members(s: Seq<u8>, i: int, acc: Seq<(Seq<u8>, JsonVal)>) -> Option<
    (Seq<(Seq<u8>, JsonVal)>, int),
>
    decreases s.len() - i, 1int,
{
    let j = skip_ws(s, i);
    if !(i <= j < s.len()) {
        None
    } else if s[j] != 0x22 {
        None
    } else {
        match p_string(s, j + 1) {
            None => None,
            Some((key, k)) => {
                if !(j + 1 < k <= s.len()) {
                    None
                } else {
                    let m = skip_ws(s, k);
                    if !(k <= m < s.len()) {
                        None
                    } else if s[m] != 0x3a {
                        None
                    } else {
                        match p_value(s, m + 1) {
                            None => None,
                            Some((v, n)) => {
                                if !(m + 1 <= n <= s.len()) {
                                    None
                                } else {
                                    let acc2 = obj_set(acc, key, v);
                                    let q = skip_ws(s, n);
                                    if !(n <= q < s.len()) {
                                        None
                                    } else if s[q] == 0x2c {
                                        p_members(s, q + 1, acc2)
                                    } else if s[q] == 0x7d {
                                        Some((acc2, q + 1))
                                    } else {
                                        None
                                    }
                                }
                            },
                        }
                    }
                }
            },
        }
    }
}

/// The value of a whole JSON text: one value, with nothing but whitespace
/// around it.
pub open spec fn json_parse(s: Seq<u8>) -> Option<JsonVal> {
    match p_value(s, 0) {
        Some((v, j)) => if skip_ws(s, j) == s.len() {
            Some(v)
        } else {
            None
        },
        None => None,
    }
}

// ---------------------------------------------------------------------------
// The executable encoder
// ---------------------------------------------------------------------------
fn push_hex_digit(out: &mut Vec<u8>, n: u8)
    requires
        n < 16,
    ensures
        final(out)@ == old(out)@.push(hex_digit(n)),
{
    if n < 10 {
        out.push(0x30 + n);
    } else {
        out.push(0x57 + n);
    }
}

/// Appends the escaped form of a string's bytes.
fn encode_string_body(out: &mut Vec<u8>, s: &[u8])
    ensures
        final(out)@ == old(out)@ + esc_from(s@, 0),
{
    let mut i: usize = 0;
    while i < s.len()
        invariant
            i <= s.len(),
            out@ + esc_from(s@, i as int) == old(out)@ + esc_from(s@, 0),
        decreases s.len() - i,
    {
        let b = s[i];
        let ghost pre = out@;
        if b == 0x22 {
            out.push(0x5c);
            out.push(0x22);
        } else if b == 0x5c {
            out.push(0x5c);
            out.push(0x5c);
        } else if b < 0x20 {
            out.push(0x5c);
            out.push(0x75);
            out.push(0x30);
            out.push(0x30);
            push_hex_digit(out, b / 16);
            push_hex_digit(out, b % 16);
        } else {
            out.push(b);
        }
        proof {
            assert(out@ =~= pre + esc_byte(s@[i as int]));
            assert(pre + (esc_byte(s@[i as int]) + esc_from(s@, i + 1)) =~= (pre + esc_byte(
                s@[i as int],
            )) + esc_from(s@, i + 1));
        }
        i = i + 1;
    }
    proof {
        assert(out@ + esc_from(s@, s@.len() as int) =~= out@);
    }
}

/// Writes a value as JSON text; the result is exactly `ser` of the value's
/// model.
pub fn encode_json(v: &JsonValue) -> (r: Vec<u8>)
    ensures
        r@ == ser(v@),
    decreases v,
{
    let mut out: Vec<u8> = Vec::new();
    encode_into(v, &mut out);
    out
}

/// Appends a value's JSON text to a buffer.
#[verifier::loop_isolation(false)]
#[verifier::rlimit(60)]
pub fn encode_into(v: &JsonValue, out: &mut Vec<u8>)
    ensures
        final(out)@ == old(out)@ + ser(v@),
    decreases v,
{
    match v {
        JsonValue::Null => {
            out.push(0x6e);
            out.push(0x75);
            out.push(0x6c);
            out.push(0x6c);
            proof {
                assert(out@ =~= old(out)@ + ser(v@));
            }
        },
        JsonValue::Bool(b) => {
            if *b {
                out.push(0x74);
                out.push(0x72);
                out.push(0x75);
                out.push(0x65);
            } else {
                out.push(0x66);
                out.push(0x61);
                out.push(0x6c);
                out.push(0x73);
                out.push(0x65);
            }
            proof {
                assert(out@ =~= old(out)@ + ser(v@));
            }
        },
        JsonValue::Num(t) => {
            let mut i: usize = 0;
            while i < t.len()
                invariant
                    i <= t.len(),
                    out@ == old(out)@ + t@.subrange(0, i as int),
                decreases t.len() - i,
            {
                out.push(t[i]);
                proof {
                    assert(old(out)@ + t@.subrange(0, i + 1) =~= (old(out)@ + t@.subrange(
                        0,
                        i as int,
                    )).push(t@[i as int]));
                }
                i = i + 1;
            }
            proof {
                assert(t@.subrange(0, t@.len() as int) =~= t@);
            }
        },
        JsonValue::Str(s) => {
            out.push(0x22);
            encode_string_body(out, s.as_slice());
            out.push(0x22);
            proof {
                assert(out@ =~= old(out)@ + ser(v@));
            }
        },
        JsonValue::Arr(items) => {
            out.push(0x5b);
            let ghost model = view_arr(items@);
            let mut i: usize = 0;
            while i < items.len()
                invariant
                    i <= items.len(),
                    out@ + ser_items_from(model, i as int) == old(out)@ + seq![0x5bu8]
                        + ser_items_from(model, 0),
                decreases items.len() - i,
            {
                let ghost pre = out@;
                encode_into(&items[i], out);
                if i + 1 < items.len() {
                    out.push(0x2c);
                }
                proof {
                    assert(out@ + ser_items_from(model, i + 1) =~= pre + ser_items_from(
                        model,
                        i as int,
                    ));
                }
                i = i + 1;
            }
            out.push(0x5d);
            proof {
                assert(ser_items_from(model, items@.len() as int) =~= Seq::<u8>::empty());
                assert(out@ =~= old(out)@ + (seq![0x5bu8] + ser_items_from(model, 0)
                    + seq![0x5du8]));
                assert(ser(v@) == seq![0x5bu8] + ser_items_from(model, 0) + seq![0x5du8]);
            }
        },
        JsonValue::Obj(ps) => {
            out.push(0x7b);
            let ghost model = view_obj(ps@);
            let mut i: usize = 0;
            while i < ps.len()
                invariant
                    i <= ps.len(),
                    out@ + ser_members_from(model, i as int) == old(out)@ + seq![0x7bu8]
                        + ser_members_from(model, 0),
                decreases ps.len() - i,
            {
                let ghost pre = out@;
                out.push(0x22);
                encode_string_body(out, ps[i].0.as_slice());
                out.push(0x22);
                out.push(0x3a);
                proof {
                    assert(out@ =~= pre + (seq![0x22u8] + esc_from(model[i as int].0, 0) + seq![
                        0x22u8,
                        0x3au8,
                    ]));
                }
                encode_into(&ps[i].1, out);
                if i + 1 < ps.len() {
                    out.push(0x2c);
                }
                proof {
                    assert(out@ + ser_members_from(model, i + 1) =~= pre + ser_members_from(
                        model,
                        i as int,
                    ));
                }
                i = i + 1;
            }
            out.push(0x7d);
            proof {
                assert(ser_members_from(model, ps@.len() as int) =~= Seq::<u8>::empty());
                assert(out@ =~= old(out)@ + (seq![0x7bu8] + ser_members_from(model, 0) + seq![
                    0x7du8,
                ]));
                assert(ser(v@) == seq![0x7bu8] + ser_members_from(model, 0) + seq![0x7du8]);
            }
        },
    }
}

// ---------------------------------------------------------------------------
// The executable parser
// ---------------------------------------------------------------------------
/// Advances past whitespace.
fn skip_ws_x(s: &[u8], i: usize) -> (j: usize)
    requires
        i <= s@.len(),
    ensures
        j as int == skip_ws(s@, i as int),
        i <= j <= s@.len(),
{
    let mut cur: usize = i;
    while cur < s.len() && is_ws_x(s[cur])
        invariant
            i <= cur <= s@.len(),
            skip_ws(s@, i as int) == skip_ws(s@, cur as int),
        decreases s@.len() - cur,
    {
        cur = cur + 1;
    }
    cur
}

fn is_ws_x(b: u8) -> (r: bool)
    ensures
        r == is_ws(b),
{
    b == 0x20 || b == 0x09 || b == 0x0a || b == 0x0d
}

/// Advances past decimal digits.
fn digits_end_x(t: &[u8], i: usize) -> (e: usize)
    requires
        i <= t@.len(),
    ensures
        e as int == digits_end(t@, i as int),
        i <= e <= t@.len(),
{
    let mut cur: usize = i;
    while cur < t.len() && 0x30 <= t[cur] && t[cur] <= 0x39
        invariant
            i <= cur <= t@.len(),
            digits_end(t@, i as int) == digits_end(t@, cur as int),
        decreases t@.len() - cur,
    {
        cur = cur + 1;
    }
    cur
}

/// Whether a byte string spells a valid JSON number literal.
pub fn check_number(t: &[u8]) -> (r: bool)
    ensures
        r == is_number_token(t@),
{
    let i0: usize = if t.len() > 0 && t[0] == 0x2d {
        1
    } else {
        0
    };
    if !(i0 < t.len() && 0x30 <= t[i0] && t[i0] <= 0x39) {
        return false;
    }
    let i1: usize = if t[i0] == 0x30 {
        i0 + 1
    } else {
        digits_end_x(t, i0)
    };
    let i2: usize = if i1 < t.len() && t[i1] == 0x2e {
        if i1 + 1 < t.len() && 0x30 <= t[i1 + 1] && t[i1 + 1] <= 0x39 {
            digits_end_x(t, i1 + 1)
        } else {
            return false;
        }
    } else {
        i1
    };
    let i3: usize = if i2 < t.len() && (t[i2] == 0x65 || t[i2] == 0x45) {
        let k: usize = if i2 + 1 < t.len() && (t[i2 + 1] == 0x2b || t[i2 + 1] == 0x2d) {
            i2 + 2
        } else {
            i2 + 1
        };
        if k < t.len() && 0x30 <= t[k] && t[k] <= 0x39 {
            digits_end_x(t, k)
        } else {
            return false;
        }
    } else {
        i2
    };
    i3 == t.len()
}

/// Advances past number characters.
fn num_end_x(s: &[u8], i: usize) -> (e: usize)
    requires
        i <= s@.len(),
    ensures
        e as int == num_end(s@, i as int),
        i <= e <= s@.len(),
{
    let mut cur: usize = i;
    while cur < s.len() && num_char_x(s[cur])
        invariant
            i <= cur <= s@.len(),
            num_end(s@, i as int) == num_end(s@, cur as int),
        decreases s@.len() - cur,
    {
        cur = cur + 1;
    }
    cur
}

fn num_char_x(b: u8) -> (r: bool)
    ensures
        r == num_char(b),
{
    (0x30 <= b && b <= 0x39) || b == 0x2d || b == 0x2b || b == 0x2e || b == 0x65 || b == 0x45
}

/// The value of a hex digit, if the byte is one.
fn hex_nibble(b: u8) -> (r: Option<u8>)
    ensures
        match r {
            Some(n) => is_hex(b) && n as int == hex_val(b) && n < 16,
            None => !is_hex(b),
        },
{
    if 0x30 <= b && b <= 0x39 {
        Some(b - 0x30)
    } else if 0x61 <= b && b <= 0x66 {
        Some(b - 0x57)
    } else if 0x41 <= b && b <= 0x46 {
        Some(b - 0x37)
    } else {
        None
    }
}

/// Reads a string body from just after the opening quote.
#[verifier::loop_isolation(false)]
#[verifier::rlimit(60)]
fn parse_string(s: &[u8], i: usize) -> (r: Option<(Vec<u8>, usize)>)
    requires
        i <= s@.len(),
    ensures
        match r {
            Some(p) => p_string(s@, i as int) == Some((p.0@, p.1 as int)) && i < p.1 <= s@.len(),
            None => p_string(s@, i as int) is None,
        },
{
    let mut acc: Vec<u8> = Vec::new();
    let mut cur: usize = i;
    proof {
        match p_string(s@, i as int) {
            Some((t, j)) => {
                assert(Seq::<u8>::empty() + t =~= t);
            },
            None => {},
        }
    }
    loop
        invariant
            i <= cur <= s@.len(),
            match p_string(s@, cur as int) {
                Some((t, j)) => p_string(s@, i as int) == Some((acc@ + t, j)),
                None => p_string(s@, i as int) is None,
            },
        decreases s@.len() - cur,
    {
        if cur >= s.len() {
            return None;
        }
        let b = s[cur];
        if b == 0x22 {
            proof {
                assert(acc@ + Seq::<u8>::empty() =~= acc@);
            }
            return Some((acc, cur + 1));
        } else if b == 0x5c {
            if cur + 1 >= s.len() {
                return None;
            }
            let c = s[cur + 1];
            if c == 0x75 {
                if s.len() - cur < 6 {
                    return None;
                }
                let n2 = match hex_nibble(s[cur + 2]) {
                    Some(n) => n,
                    None => {
                        return None;
                    },
                };
                let n3 = match hex_nibble(s[cur + 3]) {
                    Some(n) => n,
                    None => {
                        return None;
                    },
                };
                let n4 = match hex_nibble(s[cur + 4]) {
                    Some(n) => n,
                    None => {
                        return None;
                    },
                };
                let n5 = match hex_nibble(s[cur + 5]) {
                    Some(n) => n,
                    None => {
                        return None;
                    },
                };
                let cp: u32 = 4096 * (n2 as u32) + 256 * (n3 as u32) + 16 * (n4 as u32) + (
                n5 as u32);
                if 0xd800 <= cp && cp < 0xe000 {
                    return None;
                }
                let ghost pre = acc@;
                if cp < 0x80 {
                    acc.push(cp as u8);
                } else if cp < 0x800 {
                    acc.push((0xc0 + cp / 64) as u8);
                    acc.push((0x80 + cp % 64) as u8);
                } else {
                    acc.push((0xe0 + cp / 4096) as u8);
                    acc.push((0x80 + (cp / 64) % 64) as u8);
                    acc.push((0x80 + cp % 64) as u8);
                }
                proof {
                    assert(acc@ =~= pre + utf8_bytes(cp as int));
                    if let Some((t, j)) = p_string(s@, cur + 6) {
                        assert(pre + (utf8_bytes(cp as int) + t) =~= acc@ + t);
                    }
                }
                cur = cur + 6;
            } else {
                let mapped = if c == 0x22 {
                    0x22u8
                } else if c == 0x5c {
                    0x5cu8
                } else if c == 0x2f {
                    0x2fu8
                } else if c == 0x62 {
                    0x08u8
                } else if c == 0x66 {
                    0x0cu8
                } else if c == 0x6e {
                    0x0au8
                } else if c == 0x72 {
                    0x0du8
                } else if c == 0x74 {
                    0x09u8
                } else {
                    return None;
                };
                let ghost pre = acc@;
                acc.push(mapped);
                proof {
                    assert(esc_char(c) == Some(mapped));
                    if let Some((t, j)) = p_string(s@, cur + 2) {
                        assert(pre + (seq![mapped] + t) =~= acc@ + t);
                    }
                }
                cur = cur + 2;
            }
        } else if b < 0x20 {
            return None;
        } else {
            let ghost pre = acc@;
            acc.push(b);
            proof {
                if let Some((t, j)) = p_string(s@, cur + 1) {
                    assert(pre + (seq![b] + t) =~= acc@ + t);
                }
            }
            cur = cur + 1;
        }
    }
}

/// Reads a number token.
fn parse_number(s: &[u8], i: usize) -> (r: Option<(JsonValue, usize)>)
    requires
        i <= s@.len(),
    ensures
        match r {
            Some(p) => p_number(s@, i as int) == Some((p.0@, p.1 as int)) && i < p.1 <= s@.len(),
            None => p_number(s@, i as int) is None,
        },
{
    let e = num_end_x(s, i);
    let tok = vstd::slice::slice_to_vec(&s[i..e]);
    if check_number(tok.as_slice()) {
        proof {
            if i == e {
                assert(!is_number_token(tok@));
            }
        }
        Some((JsonValue::Num(tok), e))
    } else {
        None
    }
}

/// Reads one value at `i`; the recursion mirrors the nesting of the text.
#[verifier::loop_isolation(false)]
#[verifier::rlimit(100)]
fn parse_value(s: &[u8], i: usize) -> (r: Option<(JsonValue, usize)>)
    requires
        i <= s@.len(),
    ensures
        match r {
            Some(p) => p_value(s@, i as int) == Some((p.0@, p.1 as int)) && i < p.1 <= s@.len(),
            None => p_value(s@, i as int) is None,
        },
    decreases s@.len() - i,
{
    let j = skip_ws_x(s, i);
    if j >= s.len() {
        return None;
    }
    let b = s[j];
    if b == 0x22 {
        match parse_string(s, j + 1) {
            Some((t, k)) => Some((JsonValue::Str(t), k)),
            None => None,
        }
    } else if b == 0x5b {
        let k = skip_ws_x(s, j + 1);
        if k < s.len() && s[k] == 0x5d {
            proof {
                assert(view_arr(Seq::<JsonValue>::empty()) =~= Seq::<JsonVal>::empty());
            }
            return Some((JsonValue::Arr(Vec::new()), k + 1));
        }
        let mut acc: Vec<JsonValue> = Vec::new();
        let mut cur: usize = j + 1;
        proof {
            assert(view_arr(acc@) =~= Seq::<JsonVal>::empty());
        }
        loop
            invariant
                i < cur <= s@.len(),
                match p_elems(s@, cur as int, view_arr(acc@)) {
                    Some((vs, k2)) => p_elems(s@, j + 1, Seq::<JsonVal>::empty()) == Some(
                        (vs, k2),
                    ),
                    None => p_elems(s@, j + 1, Seq::<JsonVal>::empty()) is None,
                },
            decreases s@.len() - cur,
        {
            let (v, n) = match parse_value(s, cur) {
                Some(p) => p,
                None => {
                    return None;
                },
            };
            let q = skip_ws_x(s, n);
            if q >= s.len() {
                return None;
            }
            let ghost accq = acc@;
            let ghost accv = view_arr(acc@);
            let ghost vv = v@;
            acc.push(v);
            proof {
                lemma_view_arr_push(accq, vstd::pervasive::arbitrary());
                assert(acc@ == accq.push(acc@[acc@.len() - 1]));
                lemma_view_arr_push(accq, acc@[acc@.len() - 1]);
                assert(view_arr(acc@) == accv.push(vv));
            }
            if s[q] == 0x2c {
                cur = q + 1;
            } else if s[q] == 0x5d {
                return Some((JsonValue::Arr(acc), q + 1));
            } else {
                return None;
            }
        }
    } else if b == 0x7b {
        let k = skip_ws_x(s, j + 1);
        if k < s.len() && s[k] == 0x7d {
            proof {
                assert(view_obj(Seq::<(Vec<u8>, JsonValue)>::empty()) =~= Seq::<
                    (Seq<u8>, JsonVal),
                >::empty());
            }
            return Some((JsonValue::Obj(Vec::new()), k + 1));
        }
        let mut acc: Vec<(Vec<u8>, JsonValue)> = Vec::new();
        let mut cur: usize = j + 1;
        proof {
            assert(view_obj(acc@) =~= Seq::<(Seq<u8>, JsonVal)>::empty());
        }
        loop
            invariant
                i < cur <= s@.len(),
                obj_keys_unique(view_obj(acc@)),
                match p_members(s@, cur as int, view_obj(acc@)) {
                    Some((ps2, k2)) => p_members(s@, j + 1, Seq::<(Seq<u8>, JsonVal)>::empty())
                        == Some((ps2, k2)),
                    None => p_members(s@, j + 1, Seq::<(Seq<u8>, JsonVal)>::empty()) is None,
                },
            decreases s@.len() - cur,
        {
            let jq = skip_ws_x(s, cur);
            if jq >= s.len() {
                return None;
            }
            if s[jq] != 0x22 {
                return None;
            }
            let (key, k2) = match parse_string(s, jq + 1) {
                Some(p) => p,
                None => {
                    return None;
                },
            };
            let m = skip_ws_x(s, k2);
            if m >= s.len() {
                return None;
            }
            if s[m] != 0x3a {
                return None;
            }
            let (v, n) = match parse_value(s, m + 1) {
                Some(p) => p,
                None => {
                    return None;
                },
            };
            let q = skip_ws_x(s, n);
            if q >= s.len() {
                return None;
            }
            let ghost accq = acc@;
            let ghost accv = view_obj(acc@);
            let ghost keyv = key@;
            let ghost vv = v@;
            match obj_find(&acc, key.as_slice()) {
                Some(idx) => {
                    proof {
                        assert(accv[idx as int].0 == keyv);
                        lemma_obj_key_idx(accv, keyv, idx as int);
                        assert(obj_has_key(accv, keyv));
                    }
                    acc[idx] = (key, v);
                    proof {
                        assert(acc@ == accq.update(idx as int, acc@[idx as int]));
                        assert(acc@[idx as int].0@ == keyv && acc@[idx as int].1@ == vv);
                        lemma_view_obj_update(accq, idx as int, acc@[idx as int]);
                        assert(view_obj(acc@) == obj_set(accv, keyv, vv));
                    }
                },
                None => {
                    proof {
                        assert forall|jj: int| 0 <= jj < accv.len() implies accv[jj].0 != keyv by {
                            assert(accv[jj].0 == accq[jj].0@);
                        }
                        assert(!obj_has_key(accv, keyv));
                    }
                    acc.push((key, v));
                    proof {
                        assert(acc@ == accq.push(acc@[acc@.len() - 1]));
                        assert(acc@[acc@.len() - 1].0@ == keyv && acc@[acc@.len() - 1].1@ == vv);
                        lemma_view_obj_push(accq, acc@[acc@.len() - 1]);
                        assert(view_obj(acc@) == accv.push((keyv, vv)));
                        assert(view_obj(acc@) == obj_set(accv, keyv, vv));
                    }
                },
            }
            proof {
                lemma_obj_set(accv, keyv, vv);
            }
            if s[q] == 0x2c {
                cur = q + 1;
            } else if s[q] == 0x7d {
                return Some((JsonValue::Obj(acc), q + 1));
            } else {
                return None;
            }
        }
    } else if b == 0x6e {
        if s.len() - j >= 4 && s[j + 1] == 0x75 && s[j + 2] == 0x6c && s[j + 3] == 0x6c {
            Some((JsonValue::Null, j + 4))
        } else {
            None
        }
    } else if b == 0x74 {
        if s.len() - j >= 4 && s[j + 1] == 0x72 && s[j + 2] == 0x75 && s[j + 3] == 0x65 {
            Some((JsonValue::Bool(true), j + 4))
        } else {
            None
        }
    } else if b == 0x66 {
        if s.len() - j >= 5 && s[j + 1] == 0x61 && s[j + 2] == 0x6c && s[j + 3] == 0x73 && s[j + 4]
            == 0x65 {
            Some((JsonValue::Bool(false), j + 5))
        } else {
            None
        }
    } else {
        match parse_number(s, j) {
            Some((v, e)) => Some((v, e)),
            None => None,
        }
    }
}

/// Reads a whole JSON text: one value with only whitespace around it.
pub fn parse_json(s: &[u8]) -> (r: Option<JsonValue>)
    ensures
        match r {
            Some(v) => json_parse(s@) == Some(v@),
            None => json_parse(s@) is None,
        },
{
    match parse_value(s, 0) {
        Some((v, j)) => {
            let k = skip_ws_x(s, j);
            if k == s.len() {
                Some(v)
            } else {
                None
            }
        },
        None => None,
    }
}

} // verus!
