//! Strict JSON, as RFC 8259 writes its grammar, and the law that RustJSON
//! is a superset of it: every strict JSON text parses, with the RustJSON
//! grammar, to the same value.
use vstd::prelude::*;
use vstd::utf8::{valid_utf8, decode_utf8, is_scalar, has_width_1_encoding, has_width_2_encoding,
    has_width_3_encoding, has_width_4_encoding};
use crate::rustjson::{Json, Num, RustJsonError, is_ws, is_digit, is_hex, hex_val, hex4_valid,
    hex4_value, simple_escape, utf8_len_spec, string_body, digits_end, digits_value, ascii_chars,
    float_display, spec_number, skip_trivia, spec_value, spec_elements, spec_members, spec_parse,
    spec_key, spec_string, spec_literal, peek_spec, lit_true, lit_false, lit_null, obj_insert,
    is_high_surrogate, is_low_surrogate, low_surrogate_escape_at, surrogate_pair_char, lemma_skip_trivia};

verus! {

// ---------------------------------------------------------------------------
// The strict grammar
// ---------------------------------------------------------------------------

/// JSON's insignificant whitespace: space, tab, line feed, carriage return.
pub open spec fn is_json_ws(c: u8) -> bool {
    c == 0x20 || c == 0x09 || c == 0x0a || c == 0x0d
}

/// End of the run of JSON whitespace starting at `p`.
pub open spec fn json_ws_end(b: Seq<u8>, p: int) -> int
    decreases b.len() - p,
{
    if p < 0 || p >= b.len() || !is_json_ws(b[p]) {
        p
    } else {
        json_ws_end(b, p + 1)
    }
}

/// The character that the two-character escape `\c` of strict JSON stands
/// for: one of `\" \\ \/ \b \f \n \r \t`.
pub open spec fn json_escape(c: u8) -> Option<char> {
    if c == 0x22 {
        Some('"')
    } else if c == 0x5c {
        Some('\\')
    } else if c == 0x2f {
        Some('/')
    } else if c == 0x62 {
        Some('\u{8}')
    } else if c == 0x66 {
        Some('\u{c}')
    } else if c == 0x6e {
        Some('\n')
    } else if c == 0x72 {
        Some('\r')
    } else if c == 0x74 {
        Some('\t')
    } else {
        None
    }
}

/// Four hexadecimal digits stand at `h`.
pub open spec fn json_hex4(b: Seq<u8>, h: int) -> bool {
    &&& 0 <= h
    &&& h + 4 <= b.len()
    &&& is_hex(b[h])
    &&& is_hex(b[h + 1])
    &&& is_hex(b[h + 2])
    &&& is_hex(b[h + 3])
}

/// The rest of a string, from `p` up to and including its closing quote,
/// with the characters read so far in `acc`: unescaped characters are
/// UTF-8 encoded scalars from U+0020 on other than `"` and `\`; a `\u`
/// escape of a UTF-16 high surrogate must be followed by one of a low
/// surrogate, and the pair stands for one character.
pub open spec fn json_string_body(b: Seq<u8>, p: int, acc: Seq<char>) -> Option<(Seq<char>, int)>
    decreases b.len() - p,
{
    if p < 0 || p >= b.len() {
        None
    } else if b[p] == 0x22 {
        Some((acc, p + 1))
    } else if b[p] == 0x5c {
        if p + 1 >= b.len() {
            None
        } else {
            let e = b[p + 1];
            match json_escape(e) {
                Some(c) => json_string_body(b, p + 2, acc.push(c)),
                None => if e == 0x75 && json_hex4(b, p + 2) {
                    let u = hex4_value(b, p + 2);
                    if !is_high_surrogate(u) && !is_low_surrogate(u) {
                        json_string_body(b, p + 6, acc.push((u as u32) as char))
                    } else if is_high_surrogate(u) && p + 7 < b.len() && b[p + 6] == 0x5c && b[p + 7]
                        == 0x75 && json_hex4(b, p + 8) && is_low_surrogate(hex4_value(b, p + 8)) {
                        json_string_body(
                            b,
                            p + 12,
                            acc.push(surrogate_pair_char(u, hex4_value(b, p + 8))),
                        )
                    } else {
                        None
                    }
                } else {
                    None
                },
            }
        }
    } else if b[p] < 0x20 {
        None
    } else {
        let n = utf8_len_spec(b[p]);
        if p + n > b.len() || !valid_utf8(b.subrange(p, p + n)) {
            None
        } else {
            json_string_body(b, p + n, acc + decode_utf8(b.subrange(p, p + n)))
        }
    }
}

/// The number a literal `b[p..e]` stands for, with its integer digits at
/// `b[ds..de]`: an integer literal that fits `i64` (or else `u64`) is that
/// integer, any other literal the nearest double, as [`float_display`]
/// names its text.
pub open spec fn number_value(b: Seq<u8>, p: int, ds: int, de: int, e: int) -> Option<Num> {
    let integral = e == de;
    let neg = ds == p + 1;
    let v = digits_value(b, ds, de);
    if integral && !neg && v <= i64::MAX {
        Some(Num::Int(v as i64))
    } else if integral && neg && v <= i64::MAX + 1 {
        Some(Num::Int((0 - v) as i64))
    } else if integral && !neg && v <= u64::MAX {
        Some(Num::UInt(v as u64))
    } else {
        match float_display(ascii_chars(b, p, e)) {
            Some(t) => Some(Num::Float(t)),
            None => None,
        }
    }
}

/// A number at `p`: `-? (0 | [1-9][0-9]*) (. [0-9]+)? ([eE] [+-]? [0-9]+)?`,
/// with its value and the position after it.
pub open spec fn json_number(b: Seq<u8>, p: int) -> Option<(Num, int)> {
    let neg = 0 <= p < b.len() && b[p] == 0x2d;
    let ds = if neg {
        p + 1
    } else {
        p
    };
    let de = digits_end(b, ds);
    if de == ds || (b[ds] == 0x30 && de != ds + 1) {
        None
    } else {
        let fe = if de < b.len() && b[de] == 0x2e {
            digits_end(b, de + 1)
        } else {
            de
        };
        if fe == de + 1 {
            None
        } else {
            let has_exp = fe < b.len() && (b[fe] == 0x65 || b[fe] == 0x45);
            let es = if !has_exp {
                fe
            } else if fe + 1 < b.len() && (b[fe + 1] == 0x2b || b[fe + 1] == 0x2d) {
                fe + 2
            } else {
                fe + 1
            };
            let ee = if has_exp {
                digits_end(b, es)
            } else {
                fe
            };
            if has_exp && ee == es {
                None
            } else {
                match number_value(b, p, ds, de, ee) {
                    Some(n) => Some((n, ee)),
                    None => None,
                }
            }
        }
    }
}

/// The literal `lit` stands at `p`.
pub open spec fn literal_at(b: Seq<u8>, p: int, lit: Seq<u8>) -> bool {
    0 <= p && p + lit.len() <= b.len() && b.subrange(p, p + lit.len()) == lit
}

/// A value starting exactly at `p`, and the position just after it.
pub open spec fn json_value(b: Seq<u8>, p: int) -> Option<(Json, int)>
    decreases b.len() - p, 0nat,
{
    if p < 0 || p >= b.len() {
        None
    } else {
        let c = b[p];
        if c == 0x7b {
            let q = json_ws_end(b, p + 1);
            if q < p + 1 || q >= b.len() {
                None
            } else if b[q] == 0x7d {
                Some((Json::Object(Seq::empty()), q + 1))
            } else {
                json_members(b, q, Seq::empty())
            }
        } else if c == 0x5b {
            let q = json_ws_end(b, p + 1);
            if q < p + 1 || q >= b.len() {
                None
            } else if b[q] == 0x5d {
                Some((Json::Array(Seq::empty()), q + 1))
            } else {
                json_elements(b, q, Seq::empty())
            }
        } else if c == 0x22 {
            match json_string_body(b, p + 1, Seq::empty()) {
                Some((s, q)) => Some((Json::Str(s), q)),
                None => None,
            }
        } else if c == 0x74 {
            if literal_at(b, p, lit_true()) {
                Some((Json::Bool(true), p + 4))
            } else {
                None
            }
        } else if c == 0x66 {
            if literal_at(b, p, lit_false()) {
                Some((Json::Bool(false), p + 5))
            } else {
                None
            }
        } else if c == 0x6e {
            if literal_at(b, p, lit_null()) {
                Some((Json::Null, p + 4))
            } else {
                None
            }
        } else if c == 0x2d || is_digit(c) {
            match json_number(b, p) {
                Some((n, q)) => Some((Json::Number(n), q)),
                None => None,
            }
        } else {
            None
        }
    }
}

/// Array elements from `p` (a value's first byte) to the closing bracket,
/// with the elements read so far in `acc`; no comma may trail.
pub open spec fn json_elements(b: Seq<u8>, p: int, acc: Seq<Json>) -> Option<(Json, int)>
    decreases b.len() - p, 1nat,
{
    match json_value(b, p) {
        None => None,
        Some((v, p2)) => if p2 <= p || p2 > b.len() {
            None
        } else {
            let p3 = json_ws_end(b, p2);
            if p3 < p2 || p3 >= b.len() {
                None
            } else if b[p3] == 0x2c {
                let p4 = json_ws_end(b, p3 + 1);
                if p4 <= p3 || p4 > b.len() {
                    None
                } else {
                    json_elements(b, p4, acc.push(v))
                }
            } else if b[p3] == 0x5d {
                Some((Json::Array(acc.push(v)), p3 + 1))
            } else {
                None
            }
        },
    }
}

/// Object members from `p` (a key's opening quote) to the closing brace,
/// with the members read so far in `acc`; no comma may trail. A repeated
/// name replaces the earlier member's value.
pub open spec fn json_members(b: Seq<u8>, p: int, acc: Seq<(Seq<char>, Json)>) -> Option<(Json, int)>
    decreases b.len() - p, 1nat,
{
    if p < 0 || p >= b.len() || b[p] != 0x22 {
        None
    } else {
        match json_string_body(b, p + 1, Seq::empty()) {
            None => None,
            Some((k, p2)) => {
                let p3 = json_ws_end(b, p2);
                if p3 <= p || p3 >= b.len() || b[p3] != 0x3a {
                    None
                } else {
                    let p4 = json_ws_end(b, p3 + 1);
                    if p4 <= p3 || p4 > b.len() {
                        None
                    } else {
                        match json_value(b, p4) {
                            None => None,
                            Some((v, p5)) => if p5 <= p4 || p5 > b.len() {
                                None
                            } else {
                                let p6 = json_ws_end(b, p5);
                                let acc2 = obj_insert(acc, k, v);
                                if p6 < p5 || p6 >= b.len() {
                                    None
                                } else if b[p6] == 0x2c {
                                    let p7 = json_ws_end(b, p6 + 1);
                                    if p7 <= p6 || p7 > b.len() {
                                        None
                                    } else {
                                        json_members(b, p7, acc2)
                                    }
                                } else if b[p6] == 0x7d {
                                    Some((Json::Object(acc2), p6 + 1))
                                } else {
                                    None
                                }
                            },
                        }
                    }
                }
            },
        }
    }
}

/// A strict JSON text: one value with only whitespace around it, and the
/// value it stands for.
pub open spec fn strict_json(b: Seq<u8>) -> Option<Json> {
    let p = json_ws_end(b, 0);
    match json_value(b, p) {
        None => None,
        Some((j, q)) => if json_ws_end(b, q) == b.len() {
            Some(j)
        } else {
            None
        },
    }
}

// ---------------------------------------------------------------------------
// The law
// ---------------------------------------------------------------------------

proof fn lemma_ws_end(b: Seq<u8>, p: int)
    requires
        0 <= p <= b.len(),
    ensures
        p <= json_ws_end(b, p) <= b.len(),
        json_ws_end(b, p) < b.len() ==> !is_json_ws(b[json_ws_end(b, p)]),
    decreases b.len() - p,
{
    if p < b.len() && is_json_ws(b[p]) {
        lemma_ws_end(b, p + 1);
    }
}

/// JSON whitespace followed by neither `/` nor a form feed is exactly what
/// RustJSON skips there.
proof fn lemma_trivia(b: Seq<u8>, p: int)
    requires
        0 <= p <= b.len(),
        json_ws_end(b, p) == b.len() || (b[json_ws_end(b, p)] != 0x2f && b[json_ws_end(b, p)] != 0x0c),
    ensures
        skip_trivia(b, p) == Ok::<int, RustJsonError>(json_ws_end(b, p)),
    decreases b.len() - p,
{
    if p < b.len() && is_json_ws(b[p]) {
        lemma_trivia(b, p + 1);
    }
}

proof fn lemma_digits_end_range(b: Seq<u8>, p: int)
    requires
        0 <= p <= b.len(),
    ensures
        p <= digits_end(b, p) <= b.len(),
    decreases b.len() - p,
{
    if p < b.len() && is_digit(b[p]) {
        lemma_digits_end_range(b, p + 1);
    }
}

proof fn lemma_hex4(b: Seq<u8>, h: int)
    requires
        json_hex4(b, h),
    ensures
        hex4_valid(b, h),
        hex4_value(b, h) < 0x10000,
{
    assert(hex_val(b[h]) < 16 && hex_val(b[h + 1]) < 16 && hex_val(b[h + 2]) < 16 && hex_val(b[h + 3])
        < 16);
}

/// A strict string body is read the same by the RustJSON string grammar.
proof fn lemma_string(b: Seq<u8>, start: int, p: int, acc: Seq<char>)
    requires
        0 <= p,
    ensures
        json_string_body(b, p, acc) matches Some((s, q)) ==> string_body(b, start, 0x22, p, acc)
            == Ok::<(Seq<char>, int), RustJsonError>((s, q)) && p < q <= b.len(),
    decreases b.len() - p,
{
    if p < b.len() && b[p] != 0x22 {
        if b[p] == 0x5c {
            if p + 1 < b.len() {
                let e = b[p + 1];
                match json_escape(e) {
                    Some(c) => {
                        assert(simple_escape(e) == Some(c));
                        lemma_string(b, start, p + 2, acc.push(c));
                    },
                    None => {
                        if e == 0x75 && json_hex4(b, p + 2) {
                            assert(simple_escape(e) is None);
                            lemma_hex4(b, p + 2);
                            let u = hex4_value(b, p + 2);
                            if !is_high_surrogate(u) && !is_low_surrogate(u) {
                                assert(is_scalar(u as u32));
                                lemma_string(b, start, p + 6, acc.push((u as u32) as char));
                            } else if is_high_surrogate(u) && p + 7 < b.len() && b[p + 6] == 0x5c
                                && b[p + 7] == 0x75 && json_hex4(b, p + 8) && is_low_surrogate(
                                hex4_value(b, p + 8),
                            ) {
                                lemma_hex4(b, p + 8);
                                assert(!is_scalar(u as u32));
                                assert(low_surrogate_escape_at(b, p + 6));
                                lemma_string(
                                    b,
                                    start,
                                    p + 12,
                                    acc.push(surrogate_pair_char(u, hex4_value(b, p + 8))),
                                );
                            }
                        }
                    },
                }
            }
        } else if b[p] >= 0x20 {
            let n = utf8_len_spec(b[p]);
            if !(p + n > b.len() || !valid_utf8(b.subrange(p, p + n))) {
                lemma_string(b, start, p + n, acc + decode_utf8(b.subrange(p, p + n)));
            }
        }
    }
}

/// A strict number is read the same by the RustJSON number grammar.
proof fn lemma_number(b: Seq<u8>, p: int)
    requires
        0 <= p < b.len(),
    ensures
        json_number(b, p) matches Some((n, q)) ==> spec_number(b, p) == Ok::<(Num, int), RustJsonError>(
            (n, q),
        ) && p < q <= b.len(),
{
    let neg = b[p] == 0x2d;
    let ds = if neg {
        p + 1
    } else {
        p
    };
    lemma_digits_end_range(b, ds);
    let de = digits_end(b, ds);
    if de < b.len() && b[de] == 0x2e {
        lemma_digits_end_range(b, de + 1);
    }
    let fe = if de < b.len() && b[de] == 0x2e {
        digits_end(b, de + 1)
    } else {
        de
    };
    if fe < b.len() && (b[fe] == 0x65 || b[fe] == 0x45) {
        lemma_digits_end_range(b, fe + 1);
        if fe + 1 < b.len() {
            lemma_digits_end_range(b, fe + 2);
        }
    }
}

/// The first byte of a strict value is neither trivia nor a closing
/// bracket or brace.
pub(crate) proof fn lemma_value_start(b: Seq<u8>, p: int)
    requires
        json_value(b, p) is Some,
    ensures
        0 <= p < b.len(),
        !is_ws(b[p]),
        b[p] != 0x2f,
        b[p] != 0x5d,
        b[p] != 0x7d,
{
}

/// A strict value, after JSON whitespace from `p0`, is read the same by the
/// RustJSON value grammar from `p0`.
proof fn lemma_value(b: Seq<u8>, p0: int)
    requires
        0 <= p0 <= b.len(),
    ensures
        json_value(b, json_ws_end(b, p0)) matches Some((j, q)) ==> spec_value(b, p0) == Ok::<
            (Json, int),
            RustJsonError,
        >((j, q)) && json_ws_end(b, p0) < q <= b.len(),
    decreases b.len() - p0, 0nat,
{
    lemma_ws_end(b, p0);
    let p = json_ws_end(b, p0);
    if json_value(b, p) is Some {
        lemma_value_start(b, p);
        lemma_trivia(b, p0);
        let c = b[p];
        if c == 0x7b {
            lemma_ws_end(b, p + 1);
            let q = json_ws_end(b, p + 1);
            if b[q] == 0x7d {
                lemma_trivia(b, p + 1);
            } else {
                lemma_members(b, p + 1, Seq::empty());
                reveal(members_reads);
            }
        } else if c == 0x5b {
            lemma_ws_end(b, p + 1);
            let q = json_ws_end(b, p + 1);
            if b[q] == 0x5d {
                lemma_trivia(b, p + 1);
            } else {
                lemma_elements(b, p + 1, Seq::empty());
                reveal(elements_reads);
            }
        } else if c == 0x22 {
            lemma_string(b, p, p + 1, Seq::empty());
        } else if c == 0x74 {
            assert(lit_true().len() == 4);
        } else if c == 0x66 {
            assert(lit_false().len() == 5);
        } else if c == 0x6e {
            assert(lit_null().len() == 4);
        } else {
            lemma_number(b, p);
        }
    }
}

/// The RustJSON array grammar, with `acc` read so far, reads `j` from `p`
/// and stops at `q`.
#[verifier::opaque]
spec fn elements_reads(b: Seq<u8>, p: int, acc: Seq<Json>, j: Json, q: int) -> bool {
    spec_elements(b, p, acc) == Ok::<(Json, int), RustJsonError>((j, q))
}

/// The RustJSON object grammar, with `acc` read so far, reads `j` from `p`
/// and stops at `q`.
#[verifier::opaque]
spec fn members_reads(b: Seq<u8>, p: int, acc: Seq<(Seq<char>, Json)>, j: Json, q: int) -> bool {
    spec_members(b, p, acc) == Ok::<(Json, int), RustJsonError>((j, q))
}

/// One element read by the RustJSON array grammar, then a comma or the
/// closing bracket.
proof fn lemma_elements_step(
    b: Seq<u8>,
    p0: int,
    acc: Seq<Json>,
    p: int,
    v: Json,
    p2: int,
    p3: int,
    j: Json,
    q: int,
)
    requires
        skip_trivia(b, p0) == Ok::<int, RustJsonError>(p),
        0 <= p0 <= p < b.len(),
        b[p] != 0x5d,
        spec_value(b, p) == Ok::<(Json, int), RustJsonError>((v, p2)),
        p < p2 <= b.len(),
        skip_trivia(b, p2) == Ok::<int, RustJsonError>(p3),
        p2 <= p3 < b.len(),
        b[p3] == 0x5d ==> j == Json::Array(acc.push(v)) && q == p3 + 1,
        b[p3] == 0x2c || b[p3] == 0x5d,
        b[p3] == 0x2c ==> exists|p4: int|
            {
                &&& skip_trivia(b, p3 + 1) == Ok::<int, RustJsonError>(p4)
                &&& p3 + 1 <= p4 < b.len()
                &&& b[p4] != 0x5d
                &&& #[trigger] elements_reads(b, p4, acc.push(v), j, q)
            },
    ensures
        elements_reads(b, p0, acc, j, q),
{
    reveal(elements_reads);
}

/// One member read by the RustJSON object grammar, then a comma or the
/// closing brace.
proof fn lemma_members_step(
    b: Seq<u8>,
    p0: int,
    acc: Seq<(Seq<char>, Json)>,
    p: int,
    k: Seq<char>,
    p2: int,
    p3: int,
    v: Json,
    p5: int,
    p6: int,
    j: Json,
    q: int,
)
    requires
        skip_trivia(b, p0) == Ok::<int, RustJsonError>(p),
        0 <= p0 <= p < b.len(),
        b[p] == 0x22,
        spec_string(b, p, 0x22) == Ok::<(Seq<char>, int), RustJsonError>((k, p2)),
        p < p2 <= b.len(),
        skip_trivia(b, p2) == Ok::<int, RustJsonError>(p3),
        p2 <= p3 < b.len(),
        b[p3] == 0x3a,
        spec_value(b, p3 + 1) == Ok::<(Json, int), RustJsonError>((v, p5)),
        p3 < p5 <= b.len(),
        skip_trivia(b, p5) == Ok::<int, RustJsonError>(p6),
        p5 <= p6 < b.len(),
        b[p6] == 0x7d ==> j == Json::Object(obj_insert(acc, k, v)) && q == p6 + 1,
        b[p6] == 0x2c || b[p6] == 0x7d,
        b[p6] == 0x2c ==> exists|p7: int|
            {
                &&& skip_trivia(b, p6 + 1) == Ok::<int, RustJsonError>(p7)
                &&& p6 + 1 <= p7 < b.len()
                &&& b[p7] != 0x7d
                &&& #[trigger] members_reads(b, p7, obj_insert(acc, k, v), j, q)
            },
    ensures
        members_reads(b, p0, acc, j, q),
{
    reveal(members_reads);
}

proof fn lemma_elements_start(b: Seq<u8>, p: int, acc: Seq<Json>)
    requires
        json_elements(b, p, acc) is Some,
    ensures
        json_value(b, p) is Some,
{
}

proof fn lemma_members_start(b: Seq<u8>, p: int, acc: Seq<(Seq<char>, Json)>)
    requires
        json_members(b, p, acc) is Some,
    ensures
        0 <= p < b.len(),
        b[p] == 0x22,
{
}

/// Strict array elements, after JSON whitespace from `p0`, are read the
/// same by the RustJSON array grammar from `p0`.
proof fn lemma_elements(b: Seq<u8>, p0: int, acc: Seq<Json>)
    requires
        0 <= p0 <= b.len(),
    ensures
        json_elements(b, json_ws_end(b, p0), acc) matches Some((j, q)) ==> elements_reads(
            b,
            p0,
            acc,
            j,
            q,
        ) && json_ws_end(b, p0) < q <= b.len(),
    decreases b.len() - p0, 1nat,
{
    lemma_ws_end(b, p0);
    let p = json_ws_end(b, p0);
    if let Some((j, q)) = json_elements(b, p, acc) {
        lemma_elements_start(b, p, acc);
        lemma_value_start(b, p);
        lemma_trivia(b, p0);
        lemma_value(b, p);
        let (v, p2) = json_value(b, p).unwrap();
        lemma_ws_end(b, p2);
        let p3 = json_ws_end(b, p2);
        lemma_trivia(b, p2);
        if b[p3] == 0x2c {
            lemma_ws_end(b, p3 + 1);
            let p4 = json_ws_end(b, p3 + 1);
            lemma_elements_start(b, p4, acc.push(v));
            lemma_value_start(b, p4);
            lemma_trivia(b, p3 + 1);
            lemma_elements(b, p4, acc.push(v));
            assert(elements_reads(b, p4, acc.push(v), j, q));
        }
        lemma_elements_step(b, p0, acc, p, v, p2, p3, j, q);
    }
}

/// Strict object members, after JSON whitespace from `p0`, are read the
/// same by the RustJSON object grammar from `p0`.
proof fn lemma_members(b: Seq<u8>, p0: int, acc: Seq<(Seq<char>, Json)>)
    requires
        0 <= p0 <= b.len(),
    ensures
        json_members(b, json_ws_end(b, p0), acc) matches Some((j, q)) ==> members_reads(
            b,
            p0,
            acc,
            j,
            q,
        ) && json_ws_end(b, p0) < q <= b.len(),
    decreases b.len() - p0, 1nat,
{
    lemma_ws_end(b, p0);
    let p = json_ws_end(b, p0);
    if let Some((j, q)) = json_members(b, p, acc) {
        lemma_members_start(b, p, acc);
        lemma_trivia(b, p0);
        lemma_string(b, p, p + 1, Seq::empty());
        let (k, p2) = json_string_body(b, p + 1, Seq::empty()).unwrap();
        lemma_ws_end(b, p2);
        let p3 = json_ws_end(b, p2);
        lemma_trivia(b, p2);
        lemma_ws_end(b, p3 + 1);
        lemma_value(b, p3 + 1);
        let p4 = json_ws_end(b, p3 + 1);
        let (v, p5) = json_value(b, p4).unwrap();
        lemma_ws_end(b, p5);
        let p6 = json_ws_end(b, p5);
        lemma_trivia(b, p5);
        if b[p6] == 0x2c {
            lemma_ws_end(b, p6 + 1);
            let p7 = json_ws_end(b, p6 + 1);
            lemma_members_start(b, p7, obj_insert(acc, k, v));
            lemma_trivia(b, p6 + 1);
            lemma_members(b, p7, obj_insert(acc, k, v));
            assert(members_reads(b, p7, obj_insert(acc, k, v), j, q));
        }
        lemma_members_step(b, p0, acc, p, k, p2, p3, v, p5, p6, j, q);
    }
}

/// Where RustJSON skips no trivia, there is no JSON whitespace either.
pub(crate) proof fn lemma_trivia_stop(b: Seq<u8>, p: int)
    requires
        0 <= p <= b.len(),
        skip_trivia(b, p) == Ok::<int, RustJsonError>(p),
    ensures
        json_ws_end(b, p) == p,
{
    if p < b.len() && is_json_ws(b[p]) {
        lemma_skip_trivia(b, p + 1);
    }
}

/// A RustJSON number whose integer digits have no leading zero is a
/// strict number, with the same value and end.
pub(crate) proof fn lemma_number_strict(b: Seq<u8>, p: int)
    requires
        0 <= p < b.len(),
        spec_number(b, p) is Ok,
        ({
            let ds = if b[p] == 0x2d {
                p + 1
            } else {
                p
            };
            ds < b.len() && b[ds] == 0x30 ==> digits_end(b, ds) == ds + 1
        }),
    ensures
        spec_number(b, p) matches Ok((n, q)) && json_number(b, p) == Some((n, q)),
{
    let neg = b[p] == 0x2d;
    let ds = if neg {
        p + 1
    } else {
        p
    };
    lemma_digits_end_range(b, ds);
    let de = digits_end(b, ds);
    if de < b.len() && b[de] == 0x2e {
        lemma_digits_end_range(b, de + 1);
    }
    let fe = if de < b.len() && b[de] == 0x2e {
        digits_end(b, de + 1)
    } else {
        de
    };
    if fe < b.len() && (b[fe] == 0x65 || b[fe] == 0x45) {
        lemma_digits_end_range(b, fe + 1);
        if fe + 1 < b.len() {
            lemma_digits_end_range(b, fe + 2);
        }
    }
}

/// RustJSON is a superset of strict JSON: every text that RFC 8259's
/// grammar accepts parses, with the RustJSON grammar, to the same value.
pub proof fn strict_json_parses_the_same(b: Seq<u8>)
    ensures
        strict_json(b) matches Some(j) ==> spec_parse(b) == Ok::<Json, RustJsonError>(j),
{
    lemma_ws_end(b, 0);
    let p = json_ws_end(b, 0);
    if strict_json(b) is Some {
        lemma_value_start(b, p);
        lemma_trivia(b, 0);
        lemma_value(b, p);
        let (j, q) = json_value(b, p).unwrap();
        lemma_ws_end(b, q);
        lemma_trivia(b, q);
    }
}

} // verus!
