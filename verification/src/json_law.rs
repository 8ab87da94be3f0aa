//! The text [`crate::rustjson::to_string`] writes is strict JSON, and it
//! reads back, with the RustJSON grammar as with the strict one, as the
//! value it was written from.
use vstd::prelude::*;
use vstd::utf8::{encode_utf8, encode_scalar, decode_utf8, valid_utf8, encode_utf8_valid_utf8,
    encode_utf8_decode_utf8, leading_byte_width_1, leading_byte_width_2, leading_byte_width_3,
    leading_byte_width_4, has_width_1_encoding, has_width_2_encoding, has_width_3_encoding,
    has_width_4_encoding, char_is_scalar};
use crate::rustjson::{Json, Num, skip_trivia, is_ws, escape_char, escape_chars, hex_lower, string_body,
    simple_escape, hex4_valid, hex4_value, utf8_len_spec, is_hex, hex_val, RustJsonError, is_digit, digits_end,
    digits_value, ascii_chars, float_display, spec_number, ser_number,
    int_chars, nat_chars, digit_char, ser, ser_string, ser_items, ser_members, spec_value, spec_elements,
    spec_members, spec_parse, spec_key, spec_string, spec_literal, lit_true, lit_false, lit_null, peek_spec,
    obj_insert, find_key, key_lt, key_lt_from, insert_pos, ident_end, is_ident_char, is_alpha};
use vstd::utf8::{is_scalar, char_u32_cast};
use crate::strict_law::{json_string_body, json_escape, json_hex4, json_number, json_value, json_elements,
    json_members, json_ws_end, strict_json, literal_at, lemma_trivia_stop, lemma_number_strict, lemma_value_start};

verus! {

/// `x` stands in `b` at `p`.
pub open spec fn at(b: Seq<u8>, p: int, x: Seq<u8>) -> bool {
    0 <= p && p + x.len() <= b.len() && b.subrange(p, p + x.len()) == x
}

proof fn lemma_at_index(b: Seq<u8>, p: int, x: Seq<u8>, i: int)
    requires
        at(b, p, x),
        0 <= i < x.len(),
    ensures
        b[p + i] == x[i],
{
    assert(b.subrange(p, p + x.len())[i] == b[p + i]);
}

proof fn lemma_at_split(b: Seq<u8>, p: int, x: Seq<u8>, y: Seq<u8>)
    requires
        at(b, p, x + y),
    ensures
        at(b, p, x),
        at(b, p + x.len(), y),
{
    assert(b.subrange(p, p + x.len()) =~= (x + y).subrange(0, x.len() as int));
    assert(b.subrange(p + x.len(), p + x.len() + y.len()) =~= (x + y).subrange(
        x.len() as int,
        (x + y).len() as int,
    ));
    assert((x + y).subrange(0, x.len() as int) =~= x);
    assert((x + y).subrange(x.len() as int, (x + y).len() as int) =~= y);
}

pub proof fn lemma_encode_concat(a: Seq<char>, c: Seq<char>)
    ensures
        encode_utf8(a + c) == encode_utf8(a) + encode_utf8(c),
    decreases a.len(),
{
    if a.len() == 0 {
        assert(a + c =~= c);
        assert(encode_utf8(a) =~= Seq::<u8>::empty());
        assert(Seq::<u8>::empty() + encode_utf8(c) =~= encode_utf8(c));
    } else {
        assert((a + c).drop_first() =~= a.drop_first() + c);
        assert((a + c)[0] == a[0]);
        lemma_encode_concat(a.drop_first(), c);
        assert(encode_scalar(a[0] as u32) + (encode_utf8(a.drop_first()) + encode_utf8(c)) =~= (
        encode_scalar(a[0] as u32) + encode_utf8(a.drop_first())) + encode_utf8(c));
    }
}

/// An ASCII character is its own single byte.
pub proof fn lemma_encode_ascii_char(c: char)
    requires
        (c as u32) < 0x80,
    ensures
        encode_utf8(seq![c]).len() == 1,
        encode_utf8(seq![c])[0] as u32 == c as u32,
{
    let x = c as u32;
    assert((((x & 0x7f) as u8) as u32) == x) by (bit_vector)
        requires
            x < 0x80,
    ;
    assert(seq![c].drop_first() =~= Seq::<char>::empty());
    assert(seq![c][0] == c);
    assert(has_width_1_encoding(x));
    assert(encode_scalar(x) == seq![leading_byte_width_1(x)]);
    assert(encode_utf8(Seq::<char>::empty()) =~= Seq::<u8>::empty());
    assert(encode_utf8(seq![c]) == encode_scalar(x) + encode_utf8(Seq::<char>::empty()));
    assert(leading_byte_width_1(x) == (x & 0x7f) as u8);
    assert(encode_utf8(seq![c]) =~= seq![leading_byte_width_1(x)]);
}

pub open spec fn all_ascii(s: Seq<char>) -> bool {
    forall|i: int| 0 <= i < s.len() ==> (#[trigger] s[i] as u32) < 0x80
}

/// ASCII text is its bytes, one for one.
pub proof fn lemma_encode_ascii(s: Seq<char>)
    requires
        all_ascii(s),
    ensures
        encode_utf8(s).len() == s.len(),
        forall|i: int| 0 <= i < s.len() ==> #[trigger] encode_utf8(s)[i] as u32 == s[i] as u32,
    decreases s.len(),
{
    if s.len() > 0 {
        let r = s.drop_first();
        assert(all_ascii(r)) by {
            assert forall|i: int| 0 <= i < r.len() implies (#[trigger] r[i] as u32) < 0x80 by {
                assert(r[i] == s[i + 1]);
            }
        }
        lemma_encode_ascii(r);
        assert(s =~= seq![s[0]] + r);
        lemma_encode_concat(seq![s[0]], r);
        lemma_encode_ascii_char(s[0]);
        assert forall|i: int| 0 <= i < s.len() implies #[trigger] encode_utf8(s)[i] as u32 == s[i] as u32 by {
            if i > 0 {
                assert(encode_utf8(s)[i] == encode_utf8(r)[i - 1]);
                assert(r[i - 1] == s[i]);
            }
        }
    }
}

/// Trivia skipping stops at once at a byte that starts no trivia.
pub proof fn lemma_no_trivia(b: Seq<u8>, p: int)
    requires
        0 <= p < b.len(),
        !is_ws(b[p]),
        b[p] != 0x2f,
    ensures
        skip_trivia(b, p) == Ok::<int, crate::rustjson::RustJsonError>(p),
{
}

/// Trivia skipping at the end of input stays there.
pub proof fn lemma_no_trivia_end(b: Seq<u8>)
    ensures
        skip_trivia(b, b.len() as int) == Ok::<int, crate::rustjson::RustJsonError>(b.len() as int),
{
}

// ---------------------------------------------------------------------------
// Strings
// ---------------------------------------------------------------------------

/// The UTF-8 bytes of one character: the length its first byte announces,
/// and a first byte of at least `0xC0` when it is not ASCII.
proof fn lemma_char_bytes(c: char)
    ensures
        encode_utf8(seq![c]).len() >= 1,
        utf8_len_spec(encode_utf8(seq![c])[0]) == encode_utf8(seq![c]).len(),
        (c as u32) < 0x80 ==> encode_utf8(seq![c]).len() == 1 && encode_utf8(seq![c])[0] as u32 == c as u32,
        (c as u32) >= 0x80 ==> encode_utf8(seq![c])[0] >= 0xC0,
        valid_utf8(encode_utf8(seq![c])),
        decode_utf8(encode_utf8(seq![c])) == seq![c],
{
    let x = c as u32;
    char_is_scalar(c);
    encode_utf8_valid_utf8(seq![c]);
    encode_utf8_decode_utf8(seq![c]);
    assert(seq![c].drop_first() =~= Seq::<char>::empty());
    assert(seq![c][0] == c);
    assert(encode_utf8(Seq::<char>::empty()) =~= Seq::<u8>::empty());
    assert(encode_utf8(seq![c]) =~= encode_scalar(x));
    if has_width_1_encoding(x) {
        lemma_encode_ascii_char(c);
        let b0 = leading_byte_width_1(x);
        assert(b0 & 0x80 == 0) by (bit_vector)
            requires
                b0 == (x & 0x7f) as u8,
                x <= 0x7f,
        ;
    } else if has_width_2_encoding(x) {
        let b0 = leading_byte_width_2(x);
        assert(b0 & 0x80 != 0 && b0 & 0xE0 == 0xC0 && b0 >= 0xC0) by (bit_vector)
            requires
                b0 == 0xC0u8 | ((x >> 6u32) & 0x1Fu32) as u8,
        ;
    } else if has_width_3_encoding(x) {
        let b0 = leading_byte_width_3(x);
        assert(b0 & 0x80 != 0 && b0 & 0xE0 != 0xC0 && b0 & 0xF0 == 0xE0 && b0 >= 0xC0) by (bit_vector)
            requires
                b0 == 0xE0u8 | ((x >> 12u32) & 0x0Fu32) as u8,
        ;
    } else {
        let b0 = leading_byte_width_4(x);
        assert(b0 & 0x80 != 0 && b0 & 0xE0 != 0xC0 && b0 & 0xF0 != 0xE0 && b0 >= 0xC0) by (bit_vector)
            requires
                b0 == 0xF0u8 | ((x >> 18u32) & 0x7u32) as u8,
        ;
    }
}

pub proof fn lemma_escape_chars_concat(a: Seq<char>, c: Seq<char>)
    ensures
        escape_chars(a + c) == escape_chars(a) + escape_chars(c),
    decreases c.len(),
{
    if c.len() == 0 {
        assert(a + c =~= a);
        assert(escape_chars(a) + escape_chars(c) =~= escape_chars(a));
    } else {
        assert((a + c).drop_last() =~= a + c.drop_last());
        assert((a + c).last() == c.last());
        lemma_escape_chars_concat(a, c.drop_last());
        assert(escape_chars(a) + escape_chars(c.drop_last()) + escape_char(c.last()) =~= escape_chars(a)
            + (escape_chars(c.drop_last()) + escape_char(c.last())));
    }
}

proof fn lemma_hex_lower(d: nat)
    requires
        d < 16,
    ensures
        (hex_lower(d) as u32) < 0x80,
        is_hex(hex_lower(d) as u8),
        hex_val(hex_lower(d) as u8) == d,
        hex_lower(d) as u8 != 0x2b,
{
}

/// Reading one written character: the string scanner consumes its bytes
/// and records the character.
proof fn lemma_char_step(c: char, b: Seq<u8>, start: int, p: int, acc: Seq<char>)
    requires
        at(b, p, encode_utf8(escape_char(c))),
        p + encode_utf8(escape_char(c)).len() < b.len(),
    ensures
        string_body(b, start, 0x22, p, acc) == string_body(
            b,
            start,
            0x22,
            p + encode_utf8(escape_char(c)).len(),
            acc.push(c),
        ),
{
    let x = c as u32;
    let e = escape_char(c);
    let eb = encode_utf8(e);
    if c == '"' || c == '\\' || c == '\u{8}' || c == '\u{c}' || c == '\n' || c == '\r' || c == '\t' {
        let t = e[1];
        assert(e == seq!['\\', t]);
        assert(all_ascii(e));
        lemma_encode_ascii(e);
        lemma_at_index(b, p, eb, 0);
        lemma_at_index(b, p, eb, 1);
        assert(b[p] == 0x5c);
        assert(simple_escape(b[p + 1]) == Some(c));
    } else if x < 0x20 {
        let d1 = (x / 16) as nat;
        let d0 = (x % 16) as nat;
        lemma_hex_lower(d1);
        lemma_hex_lower(d0);
        assert(e == seq!['\\', 'u', '0', '0', hex_lower(d1), hex_lower(d0)]);
        assert(all_ascii(e));
        lemma_encode_ascii(e);
        lemma_at_index(b, p, eb, 0);
        lemma_at_index(b, p, eb, 1);
        lemma_at_index(b, p, eb, 2);
        lemma_at_index(b, p, eb, 3);
        lemma_at_index(b, p, eb, 4);
        lemma_at_index(b, p, eb, 5);
        assert(b[p] == 0x5c);
        assert(b[p + 1] == 0x75);
        assert(simple_escape(b[p + 1]) is None);
        assert(hex4_valid(b, p + 2));
        assert(hex4_value(b, p + 2) == x);
        char_u32_cast(c, x);
        assert(is_scalar(x));
    } else {
        assert(e == seq![c]);
        lemma_char_bytes(c);
        lemma_at_index(b, p, eb, 0);
        if x < 0x80 {
            assert(b[p] as u32 == c as u32);
        }
        assert(b[p] != 0x22 && b[p] != 0x5c);
        assert(b.subrange(p, p + eb.len()) == eb);
        assert(acc + seq![c] =~= acc.push(c));
    }
}

/// Reading one written character with the strict string grammar.
proof fn lemma_char_step_strict(c: char, b: Seq<u8>, p: int, acc: Seq<char>)
    requires
        at(b, p, encode_utf8(escape_char(c))),
        p + encode_utf8(escape_char(c)).len() < b.len(),
    ensures
        json_string_body(b, p, acc) == json_string_body(b, p + encode_utf8(escape_char(c)).len(), acc.push(c)),
{
    let x = c as u32;
    let e = escape_char(c);
    let eb = encode_utf8(e);
    if c == '"' || c == '\\' || c == '\u{8}' || c == '\u{c}' || c == '\n' || c == '\r' || c == '\t' {
        let t = e[1];
        assert(e == seq!['\\', t]);
        assert(all_ascii(e));
        lemma_encode_ascii(e);
        lemma_at_index(b, p, eb, 0);
        lemma_at_index(b, p, eb, 1);
        assert(b[p] == 0x5c);
        assert(json_escape(b[p + 1]) == Some(c));
    } else if x < 0x20 {
        let d1 = (x / 16) as nat;
        let d0 = (x % 16) as nat;
        lemma_hex_lower(d1);
        lemma_hex_lower(d0);
        assert(e == seq!['\\', 'u', '0', '0', hex_lower(d1), hex_lower(d0)]);
        assert(all_ascii(e));
        lemma_encode_ascii(e);
        lemma_at_index(b, p, eb, 0);
        lemma_at_index(b, p, eb, 1);
        lemma_at_index(b, p, eb, 2);
        lemma_at_index(b, p, eb, 3);
        lemma_at_index(b, p, eb, 4);
        lemma_at_index(b, p, eb, 5);
        assert(b[p] == 0x5c);
        assert(b[p + 1] == 0x75);
        assert(json_escape(b[p + 1]) is None);
        assert(json_hex4(b, p + 2));
        assert(hex4_value(b, p + 2) == x);
        char_u32_cast(c, x);
    } else {
        assert(e == seq![c]);
        lemma_char_bytes(c);
        lemma_at_index(b, p, eb, 0);
        if x < 0x80 {
            assert(b[p] as u32 == c as u32);
        }
        assert(b[p] != 0x22 && b[p] != 0x5c && b[p] >= 0x20);
        assert(b.subrange(p, p + eb.len()) == eb);
        assert(acc + seq![c] =~= acc.push(c));
    }
}

/// Reading a written string body up to its closing quote gives back the
/// characters.
pub proof fn lemma_string_read(s: Seq<char>, b: Seq<u8>, start: int, p: int, acc: Seq<char>)
    requires
        at(b, p, encode_utf8(escape_chars(s)) + seq![0x22u8]),
    ensures
        string_body(b, start, 0x22, p, acc) == Ok::<(Seq<char>, int), RustJsonError>(
            (acc + s, p + encode_utf8(escape_chars(s)).len() + 1),
        ),
        json_string_body(b, p, acc) == Some((acc + s, p + encode_utf8(escape_chars(s)).len() + 1)),
    decreases s.len(),
{
    if s.len() == 0 {
        assert(escape_chars(s) =~= Seq::<char>::empty());
        assert(encode_utf8(Seq::<char>::empty()) =~= Seq::<u8>::empty());
        lemma_at_index(b, p, encode_utf8(escape_chars(s)) + seq![0x22u8], 0);
        assert(acc + s =~= acc);
    } else {
        let c = s[0];
        let r = s.drop_first();
        assert(s =~= seq![c] + r);
        lemma_escape_chars_concat(seq![c], r);
        assert(escape_chars(seq![c]) =~= escape_char(c)) by {
            assert(seq![c].drop_last() =~= Seq::<char>::empty());
            assert(escape_chars(Seq::<char>::empty()) =~= Seq::<char>::empty());
        }
        lemma_encode_concat(escape_char(c), escape_chars(r));
        let e1 = encode_utf8(escape_char(c));
        let e2 = encode_utf8(escape_chars(r));
        assert(encode_utf8(escape_chars(s)) + seq![0x22u8] =~= e1 + (e2 + seq![0x22u8]));
        lemma_at_split(b, p, e1, e2 + seq![0x22u8]);
        lemma_char_step(c, b, start, p, acc);
        lemma_char_step_strict(c, b, p, acc);
        lemma_string_read(r, b, start, p + e1.len(), acc.push(c));
        assert(acc.push(c) + r =~= acc + s);
    }
}

// ---------------------------------------------------------------------------
// Numbers
// ---------------------------------------------------------------------------

/// The bytes of `b` from `p` are the (ASCII) characters of `t`.
pub open spec fn mirrors(b: Seq<u8>, p: int, t: Seq<char>) -> bool {
    &&& 0 <= p
    &&& p + t.len() <= b.len()
    &&& forall|k: int| 0 <= k < t.len() ==> (#[trigger] b[p + k] as u32) == t[k] as u32 && (t[k] as u32) < 0x80
}

proof fn lemma_mirror(b: Seq<u8>, p: int, t: Seq<char>)
    requires
        at(b, p, encode_utf8(t)),
        all_ascii(t),
    ensures
        mirrors(b, p, t),
{
    lemma_encode_ascii(t);
    assert forall|k: int| 0 <= k < t.len() implies (#[trigger] b[p + k] as u32) == t[k] as u32 && (t[k] as u32)
        < 0x80 by {
        lemma_at_index(b, p, encode_utf8(t), k);
    }
}

pub open spec fn is_digit_char(c: char) -> bool {
    0x30 <= (c as u32) <= 0x39
}

/// End of the run of decimal digits of `t` from `i`.
pub open spec fn char_digits_end(t: Seq<char>, i: int) -> int
    decreases t.len() - i,
{
    if i < 0 || i >= t.len() || !is_digit_char(t[i]) {
        i
    } else {
        char_digits_end(t, i + 1)
    }
}

/// Decimal value of the digits `t[s..e]`.
pub open spec fn char_digits_value(t: Seq<char>, s: int, e: int) -> nat
    decreases e - s,
{
    if e <= s {
        0
    } else {
        char_digits_value(t, s, e - 1) * 10 + ((t[e - 1] as u32) - 0x30) as nat
    }
}

/// A number may end at `q` of `b`: at the end of input, or before a comma
/// or a closing bracket.
pub open spec fn delimited(b: Seq<u8>, q: int) -> bool {
    q >= b.len() || b[q] == 0x2c || b[q] == 0x5d || b[q] == 0x7d
}

proof fn lemma_digits_window(b: Seq<u8>, p: int, t: Seq<char>, i: int)
    requires
        mirrors(b, p, t),
        delimited(b, p + t.len()),
        0 <= i <= t.len(),
    ensures
        digits_end(b, p + i) == p + char_digits_end(t, i),
        i <= char_digits_end(t, i) <= t.len(),
    decreases t.len() - i,
{
    if i < t.len() {
        assert(b[p + i] as u32 == t[i] as u32);
        if is_digit_char(t[i]) {
            lemma_digits_window(b, p, t, i + 1);
        }
    }
}

proof fn lemma_value_window(b: Seq<u8>, p: int, t: Seq<char>, s: int, e: int)
    requires
        mirrors(b, p, t),
        0 <= s <= e <= t.len(),
    ensures
        digits_value(b, p + s, p + e) == char_digits_value(t, s, e),
    decreases e - s,
{
    if s < e {
        lemma_value_window(b, p, t, s, e - 1);
        assert(b[p + e - 1] as u32 == t[e - 1] as u32);
    }
}

/// The characters of a float literal: an optional `-`, digits (with no
/// leading zero), an optional fraction, an optional exponent, and either a fraction, an
/// exponent, or a value no integer type holds; and a literal that is the
/// text `serde_json` writes for the double it denotes.
#[verifier::opaque]
pub open spec fn float_ok(t: Seq<char>) -> bool {
    let len = t.len() as int;
    let neg = len > 0 && t[0] as u32 == 0x2d;
    let ds: int = if neg { 1 } else { 0 };
    let de = char_digits_end(t, ds);
    let has_frac = de < len && t[de] as u32 == 0x2e;
    let fe = if has_frac { char_digits_end(t, de + 1) } else { de };
    let has_exp = fe < len && (t[fe] as u32 == 0x65 || t[fe] as u32 == 0x45);
    let es = if has_exp {
        if fe + 1 < len && (t[fe + 1] as u32 == 0x2b || t[fe + 1] as u32 == 0x2d) { fe + 2 } else { fe + 1 }
    } else {
        fe
    };
    let ee = if has_exp { char_digits_end(t, es) } else { fe };
    let v = char_digits_value(t, ds, de);
    &&& all_ascii(t)
    &&& de > ds
    &&& (t[ds] as u32 == 0x30 ==> de == ds + 1)
    &&& (has_frac ==> fe > de + 1)
    &&& (has_exp ==> ee > es)
    &&& ee == len
    &&& (has_frac || has_exp || (!neg && v > u64::MAX) || (neg && v > i64::MAX + 1))
    &&& float_display(t) == Some(t)
}

/// A number the model can hold as written: an unsigned one only above the
/// signed range, a float only as [`float_ok`] text.
pub open spec fn num_ok(n: Num) -> bool {
    match n {
        Num::Int(_) => true,
        Num::UInt(u) => u > i64::MAX,
        Num::Float(t) => float_ok(t),
    }
}

proof fn lemma_nat_chars(n: nat)
    ensures
        all_ascii(nat_chars(n)),
        nat_chars(n).len() >= 1,
        char_digits_end(nat_chars(n), 0) == nat_chars(n).len(),
        char_digits_value(nat_chars(n), 0, nat_chars(n).len() as int) == n,
    decreases n,
{
    let t = nat_chars(n);
    if n < 10 {
        assert(t == seq![digit_char(n)]);
        assert(char_digits_end(t, 1) == 1);
        assert(char_digits_value(t, 0, 0) == 0);
    } else {
        let h = nat_chars(n / 10);
        lemma_nat_chars(n / 10);
        assert(t == h.push(digit_char(n % 10)));
        assert(all_ascii(t)) by {
            assert forall|i: int| 0 <= i < t.len() implies (#[trigger] t[i] as u32) < 0x80 by {
                if i < h.len() {
                    assert(t[i] == h[i]);
                }
            }
        }
        assert forall|i: int| 0 <= i < t.len() implies #[trigger] is_digit_char(t[i]) by {
            if i < h.len() {
                assert(t[i] == h[i]);
                lemma_char_digits_all(h, 0, i);
            }
        }
        lemma_char_digits_run(t, 0);
        lemma_char_digits_prefix(h, t, 0, h.len() as int);
        assert(char_digits_value(t, 0, t.len() as int) == char_digits_value(t, 0, h.len() as int) * 10 + ((
        t[h.len() as int] as u32) - 0x30) as nat);
        assert((n / 10) * 10 + n % 10 == n);
    }
}

/// Decimal digits start with `0` only for zero itself.
proof fn lemma_nat_chars_lead(n: nat)
    ensures
        nat_chars(n)[0] as u32 == 0x30 ==> nat_chars(n).len() == 1,
        nat_chars(n).len() >= 1,
    decreases n,
{
    if n >= 10 {
        lemma_nat_chars_lead(n / 10);
        let h = nat_chars(n / 10);
        assert(nat_chars(n)[0] == h[0]);
        if n / 10 >= 10 {
            lemma_nat_chars_lead(n / 10 / 10);
        }
        if h[0] as u32 == 0x30 {
            assert(h.len() == 1);
            assert(n / 10 < 10);
            assert(h[0] == digit_char(n / 10));
        }
    }
}

/// Every character before the end of a digit run is a digit.
proof fn lemma_char_digits_all(t: Seq<char>, i: int, k: int)
    requires
        0 <= i <= k < char_digits_end(t, i),
    ensures
        is_digit_char(t[k]),
    decreases t.len() - i,
{
    if i < k {
        lemma_char_digits_all(t, i + 1, k);
    }
}

/// A sequence of digits runs to its end.
proof fn lemma_char_digits_run(t: Seq<char>, i: int)
    requires
        0 <= i <= t.len(),
        forall|k: int| 0 <= k < t.len() ==> #[trigger] is_digit_char(t[k]),
    ensures
        char_digits_end(t, i) == t.len(),
    decreases t.len() - i,
{
    if i < t.len() {
        lemma_char_digits_run(t, i + 1);
    }
}

/// Digit values only read their own range.
proof fn lemma_char_digits_prefix(h: Seq<char>, t: Seq<char>, s: int, e: int)
    requires
        0 <= s <= e <= h.len() <= t.len(),
        forall|k: int| 0 <= k < h.len() ==> #[trigger] h[k] == t[k],
    ensures
        char_digits_value(t, s, e) == char_digits_value(h, s, e),
    decreases e - s,
{
    if s < e {
        lemma_char_digits_prefix(h, t, s, e - 1);
    }
}

proof fn lemma_int_chars(i: int)
    ensures
        all_ascii(int_chars(i)),
        ({
            let t = int_chars(i);
            let ds: int = if i < 0 { 1 } else { 0 };
            &&& t.len() > ds
            &&& (t[0] as u32 == 0x2d) == (i < 0)
            &&& char_digits_end(t, ds) == t.len()
            &&& char_digits_value(t, ds, t.len() as int) == if i < 0 { -i } else { i }
        }),
{
    let t = int_chars(i);
    if i < 0 {
        let m = nat_chars((0 - i) as nat);
        lemma_nat_chars((0 - i) as nat);
        assert(t == seq!['-'] + m);
        assert(all_ascii(t)) by {
            assert forall|k: int| 0 <= k < t.len() implies (#[trigger] t[k] as u32) < 0x80 by {
                if k > 0 {
                    assert(t[k] == m[k - 1]);
                }
            }
        }
        lemma_shift_digits(m, t, 1, 0);
        lemma_shift_value(m, t, 1, 0, m.len() as int);
        assert(m[0] as u32 != 0x2d) by {
            lemma_char_digits_all(m, 0, 0);
        }
    } else {
        lemma_nat_chars(i as nat);
        assert(t[0] as u32 != 0x2d) by {
            lemma_char_digits_all(t, 0, 0);
        }
    }
}

/// Digit runs of `t = prefix + m` are those of `m`, shifted.
proof fn lemma_shift_digits(m: Seq<char>, t: Seq<char>, off: int, i: int)
    requires
        0 <= off,
        t.len() == m.len() + off,
        forall|k: int| 0 <= k < m.len() ==> #[trigger] t[k + off] == m[k],
        0 <= i <= m.len(),
    ensures
        char_digits_end(t, i + off) == char_digits_end(m, i) + off,
    decreases m.len() - i,
{
    if i < m.len() {
        assert(t[i + off] == m[i]);
        lemma_shift_digits(m, t, off, i + 1);
    }
}

proof fn lemma_shift_value(m: Seq<char>, t: Seq<char>, off: int, s: int, e: int)
    requires
        0 <= off,
        t.len() == m.len() + off,
        forall|k: int| 0 <= k < m.len() ==> #[trigger] t[k + off] == m[k],
        0 <= s <= e <= m.len(),
    ensures
        char_digits_value(t, s + off, e + off) == char_digits_value(m, s, e),
    decreases e - s,
{
    if s < e {
        lemma_shift_value(m, t, off, s, e - 1);
        assert(t[e - 1 + off] == m[e - 1]);
    }
}

/// A float literal, written as its text, reads back as itself.
#[verifier::spinoff_prover]
proof fn lemma_float_read(t: Seq<char>, b: Seq<u8>, p: int)
    requires
        float_ok(t),
        mirrors(b, p, t),
        delimited(b, p + t.len()),
    ensures
        spec_number(b, p) == Ok::<(Num, int), RustJsonError>((Num::Float(t), p + t.len())),
        ({
            let ds = if b[p] == 0x2d {
                p + 1
            } else {
                p
            };
            ds < b.len() && b[ds] == 0x30 ==> digits_end(b, ds) == ds + 1
        }),
{
    reveal(float_ok);
    let len = t.len() as int;
    let neg = len > 0 && t[0] as u32 == 0x2d;
    assert(len > 0 ==> (b[p] == 0x2d) == neg) by {
        if len > 0 {
            assert(b[p + 0] as u32 == t[0] as u32);
        }
    }
    let ds: int = if neg { 1 } else { 0 };
    lemma_digits_window(b, p, t, ds);
    let de = char_digits_end(t, ds);
    lemma_value_window(b, p, t, ds, de);
    let has_frac = de < len && t[de] as u32 == 0x2e;
    if de < len {
        assert(b[p + de] as u32 == t[de] as u32);
    }
    let fe = if has_frac { char_digits_end(t, de + 1) } else { de };
    if has_frac {
        lemma_digits_window(b, p, t, de + 1);
    }
    let has_exp = fe < len && (t[fe] as u32 == 0x65 || t[fe] as u32 == 0x45);
    if fe < len {
        assert(b[p + fe] as u32 == t[fe] as u32);
    }
    if fe + 1 < len {
        assert(b[p + (fe + 1)] as u32 == t[fe + 1] as u32);
    }
    let es = if has_exp {
        if fe + 1 < len && (t[fe + 1] as u32 == 0x2b || t[fe + 1] as u32 == 0x2d) { fe + 2 } else { fe + 1 }
    } else {
        fe
    };
    if has_exp {
        lemma_digits_window(b, p, t, es);
    }
    lemma_ascii_window(b, p, t, 0, len);
    let bde = digits_end(b, p + ds);
    assert(bde == p + de);
    let bfrac = bde < b.len() && b[bde] == 0x2e;
    assert(bfrac == has_frac);
    let bfe = if bfrac { digits_end(b, bde + 1) } else { bde };
    assert(bfe == p + fe);
    let bexp = bfe < b.len() && (b[bfe] == 0x65 || b[bfe] == 0x45);
    assert(bexp == has_exp);
    let bes = if bexp {
        if bfe + 1 < b.len() && (b[bfe + 1] == 0x2b || b[bfe + 1] == 0x2d) { bfe + 2 } else { bfe + 1 }
    } else {
        bfe
    };
    assert(bes == p + es);
    let bee = if bexp { digits_end(b, bes) } else { bfe };
    assert(bee == p + len);
    assert(b[p + ds] as u32 == t[ds] as u32);
    assert(t.subrange(0, len) =~= t);
    assert(ascii_chars(b, p, p + len) == t);
}

/// An integer, written in decimal, reads back as itself.
#[verifier::spinoff_prover]
proof fn lemma_integer_read(n: Num, b: Seq<u8>, p: int)
    requires
        n !is Float,
        num_ok(n),
        mirrors(b, p, ser_number(n)),
        delimited(b, p + ser_number(n).len()),
    ensures
        spec_number(b, p) == Ok::<(Num, int), RustJsonError>((n, p + ser_number(n).len())),
        ({
            let ds = if b[p] == 0x2d {
                p + 1
            } else {
                p
            };
            ds < b.len() && b[ds] == 0x30 ==> digits_end(b, ds) == ds + 1
        }),
{
    let t = ser_number(n);
    let len = t.len() as int;
    match n {
        Num::Int(i) => {
            lemma_int_chars(i as int);
            if i < 0 {
                lemma_nat_chars_lead((0 - i) as nat);
                assert(t[1] == nat_chars((0 - i) as nat)[0]);
            } else {
                lemma_nat_chars_lead(i as nat);
            }
        },
        _ => {
            let u = n->UInt_0;
            lemma_nat_chars_lead(u as nat);
            lemma_nat_chars(u as nat);
            assert(t[0] as u32 != 0x2d) by {
                lemma_char_digits_all(t, 0, 0);
            }
        },
    }
    let neg = t[0] as u32 == 0x2d;
    assert(b[p + 0] as u32 == t[0] as u32);
    let ds: int = if neg { 1 } else { 0 };
    lemma_digits_window(b, p, t, ds);
    lemma_value_window(b, p, t, ds, len);
    assert(digits_end(b, p + ds) == p + len);
    assert(b[p + ds] as u32 == t[ds] as u32);
}

/// A written number reads back as itself.
pub proof fn lemma_number_read(n: Num, b: Seq<u8>, p: int)
    requires
        num_ok(n),
        at(b, p, encode_utf8(ser_number(n))),
        delimited(b, p + encode_utf8(ser_number(n)).len()),
    ensures
        all_ascii(ser_number(n)),
        encode_utf8(ser_number(n)).len() == ser_number(n).len(),
        spec_number(b, p) == Ok::<(Num, int), RustJsonError>((n, p + encode_utf8(ser_number(n)).len())),
        json_number(b, p) == Some((n, p + encode_utf8(ser_number(n)).len())),
{
    let t = ser_number(n);
    match n {
        Num::Int(i) => {
            lemma_int_chars(i as int);
        },
        Num::UInt(u) => {
            lemma_nat_chars(u as nat);
        },
        Num::Float(ft) => {
            reveal(float_ok);
        },
    }
    lemma_encode_ascii(t);
    lemma_mirror(b, p, t);
    match n {
        Num::Float(ft) => {
            lemma_float_read(ft, b, p);
        },
        _ => {
            lemma_integer_read(n, b, p);
        },
    }
    assert(b[p + 0] as u32 == t[0] as u32);
    lemma_number_strict(b, p);
}

proof fn lemma_ascii_window(b: Seq<u8>, p: int, t: Seq<char>, s: int, e: int)
    requires
        mirrors(b, p, t),
        0 <= s <= e <= t.len(),
    ensures
        ascii_chars(b, p + s, p + e) == t.subrange(s, e),
{
    assert forall|k: int| 0 <= k < e - s implies #[trigger] ascii_chars(b, p + s, p + e)[k] == t.subrange(s, e)[k] by {
        assert(b[p + (s + k)] as u32 == t[s + k] as u32);
        let u = b[p + s + k] as u32;
        char_u32_cast(t[s + k], u);
    }
    assert(ascii_chars(b, p + s, p + e) =~= t.subrange(s, e));
}

// ---------------------------------------------------------------------------
// Values
// ---------------------------------------------------------------------------

/// A value as parsing gives it: numbers as [`num_ok`] says, and object
/// members in strictly increasing order of their keys; and so on inside.
pub open spec fn wf_json(j: Json) -> bool
    decreases j, 1nat,
{
    match j {
        Json::Number(n) => num_ok(n),
        Json::Array(items) => all_wf(items),
        Json::Object(ms) => sorted_member_keys(ms) && all_wf_members(ms),
        _ => true,
    }
}

pub open spec fn all_wf(items: Seq<Json>) -> bool
    decreases items, 0nat,
{
    if items.len() == 0 {
        true
    } else {
        all_wf(items.drop_last()) && wf_json(items.last())
    }
}

pub open spec fn all_wf_members(ms: Seq<(Seq<char>, Json)>) -> bool
    decreases ms, 0nat,
{
    if ms.len() == 0 {
        true
    } else {
        all_wf_members(ms.drop_last()) && wf_json(ms.last().1)
    }
}

/// Member keys in strictly increasing order, as a parsed object holds them.
pub open spec fn sorted_member_keys(ms: Seq<(Seq<char>, Json)>) -> bool {
    forall|i: int, j: int| 0 <= i < j < ms.len() ==> key_lt(#[trigger] ms[i].0, #[trigger] ms[j].0)
}

/// No key comes before itself.
proof fn lemma_key_lt_irreflexive(a: Seq<char>, i: int)
    requires
        0 <= i,
    ensures
        !key_lt_from(a, a, i),
    decreases a.len() - i,
{
    if i < a.len() {
        lemma_key_lt_irreflexive(a, i + 1);
    }
}

/// Of two keys, at most one comes before the other.
proof fn lemma_key_lt_asymmetric(a: Seq<char>, b: Seq<char>, i: int)
    requires
        0 <= i,
    ensures
        key_lt_from(a, b, i) ==> !key_lt_from(b, a, i),
    decreases b.len() - i,
{
    if i < a.len() && i < b.len() && a[i] == b[i] {
        lemma_key_lt_asymmetric(a, b, i + 1);
    }
}

proof fn lemma_insert_pos_end(m: Seq<(Seq<char>, Json)>, k: Seq<char>, i: int)
    requires
        0 <= i <= m.len(),
        forall|j: int| i <= j < m.len() ==> !key_lt(k, #[trigger] m[j].0),
    ensures
        insert_pos(m, k, i) == m.len(),
    decreases m.len() - i,
{
    if i < m.len() {
        lemma_insert_pos_end(m, k, i + 1);
    }
}

proof fn lemma_all_wf(items: Seq<Json>)
    ensures
        all_wf(items) <==> forall|k: int| 0 <= k < items.len() ==> #[trigger] wf_json(items[k]),
    decreases items.len(),
{
    if items.len() > 0 {
        lemma_all_wf(items.drop_last());
        if forall|k: int| 0 <= k < items.len() ==> #[trigger] wf_json(items[k]) {
            assert forall|k: int| 0 <= k < items.drop_last().len() implies #[trigger] wf_json(
                items.drop_last()[k],
            ) by {
                assert(items.drop_last()[k] == items[k]);
            }
            assert(wf_json(items[items.len() - 1]));
        }
        if all_wf(items) {
            assert forall|k: int| 0 <= k < items.len() implies #[trigger] wf_json(items[k]) by {
                if k < items.len() - 1 {
                    assert(items.drop_last()[k] == items[k]);
                }
            }
        }
    }
}

proof fn lemma_all_wf_members(ms: Seq<(Seq<char>, Json)>)
    ensures
        all_wf_members(ms) <==> forall|k: int| 0 <= k < ms.len() ==> #[trigger] wf_json(ms[k].1),
    decreases ms.len(),
{
    if ms.len() > 0 {
        lemma_all_wf_members(ms.drop_last());
        if forall|k: int| 0 <= k < ms.len() ==> #[trigger] wf_json(ms[k].1) {
            assert forall|k: int| 0 <= k < ms.drop_last().len() implies #[trigger] wf_json(
                ms.drop_last()[k].1,
            ) by {
                assert(ms.drop_last()[k] == ms[k]);
            }
            assert(wf_json(ms[ms.len() - 1].1));
        }
        if all_wf_members(ms) {
            assert forall|k: int| 0 <= k < ms.len() implies #[trigger] wf_json(ms[k].1) by {
                if k < ms.len() - 1 {
                    assert(ms.drop_last()[k] == ms[k]);
                }
            }
        }
    }
}

/// Array text read from the front: the first element, then a comma and
/// the rest.
proof fn lemma_ser_items_front(xs: Seq<Json>)
    requires
        xs.len() >= 1,
    ensures
        ser_items(xs) == ser(xs[0]) + if xs.len() == 1 {
            Seq::<char>::empty()
        } else {
            seq![','] + ser_items(xs.drop_first())
        },
    decreases xs.len(),
{
    if xs.len() == 1 {
        assert(ser(xs[0]) + Seq::<char>::empty() =~= ser(xs[0]));
    } else if xs.len() == 2 {
        assert(xs.drop_last().len() == 1);
        assert(xs.drop_last()[0] == xs[0]);
        assert(xs.drop_first().len() == 1);
        assert(xs.drop_first()[0] == xs[1]);
        assert(ser_items(xs.drop_last()) == ser(xs[0]));
        assert(ser_items(xs.drop_first()) == ser(xs[1]));
        assert(ser(xs[0]) + seq![','] + ser(xs.last()) =~= ser(xs[0]) + (seq![','] + ser(xs[1])));
    } else {
        let d = xs.drop_last();
        lemma_ser_items_front(d);
        assert(d[0] == xs[0]);
        assert(d.drop_first() =~= xs.drop_first().drop_last());
        assert(xs.drop_first().last() == xs.last());
        assert(ser_items(xs.drop_first()) == ser_items(xs.drop_first().drop_last()) + seq![','] + ser(
            xs.drop_first().last(),
        ));
        assert(ser(xs[0]) + (seq![','] + ser_items(d.drop_first())) + seq![','] + ser(xs.last()) =~= ser(xs[0])
            + (seq![','] + (ser_items(d.drop_first()) + seq![','] + ser(xs.last()))));
    }
}

pub open spec fn ser_member(m: (Seq<char>, Json)) -> Seq<char> {
    ser_string(m.0) + seq![':'] + ser(m.1)
}

/// Object text read from the front: the first member, then a comma and
/// the rest.
proof fn lemma_ser_members_front(ms: Seq<(Seq<char>, Json)>)
    requires
        ms.len() >= 1,
    ensures
        ser_members(ms) == ser_member(ms[0]) + if ms.len() == 1 {
            Seq::<char>::empty()
        } else {
            seq![','] + ser_members(ms.drop_first())
        },
    decreases ms.len(),
{
    if ms.len() == 1 {
        assert(ser_member(ms[0]) + Seq::<char>::empty() =~= ser_member(ms[0]));
    } else if ms.len() == 2 {
        assert(ms.drop_last().len() == 1);
        assert(ms.drop_last()[0] == ms[0]);
        assert(ms.drop_first().len() == 1);
        assert(ms.drop_first()[0] == ms[1]);
        assert(ser_members(ms.drop_last()) == ser_member(ms[0]));
        assert(ser_members(ms.drop_first()) == ser_member(ms[1]));
        assert(ser_members(ms) == ser_members(ms.drop_last()) + seq![','] + ser_string(ms.last().0) + seq![':']
            + ser(ms.last().1));
        assert(ser_member(ms[0]) + seq![','] + ser_string(ms[1].0) + seq![':'] + ser(ms[1].1) =~= ser_member(
            ms[0],
        ) + (seq![','] + ser_member(ms[1])));
    } else {
        let d = ms.drop_last();
        lemma_ser_members_front(d);
        assert(d[0] == ms[0]);
        assert(d.drop_first() =~= ms.drop_first().drop_last());
        assert(ms.drop_first().last() == ms.last());
        assert(ser_members(ms.drop_first()) == ser_members(ms.drop_first().drop_last()) + seq![','] + ser_string(
            ms.drop_first().last().0,
        ) + seq![':'] + ser(ms.drop_first().last().1));
        assert(ser_members(ms) == ser_members(d) + seq![','] + ser_string(ms.last().0) + seq![':'] + ser(
            ms.last().1,
        ));
        assert(ser_member(ms[0]) + (seq![','] + ser_members(d.drop_first())) + seq![','] + ser_string(
            ms.last().0,
        ) + seq![':'] + ser(ms.last().1) =~= ser_member(ms[0]) + (seq![','] + (ser_members(d.drop_first())
            + seq![','] + ser_string(ms.last().0) + seq![':'] + ser(ms.last().1))));
    }
}

pub open spec fn starts_value(c: u32) -> bool {
    c == 0x6e || c == 0x74 || c == 0x66 || c == 0x22 || c == 0x5b || c == 0x7b || c == 0x2d || (0x30 <= c
        <= 0x39)
}

/// The first character of a written value, which starts no trivia and
/// closes nothing.
proof fn lemma_first_char(j: Json)
    requires
        wf_json(j),
    ensures
        ser(j).len() >= 1,
        starts_value(ser(j)[0] as u32),
        j is Null ==> ser(j)[0] as u32 == 0x6e,
        j == Json::Bool(true) ==> ser(j)[0] as u32 == 0x74,
        j == Json::Bool(false) ==> ser(j)[0] as u32 == 0x66,
        j is Str ==> ser(j)[0] as u32 == 0x22,
        j is Array ==> ser(j)[0] as u32 == 0x5b,
        j is Object ==> ser(j)[0] as u32 == 0x7b,
        j is Number ==> (ser(j)[0] as u32 == 0x2d || (0x30 <= ser(j)[0] as u32 <= 0x39)),
{
    match j {
        Json::Number(n) => {
            let t = ser_number(n);
            match n {
                Num::Int(i) => {
                    lemma_int_chars(i as int);
                    if i >= 0 {
                        lemma_char_digits_all(t, 0, 0);
                    }
                },
                Num::UInt(u) => {
                    lemma_nat_chars(u as nat);
                    lemma_char_digits_all(t, 0, 0);
                },
                Num::Float(ft) => {
                    reveal(float_ok);
                    assert(float_ok(ft));
                    if !(t.len() > 0 && t[0] as u32 == 0x2d) {
                        lemma_char_digits_all(t, 0, 0);
                    }
                },
            }
        },
        _ => {},
    }
}

/// The first byte of a written value in `b` at `p`.
proof fn lemma_first_byte(j: Json, b: Seq<u8>, p: int)
    requires
        wf_json(j),
        at(b, p, encode_utf8(ser(j))),
    ensures
        encode_utf8(ser(j)).len() >= 1,
        p < b.len(),
        starts_value(b[p] as u32),
        !is_ws(b[p]),
        b[p] != 0x2f,
        b[p] != 0x5d,
        b[p] != 0x7d,
        b[p] as u32 == ser(j)[0] as u32,
{
    lemma_first_char(j);
    let t = ser(j);
    let c = t[0];
    assert(t =~= seq![c] + t.drop_first());
    lemma_encode_concat(seq![c], t.drop_first());
    lemma_encode_ascii_char(c);
    lemma_at_index(b, p, encode_utf8(t), 0);
}

/// A one-character ASCII text is its byte.
proof fn lemma_enc_char(c: char, x: u8)
    requires
        c as u32 == x as u32,
        x < 0x80,
    ensures
        encode_utf8(seq![c]) == seq![x],
{
    lemma_encode_ascii_char(c);
    assert(encode_utf8(seq![c]) =~= seq![x]);
}

/// An ASCII text is the bytes with the same values.
proof fn lemma_enc_text(t: Seq<char>, x: Seq<u8>)
    requires
        all_ascii(t),
        t.len() == x.len(),
        forall|i: int| 0 <= i < t.len() ==> #[trigger] t[i] as u32 == x[i] as u32,
    ensures
        encode_utf8(t) == x,
{
    lemma_encode_ascii(t);
    assert(encode_utf8(t) =~= x);
}

proof fn lemma_find_key_absent(m: Seq<(Seq<char>, Json)>, k: Seq<char>, i: int)
    requires
        0 <= i,
        forall|j: int| i <= j < m.len() ==> m[j].0 != k,
    ensures
        find_key(m, k, i) == -1,
    decreases m.len() - i,
{
    if i < m.len() {
        lemma_find_key_absent(m, k, i + 1);
    }
}

/// The written text of a member starts with the quote of its key.
proof fn lemma_member_first_byte(m: (Seq<char>, Json), b: Seq<u8>, q: int)
    requires
        at(b, q, encode_utf8(ser_member(m))),
    ensures
        q < b.len(),
        b[q] == 0x22,
{
    let t = ser_member(m);
    assert(t =~= seq!['"'] + t.drop_first());
    lemma_encode_concat(seq!['"'], t.drop_first());
    lemma_enc_char('"', 0x22);
    lemma_at_index(b, q, encode_utf8(t), 0);
}

/// The value grammar reads `j` at `p` and stops at `e`; so does the strict
/// one.
#[verifier::opaque]
spec fn value_reads(b: Seq<u8>, p: int, j: Json, e: int) -> bool {
    &&& spec_value(b, p) == Ok::<(Json, int), RustJsonError>((j, e))
    &&& json_value(b, p) == Some((j, e))
}

/// The array grammar, with `acc` read so far, reads `j` from `p` and stops
/// at `e`.
/// So does the strict one, from an element's first byte.
#[verifier::opaque]
spec fn elements_read(b: Seq<u8>, p: int, acc: Seq<Json>, j: Json, e: int) -> bool {
    &&& spec_elements(b, p, acc) == Ok::<(Json, int), RustJsonError>((j, e))
    &&& json_ws_end(b, p) == p
    &&& (0 <= p < b.len() && b[p] != 0x5d ==> json_elements(b, p, acc) == Some((j, e)))
}

/// The object grammar, with `acc` read so far, reads `j` from `p` and
/// stops at `e`.
/// So does the strict one, from a member's first byte.
#[verifier::opaque]
spec fn members_read(b: Seq<u8>, p: int, acc: Seq<(Seq<char>, Json)>, j: Json, e: int) -> bool {
    &&& spec_members(b, p, acc) == Ok::<(Json, int), RustJsonError>((j, e))
    &&& json_ws_end(b, p) == p
    &&& (0 <= p < b.len() && b[p] != 0x7d ==> json_members(b, p, acc) == Some((j, e)))
}

/// An array closing at once.
proof fn lemma_elements_close(b: Seq<u8>, p: int, acc: Seq<Json>)
    requires
        skip_trivia(b, p) == Ok::<int, RustJsonError>(p),
        0 <= p < b.len(),
        b[p] == 0x5d,
    ensures
        elements_read(b, p, acc, Json::Array(acc), p + 1),
{
    reveal(elements_read);
    lemma_trivia_stop(b, p);
}

/// An element followed by a comma and more elements.
proof fn lemma_elements_more(b: Seq<u8>, p: int, acc: Seq<Json>, x: Json, p2: int, j: Json, e: int)
    requires
        skip_trivia(b, p) == Ok::<int, RustJsonError>(p),
        0 <= p < b.len(),
        b[p] != 0x5d,
        value_reads(b, p, x, p2),
        p < p2,
        p2 + 1 < b.len(),
        skip_trivia(b, p2) == Ok::<int, RustJsonError>(p2),
        b[p2] == 0x2c,
        skip_trivia(b, p2 + 1) == Ok::<int, RustJsonError>(p2 + 1),
        b[p2 + 1] != 0x5d,
        elements_read(b, p2 + 1, acc.push(x), j, e),
    ensures
        elements_read(b, p, acc, j, e),
{
    reveal(value_reads);
    reveal(elements_read);
    lemma_trivia_stop(b, p);
    lemma_trivia_stop(b, p2);
    lemma_trivia_stop(b, p2 + 1);
}

/// The last element, followed by the closing bracket.
proof fn lemma_elements_last(b: Seq<u8>, p: int, acc: Seq<Json>, x: Json, p2: int)
    requires
        skip_trivia(b, p) == Ok::<int, RustJsonError>(p),
        0 <= p < b.len(),
        b[p] != 0x5d,
        value_reads(b, p, x, p2),
        p < p2 < b.len(),
        skip_trivia(b, p2) == Ok::<int, RustJsonError>(p2),
        b[p2] == 0x5d,
    ensures
        elements_read(b, p, acc, Json::Array(acc.push(x)), p2 + 1),
{
    reveal(value_reads);
    reveal(elements_read);
    lemma_trivia_stop(b, p);
    lemma_trivia_stop(b, p2);
}

/// An object closing at once.
proof fn lemma_members_close(b: Seq<u8>, p: int, acc: Seq<(Seq<char>, Json)>)
    requires
        skip_trivia(b, p) == Ok::<int, RustJsonError>(p),
        0 <= p < b.len(),
        b[p] == 0x7d,
    ensures
        members_read(b, p, acc, Json::Object(acc), p + 1),
{
    reveal(members_read);
    lemma_trivia_stop(b, p);
}

/// The parts of one member: its key's string, the colon, its value.
spec fn member_at(b: Seq<u8>, p: int, key: Seq<char>, p2: int, v: Json, p4: int) -> bool {
    &&& skip_trivia(b, p) == Ok::<int, RustJsonError>(p)
    &&& 0 <= p < b.len()
    &&& b[p] == 0x22
    &&& spec_string(b, p, 0x22) == Ok::<(Seq<char>, int), RustJsonError>((key, p2))
    &&& json_string_body(b, p + 1, Seq::empty()) == Some((key, p2))
    &&& p < p2 < b.len()
    &&& skip_trivia(b, p2) == Ok::<int, RustJsonError>(p2)
    &&& b[p2] == 0x3a
    &&& value_reads(b, p2 + 1, v, p4)
    &&& p2 < p4 < b.len()
    &&& skip_trivia(b, p4) == Ok::<int, RustJsonError>(p4)
}

/// A member followed by a comma and more members.
proof fn lemma_members_more(
    b: Seq<u8>,
    p: int,
    acc: Seq<(Seq<char>, Json)>,
    key: Seq<char>,
    p2: int,
    v: Json,
    p4: int,
    j: Json,
    e: int,
)
    requires
        member_at(b, p, key, p2, v, p4),
        p4 + 1 < b.len(),
        b[p4] == 0x2c,
        skip_trivia(b, p4 + 1) == Ok::<int, RustJsonError>(p4 + 1),
        b[p4 + 1] != 0x7d,
        members_read(b, p4 + 1, obj_insert(acc, key, v), j, e),
    ensures
        members_read(b, p, acc, j, e),
{
    reveal(value_reads);
    reveal(members_read);
    lemma_trivia_stop(b, p);
    lemma_trivia_stop(b, p2);
    lemma_value_start(b, p2 + 1);
    lemma_trivia_stop(b, p4);
    lemma_trivia_stop(b, p4 + 1);
}

/// The last member, followed by the closing brace.
proof fn lemma_members_last(
    b: Seq<u8>,
    p: int,
    acc: Seq<(Seq<char>, Json)>,
    key: Seq<char>,
    p2: int,
    v: Json,
    p4: int,
)
    requires
        member_at(b, p, key, p2, v, p4),
        b[p4] == 0x7d,
    ensures
        members_read(b, p, acc, Json::Object(obj_insert(acc, key, v)), p4 + 1),
{
    reveal(value_reads);
    reveal(members_read);
    lemma_trivia_stop(b, p);
    lemma_trivia_stop(b, p2);
    lemma_value_start(b, p2 + 1);
    lemma_trivia_stop(b, p4);
}

/// A value starting with `[` is read by the array grammar.
proof fn lemma_value_array(b: Seq<u8>, p: int, j: Json, e: int)
    requires
        skip_trivia(b, p) == Ok::<int, RustJsonError>(p),
        0 <= p < b.len(),
        b[p] == 0x5b,
        elements_read(b, p + 1, Seq::empty(), j, e),
    ensures
        value_reads(b, p, j, e),
{
    reveal(value_reads);
    reveal(elements_read);
}

/// A value starting with `{` is read by the object grammar.
proof fn lemma_value_object(b: Seq<u8>, p: int, j: Json, e: int)
    requires
        skip_trivia(b, p) == Ok::<int, RustJsonError>(p),
        0 <= p < b.len(),
        b[p] == 0x7b,
        members_read(b, p + 1, Seq::empty(), j, e),
    ensures
        value_reads(b, p, j, e),
{
    reveal(value_reads);
    reveal(members_read);
}

/// A value starting with `-` or a digit is read by the number grammar.
proof fn lemma_value_number(b: Seq<u8>, p: int, n: Num, e: int)
    requires
        skip_trivia(b, p) == Ok::<int, RustJsonError>(p),
        0 <= p < b.len(),
        b[p] == 0x2d || is_digit(b[p]),
        spec_number(b, p) == Ok::<(Num, int), RustJsonError>((n, e)),
        json_number(b, p) == Some((n, e)),
    ensures
        value_reads(b, p, Json::Number(n), e),
{
    reveal(value_reads);
}

/// A written literal reads back as itself.
proof fn lemma_literal_read(j: Json, b: Seq<u8>, p: int)
    requires
        j is Null || j is Bool,
        at(b, p, encode_utf8(ser(j))),
    ensures
        value_reads(b, p, j, p + encode_utf8(ser(j)).len()),
{
    reveal(value_reads);
    lemma_first_byte(j, b, p);
    lemma_no_trivia(b, p);
    let t = ser(j);
    match j {
        Json::Null => {
            lemma_enc_text(t, lit_null());
            assert(b.subrange(p, p + 4) == lit_null());
        },
        Json::Bool(v) => {
            if v {
                lemma_enc_text(t, lit_true());
                assert(b.subrange(p, p + 4) == lit_true());
            } else {
                lemma_enc_text(t, lit_false());
                assert(b.subrange(p, p + 5) == lit_false());
            }
        },
        _ => {},
    }
}

/// A written string reads back as itself.
proof fn lemma_str_read(s: Seq<char>, b: Seq<u8>, p: int)
    requires
        at(b, p, encode_utf8(ser(Json::Str(s)))),
    ensures
        value_reads(b, p, Json::Str(s), p + encode_utf8(ser(Json::Str(s))).len()),
{
    let j = Json::Str(s);
    lemma_first_byte(j, b, p);
    lemma_no_trivia(b, p);
    let t = ser(j);
    let e = encode_utf8(escape_chars(s));
    assert(t =~= seq!['"'] + (escape_chars(s) + seq!['"']));
    lemma_encode_concat(seq!['"'], escape_chars(s) + seq!['"']);
    lemma_encode_concat(escape_chars(s), seq!['"']);
    lemma_enc_char('"', 0x22);
    assert(encode_utf8(t) =~= seq![0x22u8] + (e + seq![0x22u8]));
    lemma_at_split(b, p, seq![0x22u8], e + seq![0x22u8]);
    lemma_string_read(s, b, p, p + 1, Seq::<char>::empty());
    assert(Seq::<char>::empty() + s =~= s);
    reveal(value_reads);
}

/// A written value, followed by a delimiter or the end, reads back as
/// itself.
proof fn lemma_value_read(j: Json, b: Seq<u8>, p: int)
    requires
        wf_json(j),
        at(b, p, encode_utf8(ser(j))),
        delimited(b, p + encode_utf8(ser(j)).len()),
    ensures
        value_reads(b, p, j, p + encode_utf8(ser(j)).len()),
    decreases j, 0nat, 0int,
{
    lemma_first_byte(j, b, p);
    lemma_no_trivia(b, p);
    let t = ser(j);
    match j {
        Json::Null => {
            lemma_literal_read(j, b, p);
        },
        Json::Bool(_) => {
            lemma_literal_read(j, b, p);
        },
        Json::Number(n) => {
            lemma_number_read(n, b, p);
            lemma_value_number(b, p, n, p + encode_utf8(ser_number(n)).len());
        },
        Json::Str(s) => {
            lemma_str_read(s, b, p);
        },
        Json::Array(items) => {
            let inner = encode_utf8(ser_items(items));
            assert(t =~= seq!['['] + (ser_items(items) + seq![']']));
            lemma_encode_concat(seq!['['], ser_items(items) + seq![']']);
            lemma_encode_concat(ser_items(items), seq![']']);
            lemma_enc_char('[', 0x5b);
            lemma_enc_char(']', 0x5d);
            assert(encode_utf8(t) =~= seq![0x5bu8] + (inner + seq![0x5du8]));
            lemma_at_split(b, p, seq![0x5bu8], inner + seq![0x5du8]);
            assert(items.subrange(0, items.len() as int) =~= items);
            lemma_elements_read(items, 0, b, p + 1);
            assert(items.subrange(0, 0) =~= Seq::<Json>::empty());
            lemma_value_array(b, p, j, p + encode_utf8(t).len());
        },
        Json::Object(ms) => {
            let inner = encode_utf8(ser_members(ms));
            assert(t =~= seq!['{'] + (ser_members(ms) + seq!['}']));
            lemma_encode_concat(seq!['{'], ser_members(ms) + seq!['}']);
            lemma_encode_concat(ser_members(ms), seq!['}']);
            lemma_enc_char('{', 0x7b);
            lemma_enc_char('}', 0x7d);
            assert(encode_utf8(t) =~= seq![0x7bu8] + (inner + seq![0x7du8]));
            lemma_at_split(b, p, seq![0x7bu8], inner + seq![0x7du8]);
            assert(ms.subrange(0, ms.len() as int) =~= ms);
            lemma_members_read(ms, 0, b, p + 1);
            assert(ms.subrange(0, 0) =~= Seq::<(Seq<char>, Json)>::empty());
            lemma_value_object(b, p, j, p + encode_utf8(t).len());
        },
    }
}

/// Array elements from the `k`-th on, written and closed, read back.
#[verifier::spinoff_prover]
proof fn lemma_elements_read(items: Seq<Json>, k: int, b: Seq<u8>, p: int)
    requires
        all_wf(items),
        0 <= k <= items.len(),
        k > 0 ==> k < items.len(),
        at(b, p, encode_utf8(ser_items(items.subrange(k, items.len() as int))) + seq![0x5du8]),
    ensures
        elements_read(
            b,
            p,
            items.subrange(0, k),
            Json::Array(items),
            p + encode_utf8(ser_items(items.subrange(k, items.len() as int))).len() + 1,
        ),
    decreases items, 0nat, items.len() - k,
{
    let n = items.len() as int;
    let rest = items.subrange(k, n);
    let acc = items.subrange(0, k);
    lemma_all_wf(items);
    if n == 0 {
        assert(rest =~= Seq::<Json>::empty());
        assert(encode_utf8(Seq::<char>::empty()) =~= Seq::<u8>::empty());
        lemma_at_index(b, p, encode_utf8(ser_items(rest)) + seq![0x5du8], 0);
        lemma_no_trivia(b, p);
        assert(acc =~= items);
        lemma_elements_close(b, p, acc);
    } else {
        let x = items[k];
        assert(rest[0] == x);
        lemma_ser_items_front(rest);
        let more = k + 1 < n;
        let rest2 = items.subrange(k + 1, n);
        assert(rest.drop_first() =~= rest2);
        let tail: Seq<char> = if !more { Seq::empty() } else { seq![','] + ser_items(rest2) };
        let ex = encode_utf8(ser(x));
        let et = encode_utf8(tail);
        lemma_encode_concat(ser(x), tail);
        assert(encode_utf8(ser_items(rest)) + seq![0x5du8] =~= ex + (et + seq![0x5du8]));
        lemma_at_split(b, p, ex, et + seq![0x5du8]);
        let p2 = p + ex.len();
        if more {
            lemma_encode_concat(seq![','], ser_items(rest2));
            lemma_enc_char(',', 0x2c);
            assert(et =~= seq![0x2cu8] + encode_utf8(ser_items(rest2)));
            assert(et + seq![0x5du8] =~= seq![0x2cu8] + (encode_utf8(ser_items(rest2)) + seq![0x5du8]));
            lemma_at_split(b, p2, seq![0x2cu8], encode_utf8(ser_items(rest2)) + seq![0x5du8]);
            lemma_at_index(b, p2, seq![0x2cu8], 0);
        } else {
            assert(encode_utf8(Seq::<char>::empty()) =~= Seq::<u8>::empty());
            assert(et + seq![0x5du8] =~= seq![0x5du8]);
            lemma_at_index(b, p2, et + seq![0x5du8], 0);
        }
        lemma_first_byte(x, b, p);
        lemma_no_trivia(b, p);
        lemma_value_read(x, b, p);
        lemma_no_trivia(b, p2);
        assert(acc.push(x) =~= items.subrange(0, k + 1));
        if more {
            let r2 = rest2;
            lemma_ser_items_front(r2);
            assert(r2[0] == items[k + 1]);
            let t2: Seq<char> = if r2.len() == 1 { Seq::empty() } else { seq![','] + ser_items(r2.drop_first()) };
            lemma_encode_concat(ser(items[k + 1]), t2);
            assert(encode_utf8(ser_items(r2)) + seq![0x5du8] =~= encode_utf8(ser(items[k + 1])) + (encode_utf8(
                t2,
            ) + seq![0x5du8]));
            lemma_at_split(b, p2 + 1, encode_utf8(ser(items[k + 1])), encode_utf8(t2) + seq![0x5du8]);
            lemma_first_byte(items[k + 1], b, p2 + 1);
            lemma_no_trivia(b, p2 + 1);
            lemma_elements_read(items, k + 1, b, p2 + 1);
            assert(encode_utf8(ser_items(rest)).len() == ex.len() + 1 + encode_utf8(ser_items(rest2)).len());
            lemma_elements_more(
                b,
                p,
                acc,
                x,
                p2,
                Json::Array(items),
                p + encode_utf8(ser_items(rest)).len() + 1,
            );
        } else {
            assert(items.subrange(0, k + 1) =~= items);
            lemma_elements_last(b, p, acc, x, p2);
        }
    }
}

/// Object members from the `k`-th on, written and closed, read back.
#[verifier::spinoff_prover]
proof fn lemma_members_read(ms: Seq<(Seq<char>, Json)>, k: int, b: Seq<u8>, p: int)
    requires
        sorted_member_keys(ms),
        all_wf_members(ms),
        0 <= k <= ms.len(),
        k > 0 ==> k < ms.len(),
        at(b, p, encode_utf8(ser_members(ms.subrange(k, ms.len() as int))) + seq![0x7du8]),
    ensures
        members_read(
            b,
            p,
            ms.subrange(0, k),
            Json::Object(ms),
            p + encode_utf8(ser_members(ms.subrange(k, ms.len() as int))).len() + 1,
        ),
    decreases ms, 0nat, ms.len() - k,
{
    let n = ms.len() as int;
    let rest = ms.subrange(k, n);
    let acc = ms.subrange(0, k);
    lemma_all_wf_members(ms);
    if n == 0 {
        assert(rest =~= Seq::<(Seq<char>, Json)>::empty());
        assert(encode_utf8(Seq::<char>::empty()) =~= Seq::<u8>::empty());
        lemma_at_index(b, p, encode_utf8(ser_members(rest)) + seq![0x7du8], 0);
        lemma_no_trivia(b, p);
        assert(acc =~= ms);
        lemma_members_close(b, p, acc);
    } else {
        let m = ms[k];
        let key = m.0;
        let v = m.1;
        assert(rest[0] == m);
        lemma_ser_members_front(rest);
        let more = k + 1 < n;
        let rest2 = ms.subrange(k + 1, n);
        assert(rest.drop_first() =~= rest2);
        let tail: Seq<char> = if !more { Seq::empty() } else { seq![','] + ser_members(rest2) };
        let em = encode_utf8(ser_member(m));
        let et = encode_utf8(tail);
        lemma_encode_concat(ser_member(m), tail);
        assert(encode_utf8(ser_members(rest)) + seq![0x7du8] =~= em + (et + seq![0x7du8]));
        lemma_at_split(b, p, em, et + seq![0x7du8]);
        let p4 = p + em.len();
        let (p2, ev) = lemma_member_parts(m, b, p);
        assert(p4 == p2 + 1 + ev.len());
        if more {
            lemma_encode_concat(seq![','], ser_members(rest2));
            lemma_enc_char(',', 0x2c);
            assert(et =~= seq![0x2cu8] + encode_utf8(ser_members(rest2)));
            assert(et + seq![0x7du8] =~= seq![0x2cu8] + (encode_utf8(ser_members(rest2)) + seq![0x7du8]));
            lemma_at_split(b, p4, seq![0x2cu8], encode_utf8(ser_members(rest2)) + seq![0x7du8]);
            lemma_at_index(b, p4, seq![0x2cu8], 0);
        } else {
            assert(encode_utf8(Seq::<char>::empty()) =~= Seq::<u8>::empty());
            assert(et + seq![0x7du8] =~= seq![0x7du8]);
            lemma_at_index(b, p4, et + seq![0x7du8], 0);
        }
        assert(ms[k].1 == v);
        assert(wf_json(v));
        lemma_value_read(v, b, p2 + 1);
        lemma_no_trivia(b, p4);
        assert forall|j: int| 0 <= j < acc.len() implies acc[j].0 != key && !key_lt(key, #[trigger] acc[j].0) by {
            assert(acc[j] == ms[j]);
            assert(key_lt(ms[j].0, ms[k].0));
            lemma_key_lt_asymmetric(ms[j].0, key, 0);
            lemma_key_lt_irreflexive(key, 0);
        }
        lemma_find_key_absent(acc, key, 0);
        lemma_insert_pos_end(acc, key, 0);
        assert(acc.insert(acc.len() as int, (key, v)) =~= acc.push((key, v)));
        assert(obj_insert(acc, key, v) =~= ms.subrange(0, k + 1));
        assert(member_at(b, p, key, p2, v, p4));
        if more {
            let r2 = rest2;
            lemma_ser_members_front(r2);
            assert(r2[0] == ms[k + 1]);
            let t2: Seq<char> = if r2.len() == 1 { Seq::empty() } else { seq![','] + ser_members(r2.drop_first()) };
            lemma_encode_concat(ser_member(ms[k + 1]), t2);
            assert(encode_utf8(ser_members(r2)) + seq![0x7du8] =~= encode_utf8(ser_member(ms[k + 1])) + (
            encode_utf8(t2) + seq![0x7du8]));
            lemma_at_split(b, p4 + 1, encode_utf8(ser_member(ms[k + 1])), encode_utf8(t2) + seq![0x7du8]);
            lemma_member_first_byte(ms[k + 1], b, p4 + 1);
            lemma_no_trivia(b, p4 + 1);
            lemma_members_read(ms, k + 1, b, p4 + 1);
            assert(encode_utf8(ser_members(rest)).len() == em.len() + 1 + encode_utf8(ser_members(rest2)).len());
            lemma_members_more(
                b,
                p,
                acc,
                key,
                p2,
                v,
                p4,
                Json::Object(ms),
                p + encode_utf8(ser_members(rest)).len() + 1,
            );
        } else {
            assert(ms.subrange(0, k + 1) =~= ms);
            lemma_members_last(b, p, acc, key, p2, v, p4);
        }
    }
}

/// The written text of a member, `"key":value`, read from its quote: the
/// key's string ends at the colon `p2`, and the value's bytes follow it.
proof fn lemma_member_parts(m: (Seq<char>, Json), b: Seq<u8>, p: int) -> (r: (int, Seq<u8>))
    requires
        at(b, p, encode_utf8(ser_member(m))),
    ensures
        r.1 == encode_utf8(ser(m.1)),
        r.0 == p + 2 + encode_utf8(escape_chars(m.0)).len(),
        p + encode_utf8(ser_member(m)).len() == r.0 + 1 + r.1.len(),
        at(b, r.0 + 1, r.1),
        skip_trivia(b, p) == Ok::<int, RustJsonError>(p),
        0 <= p < b.len(),
        b[p] == 0x22,
        spec_string(b, p, 0x22) == Ok::<(Seq<char>, int), RustJsonError>((m.0, r.0)),
        json_string_body(b, p + 1, Seq::empty()) == Some((m.0, r.0)),
        p < r.0 < b.len(),
        skip_trivia(b, r.0) == Ok::<int, RustJsonError>(r.0),
        b[r.0] == 0x3a,
{
    let key = m.0;
    let v = m.1;
    let em = encode_utf8(ser_member(m));
    let ek = encode_utf8(escape_chars(key));
    let ev = encode_utf8(ser(v));
    assert(ser_member(m) =~= seq!['"'] + (escape_chars(key) + (seq!['"'] + (seq![':'] + ser(v)))));
    lemma_encode_concat(seq!['"'], escape_chars(key) + (seq!['"'] + (seq![':'] + ser(v))));
    lemma_encode_concat(escape_chars(key), seq!['"'] + (seq![':'] + ser(v)));
    lemma_encode_concat(seq!['"'], seq![':'] + ser(v));
    lemma_encode_concat(seq![':'], ser(v));
    lemma_enc_char('"', 0x22);
    lemma_enc_char(':', 0x3a);
    assert(em =~= seq![0x22u8] + ((ek + seq![0x22u8]) + (seq![0x3au8] + ev)));
    lemma_at_split(b, p, seq![0x22u8], (ek + seq![0x22u8]) + (seq![0x3au8] + ev));
    lemma_at_split(b, p + 1, ek + seq![0x22u8], seq![0x3au8] + ev);
    let p2 = p + 1 + ek.len() + 1;
    lemma_at_split(b, p2, seq![0x3au8], ev);
    lemma_at_index(b, p2, seq![0x3au8], 0);
    lemma_at_index(b, p, seq![0x22u8], 0);
    lemma_no_trivia(b, p);
    lemma_string_read(key, b, p, p + 1, Seq::<char>::empty());
    assert(Seq::<char>::empty() + key =~= key);
    lemma_no_trivia(b, p2);
    (p2, ev)
}

/// The strict text [`crate::rustjson::to_string`] writes for a value JSON
/// can hold reads back, with the RustJSON grammar, as that same value.
pub proof fn to_string_reads_back(j: Json)
    requires
        wf_json(j),
    ensures
        spec_parse(encode_utf8(ser(j))) == Ok::<Json, RustJsonError>(j),
{
    let b = encode_utf8(ser(j));
    assert(b.subrange(0, b.len() as int) =~= b);
    lemma_first_byte(j, b, 0);
    lemma_no_trivia(b, 0);
    lemma_value_read(j, b, 0);
    lemma_no_trivia_end(b);
    reveal(value_reads);
}

/// The text [`crate::rustjson::to_string`] writes for a value JSON can
/// hold is strict JSON (RFC 8259's grammar), standing for that same value.
pub proof fn to_string_writes_strict_json(j: Json)
    requires
        wf_json(j),
    ensures
        strict_json(encode_utf8(ser(j))) == Some(j),
{
    let b = encode_utf8(ser(j));
    assert(b.subrange(0, b.len() as int) =~= b);
    lemma_first_byte(j, b, 0);
    lemma_no_trivia(b, 0);
    lemma_value_read(j, b, 0);
    lemma_no_trivia_end(b);
    reveal(value_reads);
    lemma_trivia_stop(b, 0);
    lemma_trivia_stop(b, b.len() as int);
}

/// An identifier, as an unquoted object key may be one: a letter or `_`,
/// then letters, digits and `_`.
pub open spec fn is_identifier(k: Seq<u8>) -> bool {
    &&& k.len() >= 1
    &&& (k[0] == 0x5f || (0x41 <= k[0] && k[0] <= 0x5a) || (0x61 <= k[0] && k[0] <= 0x7a))
    &&& forall|i: int|
        1 <= i < k.len() ==> (#[trigger] k[i] == 0x5f || (0x41 <= k[i] && k[i] <= 0x5a) || (0x61 <= k[i]
            && k[i] <= 0x7a) || (0x30 <= k[i] && k[i] <= 0x39))
}

/// The identifier characters run from `i` to `e`, where a byte that is no
/// identifier character stands.
proof fn lemma_ident_run(b: Seq<u8>, i: int, e: int)
    requires
        0 <= i <= e < b.len(),
        forall|k: int| i <= k < e ==> is_ident_char(#[trigger] b[k]),
        !is_ident_char(b[e]),
    ensures
        ident_end(b, i) == e,
    decreases e - i,
{
    if i < e {
        lemma_ident_run(b, i + 1, e);
    }
}

/// One member with a bare key, closed by a brace.
proof fn lemma_bare_member(b: Seq<u8>, k: Seq<char>, p2: int, v: Json, p4: int)
    requires
        0 < p2,
        p2 + 1 < p4 < b.len(),
        skip_trivia(b, 1) == Ok::<int, RustJsonError>(1),
        1 < b.len(),
        b[1] != 0x7d,
        spec_key(b, 1) == Ok::<(Seq<char>, int), RustJsonError>((k, p2)),
        skip_trivia(b, p2) == Ok::<int, RustJsonError>(p2),
        b[p2] == 0x3a,
        spec_value(b, p2 + 1) == Ok::<(Json, int), RustJsonError>((v, p4)),
        skip_trivia(b, p4) == Ok::<int, RustJsonError>(p4),
        b[p4] == 0x7d,
    ensures
        spec_members(b, 1, Seq::empty()) == Ok::<(Json, int), RustJsonError>(
            (Json::Object(obj_insert(Seq::empty(), k, v)), p4 + 1),
        ),
{
}

/// An unquoted key that is an identifier is read as itself: for every
/// identifier `k` and every value `j`, the text `{k:v}`, where `v` is the
/// text written for `j`, parses to the object whose one member has the key
/// `k` and the value `j`.
pub proof fn unquoted_identifier_keys_parse(k: Seq<u8>, j: Json)
    requires
        is_identifier(k),
        wf_json(j),
    ensures
        spec_parse(seq![0x7bu8] + k + seq![0x3au8] + encode_utf8(ser(j)) + seq![0x7du8]) == Ok::<
            Json,
            RustJsonError,
        >(Json::Object(seq![(k.map_values(|c: u8| c as char), j)])),
{
    let ev = encode_utf8(ser(j));
    let b = seq![0x7bu8] + k + seq![0x3au8] + ev + seq![0x7du8];
    let kl = k.len() as int;
    let p2 = 1 + kl;
    let p4 = p2 + 1 + ev.len();
    assert(b.len() == p4 + 1);
    assert(b[0] == 0x7b);
    assert forall|i: int| 1 <= i < p2 implies #[trigger] b[i] == k[i - 1] by {}
    assert(b[p2] == 0x3a);
    assert(b[p4] == 0x7d);
    assert(b.subrange(p2 + 1, p4) =~= ev);
    lemma_first_byte(j, b, p2 + 1);
    lemma_value_read(j, b, p2 + 1);
    reveal(value_reads);
    assert(b[1] == k[0]);
    lemma_no_trivia(b, 0);
    lemma_no_trivia(b, 1);
    lemma_no_trivia(b, p2);
    lemma_no_trivia(b, p4);
    lemma_no_trivia_end(b);
    assert forall|i: int| 2 <= i < p2 implies is_ident_char(#[trigger] b[i]) by {
        assert(b[i] == k[i - 1]);
    }
    lemma_ident_run(b, 2, p2);
    let key = k.map_values(|c: u8| c as char);
    assert(crate::rustjson::ascii_chars(b, 1, p2) =~= key);
    assert(spec_key(b, 1) == Ok::<(Seq<char>, int), RustJsonError>((key, p2)));
    lemma_bare_member(b, key, p2, j, p4);
    assert(obj_insert(Seq::empty(), key, j) =~= seq![(key, j)]);
    assert(spec_value(b, 0) == Ok::<(Json, int), RustJsonError>((Json::Object(seq![(key, j)]), p4 + 1)));
}

} // verus!
