//! RustJSON: a lenient, human-authorable JSON superset.
//!
//! Accepted on top of strict JSON: trailing commas in arrays and objects,
//! `//` line comments and `/* ... */` block comments wherever whitespace is
//! allowed, unquoted identifier object keys (`[A-Za-z_][A-Za-z0-9_]*`), and
//! single-quoted strings. The parsed value model is plain JSON; the output
//! side ([`to_string`]) is always strict, compact JSON.
//!
//! The grammar is stated once, as spec functions over the input's UTF-8
//! bytes (`spec_parse` and the functions it calls); the executable parser is
//! proved to compute exactly that function, errors and their byte offsets
//! included.
use vstd::prelude::*;
use vstd::utf8::*;
use vstd::string::*;
use crate::text::{string_push, string_from_ascii_bytes, bytes_as_chars, char_from_u32, utf8_to_str, chars_of};

verus! {

broadcast use vstd::seq_lib::group_seq_properties;

/// A parse error, with the byte offset it occurred at.
#[derive(Debug, Clone, Copy, PartialEq, Eq)]
pub enum RustJsonError {
    UnexpectedEof(usize),
    UnexpectedChar(usize, char),
    InvalidNumber(usize),
    InvalidEscape(usize),
    UnterminatedString(usize),
    UnterminatedComment(usize),
    TrailingData(usize),
}

// ---------------------------------------------------------------------------
// Value model
// ---------------------------------------------------------------------------

/// A JSON number as the parser produced it: an integer that fits `i64`,
/// an integer that only fits `u64`, or any other literal, read as the
/// nearest double and kept as the text `serde_json` writes for it.
#[derive(Debug, Clone, PartialEq)]
pub enum JsonNumber {
    Int(i64),
    UInt(u64),
    Float(String),
}

/// A JSON value. Object members are kept in the order of their keys (that
/// of `String`'s `Ord`, as `serde_json`'s map keeps them); a repeated key
/// replaces the earlier member's value.
#[derive(Debug, PartialEq)]
pub enum JsonValue {
    Null,
    Bool(bool),
    Number(JsonNumber),
    String(String),
    Array(Vec<JsonValue>),
    Object(Vec<(String, JsonValue)>),
}

/// Mathematical model of [`JsonNumber`].
pub enum Num {
    Int(i64),
    UInt(u64),
    Float(Seq<char>),
}

/// Mathematical model of [`JsonValue`].
pub enum Json {
    Null,
    Bool(bool),
    Number(Num),
    Str(Seq<char>),
    Array(Seq<Json>),
    Object(Seq<(Seq<char>, Json)>),
}

impl JsonNumber {
    pub open spec fn model(self) -> Num {
        match self {
            JsonNumber::Int(i) => Num::Int(i),
            JsonNumber::UInt(u) => Num::UInt(u),
            JsonNumber::Float(t) => Num::Float(t@),
        }
    }
}

impl JsonValue {
    pub open spec fn model(self) -> Json
        decreases self, 0nat,
    {
        match self {
            JsonValue::Null => Json::Null,
            JsonValue::Bool(b) => Json::Bool(b),
            JsonValue::Number(n) => Json::Number(n.model()),
            JsonValue::String(s) => Json::Str(s@),
            JsonValue::Array(v) => Json::Array(models(v@)),
            JsonValue::Object(v) => Json::Object(member_models(v@)),
        }
    }
}

pub open spec fn models(s: Seq<JsonValue>) -> Seq<Json>
    decreases s, 0nat,
{
    if s.len() == 0 {
        Seq::empty()
    } else {
        models(s.drop_last()).push(s.last().model())
    }
}

pub open spec fn member_models(s: Seq<(String, JsonValue)>) -> Seq<(Seq<char>, Json)>
    decreases s, 0nat,
{
    if s.len() == 0 {
        Seq::empty()
    } else {
        member_models(s.drop_last()).push((s.last().0@, s.last().1.model()))
    }
}

proof fn lemma_models_push(s: Seq<JsonValue>, x: JsonValue)
    ensures
        models(s.push(x)) == models(s).push(x.model()),
{
    assert(s.push(x).drop_last() =~= s);
}

proof fn lemma_member_models_index(s: Seq<(String, JsonValue)>)
    ensures
        member_models(s).len() == s.len(),
        forall|i: int|
            0 <= i < s.len() ==> #[trigger] member_models(s)[i] == (s[i].0@, s[i].1.model()),
    decreases s.len(),
{
    if s.len() > 0 {
        lemma_member_models_index(s.drop_last());
    }
}

proof fn lemma_models_index(s: Seq<JsonValue>)
    ensures
        models(s).len() == s.len(),
        forall|i: int| 0 <= i < s.len() ==> #[trigger] models(s)[i] == s[i].model(),
    decreases s.len(),
{
    if s.len() > 0 {
        lemma_models_index(s.drop_last());
    }
}

proof fn lemma_member_models_update(s: Seq<(String, JsonValue)>, i: int, x: (String, JsonValue))
    requires
        0 <= i < s.len(),
    ensures
        member_models(s.update(i, x)) == member_models(s).update(i, (x.0@, x.1.model())),
{
    lemma_member_models_index(s);
    lemma_member_models_index(s.update(i, x));
    assert(member_models(s.update(i, x)) =~= member_models(s).update(i, (x.0@, x.1.model())));
}

proof fn lemma_member_models_insert(s: Seq<(String, JsonValue)>, i: int, x: (String, JsonValue))
    requires
        0 <= i <= s.len(),
    ensures
        member_models(s.insert(i, x)) == member_models(s).insert(i, (x.0@, x.1.model())),
{
    lemma_member_models_index(s);
    lemma_member_models_index(s.insert(i, x));
    assert(member_models(s.insert(i, x)) =~= member_models(s).insert(i, (x.0@, x.1.model())));
}

/// Index of the member whose key is `k`, if any (keys are looked up from
/// the front).
pub open spec fn find_key(m: Seq<(Seq<char>, Json)>, k: Seq<char>, i: int) -> int
    decreases m.len() - i,
{
    if i < 0 || i >= m.len() {
        -1
    } else if m[i].0 == k {
        i
    } else {
        find_key(m, k, i + 1)
    }
}

/// From position `i` on, `a` comes before `b` in the order of their
/// characters' code points (which is the byte order of their UTF-8
/// encodings, the order of `String`'s `Ord`).
pub open spec fn key_lt_from(a: Seq<char>, b: Seq<char>, i: int) -> bool
    decreases b.len() - i,
{
    if i < 0 || i >= b.len() {
        false
    } else if i >= a.len() {
        true
    } else if (a[i] as u32) < (b[i] as u32) {
        true
    } else if a[i] != b[i] {
        false
    } else {
        key_lt_from(a, b, i + 1)
    }
}

/// `a` comes before `b` as `String`'s `Ord` orders them.
pub open spec fn key_lt(a: Seq<char>, b: Seq<char>) -> bool {
    key_lt_from(a, b, 0)
}

/// Where a new key `k` goes among the members from `i` on: before the
/// first member whose key comes after it.
pub open spec fn insert_pos(m: Seq<(Seq<char>, Json)>, k: Seq<char>, i: int) -> int
    decreases m.len() - i,
{
    if i < 0 || i >= m.len() {
        m.len() as int
    } else if key_lt(k, m[i].0) {
        i
    } else {
        insert_pos(m, k, i + 1)
    }
}

/// Inserting a member: a key already present has its value replaced in
/// place; a new key goes where the order of keys puts it.
pub open spec fn obj_insert(m: Seq<(Seq<char>, Json)>, k: Seq<char>, v: Json) -> Seq<(Seq<char>, Json)> {
    let i = find_key(m, k, 0);
    if i >= 0 {
        m.update(i, (k, v))
    } else {
        m.insert(insert_pos(m, k, 0), (k, v))
    }
}

proof fn lemma_find_key_range(m: Seq<(Seq<char>, Json)>, k: Seq<char>, i: int)
    requires
        0 <= i,
    ensures
        find_key(m, k, i) == -1 || (i <= find_key(m, k, i) < m.len() && m[find_key(m, k, i)].0
            == k),
        find_key(m, k, i) == -1 ==> forall|j: int| i <= j < m.len() ==> m[j].0 != k,
    decreases m.len() - i,
{
    if i < m.len() && m[i].0 != k {
        lemma_find_key_range(m, k, i + 1);
    }
}

// ---------------------------------------------------------------------------
// Grammar (spec)
// ---------------------------------------------------------------------------

pub open spec fn is_ws(c: u8) -> bool {
    c == 0x20 || c == 0x09 || c == 0x0a || c == 0x0c || c == 0x0d
}

pub open spec fn is_digit(c: u8) -> bool {
    0x30 <= c <= 0x39
}

pub open spec fn is_alpha(c: u8) -> bool {
    (0x41 <= c <= 0x5a) || (0x61 <= c <= 0x7a)
}

pub open spec fn is_ident_char(c: u8) -> bool {
    c == 0x5f || is_alpha(c) || is_digit(c)
}

/// First `\n` at or after `p`, or the end of input.
pub open spec fn line_end(b: Seq<u8>, p: int) -> int
    decreases b.len() - p,
{
    if p < 0 || p >= b.len() {
        b.len() as int
    } else if b[p] == 0x0a {
        p
    } else {
        line_end(b, p + 1)
    }
}

/// Position just after the first `*/` starting at or after `q`, if any.
pub open spec fn block_end(b: Seq<u8>, q: int) -> Option<int>
    decreases b.len() - q,
{
    if q < 0 || q + 1 >= b.len() {
        None
    } else if b[q] == 0x2a && b[q + 1] == 0x2f {
        Some(q + 2)
    } else {
        block_end(b, q + 1)
    }
}

proof fn lemma_line_end(b: Seq<u8>, p: int)
    requires
        0 <= p <= b.len(),
    ensures
        p <= line_end(b, p) <= b.len(),
    decreases b.len() - p,
{
    if p < b.len() && b[p] != 0x0a {
        lemma_line_end(b, p + 1);
    }
}

proof fn lemma_block_end(b: Seq<u8>, q: int)
    requires
        0 <= q,
    ensures
        block_end(b, q) matches Some(e) ==> q + 2 <= e <= b.len(),
    decreases b.len() - q,
{
    if q + 1 < b.len() && !(b[q] == 0x2a && b[q + 1] == 0x2f) {
        lemma_block_end(b, q + 1);
    }
}

/// Skips whitespace and comments starting at `p`.
pub open spec fn skip_trivia(b: Seq<u8>, p: int) -> Result<int, RustJsonError>
    decreases b.len() - p,
{
    if p < 0 || p > b.len() {
        Ok(p)
    } else if p < b.len() && is_ws(b[p]) {
        skip_trivia(b, p + 1)
    } else if p + 1 < b.len() && b[p] == 0x2f && b[p + 1] == 0x2f {
        let e = line_end(b, p + 2);
        if p < e <= b.len() {
            skip_trivia(b, e)
        } else {
            Ok(p)
        }
    } else if p + 1 < b.len() && b[p] == 0x2f && b[p + 1] == 0x2a {
        match block_end(b, p + 2) {
            Some(e) => if p < e <= b.len() {
                skip_trivia(b, e)
            } else {
                Ok(p)
            },
            None => Err(RustJsonError::UnterminatedComment(p as usize)),
        }
    } else {
        Ok(p)
    }
}

pub(crate) proof fn lemma_skip_trivia(b: Seq<u8>, p: int)
    requires
        0 <= p <= b.len(),
    ensures
        skip_trivia(b, p) matches Ok(q) ==> p <= q <= b.len(),
    decreases b.len() - p,
{
    if p < b.len() && is_ws(b[p]) {
        lemma_skip_trivia(b, p + 1);
    } else if p + 1 < b.len() && b[p] == 0x2f && b[p + 1] == 0x2f {
        lemma_line_end(b, p + 2);
        lemma_skip_trivia(b, line_end(b, p + 2));
    } else if p + 1 < b.len() && b[p] == 0x2f && b[p + 1] == 0x2a {
        lemma_block_end(b, p + 2);
        if let Some(e) = block_end(b, p + 2) {
            lemma_skip_trivia(b, e);
        }
    }
}

pub open spec fn peek_spec(b: Seq<u8>, p: int) -> Result<u8, RustJsonError> {
    if 0 <= p < b.len() {
        Ok(b[p])
    } else {
        Err(RustJsonError::UnexpectedEof(p as usize))
    }
}

/// End of the run of ASCII digits starting at `p`.
pub open spec fn digits_end(b: Seq<u8>, p: int) -> int
    decreases b.len() - p,
{
    if p < 0 || p >= b.len() || !is_digit(b[p]) {
        p
    } else {
        digits_end(b, p + 1)
    }
}

proof fn lemma_digits_end(b: Seq<u8>, p: int)
    requires
        0 <= p <= b.len(),
    ensures
        p <= digits_end(b, p) <= b.len(),
        forall|i: int| p <= i < digits_end(b, p) ==> is_digit(#[trigger] b[i]),
        digits_end(b, p) < b.len() ==> !is_digit(b[digits_end(b, p)]),
    decreases b.len() - p,
{
    if p < b.len() && is_digit(b[p]) {
        lemma_digits_end(b, p + 1);
    }
}

/// Decimal value of the digits `b[s..e]`.
pub open spec fn digits_value(b: Seq<u8>, s: int, e: int) -> nat
    decreases e - s,
{
    if e <= s {
        0
    } else {
        digits_value(b, s, e - 1) * 10 + (b[e - 1] - 0x30) as nat
    }
}

/// End of the identifier characters starting at `p`.
pub open spec fn ident_end(b: Seq<u8>, p: int) -> int
    decreases b.len() - p,
{
    if p < 0 || p >= b.len() || !is_ident_char(b[p]) {
        p
    } else {
        ident_end(b, p + 1)
    }
}

proof fn lemma_ident_end(b: Seq<u8>, p: int)
    requires
        0 <= p <= b.len(),
    ensures
        p <= ident_end(b, p) <= b.len(),
    decreases b.len() - p,
{
    if p < b.len() && is_ident_char(b[p]) {
        lemma_ident_end(b, p + 1);
    }
}

/// The bytes `b[s..e]` read as (ASCII) characters.
pub open spec fn ascii_chars(b: Seq<u8>, s: int, e: int) -> Seq<char> {
    bytes_as_chars(b.subrange(s, e))
}

/// A name for the text `serde_json` writes for the double that the decimal
/// literal `text` denotes (`str::parse` rounding it to nearest), or `None`
/// when that double is not finite. It depends on the text alone.
pub uninterp spec fn float_display(text: Seq<char>) -> Option<Seq<char>>;

/// The literal read as a double by `str::parse`, made a
/// `serde_json::Number` by `Number::from_f64` (which refuses non-finite
/// values) and written by its `Display`: the text is named by
/// [`float_display`], nothing more is claimed of it.
#[verifier::external_body]
fn float_literal_display(text: &str) -> (r: Option<String>)
    ensures
        match r {
            Some(t) => float_display(text@) == Some(t@),
            None => float_display(text@) is None,
        },
{
    text.parse().ok().and_then(serde_json::Number::from_f64).map(|n| n.to_string())
}

/// Number literal starting at `p` (whose byte is `-` or a digit).
pub open spec fn spec_number(b: Seq<u8>, p: int) -> Result<(Num, int), RustJsonError> {
    let neg = 0 <= p < b.len() && b[p] == 0x2d;
    let ds = if neg {
        p + 1
    } else {
        p
    };
    let de = digits_end(b, ds);
    if de == ds {
        Err(RustJsonError::InvalidNumber(p as usize))
    } else {
        let has_frac = de < b.len() && b[de] == 0x2e;
        let fe = if has_frac {
            digits_end(b, de + 1)
        } else {
            de
        };
        if has_frac && fe == de + 1 {
            Err(RustJsonError::InvalidNumber(p as usize))
        } else {
            let has_exp = fe < b.len() && (b[fe] == 0x65 || b[fe] == 0x45);
            let es = if has_exp {
                if fe + 1 < b.len() && (b[fe + 1] == 0x2b || b[fe + 1] == 0x2d) {
                    fe + 2
                } else {
                    fe + 1
                }
            } else {
                fe
            };
            let ee = if has_exp {
                digits_end(b, es)
            } else {
                fe
            };
            if has_exp && ee == es {
                Err(RustJsonError::InvalidNumber(p as usize))
            } else {
                let v = digits_value(b, ds, de);
                if !has_frac && !has_exp && !neg && v <= i64::MAX {
                    Ok((Num::Int(v as i64), ee))
                } else if !has_frac && !has_exp && neg && v <= i64::MAX + 1 {
                    Ok((Num::Int((0 - v) as i64), ee))
                } else if !has_frac && !has_exp && !neg && v <= u64::MAX {
                    Ok((Num::UInt(v as u64), ee))
                } else {
                    match float_display(ascii_chars(b, p, ee)) {
                        Some(t) => Ok((Num::Float(t), ee)),
                        None => Err(RustJsonError::InvalidNumber(p as usize)),
                    }
                }
            }
        }
    }
}

pub open spec fn is_hex(c: u8) -> bool {
    is_digit(c) || (0x41 <= c <= 0x46) || (0x61 <= c <= 0x66)
}

pub open spec fn hex_val(c: u8) -> nat {
    if is_digit(c) {
        (c - 0x30) as nat
    } else if 0x41 <= c <= 0x46 {
        (c - 0x41 + 10) as nat
    } else {
        (c - 0x61 + 10) as nat
    }
}

/// The four bytes at `h` form an unsigned hexadecimal number as `u32`'s
/// radix-16 parser reads it (an optional leading `+`, then hex digits).
pub open spec fn hex4_valid(b: Seq<u8>, h: int) -> bool {
    &&& 0 <= h
    &&& h + 4 <= b.len()
    &&& (is_hex(b[h]) || b[h] == 0x2b)
    &&& is_hex(b[h + 1])
    &&& is_hex(b[h + 2])
    &&& is_hex(b[h + 3])
}

pub open spec fn hex4_value(b: Seq<u8>, h: int) -> nat {
    let lead: nat = if b[h] == 0x2b {
        0
    } else {
        hex_val(b[h])
    };
    ((lead * 16 + hex_val(b[h + 1])) * 16 + hex_val(b[h + 2])) * 16 + hex_val(b[h + 3])
}

/// The character a one-letter escape `\c` stands for, when `c` is one.
pub open spec fn simple_escape(c: u8) -> Option<char> {
    if c == 0x22 {
        Some('"')
    } else if c == 0x27 {
        Some('\'')
    } else if c == 0x5c {
        Some('\\')
    } else if c == 0x2f {
        Some('/')
    } else if c == 0x6e {
        Some('\n')
    } else if c == 0x74 {
        Some('\t')
    } else if c == 0x72 {
        Some('\r')
    } else if c == 0x62 {
        Some('\u{8}')
    } else if c == 0x66 {
        Some('\u{c}')
    } else {
        None
    }
}

/// A UTF-16 high (leading) surrogate code unit.
pub open spec fn is_high_surrogate(u: nat) -> bool {
    0xD800 <= u < 0xDC00
}

/// A UTF-16 low (trailing) surrogate code unit.
pub open spec fn is_low_surrogate(u: nat) -> bool {
    0xDC00 <= u < 0xE000
}

/// A `\uXXXX` escape of a low surrogate starts at `q`.
pub open spec fn low_surrogate_escape_at(b: Seq<u8>, q: int) -> bool {
    &&& 0 <= q
    &&& q + 1 < b.len()
    &&& b[q] == 0x5c
    &&& b[q + 1] == 0x75
    &&& hex4_valid(b, q + 2)
    &&& is_low_surrogate(hex4_value(b, q + 2))
}

/// The character that the surrogate pair `hi`, `lo` encodes in UTF-16.
pub open spec fn surrogate_pair_char(hi: nat, lo: nat) -> char {
    ((0x10000 + (hi - 0xD800) * 0x400 + (lo - 0xDC00)) as u32) as char
}

/// Length of the UTF-8 sequence a leading byte announces.
pub open spec fn utf8_len_spec(c: u8) -> int {
    if c & 0x80 == 0 {
        1
    } else if c & 0xE0 == 0xC0 {
        2
    } else if c & 0xF0 == 0xE0 {
        3
    } else {
        4
    }
}

/// Body of a quoted string opened at `start` with `quote`, scanning from `p`
/// with the characters decoded so far in `acc`.
pub open spec fn string_body(b: Seq<u8>, start: int, quote: u8, p: int, acc: Seq<char>) -> Result<
    (Seq<char>, int),
    RustJsonError,
>
    decreases b.len() - p,
{
    if p < 0 || p >= b.len() {
        Err(RustJsonError::UnterminatedString(start as usize))
    } else if b[p] == quote {
        Ok((acc, p + 1))
    } else if b[p] == 0x5c {
        if p + 1 >= b.len() {
            Err(RustJsonError::UnterminatedString(start as usize))
        } else {
            let e = b[p + 1];
            match simple_escape(e) {
                Some(c) => string_body(b, start, quote, p + 2, acc.push(c)),
                None => if e == 0x75 && hex4_valid(b, p + 2) && is_scalar(
                    hex4_value(b, p + 2) as u32,
                ) {
                    string_body(b, start, quote, p + 6, acc.push((hex4_value(b, p + 2) as u32) as char))
                } else if e == 0x75 && hex4_valid(b, p + 2) && is_high_surrogate(hex4_value(b, p + 2))
                    && low_surrogate_escape_at(b, p + 6) {
                    string_body(
                        b,
                        start,
                        quote,
                        p + 12,
                        acc.push(surrogate_pair_char(hex4_value(b, p + 2), hex4_value(b, p + 8))),
                    )
                } else {
                    Err(RustJsonError::InvalidEscape((p + 1) as usize))
                },
            }
        }
    } else {
        let n = utf8_len_spec(b[p]);
        if p + n > b.len() || !valid_utf8(b.subrange(p, p + n)) {
            Err(RustJsonError::UnterminatedString(start as usize))
        } else {
            string_body(b, start, quote, p + n, acc + decode_utf8(b.subrange(p, p + n)))
        }
    }
}

pub open spec fn spec_string(b: Seq<u8>, p: int, quote: u8) -> Result<(Seq<char>, int), RustJsonError> {
    string_body(b, p, quote, p + 1, Seq::empty())
}

proof fn lemma_string_body(b: Seq<u8>, start: int, quote: u8, p: int, acc: Seq<char>)
    requires
        0 <= p,
    ensures
        string_body(b, start, quote, p, acc) matches Ok((s, q)) ==> p < q <= b.len(),
    decreases b.len() - p,
{
    if 0 <= p < b.len() && b[p] != quote {
        if b[p] == 0x5c {
            if p + 1 < b.len() {
                let e = b[p + 1];
                match simple_escape(e) {
                    Some(c) => lemma_string_body(b, start, quote, p + 2, acc.push(c)),
                    None => if e == 0x75 && hex4_valid(b, p + 2) && is_scalar(
                        hex4_value(b, p + 2) as u32,
                    ) {
                        lemma_string_body(
                            b,
                            start,
                            quote,
                            p + 6,
                            acc.push((hex4_value(b, p + 2) as u32) as char),
                        );
                    } else if e == 0x75 && hex4_valid(b, p + 2) && is_high_surrogate(
                        hex4_value(b, p + 2),
                    ) && low_surrogate_escape_at(b, p + 6) {
                        lemma_string_body(
                            b,
                            start,
                            quote,
                            p + 12,
                            acc.push(surrogate_pair_char(hex4_value(b, p + 2), hex4_value(b, p + 8))),
                        );
                    },
                }
            }
        } else {
            let n = utf8_len_spec(b[p]);
            if !(p + n > b.len() || !valid_utf8(b.subrange(p, p + n))) {
                lemma_string_body(b, start, quote, p + n, acc + decode_utf8(b.subrange(p, p + n)));
            }
        }
    }
}

/// An object key at `p`: a quoted string or a bare identifier.
pub open spec fn spec_key(b: Seq<u8>, p: int) -> Result<(Seq<char>, int), RustJsonError> {
    match peek_spec(b, p) {
        Err(e) => Err(e),
        Ok(c) => if c == 0x22 {
            spec_string(b, p, 0x22)
        } else if c == 0x27 {
            spec_string(b, p, 0x27)
        } else if c == 0x5f || is_alpha(c) {
            let e = ident_end(b, p + 1);
            Ok((ascii_chars(b, p, e), e))
        } else {
            Err(RustJsonError::UnexpectedChar(p as usize, c as char))
        },
    }
}

/// A literal `lit` expected at `p`, standing for `v`.
pub open spec fn spec_literal(b: Seq<u8>, p: int, lit: Seq<u8>, v: Json) -> Result<(Json, int), RustJsonError> {
    if 0 <= p && p + lit.len() <= b.len() && b.subrange(p, p + lit.len()) == lit {
        Ok((v, p + lit.len()))
    } else {
        match peek_spec(b, p) {
            Ok(c) => Err(RustJsonError::UnexpectedChar(p as usize, c as char)),
            Err(e) => Err(e),
        }
    }
}

pub open spec fn lit_true() -> Seq<u8> {
    seq![0x74u8, 0x72u8, 0x75u8, 0x65u8]
}

pub open spec fn lit_false() -> Seq<u8> {
    seq![0x66u8, 0x61u8, 0x6cu8, 0x73u8, 0x65u8]
}

pub open spec fn lit_null() -> Seq<u8> {
    seq![0x6eu8, 0x75u8, 0x6cu8, 0x6cu8]
}

/// A value starting (after trivia) at `p`.
pub open spec fn spec_value(b: Seq<u8>, p: int) -> Result<(Json, int), RustJsonError>
    decreases b.len() - p, 0nat,
{
    match skip_trivia(b, p) {
        Err(e) => Err(e),
        Ok(q) => if q < p || q > b.len() || p < 0 {
            Err(RustJsonError::UnexpectedEof(q as usize))
        } else if q == b.len() {
            Err(RustJsonError::UnexpectedEof(q as usize))
        } else {
            let c = b[q];
            if c == 0x7b {
                spec_members(b, q + 1, Seq::empty())
            } else if c == 0x5b {
                spec_elements(b, q + 1, Seq::empty())
            } else if c == 0x22 || c == 0x27 {
                match spec_string(b, q, c) {
                    Ok((s, r)) => Ok((Json::Str(s), r)),
                    Err(e) => Err(e),
                }
            } else if c == 0x74 {
                spec_literal(b, q, lit_true(), Json::Bool(true))
            } else if c == 0x66 {
                spec_literal(b, q, lit_false(), Json::Bool(false))
            } else if c == 0x6e {
                spec_literal(b, q, lit_null(), Json::Null)
            } else if c == 0x2d || is_digit(c) {
                match spec_number(b, q) {
                    Ok((n, r)) => Ok((Json::Number(n), r)),
                    Err(e) => Err(e),
                }
            } else {
                Err(RustJsonError::UnexpectedChar(q as usize, c as char))
            }
        },
    }
}

/// Array elements, scanning from `p` (just after `[` or a separating
/// comma) with the elements parsed so far in `acc`.
pub open spec fn spec_elements(b: Seq<u8>, p: int, acc: Seq<Json>) -> Result<(Json, int), RustJsonError>
    decreases b.len() - p, 1nat,
{
    match skip_trivia(b, p) {
        Err(e) => Err(e),
        Ok(p1) => if p1 < p || p1 > b.len() || p < 0 {
            Err(RustJsonError::UnexpectedEof(p1 as usize))
        } else {
            match peek_spec(b, p1) {
                Err(e) => Err(e),
                Ok(c) => if c == 0x5d {
                    Ok((Json::Array(acc), p1 + 1))
                } else {
                    match spec_value(b, p1) {
                        Err(e) => Err(e),
                        Ok((v, p2)) => if p2 <= p1 || p2 > b.len() {
                            Err(RustJsonError::UnexpectedEof(p2 as usize))
                        } else {
                            let acc2 = acc.push(v);
                            match skip_trivia(b, p2) {
                                Err(e) => Err(e),
                                Ok(p3) => if p3 < p2 || p3 > b.len() {
                                    Err(RustJsonError::UnexpectedEof(p3 as usize))
                                } else {
                                    match peek_spec(b, p3) {
                                        Err(e) => Err(e),
                                        Ok(d) => if d == 0x2c {
                                            match skip_trivia(b, p3 + 1) {
                                                Err(e) => Err(e),
                                                Ok(p4) => if p4 < p3 + 1 || p4 > b.len() {
                                                    Err(RustJsonError::UnexpectedEof(p4 as usize))
                                                } else {
                                                    match peek_spec(b, p4) {
                                                        Err(e) => Err(e),
                                                        Ok(f) => if f == 0x5d {
                                                            Ok((Json::Array(acc2), p4 + 1))
                                                        } else {
                                                            spec_elements(b, p4, acc2)
                                                        },
                                                    }
                                                },
                                            }
                                        } else if d == 0x5d {
                                            Ok((Json::Array(acc2), p3 + 1))
                                        } else {
                                            Err(RustJsonError::UnexpectedChar(p3 as usize, d as char))
                                        },
                                    }
                                },
                            }
                        },
                    }
                },
            }
        },
    }
}

/// Object members, scanning from `p` (just after `{` or a separating
/// comma) with the members parsed so far in `acc`.
pub open spec fn spec_members(b: Seq<u8>, p: int, acc: Seq<(Seq<char>, Json)>) -> Result<
    (Json, int),
    RustJsonError,
>
    decreases b.len() - p, 1nat,
{
    match skip_trivia(b, p) {
        Err(e) => Err(e),
        Ok(p1) => if p1 < p || p1 > b.len() || p < 0 {
            Err(RustJsonError::UnexpectedEof(p1 as usize))
        } else {
            match peek_spec(b, p1) {
                Err(e) => Err(e),
                Ok(c) => if c == 0x7d {
                    Ok((Json::Object(acc), p1 + 1))
                } else {
                    match spec_key(b, p1) {
                        Err(e) => Err(e),
                        Ok((k, p2)) => match skip_trivia(b, p2) {
                            Err(e) => Err(e),
                            Ok(p3) => if p3 < p1 || p3 > b.len() {
                                Err(RustJsonError::UnexpectedEof(p3 as usize))
                            } else {
                                match peek_spec(b, p3) {
                                    Err(e) => Err(e),
                                    Ok(colon) => if colon != 0x3a {
                                        Err(RustJsonError::UnexpectedChar(p3 as usize, colon as char))
                                    } else {
                                        match spec_value(b, p3 + 1) {
                                            Err(e) => Err(e),
                                            Ok((v, p4)) => if p4 <= p3 || p4 > b.len() {
                                                Err(RustJsonError::UnexpectedEof(p4 as usize))
                                            } else {
                                                let acc2 = obj_insert(acc, k, v);
                                                match skip_trivia(b, p4) {
                                                    Err(e) => Err(e),
                                                    Ok(p5) => if p5 < p4 || p5 > b.len() {
                                                        Err(RustJsonError::UnexpectedEof(p5 as usize))
                                                    } else {
                                                        match peek_spec(b, p5) {
                                                            Err(e) => Err(e),
                                                            Ok(d) => if d == 0x2c {
                                                                match skip_trivia(b, p5 + 1) {
                                                                    Err(e) => Err(e),
                                                                    Ok(p6) => if p6 < p5 + 1 || p6 > b.len() {
                                                                        Err(RustJsonError::UnexpectedEof(p6 as usize))
                                                                    } else {
                                                                        match peek_spec(b, p6) {
                                                                            Err(e) => Err(e),
                                                                            Ok(f) => if f == 0x7d {
                                                                                Ok((Json::Object(acc2), p6 + 1))
                                                                            } else {
                                                                                spec_members(b, p6, acc2)
                                                                            },
                                                                        }
                                                                    },
                                                                }
                                                            } else if d == 0x7d {
                                                                Ok((Json::Object(acc2), p5 + 1))
                                                            } else {
                                                                Err(
                                                                    RustJsonError::UnexpectedChar(
                                                                        p5 as usize,
                                                                        d as char,
                                                                    ),
                                                                )
                                                            },
                                                        }
                                                    },
                                                }
                                            },
                                        }
                                    },
                                }
                            },
                        },
                    }
                },
            }
        },
    }
}

/// The whole RustJSON grammar: one value surrounded by trivia.
pub open spec fn spec_parse(b: Seq<u8>) -> Result<Json, RustJsonError> {
    match skip_trivia(b, 0) {
        Err(e) => Err(e),
        Ok(p) => match spec_value(b, p) {
            Err(e) => Err(e),
            Ok((v, q)) => match skip_trivia(b, q) {
                Err(e) => Err(e),
                Ok(r) => if r != b.len() {
                    Err(RustJsonError::TrailingData(r as usize))
                } else {
                    Ok(v)
                },
            },
        },
    }
}

// ---------------------------------------------------------------------------
// Parser (exec)
// ---------------------------------------------------------------------------

fn is_ws_byte(c: u8) -> (r: bool)
    ensures
        r == is_ws(c),
{
    c == 0x20 || c == 0x09 || c == 0x0a || c == 0x0c || c == 0x0d
}

fn is_digit_byte(c: u8) -> (r: bool)
    ensures
        r == is_digit(c),
{
    0x30 <= c && c <= 0x39
}

fn is_alpha_byte(c: u8) -> (r: bool)
    ensures
        r == is_alpha(c),
{
    (0x41 <= c && c <= 0x5a) || (0x61 <= c && c <= 0x7a)
}

fn is_ident_byte(c: u8) -> (r: bool)
    ensures
        r == is_ident_char(c),
{
    c == 0x5f || is_alpha_byte(c) || is_digit_byte(c)
}

fn skip_whitespace_and_comments(bytes: &[u8], pos: &mut usize) -> (r: Result<(), RustJsonError>)
    requires
        *old(pos) <= bytes@.len(),
    ensures
        match skip_trivia(bytes@, *old(pos) as int) {
            Ok(q) => r is Ok && *final(pos) == q,
            Err(e) => r == Err::<(), RustJsonError>(e),
        },
        *old(pos) <= *final(pos) <= bytes@.len(),
{
    let ghost b = bytes@;
    let ghost p0 = *pos as int;
    let len = bytes.len();
    loop
        invariant
            p0 == *old(pos),
            p0 <= *pos <= len,
            len == b.len(),
            b == bytes@,
            skip_trivia(b, *pos as int) == skip_trivia(b, p0),
        ensures
            p0 <= *pos <= len,
            skip_trivia(b, p0) == Ok::<int, RustJsonError>(*pos as int),
        decreases len - *pos,
    {
        let ghost it = *pos as int;
        while *pos < len && is_ws_byte(bytes[*pos])
            invariant
                p0 <= it <= *pos <= len,
                len == b.len(),
                b == bytes@,
                skip_trivia(b, *pos as int) == skip_trivia(b, p0),
            decreases len - *pos,
        {
            *pos = *pos + 1;
        }
        if len - *pos >= 2 && bytes[*pos] == 0x2f && bytes[*pos + 1] == 0x2f {
            let ghost s = *pos as int;
            proof {
                lemma_line_end(b, s + 2);
            }
            *pos = *pos + 2;
            while *pos < len && bytes[*pos] != 0x0a
                invariant
                    it <= s,
                    s + 2 <= *pos <= len,
                    len == b.len(),
                    b == bytes@,
                    line_end(b, *pos as int) == line_end(b, s + 2),
                decreases len - *pos,
            {
                *pos = *pos + 1;
            }
            assert(line_end(b, *pos as int) == *pos as int);
            continue;
        }
        if len - *pos >= 2 && bytes[*pos] == 0x2f && bytes[*pos + 1] == 0x2a {
            let start = *pos;
            proof {
                lemma_block_end(b, start + 2);
            }
            *pos = *pos + 2;
            loop
                invariant_except_break
                    block_end(b, *pos as int) == block_end(b, start + 2),
                invariant
                    p0 == *old(pos),
                    p0 <= it <= start,
                    start + 2 <= *pos <= len,
                    len == b.len(),
                    b == bytes@,
                    b[start as int] == 0x2f,
                    b[start + 1] == 0x2a,
                    skip_trivia(b, start as int) == skip_trivia(b, p0),
                ensures
                    p0 <= it <= start,
                    start + 2 <= *pos <= len,
                    block_end(b, start + 2) == Some(*pos as int),
                decreases len - *pos,
            {
                if len - *pos < 2 {
                    return Err(RustJsonError::UnterminatedComment(start));
                }
                if bytes[*pos] == 0x2a && bytes[*pos + 1] == 0x2f {
                    *pos = *pos + 2;
                    break;
                }
                *pos = *pos + 1;
            }
            continue;
        }
        break;
    }
    Ok(())
}

fn peek(bytes: &[u8], pos: usize) -> (r: Result<u8, RustJsonError>)
    ensures
        r == peek_spec(bytes@, pos as int),
{
    if pos < bytes.len() {
        Ok(bytes[pos])
    } else {
        Err(RustJsonError::UnexpectedEof(pos))
    }
}

fn parse_literal(bytes: &[u8], pos: &mut usize, literal: &[u8], value: JsonValue) -> (r: Result<
    JsonValue,
    RustJsonError,
>)
    requires
        *old(pos) <= bytes@.len(),
        literal@.len() > 0,
    ensures
        match spec_literal(bytes@, *old(pos) as int, literal@, value.model()) {
            Ok((v, q)) => r matches Ok(x) && x.model() == v && *final(pos) == q,
            Err(e) => r matches Err(x) && x == e,
        },
        r is Ok ==> *old(pos) < *final(pos) <= bytes@.len(),
{
    let n = literal.len();
    let blen = bytes.len();
    let at = *pos;
    if blen - at >= n {
        let mut i: usize = 0;
        let mut same = true;
        assert(bytes@.subrange(at as int, at + 0) =~= literal@.subrange(0, 0));
        while i < n
            invariant
                0 <= i <= n,
                n == literal@.len(),
                blen == bytes@.len(),
                at == *pos,
                at + n <= blen,
                same == (bytes@.subrange(*pos as int, *pos + i) == literal@.subrange(0, i as int)),
            decreases n - i,
        {
            if bytes[at + i] != literal[i] {
                same = false;
            }
            proof {
                assert(bytes@.subrange(*pos as int, *pos + i + 1) =~= bytes@.subrange(*pos as int, *pos + i).push(bytes@[*pos + i]));
                assert(literal@.subrange(0, i + 1) =~= literal@.subrange(0, i as int).push(literal@[i as int]));
                if bytes@.subrange(*pos as int, *pos + i + 1) == literal@.subrange(0, i + 1) {
                    assert(bytes@.subrange(*pos as int, *pos + i + 1)[i as int] == literal@.subrange(0, i + 1)[i as int]);
                    assert(bytes@.subrange(*pos as int, *pos + i) =~= bytes@.subrange(*pos as int, *pos + i + 1).drop_last());
                    assert(literal@.subrange(0, i as int) =~= literal@.subrange(0, i + 1).drop_last());
                }
            }
            i = i + 1;
        }
        assert(literal@.subrange(0, n as int) =~= literal@);
        if same {
            *pos = *pos + n;
            return Ok(value);
        }
    }
    match peek(bytes, *pos) {
        Ok(c) => Err(RustJsonError::UnexpectedChar(*pos, c as char)),
        Err(e) => Err(e),
    }
}

fn utf8_char_len(first_byte: u8) -> (r: usize)
    ensures
        r == utf8_len_spec(first_byte),
{
    if first_byte & 0x80 == 0 {
        1
    } else if first_byte & 0xE0 == 0xC0 {
        2
    } else if first_byte & 0xF0 == 0xE0 {
        3
    } else {
        4
    }
}

fn hex_digit(c: u8) -> (r: Option<u32>)
    ensures
        r is Some <==> is_hex(c),
        r matches Some(v) ==> v == hex_val(c),
{
    if 0x30 <= c && c <= 0x39 {
        Some((c - 0x30) as u32)
    } else if 0x41 <= c && c <= 0x46 {
        Some((c - 0x41 + 10) as u32)
    } else if 0x61 <= c && c <= 0x66 {
        Some((c - 0x61 + 10) as u32)
    } else {
        None
    }
}

/// Value of the four bytes at `h` as `u32`'s radix-16 parser reads them.
fn hex4(bytes: &[u8], h: usize) -> (r: Option<u32>)
    requires
        h + 4 <= bytes@.len(),
    ensures
        r is Some <==> hex4_valid(bytes@, h as int),
        r matches Some(v) ==> v == hex4_value(bytes@, h as int),
{
    let lead: u32 = if bytes[h] == 0x2b {
        0
    } else {
        match hex_digit(bytes[h]) {
            Some(v) => v,
            None => return None,
        }
    };
    let d1 = match hex_digit(bytes[h + 1]) {
        Some(v) => v,
        None => return None,
    };
    let d2 = match hex_digit(bytes[h + 2]) {
        Some(v) => v,
        None => return None,
    };
    let d3 = match hex_digit(bytes[h + 3]) {
        Some(v) => v,
        None => return None,
    };
    Some(((lead * 16 + d1) * 16 + d2) * 16 + d3)
}

fn parse_quoted_string(bytes: &[u8], pos: &mut usize, quote: u8) -> (r: Result<String, RustJsonError>)
    requires
        *old(pos) < bytes@.len(),
    ensures
        match spec_string(bytes@, *old(pos) as int, quote) {
            Ok((s, q)) => r matches Ok(x) && x@ == s && *final(pos) == q,
            Err(e) => r matches Err(x) && x == e,
        },
        r is Ok ==> *old(pos) < *final(pos) <= bytes@.len(),
{
    let ghost b = bytes@;
    let start = *pos;
    let len = bytes.len();
    *pos = *pos + 1;
    let mut out = String::new();
    proof {
        lemma_string_body(b, start as int, quote, start + 1, Seq::empty());
    }
    loop
        invariant
            start == *old(pos),
            start < *pos <= len + 1,
            len == b.len(),
            b == bytes@,
            string_body(b, start as int, quote, *pos as int, out@) == spec_string(b, start as int, quote),
        decreases len + 1 - *pos,
    {
        if *pos >= len {
            return Err(RustJsonError::UnterminatedString(start));
        }
        let c = bytes[*pos];
        if c == quote {
            *pos = *pos + 1;
            return Ok(out);
        }
        if c == 0x5c {
            if len - *pos < 2 {
                return Err(RustJsonError::UnterminatedString(start));
            }
            let escaped = bytes[*pos + 1];
            if escaped == 0x22 {
                string_push(&mut out, '"');
            } else if escaped == 0x27 {
                string_push(&mut out, '\'');
            } else if escaped == 0x5c {
                string_push(&mut out, '\\');
            } else if escaped == 0x2f {
                string_push(&mut out, '/');
            } else if escaped == 0x6e {
                string_push(&mut out, '\n');
            } else if escaped == 0x74 {
                string_push(&mut out, '\t');
            } else if escaped == 0x72 {
                string_push(&mut out, '\r');
            } else if escaped == 0x62 {
                string_push(&mut out, '\u{8}');
            } else if escaped == 0x66 {
                string_push(&mut out, '\u{c}');
            } else if escaped == 0x75 {
                if len - *pos < 6 {
                    return Err(RustJsonError::InvalidEscape(*pos + 1));
                }
                let code = match hex4(bytes, *pos + 2) {
                    Some(v) => v,
                    None => return Err(RustJsonError::InvalidEscape(*pos + 1)),
                };
                match char_from_u32(code) {
                    Some(ch) => {
                        string_push(&mut out, ch);
                        *pos = *pos + 6;
                    },
                    None => {
                        if !(0xD800 <= code && code < 0xDC00) || len - *pos < 12
                            || bytes[*pos + 6] != 0x5c || bytes[*pos + 7] != 0x75 {
                            return Err(RustJsonError::InvalidEscape(*pos + 1));
                        }
                        let low = match hex4(bytes, *pos + 8) {
                            Some(v) => v,
                            None => return Err(RustJsonError::InvalidEscape(*pos + 1)),
                        };
                        if !(0xDC00 <= low && low < 0xE000) {
                            return Err(RustJsonError::InvalidEscape(*pos + 1));
                        }
                        let scalar: u32 = 0x10000 + (code - 0xD800) * 0x400 + (low - 0xDC00);
                        proof {
                            assert(has_width_4_encoding(scalar));
                        }
                        match char_from_u32(scalar) {
                            Some(ch) => string_push(&mut out, ch),
                            None => return Err(RustJsonError::InvalidEscape(*pos + 1)),
                        }
                        *pos = *pos + 12;
                    },
                }
                continue;
            } else {
                return Err(RustJsonError::InvalidEscape(*pos + 1));
            }
            *pos = *pos + 2;
            continue;
        }
        let n = utf8_char_len(c);
        if len - *pos < n {
            return Err(RustJsonError::UnterminatedString(start));
        }
        let chunk = vstd::slice::slice_subrange(bytes, *pos, *pos + n);
        assert(chunk@ == b.subrange(*pos as int, *pos + n));
        match utf8_to_str(chunk) {
            Some(s) => {
                out.append(s);
            },
            None => return Err(RustJsonError::UnterminatedString(start)),
        }
        *pos = *pos + n;
    }
}

fn parse_key(bytes: &[u8], pos: &mut usize) -> (r: Result<String, RustJsonError>)
    requires
        *old(pos) <= bytes@.len(),
    ensures
        match spec_key(bytes@, *old(pos) as int) {
            Ok((s, q)) => r matches Ok(x) && x@ == s && *final(pos) == q,
            Err(e) => r matches Err(x) && x == e,
        },
        r is Ok ==> *old(pos) < *final(pos) <= bytes@.len(),
{
    let c = match peek(bytes, *pos) {
        Ok(c) => c,
        Err(e) => return Err(e),
    };
    if c == 0x22 {
        parse_quoted_string(bytes, pos, 0x22)
    } else if c == 0x27 {
        parse_quoted_string(bytes, pos, 0x27)
    } else if c == 0x5f || is_alpha_byte(c) {
        let start = *pos;
        let len = bytes.len();
        *pos = *pos + 1;
        while *pos < len && is_ident_byte(bytes[*pos])
            invariant
                len == bytes@.len(),
                start < *pos <= bytes@.len(),
                ident_end(bytes@, *pos as int) == ident_end(bytes@, start + 1),
            decreases bytes@.len() - *pos,
        {
            *pos = *pos + 1;
        }
        Ok(string_from_ascii_bytes(bytes, start, *pos))
    } else {
        Err(RustJsonError::UnexpectedChar(*pos, c as char))
    }
}

/// Scans a run of ASCII digits from `p`, returning where it ends.
fn scan_digits(bytes: &[u8], p: usize) -> (r: usize)
    requires
        p <= bytes@.len(),
    ensures
        r == digits_end(bytes@, p as int),
        p <= r <= bytes@.len(),
{
    let mut i = p;
    proof {
        lemma_digits_end(bytes@, p as int);
    }
    while i < bytes.len() && is_digit_byte(bytes[i])
        invariant
            p <= i <= bytes@.len(),
            digits_end(bytes@, i as int) == digits_end(bytes@, p as int),
        decreases bytes@.len() - i,
    {
        i = i + 1;
    }
    i
}

/// Value of the digits `b[s..e]`, or `None` when it exceeds `u64::MAX`.
fn digits_u64(bytes: &[u8], s: usize, e: usize) -> (r: Option<u64>)
    requires
        s <= e <= bytes@.len(),
        forall|i: int| s <= i < e ==> is_digit(#[trigger] bytes@[i]),
    ensures
        r is Some <==> digits_value(bytes@, s as int, e as int) <= u64::MAX,
        r matches Some(v) ==> v == digits_value(bytes@, s as int, e as int),
{
    let mut acc: u64 = 0;
    let mut i = s;
    while i < e
        invariant
            s <= i <= e <= bytes@.len(),
            forall|j: int| s <= j < e ==> is_digit(#[trigger] bytes@[j]),
            acc == digits_value(bytes@, s as int, i as int),
        decreases e - i,
    {
        let d = (bytes[i] - 0x30) as u64;
        assert(is_digit(bytes@[i as int]));
        if acc > 1844674407370955161 || (acc == 1844674407370955161 && d > 5) {
            let mut j = i + 1;
            assert(digits_value(bytes@, s as int, i + 1) > u64::MAX);
            while j < e
                invariant
                    i < j <= e,
                    digits_value(bytes@, s as int, j as int) > u64::MAX,
                decreases e - j,
            {
                j = j + 1;
            }
            return None;
        }
        acc = acc * 10 + d;
        i = i + 1;
    }
    Some(acc)
}

proof fn lemma_digits_value_mono(b: Seq<u8>, s: int, i: int, e: int)
    requires
        s <= i <= e,
    ensures
        digits_value(b, s, i) <= digits_value(b, s, e),
    decreases e - i,
{
    if i < e {
        lemma_digits_value_mono(b, s, i, e - 1);
    }
}

/// Appends the bytes `b[start..end]` to `s`, one character each.
fn push_ascii(s: &mut String, b: &[u8], start: usize, end: usize)
    requires
        start <= end <= b@.len(),
    ensures
        final(s)@ == old(s)@ + ascii_chars(b@, start as int, end as int),
{
    let mut i = start;
    while i < end
        invariant
            start <= i <= end <= b@.len(),
            s@ == old(s)@ + ascii_chars(b@, start as int, i as int),
        decreases end - i,
    {
        string_push(s, b[i] as char);
        proof {
            assert(b@.subrange(start as int, i + 1) =~= b@.subrange(start as int, i as int).push(b@[i as int]));
            assert(ascii_chars(b@, start as int, i + 1) =~= ascii_chars(b@, start as int, i as int).push(b@[i as int] as char));
        }
        i = i + 1;
    }
}

fn parse_number(bytes: &[u8], pos: &mut usize) -> (r: Result<JsonNumber, RustJsonError>)
    requires
        *old(pos) < bytes@.len(),
    ensures
        match spec_number(bytes@, *old(pos) as int) {
            Ok((n, q)) => r matches Ok(x) && x.model() == n && *final(pos) == q,
            Err(e) => r matches Err(x) && x == e,
        },
        r is Ok ==> *old(pos) < *final(pos) <= bytes@.len(),
{
    let ghost b = bytes@;
    let len = bytes.len();
    let start = *pos;
    let neg = bytes[start] == 0x2d;
    let ds = if neg {
        start + 1
    } else {
        start
    };
    let de = scan_digits(bytes, ds);
    if de == ds {
        return Err(RustJsonError::InvalidNumber(start));
    }
    let has_frac = de < len && bytes[de] == 0x2e;
    let fe = if has_frac {
        scan_digits(bytes, de + 1)
    } else {
        de
    };
    if has_frac && fe == de + 1 {
        return Err(RustJsonError::InvalidNumber(start));
    }
    let has_exp = fe < len && (bytes[fe] == 0x65 || bytes[fe] == 0x45);
    let es = if has_exp {
        if len - fe >= 2 && (bytes[fe + 1] == 0x2b || bytes[fe + 1] == 0x2d) {
            fe + 2
        } else {
            fe + 1
        }
    } else {
        fe
    };
    let ee = if has_exp {
        scan_digits(bytes, es)
    } else {
        fe
    };
    if has_exp && ee == es {
        return Err(RustJsonError::InvalidNumber(start));
    }
    proof {
        lemma_digits_end(b, ds as int);
    }
    *pos = ee;
    let value = digits_u64(bytes, ds, de);
    if !has_frac && !has_exp {
        match value {
            Some(v) => {
                if !neg && v <= 9223372036854775807 {
                    return Ok(JsonNumber::Int(v as i64));
                }
                if neg && v <= 9223372036854775808 {
                    if v == 9223372036854775808 {
                        return Ok(JsonNumber::Int(i64::MIN));
                    }
                    return Ok(JsonNumber::Int(0 - (v as i64)));
                }
                if !neg {
                    return Ok(JsonNumber::UInt(v));
                }
            },
            None => {},
        }
    }
    let literal = string_from_ascii_bytes(bytes, start, ee);
    match float_literal_display(literal.as_str()) {
        Some(text) => Ok(JsonNumber::Float(text)),
        None => Err(RustJsonError::InvalidNumber(start)),
    }
}

fn object_insert(map: &mut Vec<(String, JsonValue)>, key: String, value: JsonValue)
    ensures
        member_models(final(map)@) == obj_insert(member_models(old(map)@), key@, value.model()),
{
    let ghost mm = member_models(map@);
    proof {
        lemma_member_models_index(map@);
    }
    let mut i: usize = 0;
    while i < map.len()
        invariant
            0 <= i <= map@.len(),
            map@ == old(map)@,
            mm == member_models(map@),
            mm.len() == map@.len(),
            forall|j: int| 0 <= j < map@.len() ==> #[trigger] mm[j] == (map@[j].0@, map@[j].1.model()),
            find_key(mm, key@, i as int) == find_key(mm, key@, 0),
        decreases map@.len() - i,
    {
        if map[i].0 == key {
            assert(mm[i as int].0 == key@);
            proof {
                lemma_member_models_update(map@, i as int, (key, value));
            }
            map.set(i, (key, value));
            return;
        }
        assert(mm[i as int].0 != key@);
        i = i + 1;
    }
    let mut k: usize = 0;
    while k < map.len()
        invariant
            0 <= k <= map@.len(),
            map@ == old(map)@,
            mm == member_models(map@),
            mm.len() == map@.len(),
            forall|j: int| 0 <= j < map@.len() ==> #[trigger] mm[j] == (map@[j].0@, map@[j].1.model()),
            insert_pos(mm, key@, k as int) == insert_pos(mm, key@, 0),
        ensures
            0 <= k <= map@.len(),
            map@ == old(map)@,
            mm == member_models(map@),
            insert_pos(mm, key@, k as int) == insert_pos(mm, key@, 0),
            k == map@.len() || key_lt(key@, mm[k as int].0),
        decreases map@.len() - k,
    {
        if key_less(&key, &map[k].0) {
            assert(key_lt(key@, mm[k as int].0));
            break;
        }
        k = k + 1;
    }
    assert(insert_pos(mm, key@, k as int) == k);
    proof {
        lemma_member_models_insert(map@, k as int, (key, value));
    }
    map.insert(k, (key, value));
}

/// Whether `a` comes before `b` as `String`'s `Ord` orders them.
fn key_less(a: &String, b: &String) -> (r: bool)
    ensures
        r == key_lt(a@, b@),
{
    let x = chars_of(a.as_str());
    let y = chars_of(b.as_str());
    let mut i: usize = 0;
    while i < y.len()
        invariant
            x@ == a@,
            y@ == b@,
            i <= y@.len(),
            key_lt_from(x@, y@, i as int) == key_lt_from(x@, y@, 0),
        decreases y@.len() - i,
    {
        if i >= x.len() {
            return true;
        }
        if (x[i] as u32) < (y[i] as u32) {
            return true;
        }
        if x[i] != y[i] {
            return false;
        }
        i = i + 1;
    }
    false
}

fn parse_value(bytes: &[u8], pos: &mut usize) -> (r: Result<JsonValue, RustJsonError>)
    requires
        *old(pos) <= bytes@.len(),
    ensures
        match spec_value(bytes@, *old(pos) as int) {
            Ok((v, q)) => r matches Ok(x) && x.model() == v && *final(pos) == q,
            Err(e) => r matches Err(x) && x == e,
        },
        r is Ok ==> *old(pos) < *final(pos) <= bytes@.len(),
    decreases bytes@.len() - *old(pos), 0nat,
{
    match skip_whitespace_and_comments(bytes, pos) {
        Ok(()) => {},
        Err(e) => return Err(e),
    }
    let c = match peek(bytes, *pos) {
        Ok(c) => c,
        Err(e) => return Err(e),
    };
    if c == 0x7b {
        parse_object(bytes, pos)
    } else if c == 0x5b {
        parse_array(bytes, pos)
    } else if c == 0x22 || c == 0x27 {
        match parse_quoted_string(bytes, pos, c) {
            Ok(s) => Ok(JsonValue::String(s)),
            Err(e) => Err(e),
        }
    } else if c == 0x74 {
        let lit: [u8; 4] = [0x74, 0x72, 0x75, 0x65];
        assert(lit@ =~= lit_true());
        parse_literal(bytes, pos, lit.as_slice(), JsonValue::Bool(true))
    } else if c == 0x66 {
        let lit: [u8; 5] = [0x66, 0x61, 0x6c, 0x73, 0x65];
        assert(lit@ =~= lit_false());
        parse_literal(bytes, pos, lit.as_slice(), JsonValue::Bool(false))
    } else if c == 0x6e {
        let lit: [u8; 4] = [0x6e, 0x75, 0x6c, 0x6c];
        assert(lit@ =~= lit_null());
        parse_literal(bytes, pos, lit.as_slice(), JsonValue::Null)
    } else if c == 0x2d || is_digit_byte(c) {
        match parse_number(bytes, pos) {
            Ok(n) => Ok(JsonValue::Number(n)),
            Err(e) => Err(e),
        }
    } else {
        Err(RustJsonError::UnexpectedChar(*pos, c as char))
    }
}

fn parse_array(bytes: &[u8], pos: &mut usize) -> (r: Result<JsonValue, RustJsonError>)
    requires
        *old(pos) < bytes@.len(),
    ensures
        match spec_elements(bytes@, *old(pos) + 1, Seq::empty()) {
            Ok((v, q)) => r matches Ok(x) && x.model() == v && *final(pos) == q,
            Err(e) => r matches Err(x) && x == e,
        },
        r is Ok ==> *old(pos) < *final(pos) <= bytes@.len(),
    decreases bytes@.len() - *old(pos) - 1, 1nat,
{
    let ghost b = bytes@;
    let ghost p0 = *pos + 1;
    let len = bytes.len();
    *pos = *pos + 1;
    let mut items: Vec<JsonValue> = Vec::new();
    loop
        invariant
            p0 == *old(pos) + 1,
            p0 <= *pos <= b.len(),
            len == b.len(),
            b == bytes@,
            spec_elements(b, *pos as int, models(items@)) == spec_elements(b, p0, Seq::empty()),
        decreases b.len() - *pos,
    {
        let ghost p = *pos as int;
        match skip_whitespace_and_comments(bytes, pos) {
            Ok(()) => {},
            Err(e) => return Err(e),
        }
        let c = match peek(bytes, *pos) {
            Ok(c) => c,
            Err(e) => return Err(e),
        };
        if c == 0x5d {
            *pos = *pos + 1;
            return Ok(JsonValue::Array(items));
        }
        let v = match parse_value(bytes, pos) {
            Ok(v) => v,
            Err(e) => return Err(e),
        };
        proof {
            lemma_models_push(items@, v);
        }
        items.push(v);
        match skip_whitespace_and_comments(bytes, pos) {
            Ok(()) => {},
            Err(e) => return Err(e),
        }
        let d = match peek(bytes, *pos) {
            Ok(d) => d,
            Err(e) => return Err(e),
        };
        if d == 0x2c {
            *pos = *pos + 1;
            match skip_whitespace_and_comments(bytes, pos) {
                Ok(()) => {},
                Err(e) => return Err(e),
            }
            let f = match peek(bytes, *pos) {
                Ok(f) => f,
                Err(e) => return Err(e),
            };
            if f == 0x5d {
                *pos = *pos + 1;
                return Ok(JsonValue::Array(items));
            }
        } else if d == 0x5d {
            *pos = *pos + 1;
            return Ok(JsonValue::Array(items));
        } else {
            return Err(RustJsonError::UnexpectedChar(*pos, d as char));
        }
    }
}

fn parse_object(bytes: &[u8], pos: &mut usize) -> (r: Result<JsonValue, RustJsonError>)
    requires
        *old(pos) < bytes@.len(),
    ensures
        match spec_members(bytes@, *old(pos) + 1, Seq::empty()) {
            Ok((v, q)) => r matches Ok(x) && x.model() == v && *final(pos) == q,
            Err(e) => r matches Err(x) && x == e,
        },
        r is Ok ==> *old(pos) < *final(pos) <= bytes@.len(),
    decreases bytes@.len() - *old(pos) - 1, 1nat,
{
    let ghost b = bytes@;
    let ghost p0 = *pos + 1;
    let len = bytes.len();
    *pos = *pos + 1;
    let mut map: Vec<(String, JsonValue)> = Vec::new();
    loop
        invariant
            p0 == *old(pos) + 1,
            p0 <= *pos <= b.len(),
            len == b.len(),
            b == bytes@,
            spec_members(b, *pos as int, member_models(map@)) == spec_members(b, p0, Seq::empty()),
        decreases b.len() - *pos,
    {
        match skip_whitespace_and_comments(bytes, pos) {
            Ok(()) => {},
            Err(e) => return Err(e),
        }
        let c = match peek(bytes, *pos) {
            Ok(c) => c,
            Err(e) => return Err(e),
        };
        if c == 0x7d {
            *pos = *pos + 1;
            return Ok(JsonValue::Object(map));
        }
        let key = match parse_key(bytes, pos) {
            Ok(k) => k,
            Err(e) => return Err(e),
        };
        match skip_whitespace_and_comments(bytes, pos) {
            Ok(()) => {},
            Err(e) => return Err(e),
        }
        let colon = match peek(bytes, *pos) {
            Ok(x) => x,
            Err(e) => return Err(e),
        };
        if colon != 0x3a {
            return Err(RustJsonError::UnexpectedChar(*pos, colon as char));
        }
        *pos = *pos + 1;
        let value = match parse_value(bytes, pos) {
            Ok(v) => v,
            Err(e) => return Err(e),
        };
        object_insert(&mut map, key, value);
        match skip_whitespace_and_comments(bytes, pos) {
            Ok(()) => {},
            Err(e) => return Err(e),
        }
        let d = match peek(bytes, *pos) {
            Ok(d) => d,
            Err(e) => return Err(e),
        };
        if d == 0x2c {
            *pos = *pos + 1;
            match skip_whitespace_and_comments(bytes, pos) {
                Ok(()) => {},
                Err(e) => return Err(e),
            }
            let f = match peek(bytes, *pos) {
                Ok(f) => f,
                Err(e) => return Err(e),
            };
            if f == 0x7d {
                *pos = *pos + 1;
                return Ok(JsonValue::Object(map));
            }
        } else if d == 0x7d {
            *pos = *pos + 1;
            return Ok(JsonValue::Object(map));
        } else {
            return Err(RustJsonError::UnexpectedChar(*pos, d as char));
        }
    }
}

/// Parses a RustJSON document. Every strict JSON document is accepted too.
/// The result is exactly what the grammar `spec_parse` gives for the input's
/// UTF-8 bytes, errors and their offsets included.
pub fn parse(input: &str) -> (r: Result<JsonValue, RustJsonError>)
    ensures
        match spec_parse(input.spec_bytes()) {
            Ok(v) => r matches Ok(x) && x.model() == v,
            Err(e) => r matches Err(x) && x == e,
        },
{
    let bytes = input.as_bytes();
    let mut pos: usize = 0;
    match skip_whitespace_and_comments(bytes, &mut pos) {
        Ok(()) => {},
        Err(e) => return Err(e),
    }
    let value = match parse_value(bytes, &mut pos) {
        Ok(v) => v,
        Err(e) => return Err(e),
    };
    match skip_whitespace_and_comments(bytes, &mut pos) {
        Ok(()) => {},
        Err(e) => return Err(e),
    }
    if pos != bytes.len() {
        return Err(RustJsonError::TrailingData(pos));
    }
    Ok(value)
}

// ---------------------------------------------------------------------------
// Strict output
// ---------------------------------------------------------------------------

pub open spec fn digit_char(d: nat) -> char {
    ((d % 10) + 0x30) as char
}

/// Decimal digits of `n`.
pub open spec fn nat_chars(n: nat) -> Seq<char>
    decreases n,
{
    if n < 10 {
        seq![digit_char(n)]
    } else {
        nat_chars(n / 10).push(digit_char(n % 10))
    }
}

/// Decimal text of `i`, with a leading `-` when negative.
pub open spec fn int_chars(i: int) -> Seq<char> {
    if i < 0 {
        seq!['-'] + nat_chars((0 - i) as nat)
    } else {
        nat_chars(i as nat)
    }
}

pub open spec fn hex_lower(d: nat) -> char {
    if d < 10 {
        (d + 0x30) as char
    } else {
        (d - 10 + 0x61) as char
    }
}

/// How strict JSON writes one character inside a string literal.
pub open spec fn escape_char(c: char) -> Seq<char> {
    if c == '"' {
        seq!['\\', '"']
    } else if c == '\\' {
        seq!['\\', '\\']
    } else if c == '\u{8}' {
        seq!['\\', 'b']
    } else if c == '\u{c}' {
        seq!['\\', 'f']
    } else if c == '\n' {
        seq!['\\', 'n']
    } else if c == '\r' {
        seq!['\\', 'r']
    } else if c == '\t' {
        seq!['\\', 't']
    } else if (c as u32) < 0x20 {
        seq!['\\', 'u', '0', '0', hex_lower((c as u32 / 16) as nat), hex_lower((c as u32 % 16) as nat)]
    } else {
        seq![c]
    }
}

pub open spec fn escape_chars(s: Seq<char>) -> Seq<char>
    decreases s.len(),
{
    if s.len() == 0 {
        Seq::empty()
    } else {
        escape_chars(s.drop_last()) + escape_char(s.last())
    }
}

pub open spec fn ser_string(s: Seq<char>) -> Seq<char> {
    seq!['"'] + escape_chars(s) + seq!['"']
}

pub open spec fn ser_number(n: Num) -> Seq<char> {
    match n {
        Num::Int(i) => int_chars(i as int),
        Num::UInt(u) => nat_chars(u as nat),
        Num::Float(t) => t,
    }
}

/// Compact strict JSON text of a value.
pub open spec fn ser(j: Json) -> Seq<char>
    decreases j, 0nat,
{
    match j {
        Json::Null => seq!['n', 'u', 'l', 'l'],
        Json::Bool(b) => if b {
            seq!['t', 'r', 'u', 'e']
        } else {
            seq!['f', 'a', 'l', 's', 'e']
        },
        Json::Number(n) => ser_number(n),
        Json::Str(s) => ser_string(s),
        Json::Array(items) => seq!['['] + ser_items(items) + seq![']'],
        Json::Object(members) => seq!['{'] + ser_members(members) + seq!['}'],
    }
}

/// Array elements separated by commas.
pub open spec fn ser_items(items: Seq<Json>) -> Seq<char>
    decreases items, 0nat,
{
    if items.len() == 0 {
        Seq::empty()
    } else if items.len() == 1 {
        ser(items[0])
    } else {
        ser_items(items.drop_last()) + seq![','] + ser(items.last())
    }
}

/// Object members (`"key":value`) separated by commas.
pub open spec fn ser_members(members: Seq<(Seq<char>, Json)>) -> Seq<char>
    decreases members, 0nat,
{
    if members.len() == 0 {
        Seq::empty()
    } else if members.len() == 1 {
        ser_string(members[0].0) + seq![':'] + ser(members[0].1)
    } else {
        ser_members(members.drop_last()) + seq![','] + ser_string(members.last().0) + seq![':']
            + ser(members.last().1)
    }
}

fn write_nat(n: u64, out: &mut String)
    ensures
        final(out)@ == old(out)@ + nat_chars(n as nat),
    decreases n,
{
    if n >= 10 {
        write_nat(n / 10, out);
    }
    let d = (n % 10) as u8;
    string_push(out, (d + 0x30) as char);
    proof {
        assert(((n % 10) as nat) % 10 == (n as nat) % 10);
    }
}

pub(crate) fn write_int(i: i64, out: &mut String)
    ensures
        final(out)@ == old(out)@ + int_chars(i as int),
{
    if i < 0 {
        string_push(out, '-');
        let m: u64 = if i == i64::MIN {
            9223372036854775808
        } else {
            (0 - i) as u64
        };
        write_nat(m, out);
    } else {
        write_nat(i as u64, out);
    }
}

fn hex_lower_char(d: u32) -> (c: char)
    requires
        d < 16,
    ensures
        c == hex_lower(d as nat),
{
    if d < 10 {
        ((d + 0x30) as u8) as char
    } else {
        ((d - 10 + 0x61) as u8) as char
    }
}

fn write_escaped_char(c: char, out: &mut String)
    ensures
        final(out)@ == old(out)@ + escape_char(c),
{
    let ghost o = out@;
    if c == '"' {
        string_push(out, '\\');
        string_push(out, '"');
    } else if c == '\\' {
        string_push(out, '\\');
        string_push(out, '\\');
    } else if c == '\u{8}' {
        string_push(out, '\\');
        string_push(out, 'b');
    } else if c == '\u{c}' {
        string_push(out, '\\');
        string_push(out, 'f');
    } else if c == '\n' {
        string_push(out, '\\');
        string_push(out, 'n');
    } else if c == '\r' {
        string_push(out, '\\');
        string_push(out, 'r');
    } else if c == '\t' {
        string_push(out, '\\');
        string_push(out, 't');
    } else if (c as u32) < 0x20 {
        string_push(out, '\\');
        string_push(out, 'u');
        string_push(out, '0');
        string_push(out, '0');
        string_push(out, hex_lower_char(c as u32 / 16));
        string_push(out, hex_lower_char(c as u32 % 16));
    } else {
        string_push(out, c);
    }
    assert(out@ =~= o + escape_char(c));
}

fn write_string(s: &String, out: &mut String)
    ensures
        final(out)@ == old(out)@ + ser_string(s@),
{
    let ghost o = out@;
    string_push(out, '"');
    let text = s.as_str();
    let n = text.unicode_len();
    let mut i: usize = 0;
    while i < n
        invariant
            0 <= i <= n,
            n == text@.len(),
            text@ == s@,
            out@ == o + seq!['"'] + escape_chars(s@.subrange(0, i as int)),
        decreases n - i,
    {
        let c = text.get_char(i);
        write_escaped_char(c, out);
        proof {
            assert(s@.subrange(0, i + 1).drop_last() =~= s@.subrange(0, i as int));
            assert(out@ =~= o + seq!['"'] + escape_chars(s@.subrange(0, i + 1)));
        }
        i = i + 1;
    }
    assert(s@.subrange(0, n as int) =~= s@);
    string_push(out, '"');
    assert(out@ =~= o + ser_string(s@));
}

fn write_value(v: &JsonValue, out: &mut String)
    ensures
        final(out)@ == old(out)@ + ser(v.model()),
    decreases v,
{
    let ghost o = out@;
    match v {
        JsonValue::Null => {
            string_push(out, 'n');
            string_push(out, 'u');
            string_push(out, 'l');
            string_push(out, 'l');
            assert(out@ =~= o + ser(v.model()));
        },
        JsonValue::Bool(b) => {
            if *b {
                string_push(out, 't');
                string_push(out, 'r');
                string_push(out, 'u');
                string_push(out, 'e');
            } else {
                string_push(out, 'f');
                string_push(out, 'a');
                string_push(out, 'l');
                string_push(out, 's');
                string_push(out, 'e');
            }
            assert(out@ =~= o + ser(v.model()));
        },
        JsonValue::Number(n) => {
            match n {
                JsonNumber::Int(i) => write_int(*i, out),
                JsonNumber::UInt(u) => write_nat(*u, out),
                JsonNumber::Float(t) => {
                    out.append(t.as_str());
                },
            }
        },
        JsonValue::String(s) => write_string(s, out),
        JsonValue::Array(items) => {
            string_push(out, '[');
            let mut i: usize = 0;
            proof {
                lemma_models_index(items@);
            }
            while i < items.len()
                invariant
                    *v == JsonValue::Array(*items),
                    0 <= i <= items@.len(),
                    models(items@).len() == items@.len(),
                    forall|j: int| 0 <= j < items@.len() ==> #[trigger] models(items@)[j] == items@[j].model(),
                    out@ == o + seq!['['] + ser_items(models(items@).subrange(0, i as int)),
                decreases items@.len() - i,
            {
                let ghost before = out@;
                if i > 0 {
                    string_push(out, ',');
                }
                proof {
                    assert(decreases_to!(items@ => items@[i as int]));
                    assert(decreases_to!(*items => items@));
                    assert(decreases_to!(*v => (*v)->Array_0));
                }
                write_value(&items[i], out);
                proof {
                    let ms = models(items@);
                    assert(ms.subrange(0, i + 1).drop_last() =~= ms.subrange(0, i as int));
                    if i == 0 {
                        assert(out@ =~= o + seq!['['] + ser_items(ms.subrange(0, i + 1)));
                    } else {
                        assert(out@ =~= o + seq!['['] + ser_items(ms.subrange(0, i + 1)));
                    }
                }
                i = i + 1;
            }
            assert(models(items@).subrange(0, items@.len() as int) =~= models(items@));
            string_push(out, ']');
            assert(out@ =~= o + ser(v.model()));
        },
        JsonValue::Object(members) => {
            string_push(out, '{');
            let mut i: usize = 0;
            proof {
                lemma_member_models_index(members@);
            }
            while i < members.len()
                invariant
                    *v == JsonValue::Object(*members),
                    0 <= i <= members@.len(),
                    member_models(members@).len() == members@.len(),
                    forall|j: int|
                        0 <= j < members@.len() ==> #[trigger] member_models(members@)[j] == (
                            members@[j].0@,
                            members@[j].1.model(),
                        ),
                    out@ == o + seq!['{'] + ser_members(member_models(members@).subrange(0, i as int)),
                decreases members@.len() - i,
            {
                if i > 0 {
                    string_push(out, ',');
                }
                write_string(&members[i].0, out);
                string_push(out, ':');
                proof {
                    assert(decreases_to!(members@[i as int] => members@[i as int].1));
                    assert(decreases_to!(members@ => members@[i as int]));
                    assert(decreases_to!(*members => members@));
                    assert(decreases_to!(*v => (*v)->Object_0));
                }
                write_value(&members[i].1, out);
                proof {
                    let ms = member_models(members@);
                    assert(ms.subrange(0, i + 1).drop_last() =~= ms.subrange(0, i as int));
                    assert(out@ =~= o + seq!['{'] + ser_members(ms.subrange(0, i + 1)));
                }
                i = i + 1;
            }
            assert(member_models(members@).subrange(0, members@.len() as int) =~= member_models(members@));
            string_push(out, '}');
            assert(out@ =~= o + ser(v.model()));
        },
    }
}

/// Canonical strict, compact JSON text of `value`: the output grammar is
/// plain JSON whatever lenient source the value was parsed from.
pub fn to_string(value: &JsonValue) -> (s: String)
    ensures
        s@ == ser(value.model()),
{
    let mut out = String::new();
    write_value(value, &mut out);
    assert(out@ =~= ser(value.model()));
    out
}

// ---------------------------------------------------------------------------
// Partial extraction
// ---------------------------------------------------------------------------

/// One step of an extraction path: an object key (as its UTF-8 bytes) or
/// an array index.
pub enum Seg {
    Key(Seq<u8>),
    Index(nat),
}

/// First index in `s..e` holding byte `c`, or `-1`.
pub open spec fn find_byte(p: Seq<u8>, s: int, e: int, c: u8) -> int
    decreases e - s,
{
    if s < 0 || s >= e || e > p.len() {
        -1
    } else if p[s] == c {
        s
    } else {
        find_byte(p, s + 1, e, c)
    }
}

proof fn lemma_find_byte(p: Seq<u8>, s: int, e: int, c: u8)
    requires
        0 <= s,
    ensures
        find_byte(p, s, e, c) == -1 || (s <= find_byte(p, s, e, c) < e && e <= p.len() && p[find_byte(p, s, e, c)] == c),
        find_byte(p, s, e, c) == -1 && e <= p.len() ==> forall|i: int| s <= i < e ==> p[i] != c,
    decreases e - s,
{
    if s < e && e <= p.len() && p[s] != c {
        lemma_find_byte(p, s + 1, e, c);
    }
}

/// `usize`'s decimal parser on `p[s..e]`: an optional `+`, then at least
/// one digit, with a value that fits.
pub open spec fn parse_index(p: Seq<u8>, s: int, e: int) -> Option<nat> {
    let ds = if s < e && p[s] == 0x2b {
        s + 1
    } else {
        s
    };
    if ds >= e {
        None
    } else if !(forall|i: int| ds <= i < e ==> is_digit(#[trigger] p[i])) {
        None
    } else if digits_value(p, ds, e) <= usize::MAX {
        Some(digits_value(p, ds, e))
    } else {
        None
    }
}

/// Segments of one dot-separated part `p[s..e]`: a key before each `[`, and
/// the index inside `[...]` when it parses (an unparsable index is
/// skipped; a `[` without `]` ends the part).
pub open spec fn part_segments(p: Seq<u8>, s: int, e: int) -> Seq<Seg>
    decreases e - s,
{
    let bs = find_byte(p, s, e, 0x5b);
    if bs < 0 || bs < s || bs >= e {
        if s < e {
            seq![Seg::Key(p.subrange(s, e))]
        } else {
            Seq::empty()
        }
    } else {
        let pre: Seq<Seg> = if s < bs {
            seq![Seg::Key(p.subrange(s, bs))]
        } else {
            Seq::empty()
        };
        let be = find_byte(p, bs, e, 0x5d);
        if be < 0 || be <= bs || be >= e {
            pre
        } else {
            let mid: Seq<Seg> = match parse_index(p, bs + 1, be) {
                Some(i) => seq![Seg::Index(i)],
                None => Seq::empty(),
            };
            pre + mid + part_segments(p, be + 1, e)
        }
    }
}

/// Segments of the whole path from `s`: parts separated by `.`.
pub open spec fn path_segments(p: Seq<u8>, s: int) -> Seq<Seg>
    decreases p.len() - s,
{
    if s < 0 || s > p.len() {
        Seq::empty()
    } else {
        let d = find_byte(p, s, p.len() as int, 0x2e);
        if d < s || d >= p.len() {
            part_segments(p, s, p.len() as int)
        } else {
            part_segments(p, s, d) + path_segments(p, d + 1)
        }
    }
}

/// First member whose key's UTF-8 encoding is `kb`, or `-1`.
pub open spec fn find_key_bytes(m: Seq<(Seq<char>, Json)>, kb: Seq<u8>, i: int) -> int
    decreases m.len() - i,
{
    if i < 0 || i >= m.len() {
        -1
    } else if encode_utf8(m[i].0) == kb {
        i
    } else {
        find_key_bytes(m, kb, i + 1)
    }
}

/// Follows `segs` into `j`: `None` as soon as a key is missing, an index
/// is out of bounds, or a step meets a value of the wrong kind.
pub open spec fn follow(j: Json, segs: Seq<Seg>) -> Option<Json>
    decreases segs.len(),
{
    if segs.len() == 0 {
        Some(j)
    } else {
        match segs[0] {
            Seg::Key(kb) => match j {
                Json::Object(ms) => {
                    let i = find_key_bytes(ms, kb, 0);
                    if 0 <= i < ms.len() {
                        follow(ms[i].1, segs.drop_first())
                    } else {
                        None
                    }
                },
                _ => None,
            },
            Seg::Index(n) => match j {
                Json::Array(items) => if n < items.len() {
                    follow(items[n as int], segs.drop_first())
                } else {
                    None
                },
                _ => None,
            },
        }
    }
}

// ---------------------------------------------------------------------------
// A dotted path is followed one part at a time
// ---------------------------------------------------------------------------

/// `p[s..e]` reads as `q[s - o..e - o]`.
pub open spec fn same_window(p: Seq<u8>, q: Seq<u8>, o: int, s: int, e: int) -> bool {
    &&& 0 <= o <= s <= e
    &&& e <= p.len()
    &&& e - o <= q.len()
    &&& forall|i: int| s <= i < e ==> #[trigger] p[i] == q[i - o]
}

proof fn lemma_find_byte_shift(p: Seq<u8>, q: Seq<u8>, o: int, s: int, e: int, c: u8)
    requires
        same_window(p, q, o, s, e),
    ensures
        find_byte(p, s, e, c) == if find_byte(q, s - o, e - o, c) == -1 {
            -1
        } else {
            find_byte(q, s - o, e - o, c) + o
        },
    decreases e - s,
{
    if s < e {
        assert(p[s] == q[s - o]);
        lemma_find_byte_shift(p, q, o, s + 1, e, c);
        assert(s + 1 - o == s - o + 1);
    }
}

proof fn lemma_digits_value_shift(p: Seq<u8>, q: Seq<u8>, o: int, s: int, e: int)
    requires
        same_window(p, q, o, s, e),
    ensures
        digits_value(p, s, e) == digits_value(q, s - o, e - o),
    decreases e - s,
{
    if s < e {
        lemma_digits_value_shift(p, q, o, s, e - 1);
        assert(p[e - 1] == q[e - 1 - o]);
    }
}

proof fn lemma_parse_index_shift(p: Seq<u8>, q: Seq<u8>, o: int, s: int, e: int)
    requires
        same_window(p, q, o, s, e),
    ensures
        parse_index(p, s, e) == parse_index(q, s - o, e - o),
{
    if s < e {
        assert(p[s] == q[s - o]);
    }
    let ds = if s < e && p[s] == 0x2b { s + 1 } else { s };
    if ds < e {
        lemma_digits_value_shift(p, q, o, ds, e);
        assert((forall|i: int| ds <= i < e ==> is_digit(#[trigger] p[i])) == (forall|i: int|
            ds - o <= i < e - o ==> is_digit(#[trigger] q[i]))) by {
            if forall|i: int| ds <= i < e ==> is_digit(#[trigger] p[i]) {
                assert forall|i: int| ds - o <= i < e - o implies is_digit(#[trigger] q[i]) by {
                    assert(p[i + o] == q[i + o - o]);
                }
            }
            if forall|i: int| ds - o <= i < e - o ==> is_digit(#[trigger] q[i]) {
                assert forall|i: int| ds <= i < e implies is_digit(#[trigger] p[i]) by {
                    assert(q[i - o] == p[i]);
                }
            }
        }
    }
}

proof fn lemma_part_segments_shift(p: Seq<u8>, q: Seq<u8>, o: int, s: int, e: int)
    requires
        same_window(p, q, o, s, e),
    ensures
        part_segments(p, s, e) == part_segments(q, s - o, e - o),
    decreases e - s,
{
    lemma_find_byte_shift(p, q, o, s, e, 0x5b);
    lemma_find_byte(q, s - o, e - o, 0x5b);
    let bs = find_byte(p, s, e, 0x5b);
    if s < e {
        assert(p.subrange(s, e) =~= q.subrange(s - o, e - o));
    }
    if !(bs < 0 || bs < s || bs >= e) {
        if s < bs {
            assert(p.subrange(s, bs) =~= q.subrange(s - o, bs - o));
        }
        lemma_find_byte_shift(p, q, o, bs, e, 0x5d);
        lemma_find_byte(q, bs - o, e - o, 0x5d);
        let be = find_byte(p, bs, e, 0x5d);
        if !(be < 0 || be <= bs || be >= e) {
            lemma_parse_index_shift(p, q, o, bs + 1, be);
            lemma_part_segments_shift(p, q, o, be + 1, e);
            assert(be + 1 - o == be - o + 1);
            assert(bs + 1 - o == bs - o + 1);
        }
    }
}

/// The segments of a path after a dot are those of the text after it.
proof fn lemma_path_segments_suffix(b: Seq<u8>, q: Seq<u8>, o: int, s: int)
    requires
        0 <= o,
        b.len() == o + q.len(),
        forall|i: int| o <= i < b.len() ==> #[trigger] b[i] == q[i - o],
        0 <= s <= q.len(),
    ensures
        path_segments(b, o + s) == path_segments(q, s),
    decreases q.len() - s,
{
    assert(same_window(b, q, o, o + s, b.len() as int));
    lemma_find_byte_shift(b, q, o, o + s, b.len() as int, 0x2e);
    lemma_find_byte(q, s, q.len() as int, 0x2e);
    let d = find_byte(q, s, q.len() as int, 0x2e);
    if d < s || d >= q.len() {
        lemma_part_segments_shift(b, q, o, o + s, b.len() as int);
    } else {
        assert(same_window(b, q, o, o + s, o + d));
        lemma_part_segments_shift(b, q, o, o + s, o + d);
        lemma_path_segments_suffix(b, q, o, d + 1);
        assert(o + d + 1 == o + (d + 1));
    }
}

/// The first `c` of `b` from `s` on, where `b` begins with `p`: that of
/// `p`, or else the first from the end of `p` on.
proof fn lemma_find_byte_prefix(b: Seq<u8>, p: Seq<u8>, s: int, e: int, c: u8)
    requires
        0 <= s <= p.len() <= e <= b.len(),
        forall|i: int| 0 <= i < p.len() ==> #[trigger] b[i] == p[i],
    ensures
        find_byte(p, s, p.len() as int, c) != -1 ==> find_byte(b, s, e, c) == find_byte(p, s, p.len() as int, c),
        find_byte(p, s, p.len() as int, c) == -1 ==> find_byte(b, s, e, c) == find_byte(b, p.len() as int, e, c),
    decreases p.len() - s,
{
    if s < p.len() {
        assert(b[s] == p[s]);
        lemma_find_byte_prefix(b, p, s + 1, e, c);
    }
}

proof fn lemma_path_segments_join(p: Seq<u8>, q: Seq<u8>, s: int)
    requires
        0 <= s <= p.len(),
    ensures
        path_segments(p + seq![0x2eu8] + q, s) == path_segments(p, s) + path_segments(q, 0),
    decreases p.len() - s,
{
    let b = p + seq![0x2eu8] + q;
    let m = p.len() as int;
    assert forall|i: int| 0 <= i < p.len() implies #[trigger] b[i] == p[i] by {}
    assert(b[m] == 0x2e);
    assert forall|i: int| m + 1 <= i < b.len() implies #[trigger] b[i] == q[i - (m + 1)] by {}
    lemma_find_byte_prefix(b, p, s, b.len() as int, 0x2e);
    lemma_find_byte(p, s, m, 0x2e);
    let d = find_byte(p, s, m, 0x2e);
    if d != -1 {
        assert(same_window(b, p, 0, s, d));
        lemma_part_segments_shift(b, p, 0, s, d);
        lemma_path_segments_join(p, q, d + 1);
        assert(part_segments(p, s, d) + (path_segments(p, d + 1) + path_segments(q, 0)) =~= part_segments(
            p,
            s,
            d,
        ) + path_segments(p, d + 1) + path_segments(q, 0));
    } else {
        assert(find_byte(b, m, b.len() as int, 0x2e) == m);
        assert(same_window(b, p, 0, s, m));
        lemma_part_segments_shift(b, p, 0, s, m);
        lemma_path_segments_suffix(b, q, m + 1, 0);
        assert(m + 1 + 0 == m + 1);
    }
}

proof fn lemma_follow_concat(j: Json, s1: Seq<Seg>, s2: Seq<Seg>)
    ensures
        follow(j, s1 + s2) == match follow(j, s1) {
            Some(u) => follow(u, s2),
            None => None,
        },
    decreases s1.len(),
{
    if s1.len() == 0 {
        assert(s1 + s2 =~= s2);
    } else {
        assert((s1 + s2)[0] == s1[0]);
        assert((s1 + s2).drop_first() =~= s1.drop_first() + s2);
        match s1[0] {
            Seg::Key(kb) => match j {
                Json::Object(ms) => {
                    let i = find_key_bytes(ms, kb, 0);
                    if 0 <= i < ms.len() {
                        lemma_follow_concat(ms[i].1, s1.drop_first(), s2);
                    }
                },
                _ => {},
            },
            Seg::Index(n) => match j {
                Json::Array(items) => if n < items.len() {
                    lemma_follow_concat(items[n as int], s1.drop_first(), s2);
                },
                _ => {},
            },
        }
    }
}

/// The decimal digits of `n`, as bytes.
pub open spec fn decimal_bytes(n: nat) -> Seq<u8>
    decreases n,
{
    if n < 10 {
        seq![(0x30 + n) as u8]
    } else {
        decimal_bytes(n / 10).push((0x30 + n % 10) as u8)
    }
}

/// Every `[` in the last `.`-separated part of `p` is closed by a `]`
/// after it: the part ends in a key or an index.
pub open spec fn last_part_closed(p: Seq<u8>) -> bool {
    forall|i: int|
        #![trigger p[i]]
        0 <= i < p.len() && p[i] == 0x5b && (forall|k: int| i < k < p.len() ==> #[trigger] p[k] != 0x2e)
            ==> exists|k: int| i < k < p.len() && #[trigger] p[k] == 0x5d
}

proof fn lemma_decimal_bytes(n: nat)
    ensures
        decimal_bytes(n).len() >= 1,
        forall|i: int| 0 <= i < decimal_bytes(n).len() ==> is_digit(#[trigger] decimal_bytes(n)[i]),
        digits_value(decimal_bytes(n), 0, decimal_bytes(n).len() as int) == n,
    decreases n,
{
    let t = decimal_bytes(n);
    if n < 10 {
        assert(digits_value(t, 0, 0) == 0);
    } else {
        let h = decimal_bytes(n / 10);
        lemma_decimal_bytes(n / 10);
        assert(t == h.push((0x30 + n % 10) as u8));
        assert forall|i: int| 0 <= i < t.len() implies is_digit(#[trigger] t[i]) by {
            if i < h.len() {
                assert(t[i] == h[i]);
            }
        }
        assert(same_window(t, h, 0, 0, h.len() as int));
        lemma_digits_value_shift(t, h, 0, 0, h.len() as int);
        assert((n / 10) * 10 + n % 10 == n);
    }
}

/// The first `c` from `a` on, where `c` stands first at `e - 1`.
proof fn lemma_find_byte_last(q: Seq<u8>, a: int, e: int, c: u8)
    requires
        0 <= a < e <= q.len(),
        q[e - 1] == c,
        forall|k: int| a <= k < e - 1 ==> #[trigger] q[k] != c,
    ensures
        find_byte(q, a, e, c) == e - 1,
    decreases e - a,
{
    if a < e - 1 {
        lemma_find_byte_last(q, a + 1, e, c);
    }
}

/// The segments of a part `p[s..]`, closed in every `[`, followed by
/// `[n]`: those of the part, then the index `n`.
proof fn lemma_part_index_suffix(p: Seq<u8>, n: nat, s: int)
    requires
        0 <= s <= p.len(),
        n <= usize::MAX,
        forall|i: int|
            #![trigger p[i]]
            s <= i < p.len() && p[i] == 0x5b ==> exists|k: int| i < k < p.len() && #[trigger] p[k] == 0x5d,
    ensures
        part_segments(p + seq![0x5bu8] + decimal_bytes(n) + seq![0x5du8], s, (p.len() + decimal_bytes(n).len() + 2) as int)
            == part_segments(p, s, p.len() as int).push(Seg::Index(n)),
    decreases p.len() - s,
{
    let d = decimal_bytes(n);
    let q = p + seq![0x5bu8] + d + seq![0x5du8];
    let m = p.len() as int;
    let ql = q.len() as int;
    assert(ql == m + d.len() + 2);
    lemma_decimal_bytes(n);
    assert forall|i: int| 0 <= i < m implies #[trigger] q[i] == p[i] by {}
    assert(q[m] == 0x5b);
    assert(q[ql - 1] == 0x5d);
    assert forall|i: int| m + 1 <= i < ql - 1 implies #[trigger] q[i] == d[i - (m + 1)] by {}
    lemma_find_byte_prefix(q, p, s, ql, 0x5b);
    lemma_find_byte(p, s, m, 0x5b);
    let bs = find_byte(p, s, m, 0x5b);
    if bs == -1 {
        assert(find_byte(q, m, ql, 0x5b) == m);
        if s < m {
            assert(q.subrange(s, m) =~= p.subrange(s, m));
        }
        assert forall|k: int| m <= k < ql - 1 implies #[trigger] q[k] != 0x5d by {
            if k > m {
                assert(is_digit(d[k - (m + 1)]));
            }
        }
        lemma_find_byte_last(q, m, ql, 0x5d);
        assert(same_window(q, d, m + 1, m + 1, ql - 1));
        lemma_parse_index_shift(q, d, m + 1, m + 1, ql - 1);
        assert(d[0] != 0x2b) by {
            assert(is_digit(d[0]));
        }
        assert(parse_index(d, 0, d.len() as int) == Some(n));
        assert(part_segments(q, ql, ql) =~= Seq::<Seg>::empty());
        let pre: Seq<Seg> = if s < m {
            seq![Seg::Key(p.subrange(s, m))]
        } else {
            Seq::empty()
        };
        assert(part_segments(p, s, m) == pre);
        assert(part_segments(q, s, ql) == pre + seq![Seg::Index(n)] + Seq::<Seg>::empty());
        assert(pre + seq![Seg::Index(n)] + Seq::<Seg>::empty() =~= pre.push(Seg::Index(n)));
    } else {
        assert(p[bs] == 0x5b);
        let k0 = choose|k: int| bs < k < m && #[trigger] p[k] == 0x5d;
        lemma_find_byte(p, bs, m, 0x5d);
        lemma_find_byte_prefix(q, p, bs, ql, 0x5d);
        let be = find_byte(p, bs, m, 0x5d);
        assert(be != -1) by {
            if be == -1 {
                assert(p[k0] != 0x5d);
            }
        }
        assert(be > bs);
        if s < bs {
            assert(q.subrange(s, bs) =~= p.subrange(s, bs));
        }
        assert(same_window(q, p, 0, bs + 1, be));
        lemma_parse_index_shift(q, p, 0, bs + 1, be);
        lemma_part_index_suffix(p, n, be + 1);
        let pre: Seq<Seg> = if s < bs {
            seq![Seg::Key(p.subrange(s, bs))]
        } else {
            Seq::empty()
        };
        let mid: Seq<Seg> = match parse_index(p, bs + 1, be) {
            Some(i) => seq![Seg::Index(i)],
            None => Seq::empty(),
        };
        assert(part_segments(p, s, m) == pre + mid + part_segments(p, be + 1, m));
        assert(part_segments(q, s, ql) == pre + mid + part_segments(q, be + 1, ql));
        assert(pre + mid + part_segments(p, be + 1, m).push(Seg::Index(n)) =~= (pre + mid + part_segments(
            p,
            be + 1,
            m,
        )).push(Seg::Index(n)));
    }
}

/// The segments of a path from `s` whose last part is closed, followed by
/// `[n]`: those of the path, then the index `n`.
proof fn lemma_path_index_suffix(p: Seq<u8>, n: nat, s: int)
    requires
        0 <= s <= p.len(),
        n <= usize::MAX,
        forall|i: int|
            #![trigger p[i]]
            s <= i < p.len() && p[i] == 0x5b && (forall|k: int| i < k < p.len() ==> #[trigger] p[k] != 0x2e)
                ==> exists|k: int| i < k < p.len() && #[trigger] p[k] == 0x5d,
    ensures
        path_segments(p + seq![0x5bu8] + decimal_bytes(n) + seq![0x5du8], s) == path_segments(p, s).push(
            Seg::Index(n),
        ),
    decreases p.len() - s,
{
    let d = decimal_bytes(n);
    let q = p + seq![0x5bu8] + d + seq![0x5du8];
    let m = p.len() as int;
    let ql = q.len() as int;
    lemma_decimal_bytes(n);
    assert forall|i: int| 0 <= i < m implies #[trigger] q[i] == p[i] by {}
    lemma_find_byte_prefix(q, p, s, ql, 0x2e);
    lemma_find_byte(p, s, m, 0x2e);
    let dot = find_byte(p, s, m, 0x2e);
    if dot != -1 {
        assert(same_window(q, p, 0, s, dot));
        lemma_part_segments_shift(q, p, 0, s, dot);
        lemma_path_index_suffix(p, n, dot + 1);
        assert(path_segments(q, s) == part_segments(q, s, dot) + path_segments(q, dot + 1));
        assert(part_segments(p, s, dot) + path_segments(p, dot + 1).push(Seg::Index(n)) =~= (part_segments(
            p,
            s,
            dot,
        ) + path_segments(p, dot + 1)).push(Seg::Index(n)));
    } else {
        lemma_find_byte(q, m, ql, 0x2e);
        assert(find_byte(q, m, ql, 0x2e) == -1) by {
            let f = find_byte(q, m, ql, 0x2e);
            if f != -1 {
                if m < f < ql - 1 {
                    assert(q[f] == d[f - (m + 1)]);
                    assert(is_digit(d[f - (m + 1)]));
                }
            }
        }
        assert forall|i: int|
            #![trigger p[i]]
            s <= i < m && p[i] == 0x5b implies exists|k: int| i < k < m && #[trigger] p[k] == 0x5d by {
            assert forall|k: int| i < k < m implies #[trigger] p[k] != 0x2e by {}
        }
        lemma_part_index_suffix(p, n, s);
    }
}

/// An index suffix `[n]` on the last part of a path is applied after the
/// rest of the path: following `p[n]`, where `p`'s last part ends in a key
/// or an index, is following `p`, then taking the `n`-th element of the
/// array it reaches (nothing, where it reaches no array that long).
pub proof fn index_suffix_applies_last(j: Json, p: Seq<u8>, n: nat)
    requires
        n <= usize::MAX,
        last_part_closed(p),
    ensures
        follow(j, path_segments(p + seq![0x5bu8] + decimal_bytes(n) + seq![0x5du8], 0)) == match follow(
            j,
            path_segments(p, 0),
        ) {
            Some(Json::Array(items)) => if n < items.len() {
                Some(items[n as int])
            } else {
                None
            },
            _ => None,
        },
{
    lemma_path_index_suffix(p, n, 0);
    let segs = path_segments(p, 0);
    lemma_follow_concat(j, segs, seq![Seg::Index(n)]);
    assert(segs + seq![Seg::Index(n)] =~= segs.push(Seg::Index(n)));
    match follow(j, segs) {
        Some(u) => {
            let one = seq![Seg::Index(n)];
            assert(one.drop_first() =~= Seq::<Seg>::empty());
            assert(one[0] == Seg::Index(n));
            match u {
                Json::Array(items) => {
                    if n < items.len() {
                        assert(follow(items[n as int], Seq::<Seg>::empty()) == Some(items[n as int]));
                    }
                },
                _ => {},
            }
        },
        None => {},
    }
}

/// A dotted path is resolved one `.`-separated part at a time, left to
/// right: following the path `p.q` (as bytes) is following `p`, then `q`
/// from what it reaches.
pub proof fn dotted_path_resolves_part_by_part(j: Json, p: Seq<u8>, q: Seq<u8>)
    ensures
        follow(j, path_segments(p + seq![0x2eu8] + q, 0)) == match follow(j, path_segments(p, 0)) {
            Some(u) => follow(u, path_segments(q, 0)),
            None => None,
        },
{
    lemma_path_segments_join(p, q, 0);
    lemma_follow_concat(j, path_segments(p, 0), path_segments(q, 0));
}

enum PathSegment {
    Key(usize, usize),
    Index(usize),
}

spec fn seg_model(s: PathSegment, p: Seq<u8>) -> Seg {
    match s {
        PathSegment::Key(a, b) => Seg::Key(p.subrange(a as int, b as int)),
        PathSegment::Index(i) => Seg::Index(i as nat),
    }
}

spec fn seg_models(s: Seq<PathSegment>, p: Seq<u8>) -> Seq<Seg> {
    s.map_values(|x: PathSegment| seg_model(x, p))
}

spec fn segs_wf(s: Seq<PathSegment>, len: nat) -> bool {
    forall|i: int| 0 <= i < s.len() ==> (#[trigger] s[i] matches PathSegment::Key(a, b) ==> a <= b <= len)
}

fn find_byte_exec(p: &[u8], s: usize, e: usize, c: u8) -> (r: Option<usize>)
    requires
        s <= e <= p@.len(),
    ensures
        match r {
            Some(i) => i == find_byte(p@, s as int, e as int, c),
            None => find_byte(p@, s as int, e as int, c) == -1,
        },
{
    let mut i = s;
    while i < e
        invariant
            s <= i <= e <= p@.len(),
            find_byte(p@, i as int, e as int, c) == find_byte(p@, s as int, e as int, c),
        decreases e - i,
    {
        if p[i] == c {
            return Some(i);
        }
        i = i + 1;
    }
    None
}

fn parse_index_exec(p: &[u8], s: usize, e: usize) -> (r: Option<usize>)
    requires
        s <= e <= p@.len(),
    ensures
        match parse_index(p@, s as int, e as int) {
            Some(v) => r == Some(v as usize),
            None => r is None,
        },
{
    let ds = if s < e && p[s] == 0x2b {
        s + 1
    } else {
        s
    };
    if ds >= e {
        return None;
    }
    let mut i = ds;
    while i < e
        invariant
            ds <= i <= e <= p@.len(),
            s <= e,
            ds == (if s < e && p@[s as int] == 0x2b {
                s + 1
            } else {
                s as int
            }),
            forall|j: int| ds <= j < i ==> is_digit(#[trigger] p@[j]),
        decreases e - i,
    {
        if !is_digit_byte(p[i]) {
            assert(!is_digit(p@[i as int]));
            return None;
        }
        i = i + 1;
    }
    match digits_u64(p, ds, e) {
        Some(v) => {
            if v as u128 <= usize::MAX as u128 {
                Some(v as usize)
            } else {
                None
            }
        },
        None => None,
    }
}

fn part_segments_exec(p: &[u8], s: usize, e: usize, out: &mut Vec<PathSegment>)
    requires
        s <= e <= p@.len(),
        segs_wf(old(out)@, p@.len()),
    ensures
        seg_models(final(out)@, p@) == seg_models(old(out)@, p@) + part_segments(p@, s as int, e as int),
        segs_wf(final(out)@, p@.len()),
    decreases e - s,
{
    let ghost o = seg_models(out@, p@);
    proof {
        lemma_find_byte(p@, s as int, e as int, 0x5b);
    }
    match find_byte_exec(p, s, e, 0x5b) {
        None => {
            if s < e {
                out.push(PathSegment::Key(s, e));
                assert(seg_models(out@, p@) =~= o + seq![Seg::Key(p@.subrange(s as int, e as int))]);
            } else {
                assert(seg_models(out@, p@) =~= o + Seq::<Seg>::empty());
            }
        },
        Some(bs) => {
            if s < bs {
                out.push(PathSegment::Key(s, bs));
            }
            let ghost pre: Seq<Seg> = if s < bs {
                seq![Seg::Key(p@.subrange(s as int, bs as int))]
            } else {
                Seq::empty()
            };
            assert(seg_models(out@, p@) =~= o + pre);
            proof {
                lemma_find_byte(p@, bs as int, e as int, 0x5d);
            }
            match find_byte_exec(p, bs, e, 0x5d) {
                None => {},
                Some(be) => {
                    if be == bs {
                        assert(p@[be as int] == 0x5b);
                        assert(false);
                    }
                    let ghost before = seg_models(out@, p@);
                    let idx = parse_index_exec(p, bs + 1, be);
                    let ghost mid: Seq<Seg> = match parse_index(p@, bs + 1, be as int) {
                        Some(i) => seq![Seg::Index(i)],
                        None => Seq::empty(),
                    };
                    match idx {
                        Some(i) => {
                            out.push(PathSegment::Index(i));
                        },
                        None => {},
                    }
                    assert(seg_models(out@, p@) =~= before + mid);
                    part_segments_exec(p, be + 1, e, out);
                    assert(seg_models(out@, p@) =~= o + (pre + mid + part_segments(p@, be + 1, e as int)));
                },
            }
        },
    }
}

fn parse_path_segments(p: &[u8]) -> (segs: Vec<PathSegment>)
    ensures
        seg_models(segs@, p@) == path_segments(p@, 0),
        segs_wf(segs@, p@.len()),
{
    let mut out: Vec<PathSegment> = Vec::new();
    let len = p.len();
    let mut s: usize = 0;
    assert(seg_models(out@, p@) =~= Seq::<Seg>::empty());
    loop
        invariant
            s <= len,
            len == p@.len(),
            seg_models(out@, p@) + path_segments(p@, s as int) == path_segments(p@, 0),
            segs_wf(out@, p@.len()),
        decreases len - s,
    {
        let ghost before = seg_models(out@, p@);
        proof {
            lemma_find_byte(p@, s as int, len as int, 0x2e);
        }
        match find_byte_exec(p, s, len, 0x2e) {
            None => {
                part_segments_exec(p, s, len, &mut out);
                assert(seg_models(out@, p@) =~= path_segments(p@, 0));
                return out;
            },
            Some(d) => {
                part_segments_exec(p, s, d, &mut out);
                assert(seg_models(out@, p@) + path_segments(p@, d + 1) =~= before + path_segments(p@, s as int));
                s = d + 1;
            },
        }
    }
}

fn bytes_equal(a: &[u8], b: &[u8], s: usize, e: usize) -> (r: bool)
    requires
        s <= e <= b@.len(),
    ensures
        r == (a@ == b@.subrange(s as int, e as int)),
{
    if a.len() != e - s {
        return false;
    }
    let mut i: usize = 0;
    while i < a.len()
        invariant
            0 <= i <= a@.len(),
            a@.len() == e - s,
            s <= e <= b@.len(),
            forall|j: int| 0 <= j < i ==> a@[j] == b@[s + j],
        decreases a@.len() - i,
    {
        if a[i] != b[s + i] {
            assert(a@[i as int] != b@.subrange(s as int, e as int)[i as int]);
            return false;
        }
        i = i + 1;
    }
    assert(a@ =~= b@.subrange(s as int, e as int));
    true
}

fn find_member(members: &Vec<(String, JsonValue)>, p: &[u8], a: usize, b: usize) -> (r: Option<usize>)
    requires
        a <= b <= p@.len(),
    ensures
        match r {
            Some(i) => i < members@.len() && i == find_key_bytes(member_models(members@), p@.subrange(a as int, b as int), 0),
            None => find_key_bytes(member_models(members@), p@.subrange(a as int, b as int), 0) == -1,
        },
{
    let ghost mm = member_models(members@);
    let ghost kb = p@.subrange(a as int, b as int);
    proof {
        lemma_member_models_index(members@);
    }
    let mut i: usize = 0;
    while i < members.len()
        invariant
            0 <= i <= members@.len(),
            mm == member_models(members@),
            mm.len() == members@.len(),
            forall|j: int| 0 <= j < members@.len() ==> #[trigger] mm[j] == (members@[j].0@, members@[j].1.model()),
            a <= b <= p@.len(),
            kb == p@.subrange(a as int, b as int),
            find_key_bytes(mm, kb, i as int) == find_key_bytes(mm, kb, 0),
        decreases members@.len() - i,
    {
        let kbytes = members[i].0.as_str().as_bytes();
        if bytes_equal(kbytes, p, a, b) {
            assert(encode_utf8(mm[i as int].0) == kb);
            return Some(i);
        }
        i = i + 1;
    }
    None
}

/// Pulls one field out of `value` by a small path language: `.` separates
/// object keys (`stats.damage`), `[N]` indexes into an array (`bonuses[0]`),
/// the two compose (`items[2].name`), and an empty path gives the whole
/// value. A missing key, an out-of-bounds index, or a step into a value of
/// the wrong kind gives `None`.
pub fn extract_path<'a>(value: &'a JsonValue, path: &str) -> (r: Option<&'a JsonValue>)
    ensures
        match follow(value.model(), path_segments(path.spec_bytes(), 0)) {
            Some(j) => r matches Some(x) && x.model() == j,
            None => r is None,
        },
{
    let p = path.as_bytes();
    if p.len() == 0 {
        assert(path_segments(p@, 0) =~= part_segments(p@, 0, 0));
        return Some(value);
    }
    let segs = parse_path_segments(p);
    let ghost all = seg_models(segs@, p@);
    assert(all.subrange(0, all.len() as int) =~= all);
    let mut current: &'a JsonValue = value;
    let mut k: usize = 0;
    while k < segs.len()
        invariant
            0 <= k <= segs@.len(),
            all == seg_models(segs@, p@),
            all.len() == segs@.len(),
            segs_wf(segs@, p@.len()),
            all == path_segments(path.spec_bytes(), 0),
            follow(current.model(), all.subrange(k as int, all.len() as int)) == follow(value.model(), all),
        decreases segs@.len() - k,
    {
        let ghost rest = all.subrange(k as int, all.len() as int);
        assert(rest.drop_first() =~= all.subrange(k + 1, all.len() as int));
        match &segs[k] {
            PathSegment::Key(a, b) => {
                match current {
                    JsonValue::Object(members) => {
                        let found = find_member(members, p, *a, *b);
                        match found {
                            Some(i) => {
                                proof {
                                    lemma_member_models_index(members@);
                                    assert(all[k as int] == seg_model(segs@[k as int], p@));
                                }
                                current = &members[i].1;
                            },
                            None => {
                                return None;
                            },
                        }
                    },
                    _ => {
                        return None;
                    },
                }
            },
            PathSegment::Index(n) => {
                match current {
                    JsonValue::Array(items) => {
                        proof {
                            lemma_models_index(items@);
                        }
                        if *n < items.len() {
                            assert(all[k as int] == seg_model(segs@[k as int], p@));
                            current = &items[*n];
                        } else {
                            return None;
                        }
                    },
                    _ => {
                        return None;
                    },
                }
            },
        }
        k = k + 1;
    }
    Some(current)
}

/// The message a parse error is reported with.
pub open spec fn error_text(e: RustJsonError) -> Seq<char> {
    match e {
        RustJsonError::UnexpectedEof(p) => "unexpected end of input at byte "@ + nat_chars(p as nat),
        RustJsonError::UnexpectedChar(p, c) => "unexpected character '"@ + seq![c] + "' at byte "@ + nat_chars(
            p as nat,
        ),
        RustJsonError::InvalidNumber(p) => "invalid number literal at byte "@ + nat_chars(p as nat),
        RustJsonError::InvalidEscape(p) => "invalid escape sequence at byte "@ + nat_chars(p as nat),
        RustJsonError::UnterminatedString(p) => "unterminated string starting at byte "@ + nat_chars(p as nat),
        RustJsonError::UnterminatedComment(p) => "unterminated comment starting at byte "@ + nat_chars(p as nat),
        RustJsonError::TrailingData(p) => "trailing data after the top-level value, starting at byte "@ + nat_chars(
            p as nat,
        ),
    }
}

impl RustJsonError {
    /// The error's message, with the byte offset (and, for an unexpected
    /// character, the character).
    pub fn message(&self) -> (r: String)
        ensures
            r@ == error_text(*self),
    {
        let (mut s, p) = match *self {
            RustJsonError::UnexpectedEof(p) => ("unexpected end of input at byte ".to_owned(), p),
            RustJsonError::UnexpectedChar(p, c) => {
                let mut s = "unexpected character '".to_owned();
                string_push(&mut s, c);
                s.append("' at byte ");
                (s, p)
            },
            RustJsonError::InvalidNumber(p) => ("invalid number literal at byte ".to_owned(), p),
            RustJsonError::InvalidEscape(p) => ("invalid escape sequence at byte ".to_owned(), p),
            RustJsonError::UnterminatedString(p) => ("unterminated string starting at byte ".to_owned(), p),
            RustJsonError::UnterminatedComment(p) => ("unterminated comment starting at byte ".to_owned(), p),
            RustJsonError::TrailingData(p) => (
                "trailing data after the top-level value, starting at byte ".to_owned(),
                p,
            ),
        };
        write_nat(p as u64, &mut s);
        s
    }
}

} // verus!
