//! Objects as parsing builds them: their members come in strictly
//! increasing order of their keys (the order of `String`'s `Ord`), so no
//! key repeats, at every depth.
use vstd::prelude::*;
use crate::rustjson::{Json, key_lt, key_lt_from, insert_pos, obj_insert, find_key, skip_trivia,
    spec_value, spec_elements, spec_members, spec_key, spec_parse, lemma_skip_trivia};
use crate::json_law::sorted_member_keys;
use vstd::utf8::char_u32_cast;

verus! {

/// Every object in `j` has its members in strictly increasing key order.
pub open spec fn ordered(j: Json) -> bool
    decreases j, 1nat,
{
    match j {
        Json::Array(items) => all_ordered(items),
        Json::Object(ms) => sorted_member_keys(ms) && all_ordered_members(ms),
        _ => true,
    }
}

pub open spec fn all_ordered(items: Seq<Json>) -> bool
    decreases items, 0nat,
{
    if items.len() == 0 {
        true
    } else {
        all_ordered(items.drop_last()) && ordered(items.last())
    }
}

pub open spec fn all_ordered_members(ms: Seq<(Seq<char>, Json)>) -> bool
    decreases ms, 0nat,
{
    if ms.len() == 0 {
        true
    } else {
        all_ordered_members(ms.drop_last()) && ordered(ms.last().1)
    }
}

// ---------------------------------------------------------------------------
// The order of keys
// ---------------------------------------------------------------------------

/// Two different keys are ordered one way or the other.
proof fn lemma_key_lt_total(a: Seq<char>, b: Seq<char>, i: int)
    requires
        0 <= i <= a.len(),
        i <= b.len(),
        a.subrange(0, i) == b.subrange(0, i),
        a != b,
    ensures
        key_lt_from(a, b, i) || key_lt_from(b, a, i),
    decreases a.len() - i,
{
    if i < a.len() && i < b.len() && a[i] == b[i] {
        assert(a.subrange(0, i + 1) =~= a.subrange(0, i).push(a[i]));
        assert(b.subrange(0, i + 1) =~= b.subrange(0, i).push(b[i]));
        lemma_key_lt_total(a, b, i + 1);
    } else if i >= a.len() && i >= b.len() {
        assert(a =~= a.subrange(0, i));
        assert(b =~= b.subrange(0, i));
    } else if i < a.len() && i < b.len() {
        char_u32_cast(a[i], a[i] as u32);
        char_u32_cast(b[i], b[i] as u32);
    }
}

/// The order of keys is transitive.
proof fn lemma_key_lt_transitive(a: Seq<char>, b: Seq<char>, c: Seq<char>, i: int)
    requires
        0 <= i,
        key_lt_from(a, b, i),
        key_lt_from(b, c, i),
    ensures
        key_lt_from(a, c, i),
    decreases c.len() - i,
{
    if i < a.len() && a[i] == b[i] && b[i] == c[i] {
        lemma_key_lt_transitive(a, b, c, i + 1);
    }
}

proof fn lemma_insert_pos(m: Seq<(Seq<char>, Json)>, k: Seq<char>, i: int)
    requires
        0 <= i <= m.len(),
    ensures
        i <= insert_pos(m, k, i) <= m.len(),
        forall|j: int| i <= j < insert_pos(m, k, i) ==> !key_lt(k, #[trigger] m[j].0),
        insert_pos(m, k, i) < m.len() ==> key_lt(k, m[insert_pos(m, k, i)].0),
    decreases m.len() - i,
{
    if i < m.len() && !key_lt(k, m[i].0) {
        lemma_insert_pos(m, k, i + 1);
    }
}

proof fn lemma_find_key(m: Seq<(Seq<char>, Json)>, k: Seq<char>, i: int)
    requires
        0 <= i,
    ensures
        find_key(m, k, i) == -1 ==> forall|j: int| i <= j < m.len() ==> #[trigger] m[j].0 != k,
        find_key(m, k, i) != -1 ==> i <= find_key(m, k, i) < m.len() && m[find_key(m, k, i)].0 == k,
    decreases m.len() - i,
{
    if i < m.len() && m[i].0 != k {
        lemma_find_key(m, k, i + 1);
    }
}

proof fn lemma_all_ordered_members(ms: Seq<(Seq<char>, Json)>)
    ensures
        all_ordered_members(ms) <==> forall|k: int| 0 <= k < ms.len() ==> #[trigger] ordered(ms[k].1),
    decreases ms.len(),
{
    if ms.len() > 0 {
        lemma_all_ordered_members(ms.drop_last());
        if forall|k: int| 0 <= k < ms.len() ==> #[trigger] ordered(ms[k].1) {
            assert forall|k: int| 0 <= k < ms.drop_last().len() implies #[trigger] ordered(
                ms.drop_last()[k].1,
            ) by {
                assert(ms.drop_last()[k] == ms[k]);
            }
            assert(ordered(ms[ms.len() - 1].1));
        }
        if all_ordered_members(ms) {
            assert forall|k: int| 0 <= k < ms.len() implies #[trigger] ordered(ms[k].1) by {
                if k < ms.len() - 1 {
                    assert(ms.drop_last()[k] == ms[k]);
                }
            }
        }
    }
}

/// Inserting a member keeps the keys in order and the values ordered.
proof fn lemma_obj_insert_ordered(m: Seq<(Seq<char>, Json)>, k: Seq<char>, v: Json)
    requires
        sorted_member_keys(m),
        all_ordered_members(m),
        ordered(v),
    ensures
        sorted_member_keys(obj_insert(m, k, v)),
        all_ordered_members(obj_insert(m, k, v)),
{
    let r = obj_insert(m, k, v);
    lemma_find_key(m, k, 0);
    lemma_all_ordered_members(m);
    let f = find_key(m, k, 0);
    if f != -1 {
        assert forall|i: int, j: int| 0 <= i < j < r.len() implies key_lt(#[trigger] r[i].0, #[trigger] r[j].0) by {
            assert(r[i].0 == m[i].0 && r[j].0 == m[j].0);
            assert(key_lt(m[i].0, m[j].0));
        }
    } else {
        lemma_insert_pos(m, k, 0);
        let pos = insert_pos(m, k, 0);
        assert forall|j: int| 0 <= j < pos implies key_lt(#[trigger] m[j].0, k) by {
            assert(m[j].0.subrange(0, 0) =~= k.subrange(0, 0));
            lemma_key_lt_total(m[j].0, k, 0);
        }
        assert forall|j: int| pos <= j < m.len() implies key_lt(k, #[trigger] m[j].0) by {
            if j > pos {
                assert(key_lt(m[pos].0, m[j].0));
                lemma_key_lt_transitive(k, m[pos].0, m[j].0, 0);
            }
        }
        assert forall|i: int, j: int| 0 <= i < j < r.len() implies key_lt(#[trigger] r[i].0, #[trigger] r[j].0) by {
            if j < pos {
                assert(key_lt(m[i].0, m[j].0));
            } else if j == pos {
                assert(r[i] == m[i]);
            } else if i < pos {
                assert(r[j] == m[j - 1]);
                lemma_key_lt_transitive(m[i].0, k, m[j - 1].0, 0);
            } else if i == pos {
                assert(r[j] == m[j - 1]);
            } else {
                assert(key_lt(m[i - 1].0, m[j - 1].0));
            }
        }
    }
    assert forall|i: int| 0 <= i < r.len() implies #[trigger] ordered(r[i].1) by {
        if f == -1 {
            let pos = insert_pos(m, k, 0);
            if i > pos {
                assert(r[i] == m[i - 1]);
            }
        }
    }
    lemma_all_ordered_members(r);
}

// ---------------------------------------------------------------------------
// Parsing
// ---------------------------------------------------------------------------

proof fn lemma_value_ordered(b: Seq<u8>, p: int)
    requires
        0 <= p,
    ensures
        spec_value(b, p) matches Ok((j, q)) ==> ordered(j),
    decreases b.len() - p, 0nat,
{
    if let Ok(q0) = skip_trivia(b, p) {
        if p <= q0 < b.len() {
            let c = b[q0];
            if c == 0x7b {
                lemma_members_ordered(b, q0 + 1, Seq::empty());
            } else if c == 0x5b {
                lemma_elements_ordered(b, q0 + 1, Seq::empty());
            }
        }
    }
}

proof fn lemma_elements_ordered(b: Seq<u8>, p: int, acc: Seq<Json>)
    requires
        0 <= p,
        all_ordered(acc),
    ensures
        spec_elements(b, p, acc) matches Ok((j, q)) ==> ordered(j),
    decreases b.len() - p, 1nat,
{
    if let Ok(p1) = skip_trivia(b, p) {
        if p <= p1 <= b.len() && p1 < b.len() && b[p1] != 0x5d {
            lemma_value_ordered(b, p1);
            if let Ok((v, p2)) = spec_value(b, p1) {
                let acc2 = acc.push(v);
                assert(acc2.drop_last() =~= acc);
                if let Ok(p3) = skip_trivia(b, p2) {
                    if p2 <= p3 < b.len() && b[p3] == 0x2c {
                        if let Ok(p4) = skip_trivia(b, p3 + 1) {
                            if p3 + 1 <= p4 <= b.len() && p1 < p2 {
                                lemma_elements_ordered(b, p4, acc2);
                            }
                        }
                    }
                }
            }
        }
    }
}

proof fn lemma_members_ordered(b: Seq<u8>, p: int, acc: Seq<(Seq<char>, Json)>)
    requires
        0 <= p,
        sorted_member_keys(acc),
        all_ordered_members(acc),
    ensures
        spec_members(b, p, acc) matches Ok((j, q)) ==> ordered(j),
    decreases b.len() - p, 1nat,
{
    if let Ok(p1) = skip_trivia(b, p) {
        if p <= p1 < b.len() && b[p1] != 0x7d {
            if let Ok((k, p2)) = spec_key(b, p1) {
                if let Ok(p3) = skip_trivia(b, p2) {
                    if p1 <= p3 < b.len() && b[p3] == 0x3a {
                        lemma_value_ordered(b, p3 + 1);
                        if let Ok((v, p4)) = spec_value(b, p3 + 1) {
                            lemma_obj_insert_ordered(acc, k, v);
                            let acc2 = obj_insert(acc, k, v);
                            if let Ok(p5) = skip_trivia(b, p4) {
                                if p4 <= p5 < b.len() && b[p5] == 0x2c && p3 < p4 {
                                    if let Ok(p6) = skip_trivia(b, p5 + 1) {
                                        if p5 + 1 <= p6 <= b.len() {
                                            lemma_members_ordered(b, p6, acc2);
                                        }
                                    }
                                }
                            }
                        }
                    }
                }
            }
        }
    }
}

/// Every object that parsing gives has its members in strictly increasing
/// order of their keys, at every depth: a repeated key leaves one member,
/// and the members come out in the order `serde_json`'s map keeps.
pub proof fn parsed_objects_keep_their_keys_in_order(b: Seq<u8>)
    ensures
        spec_parse(b) matches Ok(j) ==> ordered(j),
{
    if let Ok(p) = skip_trivia(b, 0) {
        lemma_skip_trivia(b, 0);
        if 0 <= p {
            lemma_value_ordered(b, p);
        }
    }
}

} // verus!
