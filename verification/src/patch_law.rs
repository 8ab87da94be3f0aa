//! What patches do to a page, and the law that applying the patches of a
//! reconciliation to the page of the old tree gives the page of the new one.
use vstd::prelude::*;
use crate::vdom::{Node, Elem, PatchM};
use crate::diff::{
    last_value, names, set_attr_patches, remove_attr_patches, attr_patches, key_of, all_have_keys,
    uses_keys, find_key, dropped, kept_from, removals_from, then_prepend, keyed_patches, min_len,
    aligned_patches, tail_removals, appends, children_patches, node_patches, reconcile,
};

verus! {

// ---------------------------------------------------------------------------
// The page
// ---------------------------------------------------------------------------

/// A node of the page as the browser holds it: attributes by name, and no
/// keys (keys only guide reconciliation).
pub enum Dom {
    Text(Seq<char>),
    Element(DomElem),
}

pub struct DomElem {
    pub tag: Seq<char>,
    pub attrs: Map<Seq<char>, Seq<char>>,
    pub children: Seq<Dom>,
}

/// The attributes an element ends up with when they are set in order: a
/// later value for a name replaces an earlier one.
pub open spec fn attr_map(a: Seq<(Seq<char>, Seq<char>)>) -> Map<Seq<char>, Seq<char>>
    decreases a.len(),
{
    if a.len() == 0 {
        Map::empty()
    } else {
        attr_map(a.drop_last()).insert(a.last().0, a.last().1)
    }
}

/// The page a virtual node is mounted as.
pub open spec fn dom_of(n: Node) -> Dom
    decreases n, 1nat,
{
    match n {
        Node::Text(t) => Dom::Text(t),
        Node::Element(e) => Dom::Element(
            DomElem { tag: e.tag, attrs: attr_map(e.attrs), children: doms_of(e.children) },
        ),
    }
}

pub open spec fn doms_of(s: Seq<Node>) -> Seq<Dom>
    decreases s, 0nat,
{
    if s.len() == 0 {
        Seq::empty()
    } else {
        doms_of(s.drop_last()).push(dom_of(s.last()))
    }
}

// ---------------------------------------------------------------------------
// Applying patches
// ---------------------------------------------------------------------------

pub open spec fn patch_path(p: PatchM) -> Seq<usize> {
    match p {
        PatchM::Replace { path, .. } => path,
        PatchM::SetText { path, .. } => path,
        PatchM::SetAttr { path, .. } => path,
        PatchM::RemoveAttr { path, .. } => path,
        PatchM::Append { path, .. } => path,
        PatchM::RemoveChild { path, .. } => path,
        PatchM::MoveChild { path, .. } => path,
    }
}

/// A patch applied to the node it addresses. A patch that does not fit the
/// node (an attribute change on a text, an index past the children) leaves
/// it as it is.
pub open spec fn op_here(d: Dom, p: PatchM) -> Dom {
    match p {
        PatchM::Replace { node, .. } => dom_of(node),
        PatchM::SetText { text, .. } => match d {
            Dom::Text(_) => Dom::Text(text),
            _ => d,
        },
        PatchM::SetAttr { name, value, .. } => match d {
            Dom::Element(e) => Dom::Element(DomElem { attrs: e.attrs.insert(name, value), ..e }),
            _ => d,
        },
        PatchM::RemoveAttr { name, .. } => match d {
            Dom::Element(e) => Dom::Element(DomElem { attrs: e.attrs.remove(name), ..e }),
            _ => d,
        },
        PatchM::Append { node, .. } => match d {
            Dom::Element(e) => Dom::Element(DomElem { children: e.children.push(dom_of(node)), ..e }),
            _ => d,
        },
        PatchM::RemoveChild { index, .. } => match d {
            Dom::Element(e) => if index < e.children.len() {
                Dom::Element(DomElem { children: e.children.remove(index as int), ..e })
            } else {
                d
            },
            _ => d,
        },
        PatchM::MoveChild { from, to, .. } => match d {
            Dom::Element(e) => if from < e.children.len() && to < e.children.len() {
                Dom::Element(
                    DomElem {
                        children: e.children.remove(from as int).insert(to as int, e.children[from as int]),
                        ..e
                    },
                )
            } else {
                d
            },
            _ => d,
        },
    }
}

/// A patch applied to `d`, the node at path `base`: the patch goes down its
/// path to the node it addresses; one that does not lie under `base`, or
/// whose path leaves the page, changes nothing.
pub open spec fn apply_one(d: Dom, base: Seq<usize>, p: PatchM) -> Dom
    decreases patch_path(p).len() - base.len(),
{
    let path = patch_path(p);
    if path.len() < base.len() || path.subrange(0, base.len() as int) != base {
        d
    } else if path.len() == base.len() {
        op_here(d, p)
    } else {
        let t = path[base.len() as int];
        match d {
            Dom::Element(e) => if t < e.children.len() {
                Dom::Element(
                    DomElem {
                        children: e.children.update(
                            t as int,
                            apply_one(e.children[t as int], base.push(t), p),
                        ),
                        ..e
                    },
                )
            } else {
                d
            },
            Dom::Text(_) => d,
        }
    }
}

/// Patches applied in order.
pub open spec fn apply_all(d: Dom, base: Seq<usize>, ps: Seq<PatchM>) -> Dom
    decreases ps.len(),
{
    if ps.len() == 0 {
        d
    } else {
        apply_all(apply_one(d, base, ps[0]), base, ps.drop_first())
    }
}

// ---------------------------------------------------------------------------
// Well-formed trees
// ---------------------------------------------------------------------------

pub open spec fn distinct_keys(cs: Seq<Node>) -> bool {
    forall|i: int, j: int| 0 <= i < j < cs.len() ==> key_of(cs[i]) != key_of(cs[j])
}

/// Where all of an element's children carry keys, no key repeats among
/// them; and so on down the tree. (A child list also fits in memory.)
pub open spec fn well_formed(n: Node) -> bool
    decreases n, 1nat,
{
    match n {
        Node::Text(_) => true,
        Node::Element(e) => {
            &&& e.children.len() <= usize::MAX
            &&& (all_have_keys(e.children) ==> distinct_keys(e.children))
            &&& all_well_formed(e.children)
        },
    }
}

pub open spec fn all_well_formed(s: Seq<Node>) -> bool
    decreases s, 0nat,
{
    if s.len() == 0 {
        true
    } else {
        all_well_formed(s.drop_last()) && well_formed(s.last())
    }
}

pub proof fn lemma_all_well_formed(s: Seq<Node>)
    ensures
        all_well_formed(s) <==> forall|j: int| 0 <= j < s.len() ==> #[trigger] well_formed(s[j]),
    decreases s.len(),
{
    if s.len() > 0 {
        lemma_all_well_formed(s.drop_last());
        if forall|j: int| 0 <= j < s.len() ==> #[trigger] well_formed(s[j]) {
            assert forall|j: int| 0 <= j < s.drop_last().len() implies #[trigger] well_formed(s.drop_last()[j]) by {
                assert(s.drop_last()[j] == s[j]);
            }
            assert(well_formed(s[s.len() - 1]));
        }
        if all_well_formed(s) {
            assert forall|j: int| 0 <= j < s.len() implies #[trigger] well_formed(s[j]) by {
                if j < s.len() - 1 {
                    assert(s.drop_last()[j] == s[j]);
                }
            }
        }
    }
}

// ---------------------------------------------------------------------------
// Basic facts
// ---------------------------------------------------------------------------

/// `path` lies at or under `q`.
pub open spec fn under(path: Seq<usize>, q: Seq<usize>) -> bool {
    path.len() >= q.len() && path.subrange(0, q.len() as int) == q
}

pub open spec fn all_under(ps: Seq<PatchM>, q: Seq<usize>) -> bool {
    forall|i: int| 0 <= i < ps.len() ==> under(patch_path(#[trigger] ps[i]), q)
}

proof fn lemma_apply_concat(d: Dom, base: Seq<usize>, a: Seq<PatchM>, b: Seq<PatchM>)
    ensures
        apply_all(d, base, a + b) == apply_all(apply_all(d, base, a), base, b),
    decreases a.len(),
{
    if a.len() > 0 {
        assert((a + b).drop_first() =~= a.drop_first() + b);
        assert((a + b)[0] == a[0]);
        lemma_apply_concat(apply_one(d, base, a[0]), base, a.drop_first(), b);
    } else {
        assert(a + b =~= b);
    }
}

proof fn lemma_apply_single(d: Dom, base: Seq<usize>, p: PatchM)
    ensures
        apply_all(d, base, seq![p]) == apply_one(d, base, p),
{
    assert(seq![p].drop_first() =~= Seq::<PatchM>::empty());
    reveal_with_fuel(apply_all, 2);
}

proof fn lemma_apply_here(d: Dom, base: Seq<usize>, p: PatchM)
    requires
        patch_path(p) == base,
    ensures
        apply_all(d, base, seq![p]) == op_here(d, p),
{
    lemma_apply_single(d, base, p);
    assert(patch_path(p).subrange(0, base.len() as int) =~= base);
}

/// Patches under child `t` of an element change only that child.
proof fn lemma_apply_child(e: DomElem, base: Seq<usize>, t: usize, ps: Seq<PatchM>)
    requires
        t < e.children.len(),
        all_under(ps, base.push(t)),
    ensures
        apply_all(Dom::Element(e), base, ps) == Dom::Element(
            DomElem { children: e.children.update(t as int, apply_all(e.children[t as int], base.push(t), ps)), ..e },
        ),
    decreases ps.len(),
{
    if ps.len() == 0 {
        assert(e.children.update(t as int, e.children[t as int]) =~= e.children);
    } else {
        let p = ps[0];
        let path = patch_path(p);
        let q = base.push(t);
        assert(under(path, q));
        assert(path.subrange(0, base.len() as int) =~= base) by {
            assert(path.subrange(0, base.len() as int) =~= path.subrange(0, q.len() as int).subrange(
                0,
                base.len() as int,
            ));
        }
        assert(path[base.len() as int] == t) by {
            assert(path.subrange(0, q.len() as int)[base.len() as int] == path[base.len() as int]);
        }
        let child = apply_one(e.children[t as int], q, p);
        let e1 = DomElem { children: e.children.update(t as int, child), ..e };
        assert(apply_one(Dom::Element(e), base, p) == Dom::Element(e1));
        let rest = ps.drop_first();
        assert(all_under(rest, q)) by {
            assert forall|i: int| 0 <= i < rest.len() implies under(patch_path(#[trigger] rest[i]), q) by {
                assert(rest[i] == ps[i + 1]);
            }
        }
        lemma_apply_child(e1, base, t, rest);
        assert(e1.children[t as int] == child);
        assert(e1.children.update(t as int, apply_all(child, q, rest)) =~= e.children.update(
            t as int,
            apply_all(e.children[t as int], q, ps),
        ));
    }
}

// ---------------------------------------------------------------------------
// Patches that fit
// ---------------------------------------------------------------------------

/// A patch fits the node it addresses: a text change meets a text, an
/// attribute change or an append meets an element, and a removal or a move
/// names children the element has (a move's target counted after the
/// child is taken out).
pub open spec fn fits_here(d: Dom, p: PatchM) -> bool {
    match p {
        PatchM::Replace { .. } => true,
        PatchM::SetText { .. } => d is Text,
        PatchM::SetAttr { .. } => d is Element,
        PatchM::RemoveAttr { .. } => d is Element,
        PatchM::Append { .. } => d is Element,
        PatchM::RemoveChild { index, .. } => match d {
            Dom::Element(e) => index < e.children.len(),
            _ => false,
        },
        PatchM::MoveChild { from, to, .. } => match d {
            Dom::Element(e) => from < e.children.len() && to < e.children.len(),
            _ => false,
        },
    }
}

/// A patch, applied to `d` at `base`, lies under `base`, every index of
/// its path names an existing child, and it fits the node it reaches.
pub open spec fn fits_one(d: Dom, base: Seq<usize>, p: PatchM) -> bool
    decreases patch_path(p).len() - base.len(),
{
    let path = patch_path(p);
    if path.len() < base.len() || path.subrange(0, base.len() as int) != base {
        false
    } else if path.len() == base.len() {
        fits_here(d, p)
    } else {
        let t = path[base.len() as int];
        match d {
            Dom::Element(e) => t < e.children.len() && fits_one(e.children[t as int], base.push(t), p),
            Dom::Text(_) => false,
        }
    }
}

/// Each patch fits the page as the patches before it left it.
pub open spec fn fits_all(d: Dom, base: Seq<usize>, ps: Seq<PatchM>) -> bool
    decreases ps.len(),
{
    ps.len() == 0 || (fits_one(d, base, ps[0]) && fits_all(apply_one(d, base, ps[0]), base, ps.drop_first()))
}

proof fn lemma_fits_concat(d: Dom, base: Seq<usize>, a: Seq<PatchM>, b: Seq<PatchM>)
    ensures
        fits_all(d, base, a + b) == (fits_all(d, base, a) && fits_all(apply_all(d, base, a), base, b)),
    decreases a.len(),
{
    if a.len() > 0 {
        assert((a + b).drop_first() =~= a.drop_first() + b);
        assert((a + b)[0] == a[0]);
        lemma_fits_concat(apply_one(d, base, a[0]), base, a.drop_first(), b);
    } else {
        assert(a + b =~= b);
    }
}

proof fn lemma_fits_here(d: Dom, base: Seq<usize>, p: PatchM)
    requires
        patch_path(p) == base,
    ensures
        fits_all(d, base, seq![p]) == fits_here(d, p),
{
    assert(seq![p].drop_first() =~= Seq::<PatchM>::empty());
    assert(patch_path(p).subrange(0, base.len() as int) =~= base);
    reveal_with_fuel(fits_all, 2);
}

/// Patches under child `t` fit the element when they fit the child.
proof fn lemma_fits_child(e: DomElem, base: Seq<usize>, t: usize, ps: Seq<PatchM>)
    requires
        t < e.children.len(),
        all_under(ps, base.push(t)),
    ensures
        fits_all(Dom::Element(e), base, ps) == fits_all(e.children[t as int], base.push(t), ps),
    decreases ps.len(),
{
    if ps.len() > 0 {
        let p = ps[0];
        let path = patch_path(p);
        let q = base.push(t);
        assert(under(path, q));
        assert(path.subrange(0, base.len() as int) =~= base) by {
            assert(path.subrange(0, base.len() as int) =~= path.subrange(0, q.len() as int).subrange(
                0,
                base.len() as int,
            ));
        }
        assert(path[base.len() as int] == t) by {
            assert(path.subrange(0, q.len() as int)[base.len() as int] == path[base.len() as int]);
        }
        let child = apply_one(e.children[t as int], q, p);
        let e1 = DomElem { children: e.children.update(t as int, child), ..e };
        assert(apply_one(Dom::Element(e), base, p) == Dom::Element(e1));
        assert(fits_one(Dom::Element(e), base, p) == fits_one(e.children[t as int], q, p));
        let rest = ps.drop_first();
        assert(all_under(rest, q)) by {
            assert forall|i: int| 0 <= i < rest.len() implies under(patch_path(#[trigger] rest[i]), q) by {
                assert(rest[i] == ps[i + 1]);
            }
        }
        lemma_fits_child(e1, base, t, rest);
        assert(e1.children[t as int] == child);
    }
}

proof fn lemma_all_under_concat(a: Seq<PatchM>, b: Seq<PatchM>, q: Seq<usize>)
    requires
        all_under(a, q),
        all_under(b, q),
    ensures
        all_under(a + b, q),
{
    assert forall|i: int| 0 <= i < (a + b).len() implies under(patch_path(#[trigger] (a + b)[i]), q) by {
        if i < a.len() {
            assert((a + b)[i] == a[i]);
        } else {
            assert((a + b)[i] == b[i - a.len()]);
        }
    }
}

/// Patches addressed under a child are addressed under its parent.
proof fn lemma_all_under_parent(ps: Seq<PatchM>, q: Seq<usize>, t: usize)
    requires
        all_under(ps, q.push(t)),
    ensures
        all_under(ps, q),
{
    assert forall|i: int| 0 <= i < ps.len() implies under(patch_path(#[trigger] ps[i]), q) by {
        let path = patch_path(ps[i]);
        assert(under(path, q.push(t)));
        assert(path.subrange(0, q.len() as int) =~= path.subrange(0, (q.len() + 1) as int).subrange(0, q.len() as int));
        assert(q.push(t).subrange(0, q.len() as int) =~= q);
    }
}

pub proof fn lemma_doms_of_index(s: Seq<Node>)
    ensures
        doms_of(s).len() == s.len(),
        forall|i: int| 0 <= i < s.len() ==> #[trigger] doms_of(s)[i] == dom_of(s[i]),
    decreases s.len(),
{
    if s.len() > 0 {
        lemma_doms_of_index(s.drop_last());
    }
}

// ---------------------------------------------------------------------------
// Attributes
// ---------------------------------------------------------------------------

proof fn lemma_attr_map(a: Seq<(Seq<char>, Seq<char>)>, k: Seq<char>)
    ensures
        attr_map(a).dom().contains(k) == (last_value(a, k) is Some),
        attr_map(a).dom().contains(k) ==> attr_map(a)[k] == last_value(a, k).unwrap(),
    decreases a.len(),
{
    if a.len() > 0 {
        lemma_attr_map(a.drop_last(), k);
    }
}

proof fn lemma_names(a: Seq<(Seq<char>, Seq<char>)>, k: Seq<char>)
    ensures
        names(a).contains(k) == (last_value(a, k) is Some),
    decreases a.len(),
{
    if a.len() > 0 {
        lemma_names(a.drop_last(), k);
        let r = names(a.drop_last());
        let x = a.last().0;
        if !r.contains(x) {
            let r2 = r.push(x);
            assert(r2[r.len() as int] == x);
            if x != k {
                if r2.contains(k) {
                    let j = choose|j: int| 0 <= j < r2.len() && r2[j] == k;
                    assert(r[j] == k);
                }
                if r.contains(k) {
                    let j = choose|j: int| 0 <= j < r.len() && r[j] == k;
                    assert(r2[j] == k);
                }
            }
        }
    }
}

/// The attributes after the `SetAttr` patches for the names `ks`.
spec fn after_sets(
    m: Map<Seq<char>, Seq<char>>,
    old: Seq<(Seq<char>, Seq<char>)>,
    new: Seq<(Seq<char>, Seq<char>)>,
    ks: Seq<Seq<char>>,
) -> Map<Seq<char>, Seq<char>>
    decreases ks.len(),
{
    if ks.len() == 0 {
        m
    } else {
        let r = after_sets(m, old, new, ks.drop_last());
        let k = ks.last();
        if last_value(old, k) != last_value(new, k) {
            r.insert(k, last_value(new, k).unwrap())
        } else {
            r
        }
    }
}

/// The attributes after the `RemoveAttr` patches for the names `ks`.
spec fn after_removes(
    m: Map<Seq<char>, Seq<char>>,
    new: Seq<(Seq<char>, Seq<char>)>,
    ks: Seq<Seq<char>>,
) -> Map<Seq<char>, Seq<char>>
    decreases ks.len(),
{
    if ks.len() == 0 {
        m
    } else {
        let r = after_removes(m, new, ks.drop_last());
        if last_value(new, ks.last()) is None {
            r.remove(ks.last())
        } else {
            r
        }
    }
}

proof fn lemma_sets(
    e: DomElem,
    old: Seq<(Seq<char>, Seq<char>)>,
    new: Seq<(Seq<char>, Seq<char>)>,
    ks: Seq<Seq<char>>,
    path: Seq<usize>,
)
    ensures
        all_under(set_attr_patches(old, new, ks, path), path),
        fits_all(Dom::Element(e), path, set_attr_patches(old, new, ks, path)),
        apply_all(Dom::Element(e), path, set_attr_patches(old, new, ks, path)) == Dom::Element(
            DomElem { attrs: after_sets(e.attrs, old, new, ks), ..e },
        ),
    decreases ks.len(),
{
    if ks.len() == 0 {
        assert(DomElem { attrs: e.attrs, ..e } == e);
    } else {
        let k = ks.last();
        let rest = set_attr_patches(old, new, ks.drop_last(), path);
        lemma_sets(e, old, new, ks.drop_last(), path);
        if last_value(old, k) != last_value(new, k) {
            let p = PatchM::SetAttr { path, name: k, value: last_value(new, k).unwrap() };
            assert(rest.push(p) =~= rest + seq![p]);
            lemma_apply_concat(Dom::Element(e), path, rest, seq![p]);
            let mid = Dom::Element(DomElem { attrs: after_sets(e.attrs, old, new, ks.drop_last()), ..e });
            lemma_apply_here(mid, path, p);
            lemma_fits_concat(Dom::Element(e), path, rest, seq![p]);
            lemma_fits_here(mid, path, p);
            assert(under(path, path)) by {
                assert(path.subrange(0, path.len() as int) =~= path);
            }
            lemma_all_under_concat(rest, seq![p], path);
        }
    }
}

proof fn lemma_removes(
    e: DomElem,
    new: Seq<(Seq<char>, Seq<char>)>,
    ks: Seq<Seq<char>>,
    path: Seq<usize>,
)
    ensures
        all_under(remove_attr_patches(new, ks, path), path),
        fits_all(Dom::Element(e), path, remove_attr_patches(new, ks, path)),
        apply_all(Dom::Element(e), path, remove_attr_patches(new, ks, path)) == Dom::Element(
            DomElem { attrs: after_removes(e.attrs, new, ks), ..e },
        ),
    decreases ks.len(),
{
    if ks.len() == 0 {
        assert(DomElem { attrs: e.attrs, ..e } == e);
    } else {
        let k = ks.last();
        let rest = remove_attr_patches(new, ks.drop_last(), path);
        lemma_removes(e, new, ks.drop_last(), path);
        if last_value(new, k) is None {
            let p = PatchM::RemoveAttr { path, name: k };
            assert(rest.push(p) =~= rest + seq![p]);
            lemma_apply_concat(Dom::Element(e), path, rest, seq![p]);
            let mid = Dom::Element(DomElem { attrs: after_removes(e.attrs, new, ks.drop_last()), ..e });
            lemma_apply_here(mid, path, p);
            lemma_fits_concat(Dom::Element(e), path, rest, seq![p]);
            lemma_fits_here(mid, path, p);
            assert(under(path, path)) by {
                assert(path.subrange(0, path.len() as int) =~= path);
            }
            lemma_all_under_concat(rest, seq![p], path);
        }
    }
}

proof fn lemma_after_sets(
    m: Map<Seq<char>, Seq<char>>,
    old: Seq<(Seq<char>, Seq<char>)>,
    new: Seq<(Seq<char>, Seq<char>)>,
    ks: Seq<Seq<char>>,
    k: Seq<char>,
)
    ensures
        ks.contains(k) && last_value(old, k) != last_value(new, k) ==> after_sets(m, old, new, ks).dom().contains(k)
            && after_sets(m, old, new, ks)[k] == last_value(new, k).unwrap(),
        !(ks.contains(k) && last_value(old, k) != last_value(new, k)) ==> (after_sets(m, old, new, ks).dom().contains(k)
            == m.dom().contains(k) && (m.dom().contains(k) ==> after_sets(m, old, new, ks)[k] == m[k])),
    decreases ks.len(),
{
    if ks.len() > 0 {
        lemma_after_sets(m, old, new, ks.drop_last(), k);
        let d = ks.drop_last();
        assert(ks =~= d.push(ks.last()));
        if ks.contains(k) && ks.last() != k {
            let j = choose|j: int| 0 <= j < ks.len() && ks[j] == k;
            assert(d[j] == k);
        }
        if d.contains(k) {
            let j = choose|j: int| 0 <= j < d.len() && d[j] == k;
            assert(ks[j] == k);
        }
        assert(ks[ks.len() - 1] == ks.last());
    }
}

proof fn lemma_after_removes(
    m: Map<Seq<char>, Seq<char>>,
    new: Seq<(Seq<char>, Seq<char>)>,
    ks: Seq<Seq<char>>,
    k: Seq<char>,
)
    ensures
        ks.contains(k) && last_value(new, k) is None ==> !after_removes(m, new, ks).dom().contains(k),
        !(ks.contains(k) && last_value(new, k) is None) ==> (after_removes(m, new, ks).dom().contains(k)
            == m.dom().contains(k) && (m.dom().contains(k) ==> after_removes(m, new, ks)[k] == m[k])),
    decreases ks.len(),
{
    if ks.len() > 0 {
        lemma_after_removes(m, new, ks.drop_last(), k);
        let d = ks.drop_last();
        if ks.contains(k) && ks.last() != k {
            let j = choose|j: int| 0 <= j < ks.len() && ks[j] == k;
            assert(d[j] == k);
        }
        if d.contains(k) {
            let j = choose|j: int| 0 <= j < d.len() && d[j] == k;
            assert(ks[j] == k);
        }
        assert(ks[ks.len() - 1] == ks.last());
    }
}

/// The attribute patches turn the attributes of `old` into those of `new`.
proof fn lemma_attrs(e: DomElem, old: Seq<(Seq<char>, Seq<char>)>, new: Seq<(Seq<char>, Seq<char>)>, path: Seq<usize>)
    requires
        e.attrs == attr_map(old),
    ensures
        all_under(attr_patches(old, new, path), path),
        fits_all(Dom::Element(e), path, attr_patches(old, new, path)),
        apply_all(Dom::Element(e), path, attr_patches(old, new, path)) == Dom::Element(
            DomElem { attrs: attr_map(new), ..e },
        ),
{
    let sp = set_attr_patches(old, new, names(new), path);
    let rp = remove_attr_patches(new, names(old), path);
    lemma_sets(e, old, new, names(new), path);
    let m1 = after_sets(e.attrs, old, new, names(new));
    let e1 = DomElem { attrs: m1, ..e };
    lemma_removes(e1, new, names(old), path);
    lemma_apply_concat(Dom::Element(e), path, sp, rp);
    lemma_fits_concat(Dom::Element(e), path, sp, rp);
    lemma_all_under_concat(sp, rp, path);
    let m2 = after_removes(m1, new, names(old));
    assert forall|k: Seq<char>| #[trigger] m2.dom().contains(k) == attr_map(new).dom().contains(k)
        && (m2.dom().contains(k) ==> m2[k] == attr_map(new)[k]) by {
        lemma_attr_map(old, k);
        lemma_attr_map(new, k);
        lemma_names(old, k);
        lemma_names(new, k);
        lemma_after_sets(e.attrs, old, new, names(new), k);
        lemma_after_removes(m1, new, names(old), k);
    }
    assert(m2 =~= attr_map(new));
}

// ---------------------------------------------------------------------------
// Child lists
// ---------------------------------------------------------------------------

proof fn lemma_doms_concat(x: Seq<Node>, y: Seq<Node>)
    ensures
        doms_of(x + y) == doms_of(x) + doms_of(y),
{
    lemma_doms_of_index(x);
    lemma_doms_of_index(y);
    lemma_doms_of_index(x + y);
    assert(doms_of(x + y) =~= doms_of(x) + doms_of(y));
}

proof fn lemma_under_self(path: Seq<usize>)
    ensures
        under(path, path),
{
    assert(path.subrange(0, path.len() as int) =~= path);
}

/// Removing children `hi - 1` down to `lo` keeps the first `lo`.
proof fn lemma_tail_removals(e: DomElem, path: Seq<usize>, lo: int, hi: int)
    requires
        0 <= lo <= hi <= usize::MAX,
        hi == e.children.len(),
    ensures
        all_under(tail_removals(path, lo, hi), path),
        fits_all(Dom::Element(e), path, tail_removals(path, lo, hi)),
        apply_all(Dom::Element(e), path, tail_removals(path, lo, hi)) == Dom::Element(
            DomElem { children: e.children.subrange(0, lo), ..e },
        ),
    decreases hi - lo,
{
    if lo >= hi {
        assert(e.children.subrange(0, lo) =~= e.children);
    } else {
        let rest = tail_removals(path, lo + 1, hi);
        let p = PatchM::RemoveChild { path, index: lo as usize };
        lemma_tail_removals(e, path, lo + 1, hi);
        assert(rest.push(p) =~= rest + seq![p]);
        lemma_apply_concat(Dom::Element(e), path, rest, seq![p]);
        let mid = DomElem { children: e.children.subrange(0, lo + 1), ..e };
        lemma_apply_here(Dom::Element(mid), path, p);
        lemma_fits_concat(Dom::Element(e), path, rest, seq![p]);
        lemma_fits_here(Dom::Element(mid), path, p);
        assert(mid.children.remove(lo) =~= e.children.subrange(0, lo));
        lemma_under_self(path);
        lemma_all_under_concat(rest, seq![p], path);
    }
}

/// Appending `b[lo..hi]` in order.
proof fn lemma_appends(e: DomElem, b: Seq<Node>, lo: int, hi: int, path: Seq<usize>)
    requires
        0 <= lo <= hi <= b.len(),
    ensures
        all_under(appends(b, lo, hi, path), path),
        fits_all(Dom::Element(e), path, appends(b, lo, hi, path)),
        apply_all(Dom::Element(e), path, appends(b, lo, hi, path)) == Dom::Element(
            DomElem { children: e.children + doms_of(b.subrange(lo, hi)), ..e },
        ),
    decreases hi - lo,
{
    if hi <= lo {
        assert(b.subrange(lo, hi) =~= Seq::<Node>::empty());
        assert(e.children + doms_of(b.subrange(lo, hi)) =~= e.children);
    } else {
        let rest = appends(b, lo, hi - 1, path);
        let p = PatchM::Append { path, node: b[hi - 1] };
        lemma_appends(e, b, lo, hi - 1, path);
        assert(rest.push(p) =~= rest + seq![p]);
        lemma_apply_concat(Dom::Element(e), path, rest, seq![p]);
        let mid = DomElem { children: e.children + doms_of(b.subrange(lo, hi - 1)), ..e };
        lemma_apply_here(Dom::Element(mid), path, p);
        lemma_fits_concat(Dom::Element(e), path, rest, seq![p]);
        lemma_fits_here(Dom::Element(mid), path, p);
        assert(b.subrange(lo, hi).drop_last() =~= b.subrange(lo, hi - 1));
        assert(b.subrange(lo, hi).last() == b[hi - 1]);
        assert(doms_of(b.subrange(lo, hi)) == doms_of(b.subrange(lo, hi - 1)).push(dom_of(b[hi - 1])));
        assert((e.children + doms_of(b.subrange(lo, hi - 1))).push(dom_of(b[hi - 1])) =~= e.children
            + doms_of(b.subrange(lo, hi)));
        lemma_under_self(path);
        lemma_all_under_concat(rest, seq![p], path);
    }
}

/// Removing the dropped children from index `i` on, last first, leaves the
/// kept ones in order.
proof fn lemma_removals(e: DomElem, a: Seq<Node>, b: Seq<Node>, path: Seq<usize>, i: int)
    requires
        0 <= i <= a.len() <= usize::MAX,
        e.children.len() == a.len(),
        forall|j: int| i <= j < a.len() ==> #[trigger] e.children[j] == dom_of(a[j]),
    ensures
        all_under(removals_from(a, b, path, i), path),
        fits_all(Dom::Element(e), path, removals_from(a, b, path, i)),
        apply_all(Dom::Element(e), path, removals_from(a, b, path, i)) == Dom::Element(
            DomElem { children: e.children.subrange(0, i) + doms_of(kept_from(a, b, i)), ..e },
        ),
    decreases a.len() - i,
{
    if i >= a.len() {
        assert(e.children.subrange(0, i) + doms_of(kept_from(a, b, i)) =~= e.children);
    } else {
        let rest = removals_from(a, b, path, i + 1);
        lemma_removals(e, a, b, path, i + 1);
        let k1 = kept_from(a, b, i + 1);
        let c1 = e.children.subrange(0, i + 1) + doms_of(k1);
        lemma_doms_of_index(k1);
        if dropped(a[i], b) {
            let p = PatchM::RemoveChild { path, index: i as usize };
            assert(rest.push(p) =~= rest + seq![p]);
            lemma_apply_concat(Dom::Element(e), path, rest, seq![p]);
            let mid = DomElem { children: c1, ..e };
            lemma_apply_here(Dom::Element(mid), path, p);
            lemma_fits_concat(Dom::Element(e), path, rest, seq![p]);
            lemma_fits_here(Dom::Element(mid), path, p);
            assert(c1.remove(i) =~= e.children.subrange(0, i) + doms_of(k1));
            lemma_under_self(path);
            lemma_all_under_concat(rest, seq![p], path);
        } else {
            lemma_doms_concat(seq![a[i]], k1);
            assert(doms_of(seq![a[i]]) =~= seq![dom_of(a[i])]) by {
                lemma_doms_of_index(seq![a[i]]);
            }
            assert(c1 =~= e.children.subrange(0, i) + doms_of(kept_from(a, b, i)));
        }
    }
}

// ---------------------------------------------------------------------------
// Keys
// ---------------------------------------------------------------------------

proof fn lemma_find_key(s: Seq<Node>, k: Seq<char>, i: int)
    requires
        0 <= i,
    ensures
        match find_key(s, k, i) {
            Some(f) => i <= f < s.len() && key_of(s[f]) == Some(k),
            None => forall|j: int| i <= j < s.len() ==> key_of(#[trigger] s[j]) != Some(k),
        },
    decreases s.len() - i,
{
    if i < s.len() && key_of(s[i]) != Some(k) {
        lemma_find_key(s, k, i + 1);
    }
}

/// Moving the element at `from` to `t`, not after it.
proof fn lemma_move<A>(s: Seq<A>, from: int, t: int)
    requires
        0 <= t <= from < s.len(),
    ensures
        s.remove(from).insert(t, s[from]).len() == s.len(),
        forall|j: int| 0 <= j < t ==> #[trigger] s.remove(from).insert(t, s[from])[j] == s[j],
        s.remove(from).insert(t, s[from])[t] == s[from],
        forall|j: int| t < j <= from ==> #[trigger] s.remove(from).insert(t, s[from])[j] == s[j - 1],
        forall|j: int| from < j < s.len() ==> #[trigger] s.remove(from).insert(t, s[from])[j] == s[j],
{
    let r = s.remove(from);
    assert(r.len() == s.len() - 1);
    assert(forall|j: int| 0 <= j < from ==> #[trigger] r[j] == s[j]);
    assert(forall|j: int| from <= j < r.len() ==> #[trigger] r[j] == s[j + 1]);
    let q = r.insert(t, s[from]);
    assert(q.len() == s.len());
    assert(forall|j: int| 0 <= j < t ==> #[trigger] q[j] == r[j]);
    assert(q[t] == s[from]);
    assert(forall|j: int| t < j < q.len() ==> #[trigger] q[j] == r[j - 1]);
}

/// Distinct keys of `cur[t..]`, each found among `nbs[t..]`, are no more
/// than `nbs[t..]`.
proof fn lemma_keys_bound(cur: Seq<Node>, nbs: Seq<Node>, t: int)
    requires
        0 <= t <= cur.len(),
        t <= nbs.len(),
        all_have_keys(cur),
        distinct_keys(cur),
        forall|j: int| t <= j < cur.len() ==> find_key(nbs, (#[trigger] key_of(cur[j])).unwrap(), t) is Some,
    ensures
        cur.len() <= nbs.len(),
{
    broadcast use vstd::seq_lib::seq_to_set_is_finite;
    let s1 = cur.subrange(t, cur.len() as int).map_values(|n: Node| key_of(n));
    let s2 = nbs.subrange(t, nbs.len() as int).map_values(|n: Node| key_of(n));
    assert(s1.no_duplicates()) by {
        assert forall|i: int, j: int| 0 <= i < s1.len() && 0 <= j < s1.len() && i != j implies s1[i] != s1[j] by {
            if i < j {
                assert(key_of(cur[t + i]) != key_of(cur[t + j]));
            } else {
                assert(key_of(cur[t + j]) != key_of(cur[t + i]));
            }
        }
    }
    assert(s1.to_set().subset_of(s2.to_set())) by {
        assert forall|x: Option<Seq<char>>| s1.to_set().contains(x) implies s2.to_set().contains(x) by {
            assert(s1.contains(x));
            let i = choose|i: int| 0 <= i < s1.len() && s1[i] == x;
            let kk = key_of(cur[t + i]).unwrap();
            assert(key_of(cur[t + i]) is Some);
            lemma_find_key(nbs, kk, t);
            let m = find_key(nbs, kk, t).unwrap();
            assert(s2[m - t] == x);
            assert(s2.contains(x));
        }
    }
    s1.unique_seq_to_set();
    s2.lemma_cardinality_of_set();
    vstd::set_lib::lemma_len_subset(s1.to_set(), s2.to_set());
}

/// The kept children are children of `a` from `i` on, keep their keys
/// distinct, and are each found among the new children.
proof fn lemma_kept(a: Seq<Node>, b: Seq<Node>, i: int)
    requires
        0 <= i,
    ensures
        forall|j: int| 0 <= j < kept_from(a, b, i).len() ==> exists|o: int| i <= o < a.len() && #[trigger] kept_from(a, b, i)[j] == a[o],
        forall|j: int| 0 <= j < kept_from(a, b, i).len() ==> !dropped(#[trigger] kept_from(a, b, i)[j], b),
        distinct_keys(a) ==> distinct_keys(kept_from(a, b, i)),
    decreases a.len() - i,
{
    if i < a.len() {
        lemma_kept(a, b, i + 1);
        let k1 = kept_from(a, b, i + 1);
        if !dropped(a[i], b) {
            let k = kept_from(a, b, i);
            assert(k == seq![a[i]] + k1);
            assert forall|j: int| 0 <= j < k.len() implies exists|o: int| i <= o < a.len() && #[trigger] k[j] == a[o] by {
                if j == 0 {
                    assert(k[0] == a[i]);
                } else {
                    assert(k[j] == k1[j - 1]);
                }
            }
            assert forall|j: int| 0 <= j < k.len() implies !dropped(#[trigger] k[j], b) by {
                if j > 0 {
                    assert(k[j] == k1[j - 1]);
                }
            }
            if distinct_keys(a) {
                assert forall|x: int, y: int| 0 <= x < y < k.len() implies key_of(k[x]) != key_of(k[y]) by {
                    assert(k[y] == k1[y - 1]);
                    let oy = choose|o: int| i + 1 <= o < a.len() && k1[y - 1] == a[o];
                    if x == 0 {
                        assert(k[0] == a[i]);
                    } else {
                        assert(k[x] == k1[x - 1]);
                    }
                }
            }
        }
    }
}

// ---------------------------------------------------------------------------
// Reconciliation rebuilds the page
// ---------------------------------------------------------------------------

proof fn lemma_single_under(p: PatchM, path: Seq<usize>)
    requires
        patch_path(p) == path,
    ensures
        all_under(seq![p], path),
{
    lemma_under_self(path);
    assert(seq![p][0] == p);
}

/// The children after index-aligned reconciliation of `[i, m)`.
spec fn aligned_result(c: Seq<Dom>, eb: Elem, i: int, m: int) -> Seq<Dom> {
    Seq::new(c.len(), |j: int| if i <= j < m { dom_of(eb.children[j]) } else { c[j] })
}

proof fn lemma_node(old: Node, new: Node, path: Seq<usize>)
    requires
        well_formed(old),
        well_formed(new),
    ensures
        node_patches(old, new, path) is Some,
        all_under(node_patches(old, new, path).unwrap(), path),
        fits_all(dom_of(old), path, node_patches(old, new, path).unwrap()),
        apply_all(dom_of(old), path, node_patches(old, new, path).unwrap()) == dom_of(new),
    decreases new, 2nat, 0int, 0nat,
{
    let ps = node_patches(old, new, path).unwrap();
    match new {
        Node::Text(tb) => match old {
            Node::Text(ta) => {
                if ta == tb {
                    assert(ps.len() == 0);
                    assert(all_under(ps, path));
                } else {
                    let p = PatchM::SetText { path, text: tb };
                    lemma_apply_here(dom_of(old), path, p);
                    lemma_fits_here(dom_of(old), path, p);
                    lemma_single_under(p, path);
                }
            },
            Node::Element(_) => {
                let p = PatchM::Replace { path, node: new };
                lemma_apply_here(dom_of(old), path, p);
                lemma_fits_here(dom_of(old), path, p);
                lemma_single_under(p, path);
            },
        },
        Node::Element(eb) => match old {
            Node::Element(ea) => {
                if ea.tag == eb.tag {
                    let ap = attr_patches(ea.attrs, eb.attrs, path);
                    let e0 = DomElem { tag: ea.tag, attrs: attr_map(ea.attrs), children: doms_of(ea.children) };
                    lemma_attrs(e0, ea.attrs, eb.attrs, path);
                    let e1 = DomElem { attrs: attr_map(eb.attrs), ..e0 };
                    lemma_children(ea, eb, e1, path);
                    let cp = children_patches(ea, eb, path).unwrap();
                    assert(ps == ap + cp);
                    lemma_apply_concat(Dom::Element(e0), path, ap, cp);
                    lemma_fits_concat(Dom::Element(e0), path, ap, cp);
                    lemma_all_under_concat(ap, cp, path);
                } else {
                    let p = PatchM::Replace { path, node: new };
                    lemma_apply_here(dom_of(old), path, p);
                    lemma_fits_here(dom_of(old), path, p);
                    lemma_single_under(p, path);
                }
            },
            Node::Text(_) => {
                let p = PatchM::Replace { path, node: new };
                lemma_apply_here(dom_of(old), path, p);
                lemma_fits_here(dom_of(old), path, p);
                lemma_single_under(p, path);
            },
        },
    }
}

proof fn lemma_children(ea: Elem, eb: Elem, e: DomElem, path: Seq<usize>)
    requires
        well_formed(Node::Element(ea)),
        well_formed(Node::Element(eb)),
        e.children == doms_of(ea.children),
    ensures
        children_patches(ea, eb, path) is Some,
        all_under(children_patches(ea, eb, path).unwrap(), path),
        fits_all(Dom::Element(e), path, children_patches(ea, eb, path).unwrap()),
        apply_all(Dom::Element(e), path, children_patches(ea, eb, path).unwrap()) == Dom::Element(
            DomElem { children: doms_of(eb.children), ..e },
        ),
    decreases eb, 1nat, 0int, 0nat,
{
    let a = ea.children;
    let b = eb.children;
    lemma_doms_of_index(a);
    lemma_doms_of_index(b);
    lemma_all_well_formed(a);
    lemma_all_well_formed(b);
    if uses_keys(a, b) {
        let rp = removals_from(a, b, path, 0);
        let kept = kept_from(a, b, 0);
        lemma_removals(e, a, b, path, 0);
        let e1 = DomElem { children: e.children.subrange(0, 0) + doms_of(kept), ..e };
        assert(e1.children =~= doms_of(kept));
        lemma_doms_of_index(kept);
        lemma_kept(a, b, 0);
        assert(all_have_keys(kept)) by {
            assert forall|j: int| 0 <= j < kept.len() implies (#[trigger] key_of(kept[j])) is Some by {
                let o = choose|o: int| 0 <= o < a.len() && kept[j] == a[o];
                assert(key_of(a[o]) is Some);
            }
        }
        assert forall|j: int| 0 <= j < kept.len() implies #[trigger] well_formed(kept[j]) by {
            let o = choose|o: int| 0 <= o < a.len() && kept[j] == a[o];
        }
        assert forall|j: int| 0 <= j < kept.len() implies find_key(b, (#[trigger] key_of(kept[j])).unwrap(), 0) is Some by {
            assert(!dropped(kept[j], b));
        }
        lemma_keyed(kept, eb, 0, path, e1);
        let kp = keyed_patches(kept, eb, 0, path).unwrap();
        lemma_apply_concat(Dom::Element(e), path, rp, kp);
        lemma_fits_concat(Dom::Element(e), path, rp, kp);
        lemma_all_under_concat(rp, kp, path);
    } else {
        let m = min_len(ea, eb);
        lemma_aligned(ea, eb, e, 0, path);
        let alp = aligned_patches(ea, eb, 0, path).unwrap();
        let c1 = aligned_result(e.children, eb, 0, m);
        let e1 = DomElem { children: c1, ..e };
        let tr = tail_removals(path, m, a.len() as int);
        lemma_tail_removals(e1, path, m, a.len() as int);
        let e2 = DomElem { children: c1.subrange(0, m), ..e };
        let ap = appends(b, m, b.len() as int, path);
        lemma_appends(e2, b, m, b.len() as int, path);
        lemma_doms_of_index(b.subrange(m, b.len() as int));
        assert(c1.subrange(0, m) + doms_of(b.subrange(m, b.len() as int)) =~= doms_of(b));
        lemma_apply_concat(Dom::Element(e), path, alp, tr);
        lemma_apply_concat(Dom::Element(e), path, alp + tr, ap);
        lemma_fits_concat(Dom::Element(e), path, alp, tr);
        lemma_fits_concat(Dom::Element(e), path, alp + tr, ap);
        lemma_all_under_concat(alp, tr, path);
        lemma_all_under_concat(alp + tr, ap, path);
    }
}

proof fn lemma_aligned(ea: Elem, eb: Elem, e: DomElem, i: int, path: Seq<usize>)
    requires
        0 <= i <= min_len(ea, eb),
        ea.children.len() <= usize::MAX,
        e.children.len() == ea.children.len(),
        forall|j: int| i <= j < ea.children.len() ==> #[trigger] e.children[j] == dom_of(ea.children[j]),
        forall|j: int| 0 <= j < ea.children.len() ==> #[trigger] well_formed(ea.children[j]),
        forall|j: int| 0 <= j < eb.children.len() ==> #[trigger] well_formed(eb.children[j]),
    ensures
        aligned_patches(ea, eb, i, path) is Some,
        all_under(aligned_patches(ea, eb, i, path).unwrap(), path),
        fits_all(Dom::Element(e), path, aligned_patches(ea, eb, i, path).unwrap()),
        apply_all(Dom::Element(e), path, aligned_patches(ea, eb, i, path).unwrap()) == Dom::Element(
            DomElem { children: aligned_result(e.children, eb, i, min_len(ea, eb)), ..e },
        ),
    decreases eb, 0nat, min_len(ea, eb) - i, 0nat,
{
    let m = min_len(ea, eb);
    if i >= m {
        assert(aligned_result(e.children, eb, i, m) =~= e.children);
    } else {
        let q = path.push(i as usize);
        lemma_node(ea.children[i], eb.children[i], q);
        let ps = node_patches(ea.children[i], eb.children[i], q).unwrap();
        lemma_apply_child(e, path, i as usize, ps);
        lemma_fits_child(e, path, i as usize, ps);
        let e1 = DomElem { children: e.children.update(i, dom_of(eb.children[i])), ..e };
        lemma_aligned(ea, eb, e1, i + 1, path);
        let rest = aligned_patches(ea, eb, i + 1, path).unwrap();
        assert(aligned_patches(ea, eb, i, path) == Some(ps + rest));
        lemma_apply_concat(Dom::Element(e), path, ps, rest);
        lemma_fits_concat(Dom::Element(e), path, ps, rest);
        assert(aligned_result(e1.children, eb, i + 1, m) =~= aligned_result(e.children, eb, i, m));
        lemma_all_under_parent(ps, path, i as usize);
        lemma_all_under_concat(ps, rest, path);
    }
}

proof fn lemma_keyed(cur: Seq<Node>, eb: Elem, t: int, path: Seq<usize>, e: DomElem)
    requires
        well_formed(Node::Element(eb)),
        all_have_keys(eb.children),
        0 <= t <= eb.children.len(),
        t <= cur.len(),
        e.children.len() == cur.len(),
        forall|j: int| 0 <= j < t ==> #[trigger] e.children[j] == dom_of(eb.children[j]),
        forall|j: int| t <= j < cur.len() ==> #[trigger] e.children[j] == dom_of(cur[j]),
        forall|j: int| 0 <= j < t ==> #[trigger] key_of(cur[j]) == key_of(eb.children[j]),
        all_have_keys(cur),
        distinct_keys(cur),
        forall|j: int| 0 <= j < cur.len() ==> #[trigger] well_formed(cur[j]),
        forall|j: int| t <= j < cur.len() ==> find_key(eb.children, (#[trigger] key_of(cur[j])).unwrap(), t) is Some,
    ensures
        keyed_patches(cur, eb, t, path) is Some,
        all_under(keyed_patches(cur, eb, t, path).unwrap(), path),
        fits_all(Dom::Element(e), path, keyed_patches(cur, eb, t, path).unwrap()),
        apply_all(Dom::Element(e), path, keyed_patches(cur, eb, t, path).unwrap()) == Dom::Element(
            DomElem { children: doms_of(eb.children), ..e },
        ),
    decreases eb, 0nat, eb.children.len() - t, 1nat,
{
    let b = eb.children;
    let n = b.len();
    lemma_keys_bound(cur, b, t);
    lemma_doms_of_index(b);
    if t >= n {
        if cur.len() > t {
            assert(find_key(b, key_of(cur[t]).unwrap(), t) is Some);
        }
        assert(e.children =~= doms_of(b));
        assert(DomElem { children: e.children, ..e } == e);
    } else {
        assert(key_of(b[t]) is Some);
        let k = key_of(b[t]).unwrap();
        lemma_find_key(cur, k, 0);
        match find_key(cur, k, 0) {
            Some(from) => lemma_keyed_found(cur, eb, t, path, e, from),
            None => lemma_keyed_new(cur, eb, t, path, e),
        }
    }
}

/// The new child at `t` has its key among the current children, at `from`.
proof fn lemma_keyed_found(cur: Seq<Node>, eb: Elem, t: int, path: Seq<usize>, e: DomElem, from: int)
    requires
        well_formed(Node::Element(eb)),
        all_have_keys(eb.children),
        0 <= t <= eb.children.len(),
        t <= cur.len(),
        e.children.len() == cur.len(),
        forall|j: int| 0 <= j < t ==> #[trigger] e.children[j] == dom_of(eb.children[j]),
        forall|j: int| t <= j < cur.len() ==> #[trigger] e.children[j] == dom_of(cur[j]),
        forall|j: int| 0 <= j < t ==> #[trigger] key_of(cur[j]) == key_of(eb.children[j]),
        all_have_keys(cur),
        distinct_keys(cur),
        forall|j: int| 0 <= j < cur.len() ==> #[trigger] well_formed(cur[j]),
        forall|j: int| t <= j < cur.len() ==> find_key(eb.children, (#[trigger] key_of(cur[j])).unwrap(), t) is Some,
        t < eb.children.len(),
        find_key(cur, key_of(eb.children[t]).unwrap(), 0) == Some(from),
    ensures
        keyed_patches(cur, eb, t, path) is Some,
        all_under(keyed_patches(cur, eb, t, path).unwrap(), path),
        fits_all(Dom::Element(e), path, keyed_patches(cur, eb, t, path).unwrap()),
        apply_all(Dom::Element(e), path, keyed_patches(cur, eb, t, path).unwrap()) == Dom::Element(
            DomElem { children: doms_of(eb.children), ..e },
        ),
    decreases eb, 0nat, eb.children.len() - t, 0nat,
{
    let b = eb.children;
    let n = b.len();
    lemma_keys_bound(cur, b, t);
    lemma_doms_of_index(b);
    lemma_all_well_formed(b);
    let nb = b[t];
    let k = key_of(nb).unwrap();
    lemma_find_key(cur, k, 0);
    assert(from >= t) by {
        if from < t {
            assert(key_of(cur[from]) == key_of(b[from]));
            assert(key_of(b[from]) != key_of(b[t]));
        }
    }
    let moved = from != t;
    let cur2 = if moved { cur.remove(from).insert(t, cur[from]) } else { cur };
    let c2 = if moved { e.children.remove(from).insert(t, e.children[from]) } else { e.children };
    let moves = if moved {
        seq![PatchM::MoveChild { path, from: from as usize, to: t as usize }]
    } else {
        Seq::<PatchM>::empty()
    };
    let e1 = DomElem { children: c2, ..e };
    if moved {
        lemma_move(cur, from, t);
        lemma_move(e.children, from, t);
        lemma_apply_here(Dom::Element(e), path, moves[0]);
        lemma_fits_here(Dom::Element(e), path, moves[0]);
        assert(moves == seq![moves[0]]);
        lemma_single_under(moves[0], path);
    } else {
        assert(e1 == e);
    }
    assert(apply_all(Dom::Element(e), path, moves) == Dom::Element(e1));
    assert(all_under(moves, path));
    assert(cur2.len() == cur.len());
    assert(cur2[t] == cur[from]);
    assert(forall|j: int| 0 <= j < t ==> #[trigger] cur2[j] == cur[j]);
    assert(forall|j: int| 0 <= j < t ==> #[trigger] c2[j] == e.children[j]);
    assert(forall|j: int| t <= j < cur2.len() ==> #[trigger] c2[j] == dom_of(cur2[j]));
    let q = path.push(t as usize);
    lemma_node(cur2[t], nb, q);
    let ps = node_patches(cur2[t], nb, q).unwrap();
    lemma_apply_child(e1, path, t as usize, ps);
    lemma_fits_child(e1, path, t as usize, ps);
    let e2 = DomElem { children: c2.update(t, dom_of(nb)), ..e };
    // the state after this child
    assert(distinct_keys(cur2)) by {
        if moved {
            assert forall|x: int, y: int| 0 <= x < y < cur2.len() implies key_of(cur2[x]) != key_of(cur2[y]) by {
                let ox = if x < t { x } else if x == t { from } else if x <= from { x - 1 } else { x };
                let oy = if y < t { y } else if y == t { from } else if y <= from { y - 1 } else { y };
                assert(cur2[x] == cur[ox]);
                assert(cur2[y] == cur[oy]);
                assert(ox != oy);
            }
        }
    }
    assert forall|j: int| t + 1 <= j < cur2.len() implies find_key(b, (#[trigger] key_of(cur2[j])).unwrap(), t + 1) is Some by {
        let oj = if j <= from { j - 1 } else { j };
        if moved {
            assert(cur2[j] == cur[oj]);
        }
        assert(cur2[j] == cur[oj]);
        assert(oj != from);
        assert(key_of(cur[oj]) != key_of(cur[from]));
        assert(find_key(b, key_of(cur[oj]).unwrap(), t) is Some);
    }
    assert forall|j: int| 0 <= j < cur2.len() implies #[trigger] well_formed(cur2[j]) by {
        if moved {
            let oj = if j < t { j } else if j == t { from } else if j <= from { j - 1 } else { j };
            assert(cur2[j] == cur[oj]);
        }
    }
    assert(all_have_keys(cur2)) by {
        assert forall|j: int| 0 <= j < cur2.len() implies (#[trigger] key_of(cur2[j])) is Some by {
            if moved {
                let oj = if j < t { j } else if j == t { from } else if j <= from { j - 1 } else { j };
                assert(cur2[j] == cur[oj]);
            }
        }
    }
    lemma_keyed(cur2, eb, t + 1, path, e2);
    let rest = keyed_patches(cur2, eb, t + 1, path).unwrap();
    assert(keyed_patches(cur, eb, t, path) == Some(moves + ps + rest));
    lemma_apply_concat(Dom::Element(e), path, moves, ps);
    lemma_apply_concat(Dom::Element(e), path, moves + ps, rest);
    lemma_fits_concat(Dom::Element(e), path, moves, ps);
    lemma_fits_concat(Dom::Element(e), path, moves + ps, rest);
    lemma_all_under_parent(ps, path, t as usize);
    lemma_all_under_concat(moves, ps, path);
    lemma_all_under_concat(moves + ps, rest, path);
    }

/// No current child has the key of the new child at `t`.
proof fn lemma_keyed_new(cur: Seq<Node>, eb: Elem, t: int, path: Seq<usize>, e: DomElem)
    requires
    well_formed(Node::Element(eb)),
    all_have_keys(eb.children),
    0 <= t <= eb.children.len(),
    t <= cur.len(),
    e.children.len() == cur.len(),
    forall|j: int| 0 <= j < t ==> #[trigger] e.children[j] == dom_of(eb.children[j]),
    forall|j: int| t <= j < cur.len() ==> #[trigger] e.children[j] == dom_of(cur[j]),
    forall|j: int| 0 <= j < t ==> #[trigger] key_of(cur[j]) == key_of(eb.children[j]),
    all_have_keys(cur),
    distinct_keys(cur),
    forall|j: int| 0 <= j < cur.len() ==> #[trigger] well_formed(cur[j]),
    forall|j: int| t <= j < cur.len() ==> find_key(eb.children, (#[trigger] key_of(cur[j])).unwrap(), t) is Some,
    t < eb.children.len(),
    find_key(cur, key_of(eb.children[t]).unwrap(), 0) is None,
    ensures
    keyed_patches(cur, eb, t, path) is Some,
    all_under(keyed_patches(cur, eb, t, path).unwrap(), path),
    fits_all(Dom::Element(e), path, keyed_patches(cur, eb, t, path).unwrap()),
    apply_all(Dom::Element(e), path, keyed_patches(cur, eb, t, path).unwrap()) == Dom::Element(
        DomElem { children: doms_of(eb.children), ..e },
    ),
    decreases eb, 0nat, eb.children.len() - t, 0nat,
{
    let b = eb.children;
    let n = b.len();
    lemma_keys_bound(cur, b, t);
    lemma_doms_of_index(b);
    lemma_all_well_formed(b);
    let nb = b[t];
    let k = key_of(nb).unwrap();
    lemma_find_key(cur, k, 0);
    let at = cur.len() as int;
    let x = dom_of(nb);
    let ap = PatchM::Append { path, node: nb };
    let cur2 = if at == t { cur.push(nb) } else { cur.insert(t, nb) };
    let c2 = if at == t { e.children.push(x) } else { e.children.insert(t, x) };
    let pre = if at == t {
    seq![ap]
    } else {
    seq![ap, PatchM::MoveChild { path, from: at as usize, to: t as usize }]
    };
    let e2 = DomElem { children: c2, ..e };
    lemma_apply_here(Dom::Element(e), path, ap);
    lemma_fits_here(Dom::Element(e), path, ap);
    let ea1 = DomElem { children: e.children.push(x), ..e };
    if at == t {
    assert(apply_all(Dom::Element(e), path, pre) == Dom::Element(e2));
    lemma_single_under(ap, path);
    } else {
    let mv = PatchM::MoveChild { path, from: at as usize, to: t as usize };
    assert(pre =~= seq![ap] + seq![mv]);
    lemma_apply_concat(Dom::Element(e), path, seq![ap], seq![mv]);
    lemma_apply_here(Dom::Element(ea1), path, mv);
    lemma_fits_concat(Dom::Element(e), path, seq![ap], seq![mv]);
    lemma_fits_here(Dom::Element(ea1), path, mv);
    lemma_move(e.children.push(x), at, t);
    assert(e.children.push(x).remove(at).insert(t, x) =~= c2);
    assert(e.children.push(x)[at] == x);
    lemma_single_under(ap, path);
    lemma_single_under(mv, path);
    lemma_all_under_concat(seq![ap], seq![mv], path);
    }
    assert(cur2.len() == cur.len() + 1);
    assert(forall|j: int| 0 <= j < t ==> #[trigger] cur2[j] == cur[j]);
    assert(cur2[t] == nb);
    assert(forall|j: int| t < j < cur2.len() ==> #[trigger] cur2[j] == cur[j - 1]);
    assert(forall|j: int| 0 <= j < t ==> #[trigger] c2[j] == e.children[j]);
    assert(c2[t] == x);
    assert(forall|j: int| t < j < c2.len() ==> #[trigger] c2[j] == e.children[j - 1]);
    assert(forall|j: int| t + 1 <= j < cur2.len() ==> #[trigger] c2[j] == dom_of(cur2[j]));
    assert(distinct_keys(cur2)) by {
    assert forall|xx: int, y: int| 0 <= xx < y < cur2.len() implies key_of(cur2[xx]) != key_of(cur2[y]) by {
        if xx == t {
            assert(key_of(cur[y - 1]) != Some(k));
        } else if y == t {
            assert(key_of(cur[xx]) != Some(k));
        } else {
            let ox = if xx < t { xx } else { xx - 1 };
            let oy = if y < t { y } else { y - 1 };
            assert(cur2[xx] == cur[ox]);
            assert(cur2[y] == cur[oy]);
        }
    }
    }
    assert forall|j: int| t + 1 <= j < cur2.len() implies find_key(b, (#[trigger] key_of(cur2[j])).unwrap(), t + 1) is Some by {
    assert(cur2[j] == cur[j - 1]);
    assert(key_of(cur[j - 1]) != Some(k));
    assert(find_key(b, key_of(cur[j - 1]).unwrap(), t) is Some);
    }
    assert forall|j: int| 0 <= j < cur2.len() implies #[trigger] well_formed(cur2[j]) by {
    if j < t {
        assert(cur2[j] == cur[j]);
    } else if j > t {
        assert(cur2[j] == cur[j - 1]);
    }
    }
    assert(all_have_keys(cur2)) by {
    assert forall|j: int| 0 <= j < cur2.len() implies (#[trigger] key_of(cur2[j])) is Some by {
        if j < t {
            assert(cur2[j] == cur[j]);
        } else if j > t {
            assert(cur2[j] == cur[j - 1]);
        }
    }
    }
    lemma_keyed(cur2, eb, t + 1, path, e2);
    let rest = keyed_patches(cur2, eb, t + 1, path).unwrap();
    assert(keyed_patches(cur, eb, t, path) == Some(pre + rest));
    lemma_apply_concat(Dom::Element(e), path, pre, rest);
    lemma_fits_concat(Dom::Element(e), path, pre, rest);
    lemma_all_under_concat(pre, rest, path);
}

/// Reconciling two well-formed trees succeeds; applied in order to the page
/// of the old tree, each of its patches fits (its path and indices name
/// existing nodes and children), and together they give the page of the
/// new one.
pub proof fn reconcile_rebuilds_new_page(old: Node, new: Node)
    requires
        well_formed(old),
        well_formed(new),
    ensures
        reconcile(old, new) is Some,
        fits_all(dom_of(old), Seq::empty(), reconcile(old, new).unwrap()),
        apply_all(dom_of(old), Seq::empty(), reconcile(old, new).unwrap()) == dom_of(new),
{
    lemma_node(old, new, Seq::empty());
}

// ---------------------------------------------------------------------------
// An unchanged tree needs no patches
// ---------------------------------------------------------------------------

proof fn lemma_same_sets(a: Seq<(Seq<char>, Seq<char>)>, ks: Seq<Seq<char>>, path: Seq<usize>)
    ensures
        set_attr_patches(a, a, ks, path) == Seq::<PatchM>::empty(),
    decreases ks.len(),
{
    if ks.len() > 0 {
        lemma_same_sets(a, ks.drop_last(), path);
    }
}

proof fn lemma_same_removes(a: Seq<(Seq<char>, Seq<char>)>, ks: Seq<Seq<char>>, path: Seq<usize>)
    requires
        forall|i: int| 0 <= i < ks.len() ==> last_value(a, #[trigger] ks[i]) is Some,
    ensures
        remove_attr_patches(a, ks, path) == Seq::<PatchM>::empty(),
    decreases ks.len(),
{
    if ks.len() > 0 {
        let d = ks.drop_last();
        assert forall|i: int| 0 <= i < d.len() implies last_value(a, #[trigger] d[i]) is Some by {
            assert(d[i] == ks[i]);
        }
        lemma_same_removes(a, d, path);
        assert(last_value(a, ks[ks.len() - 1]) is Some);
    }
}

proof fn lemma_same_attrs(a: Seq<(Seq<char>, Seq<char>)>, path: Seq<usize>)
    ensures
        attr_patches(a, a, path) == Seq::<PatchM>::empty(),
{
    lemma_same_sets(a, names(a), path);
    assert forall|i: int| 0 <= i < names(a).len() implies last_value(a, #[trigger] names(a)[i]) is Some by {
        lemma_names(a, names(a)[i]);
    }
    lemma_same_removes(a, names(a), path);
    assert(Seq::<PatchM>::empty() + Seq::<PatchM>::empty() =~= Seq::<PatchM>::empty());
}

/// In a list whose children all carry keys, no child is dropped when the
/// list is reconciled with itself.
proof fn lemma_same_not_dropped(c: Seq<Node>, i: int)
    requires
        all_have_keys(c),
        0 <= i < c.len(),
    ensures
        !dropped(c[i], c),
{
    lemma_find_key(c, key_of(c[i]).unwrap(), 0);
    assert(key_of(c[i]) is Some);
}

proof fn lemma_same_removals(c: Seq<Node>, path: Seq<usize>, i: int)
    requires
        all_have_keys(c),
        0 <= i,
    ensures
        removals_from(c, c, path, i) == Seq::<PatchM>::empty(),
    decreases c.len() - i,
{
    if i < c.len() {
        lemma_same_not_dropped(c, i);
        lemma_same_removals(c, path, i + 1);
    }
}

proof fn lemma_same_kept(c: Seq<Node>, i: int)
    requires
        all_have_keys(c),
        0 <= i <= c.len(),
    ensures
        kept_from(c, c, i) == c.subrange(i, c.len() as int),
    decreases c.len() - i,
{
    if i < c.len() {
        lemma_same_not_dropped(c, i);
        lemma_same_kept(c, i + 1);
        assert(seq![c[i]] + c.subrange(i + 1, c.len() as int) =~= c.subrange(i, c.len() as int));
    } else {
        assert(c.subrange(i, c.len() as int) =~= Seq::<Node>::empty());
    }
}

proof fn lemma_same_keyed(e: Elem, t: int, path: Seq<usize>)
    requires
        all_have_keys(e.children),
        distinct_keys(e.children),
        forall|j: int| 0 <= j < e.children.len() ==> #[trigger] well_formed(e.children[j]),
        0 <= t,
    ensures
        keyed_patches(e.children, e, t, path) == Some(Seq::<PatchM>::empty()),
    decreases e, 0nat, e.children.len() - t,
{
    let c = e.children;
    if t < c.len() {
        let k = key_of(c[t]).unwrap();
        assert(key_of(c[t]) is Some);
        lemma_find_key(c, k, 0);
        let f = find_key(c, k, 0).unwrap();
        assert(f == t);
        lemma_same_node(c[t], path.push(t as usize));
        lemma_same_keyed(e, t + 1, path);
        assert(Seq::<PatchM>::empty() + Seq::<PatchM>::empty() + Seq::<PatchM>::empty() =~= Seq::<PatchM>::empty());
    }
}

proof fn lemma_same_aligned(e: Elem, i: int, path: Seq<usize>)
    requires
        forall|j: int| 0 <= j < e.children.len() ==> #[trigger] well_formed(e.children[j]),
        0 <= i,
    ensures
        aligned_patches(e, e, i, path) == Some(Seq::<PatchM>::empty()),
    decreases e, 0nat, e.children.len() - i,
{
    if i < e.children.len() {
        lemma_same_node(e.children[i], path.push(i as usize));
        lemma_same_aligned(e, i + 1, path);
        assert(Seq::<PatchM>::empty() + Seq::<PatchM>::empty() =~= Seq::<PatchM>::empty());
    }
}

proof fn lemma_same_node(n: Node, path: Seq<usize>)
    requires
        well_formed(n),
    ensures
        node_patches(n, n, path) == Some(Seq::<PatchM>::empty()),
    decreases n, 2nat, 0nat, 0int,
{
    match n {
        Node::Text(_) => {},
        Node::Element(e) => {
            lemma_all_well_formed(e.children);
            lemma_same_attrs(e.attrs, path);
            let c = e.children;
            if uses_keys(c, c) {
                lemma_same_removals(c, path, 0);
                lemma_same_kept(c, 0);
                assert(c.subrange(0, c.len() as int) =~= c);
                lemma_same_keyed(e, 0, path);
                assert(Seq::<PatchM>::empty() + Seq::<PatchM>::empty() =~= Seq::<PatchM>::empty());
            } else {
                lemma_same_aligned(e, 0, path);
                let m = min_len(e, e);
                assert(tail_removals(path, m, c.len() as int) == Seq::<PatchM>::empty());
                assert(appends(c, m, c.len() as int, path) == Seq::<PatchM>::empty());
                assert(Seq::<PatchM>::empty() + Seq::<PatchM>::empty() + Seq::<PatchM>::empty() =~= Seq::<PatchM>::empty());
            }
            assert(Seq::<PatchM>::empty() + Seq::<PatchM>::empty() =~= Seq::<PatchM>::empty());
        },
    }
}

/// Reconciling a well-formed tree with itself gives no patches.
pub proof fn unchanged_tree_needs_no_patches(n: Node)
    requires
        well_formed(n),
    ensures
        reconcile(n, n) == Some(Seq::<PatchM>::empty()),
{
    lemma_same_node(n, Seq::empty());
}

} // verus!
