//! Reconciliation: the patches that turn one virtual tree into another.
//!
//! The specification is written over the models of [`crate::vdom`]: the
//! spec functions below say, step by step, which patches come out and in
//! which order, and when reconciliation cannot proceed (a keyed child list
//! whose keys repeat can ask to move a child past the end of the list).
use vstd::prelude::*;
use crate::vdom::{VNode, VElement, Patch, Node, Elem, PatchM, patch_models, attrs_model, node_models, lemma_node_models_index, lemma_node_models_push};

verus! {

// ---------------------------------------------------------------------------
// Attributes
// ---------------------------------------------------------------------------

/// The value an attribute list gives to `k`: that of its last occurrence.
pub open spec fn last_value(attrs: Seq<(Seq<char>, Seq<char>)>, k: Seq<char>) -> Option<Seq<char>>
    decreases attrs.len(),
{
    if attrs.len() == 0 {
        None
    } else if attrs.last().0 == k {
        Some(attrs.last().1)
    } else {
        last_value(attrs.drop_last(), k)
    }
}

/// The distinct attribute names, in the order of their first occurrence.
pub open spec fn names(attrs: Seq<(Seq<char>, Seq<char>)>) -> Seq<Seq<char>>
    decreases attrs.len(),
{
    if attrs.len() == 0 {
        Seq::empty()
    } else {
        let r = names(attrs.drop_last());
        if r.contains(attrs.last().0) {
            r
        } else {
            r.push(attrs.last().0)
        }
    }
}

/// `SetAttr` for each name of `ks` whose value differs between `old` and `new`.
pub open spec fn set_attr_patches(
    old: Seq<(Seq<char>, Seq<char>)>,
    new: Seq<(Seq<char>, Seq<char>)>,
    ks: Seq<Seq<char>>,
    path: Seq<usize>,
) -> Seq<PatchM>
    decreases ks.len(),
{
    if ks.len() == 0 {
        Seq::empty()
    } else {
        let k = ks.last();
        let rest = set_attr_patches(old, new, ks.drop_last(), path);
        if last_value(old, k) != last_value(new, k) {
            rest.push(PatchM::SetAttr { path, name: k, value: last_value(new, k).unwrap() })
        } else {
            rest
        }
    }
}

/// `RemoveAttr` for each name of `ks` that `new` does not have.
pub open spec fn remove_attr_patches(
    new: Seq<(Seq<char>, Seq<char>)>,
    ks: Seq<Seq<char>>,
    path: Seq<usize>,
) -> Seq<PatchM>
    decreases ks.len(),
{
    if ks.len() == 0 {
        Seq::empty()
    } else {
        let k = ks.last();
        let rest = remove_attr_patches(new, ks.drop_last(), path);
        if last_value(new, k) is None {
            rest.push(PatchM::RemoveAttr { path, name: k })
        } else {
            rest
        }
    }
}

/// Attribute changes: first the names of `new` (in their order) whose value
/// changed or is new, then the names of `old` (in their order) that are gone.
pub open spec fn attr_patches(
    old: Seq<(Seq<char>, Seq<char>)>,
    new: Seq<(Seq<char>, Seq<char>)>,
    path: Seq<usize>,
) -> Seq<PatchM> {
    set_attr_patches(old, new, names(new), path) + remove_attr_patches(new, names(old), path)
}

// ---------------------------------------------------------------------------
// Children and nodes
// ---------------------------------------------------------------------------

pub open spec fn key_of(n: Node) -> Option<Seq<char>> {
    match n {
        Node::Element(e) => e.key,
        Node::Text(_) => None,
    }
}

pub open spec fn all_have_keys(s: Seq<Node>) -> bool {
    forall|i: int| 0 <= i < s.len() ==> (#[trigger] key_of(s[i])) is Some
}

/// Children are reconciled by key when the new list is not empty and every
/// old and new child carries a key.
pub open spec fn uses_keys(a: Seq<Node>, b: Seq<Node>) -> bool {
    b.len() > 0 && all_have_keys(b) && all_have_keys(a)
}

/// Index of the first node of `s`, at or after `i`, whose key is `k`.
pub open spec fn find_key(s: Seq<Node>, k: Seq<char>, i: int) -> Option<int>
    decreases s.len() - i,
{
    if i < 0 || i >= s.len() {
        None
    } else if key_of(s[i]) == Some(k) {
        Some(i)
    } else {
        find_key(s, k, i + 1)
    }
}

/// An old child whose key no new child carries.
pub open spec fn dropped(n: Node, b: Seq<Node>) -> bool {
    find_key(b, key_of(n).unwrap(), 0) is None
}

/// The old children from index `i` on that stay, in order.
pub open spec fn kept_from(a: Seq<Node>, b: Seq<Node>, i: int) -> Seq<Node>
    decreases a.len() - i,
{
    if i < 0 || i >= a.len() {
        Seq::empty()
    } else if dropped(a[i], b) {
        kept_from(a, b, i + 1)
    } else {
        seq![a[i]] + kept_from(a, b, i + 1)
    }
}

/// `RemoveChild` for each dropped old child from index `i` on, last first.
pub open spec fn removals_from(a: Seq<Node>, b: Seq<Node>, path: Seq<usize>, i: int) -> Seq<PatchM>
    decreases a.len() - i,
{
    if i < 0 || i >= a.len() {
        Seq::empty()
    } else if dropped(a[i], b) {
        removals_from(a, b, path, i + 1).push(PatchM::RemoveChild { path, index: i as usize })
    } else {
        removals_from(a, b, path, i + 1)
    }
}

pub open spec fn then_prepend(p: Seq<PatchM>, r: Option<Seq<PatchM>>) -> Option<Seq<PatchM>> {
    match r {
        Some(s) => Some(p + s),
        None => None,
    }
}

/// Keyed reconciliation from new position `t` on, with `cur` the current
/// order of the children. For each new child in turn: an existing child
/// with its key is moved to position `t` (if not already there) and
/// reconciled; otherwise the new child is appended and moved to `t`.
/// `None` where a move would put a child past the end of the list.
pub open spec fn keyed_patches(cur: Seq<Node>, b: Elem, t: int, path: Seq<usize>) -> Option<Seq<PatchM>>
    decreases b, 0nat, b.children.len() - t,
{
    if t < 0 || t >= b.children.len() {
        Some(Seq::empty())
    } else {
        let nb = b.children[t];
        match find_key(cur, key_of(nb).unwrap(), 0) {
            Some(from) => {
                if from != t && t > cur.len() - 1 {
                    None
                } else {
                    let cur2 = if from != t {
                        cur.remove(from).insert(t, cur[from])
                    } else {
                        cur
                    };
                    let moves = if from != t {
                        seq![PatchM::MoveChild { path, from: from as usize, to: t as usize }]
                    } else {
                        Seq::empty()
                    };
                    match node_patches(cur2[t], nb, path.push(t as usize)) {
                        Some(ps) => then_prepend(moves + ps, keyed_patches(cur2, b, t + 1, path)),
                        None => None,
                    }
                }
            },
            None => {
                let at = cur.len() as int;
                if t > at {
                    None
                } else if at == t {
                    then_prepend(
                        seq![PatchM::Append { path, node: nb }],
                        keyed_patches(cur.push(nb), b, t + 1, path),
                    )
                } else {
                    then_prepend(
                        seq![
                            PatchM::Append { path, node: nb },
                            PatchM::MoveChild { path, from: at as usize, to: t as usize },
                        ],
                        keyed_patches(cur.insert(t, nb), b, t + 1, path),
                    )
                }
            },
        }
    }
}

pub open spec fn min_len(a: Elem, b: Elem) -> int {
    if a.children.len() < b.children.len() {
        a.children.len() as int
    } else {
        b.children.len() as int
    }
}

/// Index-aligned reconciliation of the common children from `i` on.
pub open spec fn aligned_patches(a: Elem, b: Elem, i: int, path: Seq<usize>) -> Option<Seq<PatchM>>
    decreases b, 0nat, min_len(a, b) - i,
{
    if i < 0 || i >= min_len(a, b) {
        Some(Seq::empty())
    } else {
        match node_patches(a.children[i], b.children[i], path.push(i as usize)) {
            Some(ps) => then_prepend(ps, aligned_patches(a, b, i + 1, path)),
            None => None,
        }
    }
}

/// `RemoveChild` for indices `hi - 1` down to `lo`.
pub open spec fn tail_removals(path: Seq<usize>, lo: int, hi: int) -> Seq<PatchM>
    decreases hi - lo,
{
    if lo >= hi {
        Seq::empty()
    } else {
        tail_removals(path, lo + 1, hi).push(PatchM::RemoveChild { path, index: lo as usize })
    }
}

/// `Append` for the nodes `b[lo..hi]`, in order.
pub open spec fn appends(b: Seq<Node>, lo: int, hi: int, path: Seq<usize>) -> Seq<PatchM>
    decreases hi - lo,
{
    if hi <= lo {
        Seq::empty()
    } else {
        appends(b, lo, hi - 1, path).push(PatchM::Append { path, node: b[hi - 1] })
    }
}

pub open spec fn children_patches(a: Elem, b: Elem, path: Seq<usize>) -> Option<Seq<PatchM>>
    decreases b, 1nat, 0int,
{
    if uses_keys(a.children, b.children) {
        then_prepend(
            removals_from(a.children, b.children, path, 0),
            keyed_patches(kept_from(a.children, b.children, 0), b, 0, path),
        )
    } else {
        match aligned_patches(a, b, 0, path) {
            Some(ps) => Some(
                ps + tail_removals(path, min_len(a, b), a.children.len() as int) + appends(
                    b.children,
                    min_len(a, b),
                    b.children.len() as int,
                    path,
                ),
            ),
            None => None,
        }
    }
}

/// The patches for the node at `path`: text nodes get `SetText` when their
/// text differs; elements with the same tag get attribute patches and then
/// their children's; anything else is replaced by the new node.
pub open spec fn node_patches(old: Node, new: Node, path: Seq<usize>) -> Option<Seq<PatchM>>
    decreases new, 2nat, 0int,
{
    match new {
        Node::Text(tb) => match old {
            Node::Text(ta) => Some(
                if ta == tb {
                    Seq::empty()
                } else {
                    seq![PatchM::SetText { path, text: tb }]
                },
            ),
            Node::Element(_) => Some(seq![PatchM::Replace { path, node: new }]),
        },
        Node::Element(eb) => match old {
            Node::Element(ea) => if ea.tag == eb.tag {
                then_prepend(attr_patches(ea.attrs, eb.attrs, path), children_patches(ea, eb, path))
            } else {
                Some(seq![PatchM::Replace { path, node: new }])
            },
            Node::Text(_) => Some(seq![PatchM::Replace { path, node: new }]),
        },
    }
}

/// The patches from `old` to `new`, or `None` where keyed reconciliation
/// cannot place a child (only possible when sibling keys repeat).
pub open spec fn reconcile(old: Node, new: Node) -> Option<Seq<PatchM>> {
    node_patches(old, new, Seq::empty())
}

// ---------------------------------------------------------------------------
// Executable reconciliation
// ---------------------------------------------------------------------------

pub open spec fn ref_models(s: Seq<&VNode>) -> Seq<Node> {
    s.map_values(|r: &VNode| r.model())
}

pub open spec fn opt_str_model(o: Option<&String>) -> Option<Seq<char>> {
    match o {
        Some(s) => Some(s@),
        None => None,
    }
}

fn emit(out: &mut Vec<Patch>, p: Patch)
    ensures
        patch_models(final(out)@) == patch_models(old(out)@).push(p.model()),
{
    let ghost o = out@;
    out.push(p);
    assert(patch_models(out@) =~= patch_models(o).push(p.model()));
}

fn copy_path(p: &Vec<usize>) -> (r: Vec<usize>)
    ensures
        r@ == p@,
{
    let mut r: Vec<usize> = Vec::new();
    let mut i: usize = 0;
    while i < p.len()
        invariant
            i <= p.len(),
            r@ == p@.subrange(0, i as int),
        decreases p.len() - i,
    {
        r.push(p[i]);
        i = i + 1;
        assert(r@ =~= p@.subrange(0, i as int));
    }
    assert(p@.subrange(0, p.len() as int) =~= p@);
    r
}

fn child_path(p: &Vec<usize>, i: usize) -> (r: Vec<usize>)
    ensures
        r@ == p@.push(i),
{
    let mut r = copy_path(p);
    r.push(i);
    r
}

fn node_key(n: &VNode) -> (r: Option<&String>)
    ensures
        opt_str_model(r) == key_of(n.model()),
{
    match n {
        VNode::Element(e) => match &e.key {
            Some(k) => Some(k),
            None => None,
        },
        VNode::Text(_) => None,
    }
}

fn all_keyed(v: &Vec<VNode>) -> (r: bool)
    ensures
        r == all_have_keys(node_models(v@)),
{
    proof {
        lemma_node_models_index(v@);
    }
    let mut i: usize = 0;
    while i < v.len()
        invariant
            i <= v.len(),
            node_models(v@).len() == v@.len(),
            forall|j: int| 0 <= j < v@.len() ==> #[trigger] node_models(v@)[j] == v@[j].model(),
            forall|j: int| 0 <= j < i ==> (#[trigger] key_of(node_models(v@)[j])) is Some,
        decreases v.len() - i,
    {
        if node_key(&v[i]).is_none() {
            assert(key_of(node_models(v@)[i as int]) is None);
            return false;
        }
        i = i + 1;
    }
    true
}

proof fn lemma_find_key_skip(s: Seq<Node>, k: Seq<char>, i: int, j: int)
    requires
        0 <= i <= j <= s.len(),
        forall|m: int| i <= m < j ==> key_of(#[trigger] s[m]) != Some(k),
    ensures
        find_key(s, k, i) == find_key(s, k, j),
    decreases j - i,
{
    if i < j {
        lemma_find_key_skip(s, k, i + 1, j);
    }
}

fn find_key_in_nodes(s: &Vec<VNode>, k: &String) -> (r: Option<usize>)
    ensures
        match find_key(node_models(s@), k@, 0) {
            Some(j) => r == Some(j as usize),
            None => r is None,
        },
{
    proof {
        lemma_node_models_index(s@);
    }
    let ghost m = node_models(s@);
    let mut i: usize = 0;
    while i < s.len()
        invariant
            i <= s.len(),
            m == node_models(s@),
            m.len() == s@.len(),
            forall|j: int| 0 <= j < s@.len() ==> #[trigger] m[j] == s@[j].model(),
            find_key(m, k@, 0) == find_key(m, k@, i as int),
        decreases s.len() - i,
    {
        let kk = node_key(&s[i]);
        match kk {
            Some(x) => {
                if *x == *k {
                    return Some(i);
                }
            },
            None => {},
        }
        proof {
            lemma_find_key_skip(m, k@, i as int, i + 1);
        }
        i = i + 1;
    }
    None
}

fn find_key_in_refs(s: &Vec<&VNode>, k: &String) -> (r: Option<usize>)
    ensures
        match find_key(ref_models(s@), k@, 0) {
            Some(j) => r == Some(j as usize),
            None => r is None,
        },
{
    let ghost m = ref_models(s@);
    let mut i: usize = 0;
    while i < s.len()
        invariant
            i <= s.len(),
            m == ref_models(s@),
            find_key(m, k@, 0) == find_key(m, k@, i as int),
        decreases s.len() - i,
    {
        let kk = node_key(s[i]);
        match kk {
            Some(x) => {
                if *x == *k {
                    return Some(i);
                }
            },
            None => {},
        }
        proof {
            lemma_find_key_skip(m, k@, i as int, i + 1);
        }
        i = i + 1;
    }
    None
}

/// Copies a node, children included.
pub fn copy_node(n: &VNode) -> (r: VNode)
    ensures
        r.model() == n.model(),
    decreases n, 1nat,
{
    match n {
        VNode::Text(t) => VNode::Text(t.clone()),
        VNode::Element(e) => {
            proof {
                assert(decreases_to!(*n => (*n)->Element_0));
            }
            VNode::Element(copy_element(e))
        },
    }
}

/// Copies an element, children included.
pub fn copy_element(e: &VElement) -> (r: VElement)
    ensures
        r.model() == e.model(),
    decreases e, 0nat,
{
    let mut attrs: Vec<(String, String)> = Vec::new();
    let mut i: usize = 0;
    while i < e.attrs.len()
        invariant
            i <= e.attrs.len(),
            attrs@.len() == i,
            forall|m: int|
                0 <= m < i ==> (#[trigger] attrs@[m]).0@ == e.attrs@[m].0@ && attrs@[m].1@
                    == e.attrs@[m].1@,
        decreases e.attrs.len() - i,
    {
        attrs.push((e.attrs[i].0.clone(), e.attrs[i].1.clone()));
        i = i + 1;
    }
    assert(attrs_model(attrs@) =~= attrs_model(e.attrs@));
    let key = match &e.key {
        Some(k) => Some(k.clone()),
        None => None,
    };
    let mut children: Vec<VNode> = Vec::new();
    proof {
        lemma_node_models_index(e.children@);
    }
    let mut j: usize = 0;
    while j < e.children.len()
        invariant
            j <= e.children.len(),
            node_models(e.children@).len() == e.children@.len(),
            forall|m: int| 0 <= m < e.children@.len() ==> #[trigger] node_models(e.children@)[m] == e.children@[m].model(),
            node_models(children@) == node_models(e.children@).subrange(0, j as int),
        decreases e.children.len() - j,
    {
        proof {
            assert(decreases_to!(e.children@ => e.children@[j as int]));
            assert(decreases_to!(e.children => e.children@));
            assert(decreases_to!(*e => e.children));
        }
        let c = copy_node(&e.children[j]);
        proof {
            lemma_node_models_push(children@, c);
        }
        children.push(c);
        j = j + 1;
        assert(node_models(children@) =~= node_models(e.children@).subrange(0, j as int));
    }
    assert(node_models(e.children@).subrange(0, e.children.len() as int) =~= node_models(e.children@));
    VElement { tag: e.tag.clone(), attrs, key, children }
}

/// Copies a patch.
pub fn copy_patch(p: &Patch) -> (r: Patch)
    ensures
        r.model() == p.model(),
{
    match p {
        Patch::Replace { path, node } => Patch::Replace { path: copy_path(path), node: copy_node(node) },
        Patch::SetText { path, text } => Patch::SetText { path: copy_path(path), text: text.clone() },
        Patch::SetAttr { path, name, value } => Patch::SetAttr {
            path: copy_path(path),
            name: name.clone(),
            value: value.clone(),
        },
        Patch::RemoveAttr { path, name } => Patch::RemoveAttr { path: copy_path(path), name: name.clone() },
        Patch::Append { path, node } => Patch::Append { path: copy_path(path), node: copy_node(node) },
        Patch::RemoveChild { path, index } => Patch::RemoveChild { path: copy_path(path), index: *index },
        Patch::MoveChild { path, from, to } => Patch::MoveChild { path: copy_path(path), from: *from, to: *to },
    }
}

fn last_value_of<'a>(attrs: &'a Vec<(String, String)>, k: &String) -> (r: Option<&'a String>)
    ensures
        opt_str_model(r) == last_value(attrs_model(attrs@), k@),
{
    let ghost am = attrs_model(attrs@);
    let mut i: usize = attrs.len();
    assert(am.subrange(0, attrs.len() as int) =~= am);
    while i > 0
        invariant
            i <= attrs.len(),
            am == attrs_model(attrs@),
            last_value(am, k@) == last_value(am.subrange(0, i as int), k@),
        decreases i,
    {
        let ghost sub = am.subrange(0, i as int);
        assert(sub.drop_last() =~= am.subrange(0, i - 1));
        if attrs[i - 1].0 == *k {
            return Some(&attrs[i - 1].1);
        }
        i = i - 1;
    }
    assert(am.subrange(0, 0) =~= Seq::<(Seq<char>, Seq<char>)>::empty());
    None
}

pub open spec fn strs_model(s: Seq<String>) -> Seq<Seq<char>> {
    s.map_values(|x: String| x@)
}

fn contains_str(v: &Vec<String>, k: &String) -> (r: bool)
    ensures
        r == strs_model(v@).contains(k@),
{
    let mut i: usize = 0;
    while i < v.len()
        invariant
            i <= v.len(),
            forall|j: int| 0 <= j < i ==> strs_model(v@)[j] != k@,
        decreases v.len() - i,
    {
        if v[i] == *k {
            assert(strs_model(v@)[i as int] == k@);
            return true;
        }
        i = i + 1;
    }
    false
}

fn names_of(attrs: &Vec<(String, String)>) -> (r: Vec<String>)
    ensures
        strs_model(r@) == names(attrs_model(attrs@)),
{
    let ghost am = attrs_model(attrs@);
    let mut r: Vec<String> = Vec::new();
    let mut i: usize = 0;
    assert(am.subrange(0, 0) =~= Seq::<(Seq<char>, Seq<char>)>::empty());
    assert(strs_model(r@) =~= Seq::<Seq<char>>::empty());
    while i < attrs.len()
        invariant
            i <= attrs.len(),
            am == attrs_model(attrs@),
            strs_model(r@) == names(am.subrange(0, i as int)),
        decreases attrs.len() - i,
    {
        assert(am.subrange(0, i + 1).drop_last() =~= am.subrange(0, i as int));
        if !contains_str(&r, &attrs[i].0) {
            let ghost before = r@;
            r.push(attrs[i].0.clone());
            assert(strs_model(r@) =~= strs_model(before).push(attrs@[i as int].0@));
        }
        i = i + 1;
    }
    assert(am.subrange(0, attrs.len() as int) =~= am);
    r
}

proof fn lemma_names_valued(a: Seq<(Seq<char>, Seq<char>)>)
    ensures
        forall|m: int| 0 <= m < a.len() ==> #[trigger] names(a).contains(a[m].0),
        forall|x: Seq<char>| #[trigger] names(a).contains(x) ==> last_value(a, x) is Some,
    decreases a.len(),
{
    if a.len() > 0 {
        let d = a.drop_last();
        let r = names(d);
        lemma_names_valued(d);
        assert(names(a) == (if r.contains(a.last().0) { r } else { r.push(a.last().0) }));
        assert forall|x: Seq<char>| r.contains(x) implies #[trigger] names(a).contains(x) by {
            if !r.contains(a.last().0) {
                let j = choose|j: int| 0 <= j < r.len() && r[j] == x;
                assert(r.push(a.last().0)[j] == x);
            }
        }
        assert(names(a).contains(a.last().0)) by {
            if !r.contains(a.last().0) {
                assert(r.push(a.last().0)[r.len() as int] == a.last().0);
            }
        }
        assert forall|m: int| 0 <= m < a.len() implies #[trigger] names(a).contains(a[m].0) by {
            if m < a.len() - 1 {
                assert(d[m] == a[m]);
                assert(r.contains(d[m].0));
            }
        }
        assert forall|x: Seq<char>| #[trigger] names(a).contains(x) implies last_value(a, x) is Some by {
            if x != a.last().0 {
                if !r.contains(a.last().0) {
                    let j = choose|j: int| 0 <= j < r.len() + 1 && r.push(a.last().0)[j] == x;
                    assert(j < r.len());
                    assert(r[j] == x);
                }
                assert(r.contains(x));
            }
        }
    }
}

fn same_value(x: Option<&String>, y: Option<&String>) -> (r: bool)
    ensures
        r == (opt_str_model(x) == opt_str_model(y)),
{
    match (x, y) {
        (Some(a), Some(b)) => *a == *b,
        (None, None) => true,
        _ => false,
    }
}

fn diff_attrs(a: &VElement, b: &VElement, path: &Vec<usize>, out: &mut Vec<Patch>)
    ensures
        patch_models(final(out)@) == patch_models(old(out)@) + attr_patches(
            attrs_model(a.attrs@),
            attrs_model(b.attrs@),
            path@,
        ),
{
    let ghost oa = attrs_model(a.attrs@);
    let ghost na = attrs_model(b.attrs@);
    let ghost o = patch_models(out@);
    let new_names = names_of(&b.attrs);
    let ghost nk = strs_model(new_names@);
    proof {
        lemma_names_valued(na);
    }
    let mut i: usize = 0;
    assert(nk.subrange(0, 0) =~= Seq::<Seq<char>>::empty());
    assert(patch_models(out@) =~= o + set_attr_patches(oa, na, nk.subrange(0, 0), path@));
    while i < new_names.len()
        invariant
            i <= new_names.len(),
            oa == attrs_model(a.attrs@),
            na == attrs_model(b.attrs@),
            nk == strs_model(new_names@),
            nk == names(na),
            forall|m: int| 0 <= m < na.len() ==> #[trigger] names(na).contains(na[m].0),
            forall|x: Seq<char>| #[trigger] names(na).contains(x) ==> last_value(na, x) is Some,
            patch_models(out@) == o + set_attr_patches(oa, na, nk.subrange(0, i as int), path@),
        decreases new_names.len() - i,
    {
        let k = &new_names[i];
        let ov = last_value_of(&a.attrs, k);
        let nv = last_value_of(&b.attrs, k);
        assert(nk.subrange(0, i + 1).drop_last() =~= nk.subrange(0, i as int));
        assert(nk.subrange(0, i + 1).last() == k@);
        if !same_value(ov, nv) {
            assert(nk.contains(k@)) by {
                assert(nk[i as int] == k@);
            }
            let v = nv.unwrap();
            emit(out, Patch::SetAttr { path: copy_path(path), name: k.clone(), value: v.clone() });
        }
        i = i + 1;
        assert(patch_models(out@) =~= o + set_attr_patches(oa, na, nk.subrange(0, i as int), path@));
    }
    assert(nk.subrange(0, new_names.len() as int) =~= nk);
    let ghost o2 = patch_models(out@);
    let old_names = names_of(&a.attrs);
    let ghost ok = strs_model(old_names@);
    let mut j: usize = 0;
    assert(ok.subrange(0, 0) =~= Seq::<Seq<char>>::empty());
    assert(patch_models(out@) =~= o2 + remove_attr_patches(na, ok.subrange(0, 0), path@));
    while j < old_names.len()
        invariant
            j <= old_names.len(),
            na == attrs_model(b.attrs@),
            ok == strs_model(old_names@),
            patch_models(out@) == o2 + remove_attr_patches(na, ok.subrange(0, j as int), path@),
        decreases old_names.len() - j,
    {
        let k = &old_names[j];
        let nv = last_value_of(&b.attrs, k);
        assert(ok.subrange(0, j + 1).drop_last() =~= ok.subrange(0, j as int));
        if nv.is_none() {
            emit(out, Patch::RemoveAttr { path: copy_path(path), name: k.clone() });
        }
        j = j + 1;
        assert(patch_models(out@) =~= o2 + remove_attr_patches(na, ok.subrange(0, j as int), path@));
    }
    assert(ok.subrange(0, old_names.len() as int) =~= ok);
}

proof fn lemma_find_key_bound(s: Seq<Node>, k: Seq<char>, i: int)
    ensures
        match find_key(s, k, i) {
            Some(j) => i <= j < s.len() && key_of(s[j]) == Some(k),
            None => true,
        },
    decreases s.len() - i,
{
    if 0 <= i < s.len() && key_of(s[i]) != Some(k) {
        lemma_find_key_bound(s, k, i + 1);
    }
}

fn diff_node(prev: &VNode, next: &VNode, path: &Vec<usize>, out: &mut Vec<Patch>) -> (ok: bool)
    ensures
        ok == node_patches(prev.model(), next.model(), path@) is Some,
        ok ==> patch_models(final(out)@) == patch_models(old(out)@) + node_patches(
            prev.model(),
            next.model(),
            path@,
        )->0,
    decreases next, 2nat,
{
    let ghost o = patch_models(out@);
    match next {
        VNode::Text(tb) => {
            match prev {
                VNode::Text(ta) => {
                    if !(*ta == *tb) {
                        emit(out, Patch::SetText { path: copy_path(path), text: tb.clone() });
                    }
                },
                VNode::Element(_) => {
                    emit(out, Patch::Replace { path: copy_path(path), node: copy_node(next) });
                },
            }
            assert(patch_models(out@) =~= o + node_patches(prev.model(), next.model(), path@)->0);
            true
        },
        VNode::Element(eb) => {
            match prev {
                VNode::Element(ea) => {
                    if ea.tag == eb.tag {
                        diff_attrs(ea, eb, path, out);
                        let ghost o2 = patch_models(out@);
                        proof {
                            assert(decreases_to!(*next => (*next)->Element_0));
                        }
                        let ok = diff_children(ea, eb, path, out);
                        if ok {
                            assert(patch_models(out@) =~= o + node_patches(prev.model(), next.model(), path@)->0);
                        }
                        ok
                    } else {
                        emit(out, Patch::Replace { path: copy_path(path), node: copy_node(next) });
                        assert(patch_models(out@) =~= o + node_patches(prev.model(), next.model(), path@)->0);
                        true
                    }
                },
                VNode::Text(_) => {
                    emit(out, Patch::Replace { path: copy_path(path), node: copy_node(next) });
                    assert(patch_models(out@) =~= o + node_patches(prev.model(), next.model(), path@)->0);
                    true
                },
            }
        },
    }
}

fn diff_children(a: &VElement, b: &VElement, path: &Vec<usize>, out: &mut Vec<Patch>) -> (ok: bool)
    ensures
        ok == children_patches(a.model(), b.model(), path@) is Some,
        ok ==> patch_models(final(out)@) == patch_models(old(out)@) + children_patches(
            a.model(),
            b.model(),
            path@,
        )->0,
    decreases b, 1nat,
{
    let ghost o = patch_models(out@);
    let ghost am = a.model();
    let ghost bm = b.model();
    proof {
        lemma_node_models_index(a.children@);
        lemma_node_models_index(b.children@);
    }
    let keyed = b.children.len() > 0 && all_keyed(&b.children) && all_keyed(&a.children);
    if keyed {
        keyed_children(a, b, path, out)
    } else {
        let common = if a.children.len() < b.children.len() {
            a.children.len()
        } else {
            b.children.len()
        };
        let mut i: usize = 0;
        while i < common
            invariant
                am == a.model(),
                bm == b.model(),
                common == min_len(am, bm),
                !uses_keys(am.children, bm.children),
                i <= common,
                common <= a.children.len(),
                common <= b.children.len(),
                node_models(a.children@).len() == a.children@.len(),
                node_models(b.children@).len() == b.children@.len(),
                forall|m: int| 0 <= m < a.children@.len() ==> #[trigger] node_models(a.children@)[m] == a.children@[m].model(),
                forall|m: int| 0 <= m < b.children@.len() ==> #[trigger] node_models(b.children@)[m] == b.children@[m].model(),
                aligned_patches(am, bm, 0, path@) == then_prepend(
                    patch_models(out@).subrange(o.len() as int, patch_models(out@).len() as int),
                    aligned_patches(am, bm, i as int, path@),
                ),
                patch_models(out@).len() >= o.len(),
                patch_models(out@).subrange(0, o.len() as int) == o,
            decreases common - i,
        {
            let cp = child_path(path, i);
            proof {
                assert(decreases_to!(b.children@ => b.children@[i as int]));
                assert(decreases_to!(b.children => b.children@));
                assert(decreases_to!(*b => b.children));
            }
            let ghost before = patch_models(out@);
            let ok = diff_node(&a.children[i], &b.children[i], &cp, out);
            if !ok {
                assert(aligned_patches(am, bm, i as int, path@) is None);
                return false;
            }
            proof {
                let now = patch_models(out@);
                let ps = node_patches(am.children[i as int], bm.children[i as int], path@.push(i));
                assert(now =~= before + ps->0);
                assert(now.subrange(0, o.len() as int) =~= o);
                assert(now.subrange(o.len() as int, now.len() as int) =~= before.subrange(
                    o.len() as int,
                    before.len() as int,
                ) + ps->0);
            }
            i = i + 1;
        }
        let ghost mid = patch_models(out@);
        assert(aligned_patches(am, bm, i as int, path@) == Some(Seq::<PatchM>::empty()));
        assert(mid.subrange(o.len() as int, mid.len() as int) + Seq::<PatchM>::empty() =~= mid.subrange(
            o.len() as int,
            mid.len() as int,
        ));
        let mut j: usize = a.children.len();
        while j > common
            invariant
                common <= j <= a.children.len(),
                patch_models(out@) == mid + tail_removals(path@, j as int, a.children.len() as int),
            decreases j,
        {
            emit(out, Patch::RemoveChild { path: copy_path(path), index: j - 1 });
            j = j - 1;
        }
        let ghost mid2 = patch_models(out@);
        let mut k: usize = common;
        assert(appends(bm.children, common as int, common as int, path@) =~= Seq::<PatchM>::empty());
        while k < b.children.len()
            invariant
                bm == b.model(),
                common <= k <= b.children.len(),
                node_models(b.children@).len() == b.children@.len(),
                forall|m: int| 0 <= m < b.children@.len() ==> #[trigger] node_models(b.children@)[m] == b.children@[m].model(),
                patch_models(out@) == mid2 + appends(bm.children, common as int, k as int, path@),
            decreases b.children.len() - k,
        {
            emit(out, Patch::Append { path: copy_path(path), node: copy_node(&b.children[k]) });
            k = k + 1;
            assert(patch_models(out@) =~= mid2 + appends(bm.children, common as int, k as int, path@));
        }
        proof {
            let fin = patch_models(out@);
            assert(fin =~= o + children_patches(am, bm, path@)->0);
        }
        true
    }
}

proof fn lemma_then_prepend_assoc(e: Seq<PatchM>, s: Seq<PatchM>, x: Option<Seq<PatchM>>)
    ensures
        then_prepend(e, then_prepend(s, x)) == then_prepend(e + s, x),
{
    match x {
        Some(r) => {
            assert(e + (s + r) =~= (e + s) + r);
        },
        None => {},
    }
}

/// One step of keyed reconciliation where the new child's key is found at
/// `from` in the current order.
proof fn lemma_keyed_found_step(cm: Seq<Node>, bm: Elem, t: int, path: Seq<usize>, from: int)
    requires
        0 <= t < bm.children.len(),
        find_key(cm, key_of(bm.children[t]).unwrap(), 0) == Some(from),
        !(from != t && t > cm.len() - 1),
    ensures
        ({
            let cm2 = if from != t { cm.remove(from).insert(t, cm[from]) } else { cm };
            let moves = if from != t {
                seq![PatchM::MoveChild { path, from: from as usize, to: t as usize }]
            } else {
                Seq::<PatchM>::empty()
            };
            keyed_patches(cm, bm, t, path) == match node_patches(cm2[t], bm.children[t], path.push(t as usize)) {
                Some(ps) => then_prepend(moves + ps, keyed_patches(cm2, bm, t + 1, path)),
                None => None,
            }
        }),
{
}

#[verifier::rlimit(60)]
#[verifier::spinoff_prover]
fn keyed_children(a: &VElement, b: &VElement, path: &Vec<usize>, out: &mut Vec<Patch>) -> (ok: bool)
    requires
        uses_keys(a.model().children, b.model().children),
    ensures
        ok == children_patches(a.model(), b.model(), path@) is Some,
        ok ==> patch_models(final(out)@) == patch_models(old(out)@) + children_patches(
            a.model(),
            b.model(),
            path@,
        )->0,
    decreases b, 0nat,
{
    let ghost o = patch_models(out@);
    let ghost am = a.model();
    let ghost bm = b.model();
    let ghost ac = am.children;
    let ghost bc = bm.children;
    proof {
        lemma_node_models_index(a.children@);
        lemma_node_models_index(b.children@);
    }
    // The current order of the children, as the patches so far leave it.
    let mut cur: Vec<&VNode> = Vec::new();
    let mut i: usize = 0;
    while i < a.children.len()
        invariant
            i <= a.children.len(),
            ac == node_models(a.children@),
            ac.len() == a.children@.len(),
            forall|m: int| 0 <= m < a.children@.len() ==> #[trigger] ac[m] == a.children@[m].model(),
            ref_models(cur@) == ac.subrange(0, i as int),
            cur@.len() == i,
        decreases a.children.len() - i,
    {
        let ghost before = cur@;
        let r = &a.children[i];
        assert(*r == a.children@[i as int]);
        cur.push(r);
        assert(cur@[i as int].model() == ac[i as int]);
        assert(ref_models(cur@) =~= ref_models(before).push(ac[i as int]));
        i = i + 1;
        assert(ref_models(cur@) =~= ac.subrange(0, i as int));
    }
    // Old children whose key no new child carries go first, last first.
    let mut i: usize = a.children.len();
    assert(ac.subrange(0, i as int) + kept_from(ac, bc, i as int) =~= ac.subrange(0, i as int));
    assert(patch_models(out@) =~= o + removals_from(ac, bc, path@, i as int));
    while i > 0
        invariant
            i <= a.children.len(),
            ac == node_models(a.children@),
            ac.len() == a.children@.len(),
            bc == node_models(b.children@),
            bc.len() == b.children@.len(),
            all_have_keys(ac),
            ref_models(cur@) == ac.subrange(0, i as int) + kept_from(ac, bc, i as int),
            patch_models(out@) == o + removals_from(ac, bc, path@, i as int),
        decreases i,
    {
        let ghost cm = ref_models(cur@);
        assert(cm.len() == cur@.len());
        assert(cm.len() >= i);
        i = i - 1;
        assert(cm[i as int] == ac[i as int]);
        assert(cm[i as int] == cur@[i as int].model());
        assert(key_of(ac[i as int]) is Some);
        let k = node_key(cur[i]).unwrap();
        let found = find_key_in_nodes(&b.children, k);
        if found.is_none() {
            emit(out, Patch::RemoveChild { path: copy_path(path), index: i });
            cur.remove(i);
            assert(ref_models(cur@) =~= cm.remove(i as int));
            assert(ac.subrange(0, i as int) + kept_from(ac, bc, i as int) =~= cm.remove(i as int));
        } else {
            assert(ac.subrange(0, i as int) + kept_from(ac, bc, i as int) =~= cm);
        }
        assert(patch_models(out@) =~= o + removals_from(ac, bc, path@, i as int));
    }
    assert(ref_models(cur@) =~= kept_from(ac, bc, 0));
    let ghost c0 = ref_models(cur@);
    let ghost base = patch_models(out@);
    let mut t: usize = 0;
    assert(base.subrange(base.len() as int, base.len() as int) =~= Seq::<PatchM>::empty());
    assert(base.subrange(0, base.len() as int) =~= base);
    assert(then_prepend(Seq::<PatchM>::empty(), keyed_patches(c0, bm, 0, path@)) == keyed_patches(
        c0,
        bm,
        0,
        path@,
    )) by {
        match keyed_patches(c0, bm, 0, path@) {
            Some(r) => {
                assert(Seq::<PatchM>::empty() + r =~= r);
            },
            None => {},
        }
    }
    while t < b.children.len()
        invariant
            t <= b.children.len(),
            bm == b.model(),
            bc == bm.children,
            bc == node_models(b.children@),
            bc.len() == b.children@.len(),
            forall|m: int| 0 <= m < b.children@.len() ==> #[trigger] bc[m] == b.children@[m].model(),
            all_have_keys(bc),
            am == a.model(),
            ac == am.children,
            uses_keys(ac, bc),
            c0 == kept_from(ac, bc, 0),
            base == o + removals_from(ac, bc, path@, 0),
            patch_models(out@).len() >= base.len(),
            patch_models(out@).subrange(0, base.len() as int) == base,
            keyed_patches(c0, bm, 0, path@) == then_prepend(
                patch_models(out@).subrange(base.len() as int, patch_models(out@).len() as int),
                keyed_patches(ref_models(cur@), bm, t as int, path@),
            ),
        decreases b.children.len() - t,
    {
        let nb = &b.children[t];
        assert(key_of(bc[t as int]) is Some);
        let k = node_key(nb).unwrap();
        let ghost cm = ref_models(cur@);
        let ghost before = patch_models(out@);
        let ghost done = before.subrange(base.len() as int, before.len() as int);
        proof {
            lemma_find_key_bound(cm, k@, 0);
        }
        let cur_len = cur.len();
        assert(cm.len() == cur_len);
        assert(nb.model() == bc[t as int]);
        assert(k@ == key_of(bc[t as int]).unwrap());
        match find_key_in_refs(&cur, k) {
            Some(from) => {
                assert(find_key(cm, k@, 0) == Some(from as int));
                let ghost cm2 = if from != t {
                    cm.remove(from as int).insert(t as int, cm[from as int])
                } else {
                    cm
                };
                let ghost moves = if from != t {
                    seq![PatchM::MoveChild { path: path@, from, to: t }]
                } else {
                    Seq::<PatchM>::empty()
                };
                if from != t {
                    if t > cur.len() - 1 {
                        return false;
                    }
                    emit(out, Patch::MoveChild { path: copy_path(path), from, to: t });
                    let n = cur.remove(from);
                    cur.insert(t, n);
                    assert(ref_models(cur@) =~= cm2);
                }
                assert(patch_models(out@) =~= before + moves);
                let cp = child_path(path, t);
                proof {
                    assert(decreases_to!(b.children@ => b.children@[t as int]));
                    assert(decreases_to!(b.children => b.children@));
                    assert(decreases_to!(*b => b.children));
                }
                proof {
                    lemma_keyed_found_step(cm, bm, t as int, path@, from as int);
                }
                let ok = diff_node(cur[t], nb, &cp, out);
                if !ok {
                    return false;
                }
                proof {
                    let ps = node_patches(cm2[t as int], bc[t as int], path@.push(t))->0;
                    let now = patch_models(out@);
                    assert(now =~= before + moves + ps);
                    assert(keyed_patches(cm, bm, t as int, path@) == then_prepend(
                        moves + ps,
                        keyed_patches(cm2, bm, t + 1, path@),
                    ));
                    lemma_then_prepend_assoc(done, moves + ps, keyed_patches(cm2, bm, t + 1, path@));
                    assert(now.subrange(0, base.len() as int) =~= base);
                    assert(now.subrange(base.len() as int, now.len() as int) =~= done + (moves + ps));
                }
            },
            None => {
                emit(out, Patch::Append { path: copy_path(path), node: copy_node(nb) });
                let at = cur.len();
                cur.push(nb);
                if at != t {
                    if t > at {
                        return false;
                    }
                    emit(out, Patch::MoveChild { path: copy_path(path), from: at, to: t });
                    let n = cur.remove(at);
                    cur.insert(t, n);
                    proof {
                        let step = seq![
                            PatchM::Append { path: path@, node: bc[t as int] },
                            PatchM::MoveChild { path: path@, from: at, to: t },
                        ];
                        let now = patch_models(out@);
                        assert(ref_models(cur@) =~= cm.insert(t as int, bc[t as int]));
                        assert(now =~= before + step);
                        lemma_then_prepend_assoc(done, step, keyed_patches(cm.insert(t as int, bc[t as int]), bm, t + 1, path@));
                        assert(now.subrange(0, base.len() as int) =~= base);
                        assert(now.subrange(base.len() as int, now.len() as int) =~= done + step);
                    }
                } else {
                    proof {
                        let step = seq![PatchM::Append { path: path@, node: bc[t as int] }];
                        let now = patch_models(out@);
                        assert(ref_models(cur@) =~= cm.push(bc[t as int]));
                        assert(now =~= before + step);
                        lemma_then_prepend_assoc(done, step, keyed_patches(cm.push(bc[t as int]), bm, t + 1, path@));
                        assert(now.subrange(0, base.len() as int) =~= base);
                        assert(now.subrange(base.len() as int, now.len() as int) =~= done + step);
                    }
                }
            },
        }
        t = t + 1;
    }
    proof {
        let now = patch_models(out@);
        let done = now.subrange(base.len() as int, now.len() as int);
        assert(keyed_patches(ref_models(cur@), bm, t as int, path@) == Some(Seq::<PatchM>::empty()));
        assert(done + Seq::<PatchM>::empty() =~= done);
        assert(now =~= base + done);
        assert(now =~= o + (removals_from(ac, bc, path@, 0) + done));
    }
    true
}

/// Reconciles `old` into `new`: the patches of [`reconcile`], or `None`
/// where keyed reconciliation cannot place a child.
pub fn try_diff(old: &VNode, new: &VNode) -> (r: Option<Vec<Patch>>)
    ensures
        match reconcile(old.model(), new.model()) {
            Some(ps) => r matches Some(v) && patch_models(v@) == ps,
            None => r is None,
        },
{
    let mut out: Vec<Patch> = Vec::new();
    let path: Vec<usize> = Vec::new();
    assert(patch_models(out@) =~= Seq::<PatchM>::empty());
    assert(path@ =~= Seq::<usize>::empty());
    if diff_node(old, new, &path, &mut out) {
        assert(patch_models(out@) =~= reconcile(old.model(), new.model())->0);
        Some(out)
    } else {
        None
    }
}

/// The patches that turn `old` into `new` (see [`reconcile`]).
pub fn diff(old: &VNode, new: &VNode) -> (ps: Vec<Patch>)
    requires
        reconcile(old.model(), new.model()) is Some,
    ensures
        patch_models(ps@) == reconcile(old.model(), new.model())->0,
{
    match try_diff(old, new) {
        Some(ps) => ps,
        None => Vec::new(),
    }
}

} // verus!
