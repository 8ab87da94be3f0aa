//! Virtual DOM: nodes, a builder, keyed reconciliation ([`diff`]) producing
//! [`Patch`]es, and server-side rendering to HTML ([`render_html`]).
//!
//! A node's position is the list of child indices from the root. `diff`
//! compares an old and a new tree: same-tag elements are patched in place
//! (attributes, then children), anything else is replaced. Children are
//! reconciled by key when every old and new child carries one (removals,
//! moves and appends), and by index otherwise.
use vstd::prelude::*;
use crate::text::{string_push, u64_chars, write_u64};

verus! {

broadcast use vstd::seq_lib::group_seq_properties;

/// A virtual DOM node.
#[derive(Debug, PartialEq)]
pub enum VNode {
    Text(String),
    Element(VElement),
}

#[derive(Debug, PartialEq)]
pub struct VElement {
    pub tag: String,
    /// Attributes (class, id, href, ...), in the order they were added.
    pub attrs: Vec<(String, String)>,
    /// Identity among siblings, used by keyed reconciliation.
    pub key: Option<String>,
    pub children: Vec<VNode>,
}

/// A change that turns part of the old tree into the new one.
#[derive(Debug, PartialEq)]
pub enum Patch {
    /// Replace the node at `path` entirely.
    Replace { path: Vec<usize>, node: VNode },
    /// Change the content of the text node at `path`.
    SetText { path: Vec<usize>, text: String },
    /// Add or change an attribute of the element at `path`.
    SetAttr { path: Vec<usize>, name: String, value: String },
    /// Remove an attribute of the element at `path`.
    RemoveAttr { path: Vec<usize>, name: String },
    /// Append a child to the element at `path`.
    Append { path: Vec<usize>, node: VNode },
    /// Remove the `index`-th child of the element at `path`.
    RemoveChild { path: Vec<usize>, index: usize },
    /// Move the child at `from` to position `to` among the children of the
    /// element at `path`.
    MoveChild { path: Vec<usize>, from: usize, to: usize },
}

impl Clone for VNode {
    /// A deep copy: the same tree.
    fn clone(&self) -> (r: Self)
        ensures
            r.model() == self.model(),
    {
        crate::diff::copy_node(self)
    }
}

impl Clone for VElement {
    /// A deep copy: the same element, children included.
    fn clone(&self) -> (r: Self)
        ensures
            r.model() == self.model(),
    {
        crate::diff::copy_element(self)
    }
}

impl Clone for Patch {
    /// A deep copy: the same change.
    fn clone(&self) -> (r: Self)
        ensures
            r.model() == self.model(),
    {
        crate::diff::copy_patch(self)
    }
}

// ---------------------------------------------------------------------------
// Model
// ---------------------------------------------------------------------------

pub enum Node {
    Text(Seq<char>),
    Element(Elem),
}

pub struct Elem {
    pub tag: Seq<char>,
    pub attrs: Seq<(Seq<char>, Seq<char>)>,
    pub key: Option<Seq<char>>,
    pub children: Seq<Node>,
}

pub enum PatchM {
    Replace { path: Seq<usize>, node: Node },
    SetText { path: Seq<usize>, text: Seq<char> },
    SetAttr { path: Seq<usize>, name: Seq<char>, value: Seq<char> },
    RemoveAttr { path: Seq<usize>, name: Seq<char> },
    Append { path: Seq<usize>, node: Node },
    RemoveChild { path: Seq<usize>, index: usize },
    MoveChild { path: Seq<usize>, from: usize, to: usize },
}

pub open spec fn opt_model(o: Option<String>) -> Option<Seq<char>> {
    match o {
        Some(s) => Some(s@),
        None => None,
    }
}

pub open spec fn attrs_model(a: Seq<(String, String)>) -> Seq<(Seq<char>, Seq<char>)> {
    a.map_values(|p: (String, String)| (p.0@, p.1@))
}

impl VNode {
    pub open spec fn model(self) -> Node
        decreases self, 0nat,
    {
        match self {
            VNode::Text(t) => Node::Text(t@),
            VNode::Element(e) => Node::Element(e.model()),
        }
    }
}

impl VElement {
    pub open spec fn model(self) -> Elem
        decreases self, 0nat,
    {
        Elem {
            tag: self.tag@,
            attrs: attrs_model(self.attrs@),
            key: opt_model(self.key),
            children: node_models(self.children@),
        }
    }
}

pub open spec fn node_models(s: Seq<VNode>) -> Seq<Node>
    decreases s, 0nat,
{
    if s.len() == 0 {
        Seq::empty()
    } else {
        node_models(s.drop_last()).push(s.last().model())
    }
}

impl Patch {
    pub open spec fn model(self) -> PatchM {
        match self {
            Patch::Replace { path, node } => PatchM::Replace { path: path@, node: node.model() },
            Patch::SetText { path, text } => PatchM::SetText { path: path@, text: text@ },
            Patch::SetAttr { path, name, value } => PatchM::SetAttr {
                path: path@,
                name: name@,
                value: value@,
            },
            Patch::RemoveAttr { path, name } => PatchM::RemoveAttr { path: path@, name: name@ },
            Patch::Append { path, node } => PatchM::Append { path: path@, node: node.model() },
            Patch::RemoveChild { path, index } => PatchM::RemoveChild { path: path@, index },
            Patch::MoveChild { path, from, to } => PatchM::MoveChild { path: path@, from, to },
        }
    }
}

pub open spec fn patch_models(s: Seq<Patch>) -> Seq<PatchM> {
    s.map_values(|p: Patch| p.model())
}

pub proof fn lemma_node_models_index(s: Seq<VNode>)
    ensures
        node_models(s).len() == s.len(),
        forall|i: int| 0 <= i < s.len() ==> #[trigger] node_models(s)[i] == s[i].model(),
    decreases s.len(),
{
    if s.len() > 0 {
        lemma_node_models_index(s.drop_last());
    }
}

pub proof fn lemma_node_models_push(s: Seq<VNode>, x: VNode)
    ensures
        node_models(s.push(x)) == node_models(s).push(x.model()),
{
    assert(s.push(x).drop_last() =~= s);
}

// ---------------------------------------------------------------------------
// Builder
// ---------------------------------------------------------------------------

/// Starts an element with tag `tag` and no attributes, key or children.
pub fn h(tag: &str) -> (e: VElement)
    ensures
        e.model() == (Elem { tag: tag@, attrs: Seq::empty(), key: None, children: Seq::empty() }),
{
    let e = VElement { tag: tag.to_owned(), attrs: Vec::new(), key: None, children: Vec::new() };
    assert(attrs_model(e.attrs@) =~= Seq::empty());
    e
}

impl VElement {
    /// Adds attribute `k="v"` after the existing ones.
    pub fn attr(self, k: &str, v: &str) -> (r: Self)
        ensures
            r.model() == (Elem { attrs: self.model().attrs.push((k@, v@)), ..self.model() }),
    {
        let mut e = self;
        e.attrs.push((k.to_owned(), v.to_owned()));
        assert(attrs_model(e.attrs@) =~= attrs_model(self.attrs@).push((k@, v@)));
        e
    }

    /// Registers an event handler id: the attribute `data-orv-{event}` set
    /// to the id's decimal text, which the client-side delegate reads.
    pub fn on(self, event: &str, handler_id: u64) -> (r: Self)
        ensures
            r.model() == (Elem {
                attrs: self.model().attrs.push(
                    (seq!['d', 'a', 't', 'a', '-', 'o', 'r', 'v', '-'] + event@, u64_chars(handler_id)),
                ),
                ..self.model()
            }),
    {
        let mut name = String::new();
        string_push(&mut name, 'd');
        string_push(&mut name, 'a');
        string_push(&mut name, 't');
        string_push(&mut name, 'a');
        string_push(&mut name, '-');
        string_push(&mut name, 'o');
        string_push(&mut name, 'r');
        string_push(&mut name, 'v');
        string_push(&mut name, '-');
        name.append(event);
        let mut value = String::new();
        write_u64(handler_id, &mut value);
        assert(name@ =~= seq!['d', 'a', 't', 'a', '-', 'o', 'r', 'v', '-'] + event@);
        assert(value@ =~= u64_chars(handler_id));
        let mut e = self;
        e.attrs.push((name, value));
        assert(attrs_model(e.attrs@) =~= attrs_model(self.attrs@).push(
            (seq!['d', 'a', 't', 'a', '-', 'o', 'r', 'v', '-'] + event@, u64_chars(handler_id)),
        ));
        e
    }

    /// Sets the key that identifies this element among its siblings.
    pub fn key(self, k: &str) -> (r: Self)
        ensures
            r.model() == (Elem { key: Some(k@), ..self.model() }),
    {
        let mut e = self;
        e.key = Some(k.to_owned());
        e
    }

    /// Appends one child.
    pub fn child(self, c: VNode) -> (r: Self)
        ensures
            r.model() == (Elem { children: self.model().children.push(c.model()), ..self.model() }),
    {
        let mut e = self;
        proof {
            lemma_node_models_push(e.children@, c);
        }
        e.children.push(c);
        e
    }

    /// Appends several children, in order.
    pub fn children(self, cs: Vec<VNode>) -> (r: Self)
        ensures
            r.model() == (Elem { children: self.model().children + node_models(cs@), ..self.model() }),
    {
        let mut e = self;
        let mut cs = cs;
        proof {
            lemma_node_models_append(e.children@, cs@);
        }
        e.children.append(&mut cs);
        e
    }

    /// Finishes the element as a node.
    pub fn build(self) -> (n: VNode)
        ensures
            n.model() == Node::Element(self.model()),
    {
        VNode::Element(self)
    }
}

proof fn lemma_node_models_append(a: Seq<VNode>, b: Seq<VNode>)
    ensures
        node_models(a + b) == node_models(a) + node_models(b),
    decreases b.len(),
{
    if b.len() == 0 {
        assert(a + b =~= a);
        assert(node_models(b) =~= Seq::<Node>::empty());
        assert(node_models(a) + node_models(b) =~= node_models(a));
    } else {
        lemma_node_models_append(a, b.drop_last());
        assert((a + b).drop_last() =~= a + b.drop_last());
        assert((a + b).last() == b.last());
        assert(node_models(a) + node_models(b) =~= (node_models(a) + node_models(b.drop_last())).push(b.last().model()));
    }
}

impl<'a> From<&'a str> for VNode {
    /// A text node.
    fn from(s: &'a str) -> (r: VNode)
        ensures
            r.model() == Node::Text(s@),
    {
        VNode::Text(s.to_owned())
    }
}

impl<'a> vstd::std_specs::convert::FromSpecImpl<&'a str> for VNode {
    // The text is copied into a new `String`, which has no spec-level
    // constructor from `&str`; `from` states its result by its model instead.
    open spec fn obeys_from_spec() -> bool {
        false
    }

    open spec fn from_spec(s: &'a str) -> VNode {
        VNode::Text(arbitrary())
    }
}

impl From<String> for VNode {
    /// A text node.
    fn from(s: String) -> (r: VNode)
        ensures
            r.model() == Node::Text(s@),
    {
        VNode::Text(s)
    }
}

impl vstd::std_specs::convert::FromSpecImpl<String> for VNode {
    open spec fn obeys_from_spec() -> bool {
        true
    }

    open spec fn from_spec(s: String) -> VNode {
        VNode::Text(s)
    }
}

impl From<VElement> for VNode {
    fn from(e: VElement) -> (r: VNode)
        ensures
            r.model() == Node::Element(e.model()),
    {
        VNode::Element(e)
    }
}

impl vstd::std_specs::convert::FromSpecImpl<VElement> for VNode {
    open spec fn obeys_from_spec() -> bool {
        true
    }

    open spec fn from_spec(e: VElement) -> VNode {
        VNode::Element(e)
    }
}

} // verus!

verus! {

/// A function component: a pure function from props to a tree, called
/// directly to render (`component(f)(&props)`).
pub fn component<P, F: Fn(&P) -> VNode>(f: F) -> (r: F)
    ensures
        r == f,
{
    f
}

} // verus!
