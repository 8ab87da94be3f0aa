//! Server-side rendering of virtual trees to HTML.
use vstd::prelude::*;
use crate::text::{string_push, chars_string, push_chars};
use crate::vdom::{VNode, Node, attrs_model, node_models, lemma_node_models_index};

verus! {

/// Text content escaped for HTML: `&`, `<` and `>` become entities.
pub open spec fn esc_text(s: Seq<char>) -> Seq<char>
    decreases s.len(),
{
    if s.len() == 0 {
        Seq::empty()
    } else {
        let c = s.last();
        esc_text(s.drop_last()) + if c == '&' {
            seq!['&', 'a', 'm', 'p', ';']
        } else if c == '<' {
            seq!['&', 'l', 't', ';']
        } else if c == '>' {
            seq!['&', 'g', 't', ';']
        } else {
            seq![c]
        }
    }
}

pub fn escape_text(s: &str, out: &mut String)
    ensures
        final(out)@ == old(out)@ + esc_text(s@),
{
    let ghost o = out@;
    broadcast use vstd::string::axiom_spec_iter;
    for c in it: s.chars()
        invariant
            it.seq() == s@,
            out@ == o + esc_text(it.seq().subrange(0, it.index() as int)),
    {
        let ghost before = out@;
        let ghost i = it.index();
        assert(it.seq().subrange(0, i + 1).drop_last() =~= it.seq().subrange(0, i as int));
        if c == '&' {
            string_push(out, '&');
            string_push(out, 'a');
            string_push(out, 'm');
            string_push(out, 'p');
            string_push(out, ';');
        } else if c == '<' {
            string_push(out, '&');
            string_push(out, 'l');
            string_push(out, 't');
            string_push(out, ';');
        } else if c == '>' {
            string_push(out, '&');
            string_push(out, 'g');
            string_push(out, 't');
            string_push(out, ';');
        } else {
            string_push(out, c);
        }
        assert(out@ =~= o + esc_text(it.seq().subrange(0, i + 1)));
    }
    assert(s@.subrange(0, s@.len() as int) =~= s@);
}

/// An attribute value escaped for a double-quoted HTML attribute: `&`, `<`
/// and `"` become entities.
pub open spec fn esc_attr(s: Seq<char>) -> Seq<char>
    decreases s.len(),
{
    if s.len() == 0 {
        Seq::empty()
    } else {
        let c = s.last();
        esc_attr(s.drop_last()) + if c == '&' {
            seq!['&', 'a', 'm', 'p', ';']
        } else if c == '<' {
            seq!['&', 'l', 't', ';']
        } else if c == '"' {
            seq!['&', 'q', 'u', 'o', 't', ';']
        } else {
            seq![c]
        }
    }
}

pub fn escape_attr(s: &str, out: &mut String)
    ensures
        final(out)@ == old(out)@ + esc_attr(s@),
{
    let ghost o = out@;
    broadcast use vstd::string::axiom_spec_iter;
    for c in it: s.chars()
        invariant
            it.seq() == s@,
            out@ == o + esc_attr(it.seq().subrange(0, it.index() as int)),
    {
        let ghost i = it.index();
        assert(it.seq().subrange(0, i + 1).drop_last() =~= it.seq().subrange(0, i as int));
        if c == '&' {
            push_chars(out, ['&', 'a', 'm', 'p', ';'].as_slice());
        } else if c == '<' {
            push_chars(out, ['&', 'l', 't', ';'].as_slice());
        } else if c == '"' {
            push_chars(out, ['&', 'q', 'u', 'o', 't', ';'].as_slice());
        } else {
            string_push(out, c);
        }
        assert(out@ =~= o + esc_attr(it.seq().subrange(0, i + 1)));
    }
    assert(s@.subrange(0, s@.len() as int) =~= s@);
}

/// Elements written as a single self-closing tag, with no children.
pub open spec fn void_tag(t: Seq<char>) -> bool {
    ||| t == seq!['a', 'r', 'e', 'a']
    ||| t == seq!['b', 'a', 's', 'e']
    ||| t == seq!['b', 'r']
    ||| t == seq!['c', 'o', 'l']
    ||| t == seq!['e', 'm', 'b', 'e', 'd']
    ||| t == seq!['h', 'r']
    ||| t == seq!['i', 'm', 'g']
    ||| t == seq!['i', 'n', 'p', 'u', 't']
    ||| t == seq!['l', 'i', 'n', 'k']
    ||| t == seq!['m', 'e', 't', 'a']
    ||| t == seq!['s', 'o', 'u', 'r', 'c', 'e']
    ||| t == seq!['t', 'r', 'a', 'c', 'k']
    ||| t == seq!['w', 'b', 'r']
}

fn is_void_tag(t: &String) -> (r: bool)
    ensures
        r == void_tag(t@),
{
    *t == chars_string(['a', 'r', 'e', 'a'].as_slice())
        || *t == chars_string(['b', 'a', 's', 'e'].as_slice())
        || *t == chars_string(['b', 'r'].as_slice())
        || *t == chars_string(['c', 'o', 'l'].as_slice())
        || *t == chars_string(['e', 'm', 'b', 'e', 'd'].as_slice())
        || *t == chars_string(['h', 'r'].as_slice())
        || *t == chars_string(['i', 'm', 'g'].as_slice())
        || *t == chars_string(['i', 'n', 'p', 'u', 't'].as_slice())
        || *t == chars_string(['l', 'i', 'n', 'k'].as_slice())
        || *t == chars_string(['m', 'e', 't', 'a'].as_slice())
        || *t == chars_string(['s', 'o', 'u', 'r', 'c', 'e'].as_slice())
        || *t == chars_string(['t', 'r', 'a', 'c', 'k'].as_slice())
        || *t == chars_string(['w', 'b', 'r'].as_slice())
}

/// ` k="v"` for each attribute, in order, values escaped.
pub open spec fn render_attrs(a: Seq<(Seq<char>, Seq<char>)>) -> Seq<char>
    decreases a.len(),
{
    if a.len() == 0 {
        Seq::empty()
    } else {
        render_attrs(a.drop_last()) + seq![' '] + a.last().0 + seq!['=', '"'] + esc_attr(a.last().1)
            + seq!['"']
    }
}

/// The HTML of a node: text escaped; an element as its start tag with its
/// attributes, then either ` />` (void elements) or `>`, its children and
/// its end tag.
pub open spec fn render_node(n: Node) -> Seq<char>
    decreases n, 1nat,
{
    match n {
        Node::Text(t) => esc_text(t),
        Node::Element(e) => seq!['<'] + e.tag + render_attrs(e.attrs) + if void_tag(e.tag) {
            seq![' ', '/', '>']
        } else {
            seq!['>'] + render_nodes(e.children) + seq!['<', '/'] + e.tag + seq!['>']
        },
    }
}

pub open spec fn render_nodes(cs: Seq<Node>) -> Seq<char>
    decreases cs, 0nat,
{
    if cs.len() == 0 {
        Seq::empty()
    } else {
        proof {
            assert(decreases_to!(cs => cs.drop_last()));
        }
        render_nodes(cs.drop_last()) + render_node(cs.last())
    }
}

fn render_into(node: &VNode, out: &mut String)
    ensures
        final(out)@ == old(out)@ + render_node(node.model()),
    decreases node,
{
    let ghost o = out@;
    match node {
        VNode::Text(t) => escape_text(t.as_str(), out),
        VNode::Element(e) => {
            string_push(out, '<');
            out.append(e.tag.as_str());
            let ghost o1 = out@;
            let ghost am = attrs_model(e.attrs@);
            let mut i: usize = 0;
            assert(am.subrange(0, 0) =~= Seq::<(Seq<char>, Seq<char>)>::empty());
            while i < e.attrs.len()
                invariant
                    i <= e.attrs.len(),
                    am == attrs_model(e.attrs@),
                    out@ == o1 + render_attrs(am.subrange(0, i as int)),
                decreases e.attrs.len() - i,
            {
                string_push(out, ' ');
                out.append(e.attrs[i].0.as_str());
                string_push(out, '=');
                string_push(out, '"');
                escape_attr(e.attrs[i].1.as_str(), out);
                string_push(out, '"');
                assert(am.subrange(0, i + 1).drop_last() =~= am.subrange(0, i as int));
                i = i + 1;
                assert(out@ =~= o1 + render_attrs(am.subrange(0, i as int)));
            }
            assert(am.subrange(0, e.attrs.len() as int) =~= am);
            if is_void_tag(&e.tag) {
                string_push(out, ' ');
                string_push(out, '/');
                string_push(out, '>');
            } else {
                string_push(out, '>');
                let ghost o2 = out@;
                let ghost cm = node_models(e.children@);
                proof {
                    lemma_node_models_index(e.children@);
                }
                let mut j: usize = 0;
                assert(cm.subrange(0, 0) =~= Seq::<Node>::empty());
                while j < e.children.len()
                    invariant
                        *node == VNode::Element(*e),
                        j <= e.children.len(),
                        cm == node_models(e.children@),
                        cm.len() == e.children@.len(),
                        forall|m: int| 0 <= m < e.children@.len() ==> #[trigger] cm[m] == e.children@[m].model(),
                        out@ == o2 + render_nodes(cm.subrange(0, j as int)),
                    decreases e.children.len() - j,
                {
                    proof {
                        assert(decreases_to!(e.children@ => e.children@[j as int]));
                        assert(decreases_to!(e.children => e.children@));
                        assert(decreases_to!(*e => e.children));
                        assert(decreases_to!(*node => (*node)->Element_0));
                    }
                    render_into(&e.children[j], out);
                    assert(cm.subrange(0, j + 1).drop_last() =~= cm.subrange(0, j as int));
                    j = j + 1;
                    assert(out@ =~= o2 + render_nodes(cm.subrange(0, j as int)));
                }
                assert(cm.subrange(0, e.children.len() as int) =~= cm);
                string_push(out, '<');
                string_push(out, '/');
                out.append(e.tag.as_str());
                string_push(out, '>');
            }
            assert(out@ =~= o + render_node(node.model()));
        },
    }
}

/// The HTML of a tree (server-side rendering).
pub fn render_html(node: &VNode) -> (s: String)
    ensures
        s@ == render_node(node.model()),
{
    let mut s = String::new();
    render_into(node, &mut s);
    assert(s@ =~= render_node(node.model()));
    s
}

} // verus!
