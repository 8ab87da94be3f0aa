use open_runo::diff::{copy_node, diff, try_diff};
use open_runo::hooks::{handler_slot, render_patches, EffectLog, HandlerTable, RenderedTree};
use open_runo::render::render_html;
use open_runo::ssr::{escape_json_for_script, render_page, SsrPage};
use open_runo::vdom::{component, h, Patch, VNode};

fn li(k: &str, txt: &str) -> VNode {
    h("li").key(k).child(txt.into()).build()
}

struct Props {
    name: String,
}

#[test]
fn component_renders_props_to_vnode() {
    let hello = component(|p: &Props| h("h1").attr("class", "title").child(format!("Hello, {}", p.name).into()).build());
    let v = hello(&Props { name: "世界".into() });
    assert_eq!(render_html(&v), "<h1 class=\"title\">Hello, 世界</h1>");
}

#[test]
fn ssr_escapes_text_and_attrs() {
    let v = h("a").attr("href", "/?a=1&b=\"2\"").child("<b>&".into()).build();
    assert_eq!(render_html(&v), "<a href=\"/?a=1&amp;b=&quot;2&quot;\">&lt;b&gt;&amp;</a>");
}

#[test]
fn ssr_handles_void_elements() {
    let v = h("div").child(h("br").build()).build();
    assert_eq!(render_html(&v), "<div><br /></div>");
}

#[test]
fn diff_detects_text_and_attr_changes() {
    let old = h("p").attr("class", "a").child("x".into()).build();
    let new = h("p").attr("class", "b").attr("id", "p1").child("y".into()).build();
    let ps = diff(&old, &new);
    assert!(ps.contains(&Patch::SetAttr { path: vec![], name: "class".into(), value: "b".into() }));
    assert!(ps.contains(&Patch::SetAttr { path: vec![], name: "id".into(), value: "p1".into() }));
    assert!(ps.contains(&Patch::SetText { path: vec![0], text: "y".into() }));
}

#[test]
fn diff_replaces_on_tag_change() {
    let old = h("span").build();
    let new = h("div").build();
    let ps = diff(&old, &new);
    assert!(matches!(&ps[0], Patch::Replace { path, .. } if path.is_empty()));
}

/// Applies one patch the way a DOM applier would.
fn apply(root: &mut VNode, p: &Patch) {
    fn at<'a>(root: &'a mut VNode, path: &[usize]) -> &'a mut VNode {
        let mut n = root;
        for &i in path {
            n = match n {
                VNode::Element(e) => &mut e.children[i],
                _ => panic!("path into text"),
            };
        }
        n
    }
    match p {
        Patch::Replace { path, node } => *at(root, path) = copy_node(node),
        Patch::SetText { path, text } => {
            if let VNode::Text(t) = at(root, path) {
                *t = text.clone();
            }
        }
        Patch::SetAttr { path, name, value } => {
            if let VNode::Element(e) = at(root, path) {
                if let Some(kv) = e.attrs.iter_mut().find(|(k, _)| k == name) {
                    kv.1 = value.clone();
                } else {
                    e.attrs.push((name.clone(), value.clone()));
                }
            }
        }
        Patch::RemoveAttr { path, name } => {
            if let VNode::Element(e) = at(root, path) {
                e.attrs.retain(|(k, _)| k != name);
            }
        }
        Patch::Append { path, node } => {
            if let VNode::Element(e) = at(root, path) {
                e.children.push(copy_node(node));
            }
        }
        Patch::RemoveChild { path, index } => {
            if let VNode::Element(e) = at(root, path) {
                e.children.remove(*index);
            }
        }
        Patch::MoveChild { path, from, to } => {
            if let VNode::Element(e) = at(root, path) {
                let n = e.children.remove(*from);
                e.children.insert(*to, n);
            }
        }
    }
}

#[test]
fn keyed_diff_patches_transform_old_into_new() {
    let old = h("ul").children(vec![li("a", "A"), li("b", "B"), li("c", "C"), li("d", "D")]).build();
    let new = h("ul").children(vec![li("d", "D"), li("c", "C2"), li("e", "E"), li("a", "A")]).build();
    let ps = diff(&old, &new);
    let mut cur = copy_node(&old);
    for p in &ps {
        apply(&mut cur, p);
    }
    assert_eq!(cur, new, "applying keyed patches must reproduce the new tree");
    assert!(ps.iter().all(|p| !matches!(p, Patch::Replace { path, .. } if path.is_empty())));
}

#[test]
fn unkeyed_diff_patches_transform_old_into_new() {
    let old = h("div").children(vec!["a".into(), "b".into(), "c".into()]).build();
    let new = h("div").children(vec!["a".into(), "x".into()]).build();
    let ps = diff(&old, &new);
    let mut cur = copy_node(&old);
    for p in &ps {
        apply(&mut cur, p);
    }
    assert_eq!(cur, new);
}

#[test]
fn keyed_diff_emits_removal_move_and_append_in_order() {
    let old = h("ul").children(vec![li("a", "A"), li("b", "B")]).build();
    let new = h("ul").children(vec![li("b", "B"), li("c", "C")]).build();
    let ps = diff(&old, &new);
    assert_eq!(
        ps,
        vec![
            Patch::RemoveChild { path: vec![], index: 0 },
            Patch::Append { path: vec![], node: li("c", "C") },
        ]
    );
}

#[test]
fn repeated_keys_that_cannot_be_placed_are_reported() {
    let old = h("ul").children(vec![li("x", "1")]).build();
    let new = h("ul").children(vec![li("x", "1"), li("x", "2")]).build();
    assert!(try_diff(&old, &new).is_none());
}

#[test]
fn attribute_removal_and_unchanged_trees() {
    let old = h("p").attr("class", "a").attr("id", "z").build();
    let new = h("p").attr("id", "z").build();
    assert_eq!(diff(&old, &new), vec![Patch::RemoveAttr { path: vec![], name: "class".into() }]);
    assert_eq!(diff(&new, &new), vec![]);
}

#[test]
fn event_handlers_render_as_data_attributes() {
    let v = h("button").on("click", 7).child("go".into()).build();
    assert_eq!(render_html(&v), "<button data-orv-click=\"7\">go</button>");
}

#[test]
fn renders_full_page_with_body_and_title_escaped() {
    let body = h("main").child("こんにちは".into()).build();
    let html = render_page(&SsrPage { title: "A<B>&C", ..SsrPage::default_for(&body) });
    assert!(html.starts_with("<!DOCTYPE html>"));
    assert!(html.contains("<title>A&lt;B&gt;&amp;C</title>"));
    assert!(html.contains("<div id=\"open-runo-root\"><main>こんにちは</main></div>"));
    assert!(!html.contains("__OPEN_RUNO_STATE__"));
}

#[test]
fn hydration_json_is_script_injection_safe() {
    let body = h("div").build();
    let evil = r#"{"x":"</script><script>alert(1)</script>"}"#;
    let html = render_page(&SsrPage { hydration_json: Some(evil), ..SsrPage::default_for(&body) });
    assert!(!html.contains("</script><script>alert"), "raw </script> must not survive: {html}");
    assert!(html.contains(r#"\u003c/script>"#), "escaped form must be present: {html}");
    assert!(html.contains("window.__OPEN_RUNO_STATE__ = {"));
}

#[test]
fn ssr_output_matches_what_client_would_mount() {
    let body = h("ul").child(h("li").key("a").attr("class", "x").child("A".into()).build()).build();
    let html = render_page(&SsrPage::default_for(&body));
    let inner = render_html(&body);
    assert!(html.contains(&format!("<div id=\"open-runo-root\">{inner}</div>")));
}

#[test]
fn script_escaping_replaces_every_angle_bracket() {
    assert_eq!(escape_json_for_script("<a><b>"), "\\u003ca>\\u003cb>");
}

#[test]
fn root_id_quotes_are_escaped() {
    let body = h("i").build();
    let html = render_page(&SsrPage { root_id: "a\"b", ..SsrPage::default_for(&body) });
    assert!(html.contains("<div id=\"a&quot;b\">"));
}

#[test]
fn first_render_mounts_and_later_renders_patch() {
    let first = h("span").child("count=0".into()).build();
    let p1 = render_patches(None, &first).unwrap();
    assert!(matches!(&p1[..], [Patch::Replace { path, .. }] if path.is_empty()));
    let second = h("span").child("count=1".into()).build();
    let p2 = render_patches(Some(&first), &second).unwrap();
    assert_eq!(p2, vec![Patch::SetText { path: vec![0], text: "count=1".into() }]);
}

#[test]
fn effects_run_on_first_render_and_on_dependency_change_only() {
    let mut log = EffectLog::new();
    assert!(log.record(0, Some(1)));
    assert!(!log.record(0, Some(1)));
    assert!(log.record(0, Some(2)));
    assert!(log.record(0, None));
    assert!(log.record(0, None));
}

#[test]
fn unknown_handler_ids_name_no_slot() {
    assert_eq!(handler_slot(2, 1), Some(1));
    assert_eq!(handler_slot(2, 999), None);
    assert_eq!(handler_slot(0, 0), None);
}

/// The attributes of every element of a tree, by name (later ones win, as
/// when a browser sets them in order), with the tree's shape and texts.
fn page_of(n: &VNode) -> String {
    match n {
        VNode::Text(t) => format!("T({t})"),
        VNode::Element(e) => {
            let mut attrs = std::collections::BTreeMap::new();
            for (k, v) in &e.attrs {
                attrs.insert(k.clone(), v.clone());
            }
            let kids: Vec<String> = e.children.iter().map(page_of).collect();
            format!("E({}, {:?}, [{}])", e.tag, attrs, kids.join(","))
        }
    }
}

#[test]
fn patches_rebuild_the_new_page_whatever_the_attribute_order() {
    let old = h("div").attr("a", "1").attr("b", "2").children(vec![li("k1", "x"), li("k2", "y")]).build();
    let new = h("div")
        .attr("b", "2")
        .attr("c", "3")
        .attr("a", "1")
        .children(vec![li("k2", "y"), h("li").key("k3").attr("z", "9").build(), li("k1", "x2")])
        .build();
    let ps = diff(&old, &new);
    let mut cur = copy_node(&old);
    for p in &ps {
        apply(&mut cur, p);
    }
    assert_eq!(page_of(&cur), page_of(&new));
    assert_ne!(cur, new, "attribute order is not part of the page");
}

#[test]
fn an_unchanged_tree_needs_no_patches() {
    let t = h("ul")
        .attr("class", "list")
        .child(li("a", "one"))
        .child(li("b", "two"))
        .child(h("p").child("plain".into()).build())
        .build();
    assert!(diff(&t, &t).is_empty());
    assert!(diff(&t, &copy_node(&t)).is_empty());
    let unkeyed = h("div").child("x".into()).child(h("span").attr("id", "s").build()).build();
    assert!(diff(&unkeyed, &copy_node(&unkeyed)).is_empty());
}

#[test]
fn cloned_trees_and_patches_are_equal_to_their_originals() {
    let tree = h("ul").attr("class", "list").key("root").children(vec![li("a", "one"), li("b", "two")]).build();
    assert_eq!(tree.clone(), tree);
    if let VNode::Element(e) = &tree {
        assert_eq!(e.clone(), *e);
    }
    let patches = diff(&tree, &h("ul").attr("class", "other").children(vec![li("b", "two")]).build());
    assert!(!patches.is_empty());
    let copies: Vec<Patch> = patches.iter().map(|p| p.clone()).collect();
    assert_eq!(copies, patches);
}

#[test]
fn handler_ids_are_registration_positions_and_stay_across_renders() {
    let mut table: HandlerTable<&str> = HandlerTable::new();
    assert_eq!(table.register(0, "first render: save"), 0);
    assert_eq!(table.register(1, "first render: cancel"), 1);
    assert_eq!(table.register(0, "second render: save"), 0);
    assert_eq!(table.register(1, "second render: cancel"), 1);
    assert_eq!(table.get(0), Some(&"second render: save"));
    assert_eq!(table.get(1), Some(&"second render: cancel"));
    assert_eq!(table.get(2), None);
}

#[test]
fn a_committed_render_sends_the_tree_then_its_changes() {
    let mut rendered = RenderedTree::new();
    assert!(rendered.tree().is_none());
    let first = h("ul").children(vec![li("a", "one")]).build();
    let sent = rendered.commit(first.clone()).unwrap();
    assert_eq!(sent, vec![Patch::Replace { path: vec![], node: first.clone() }]);
    assert_eq!(rendered.tree(), Some(&first));
    let second = h("ul").children(vec![li("a", "one"), li("b", "two")]).build();
    let sent = rendered.commit(second.clone()).unwrap();
    assert_eq!(sent, render_patches(Some(&first), &second).unwrap());
    assert!(!sent.is_empty());
    assert_eq!(rendered.tree(), Some(&second));
    assert_eq!(rendered.commit(second.clone()).unwrap(), vec![]);
}
