//! Full-page server-side rendering with a hydration payload.
use vstd::prelude::*;
use crate::vdom::VNode;
use crate::render::{render_html, render_node, esc_text, escape_text};
use crate::text::{string_push, push_chars};

verus! {

/// What goes into a server-rendered page.
pub struct SsrPage<'a> {
    /// The `<title>`, escaped.
    pub title: &'a str,
    /// The tree rendered into the mount point.
    pub body: &'a VNode,
    /// The id of the mount point.
    pub root_id: &'a str,
    /// Initial state as JSON, embedded in a `<script>` (escaped here).
    pub hydration_json: Option<&'a str>,
    /// Extra `<head>` HTML, not escaped (trusted input only).
    pub head_extra: &'a str,
    /// Script tags and the like, not escaped (trusted input only).
    pub scripts: &'a str,
}

impl<'a> SsrPage<'a> {
    /// A page with no title, mounted at `open-runo-root`, with no
    /// hydration state or extras.
    pub fn default_for(body: &'a VNode) -> (r: Self)
        ensures
            r.title@ == Seq::<char>::empty(),
            *r.body == *body,
            r.root_id@ == "open-runo-root"@,
            r.hydration_json is None,
            r.head_extra@ == Seq::<char>::empty(),
            r.scripts@ == Seq::<char>::empty(),
    {
        proof {
            reveal_strlit("");
        }
        SsrPage { title: "", body, root_id: "open-runo-root", hydration_json: None, head_extra: "", scripts: "" }
    }
}

/// Text escaped for HTML into a new string.
pub fn escape_text_string(s: &str) -> (r: String)
    ensures
        r@ == esc_text(s@),
{
    let mut out = String::new();
    escape_text(s, &mut out);
    out
}

/// JSON made safe inside `<script>`: every `<` becomes `\u003c`, so no
/// `</script>` or `<!--` can appear.
pub open spec fn script_safe(json: Seq<char>) -> Seq<char>
    decreases json.len(),
{
    if json.len() == 0 {
        Seq::empty()
    } else {
        script_safe(json.drop_last()) + if json.last() == '<' {
            seq!['\\', 'u', '0', '0', '3', 'c']
        } else {
            seq![json.last()]
        }
    }
}

pub fn escape_json_for_script(json: &str) -> (r: String)
    ensures
        r@ == script_safe(json@),
{
    let mut out = String::new();
    broadcast use vstd::string::axiom_spec_iter;
    for c in it: json.chars()
        invariant
            it.seq() == json@,
            out@ == script_safe(it.seq().subrange(0, it.index() as int)),
    {
        let ghost i = it.index();
        assert(it.seq().subrange(0, i + 1).drop_last() =~= it.seq().subrange(0, i as int));
        if c == '<' {
            push_chars(&mut out, ['\\', 'u', '0', '0', '3', 'c'].as_slice());
        } else {
            string_push(&mut out, c);
        }
        assert(out@ =~= script_safe(it.seq().subrange(0, i + 1)));
    }
    assert(json@.subrange(0, json@.len() as int) =~= json@);
    out
}

/// `s` with every `"` replaced by `&quot;`.
pub open spec fn quote_escaped(s: Seq<char>) -> Seq<char>
    decreases s.len(),
{
    if s.len() == 0 {
        Seq::empty()
    } else {
        quote_escaped(s.drop_last()) + if s.last() == '"' {
            seq!['&', 'q', 'u', 'o', 't', ';']
        } else {
            seq![s.last()]
        }
    }
}

fn escape_quotes(s: &str) -> (r: String)
    ensures
        r@ == quote_escaped(s@),
{
    let mut out = String::new();
    broadcast use vstd::string::axiom_spec_iter;
    for c in it: s.chars()
        invariant
            it.seq() == s@,
            out@ == quote_escaped(it.seq().subrange(0, it.index() as int)),
    {
        let ghost i = it.index();
        assert(it.seq().subrange(0, i + 1).drop_last() =~= it.seq().subrange(0, i as int));
        if c == '"' {
            push_chars(&mut out, ['&', 'q', 'u', 'o', 't', ';'].as_slice());
        } else {
            string_push(&mut out, c);
        }
        assert(out@ =~= quote_escaped(it.seq().subrange(0, i + 1)));
    }
    assert(s@.subrange(0, s@.len() as int) =~= s@);
    out
}

/// The full document: doctype, head (charset, viewport, escaped title,
/// extras), the mount point holding the rendered body, the hydration
/// script when there is state, the scripts.
pub open spec fn page_text(
    title: Seq<char>,
    body_html: Seq<char>,
    root_id: Seq<char>,
    hydration_json: Option<Seq<char>>,
    head_extra: Seq<char>,
    scripts: Seq<char>,
) -> Seq<char> {
    "<!DOCTYPE html>\n<html>\n<head>\n<meta charset=\"utf-8\" />\n"@
        + "<meta name=\"viewport\" content=\"width=device-width, initial-scale=1\" />\n"@ + "<title>"@
        + esc_text(title) + "</title>\n"@ + head_extra + "</head>\n<body>\n<div id=\""@ + quote_escaped(root_id)
        + "\">"@ + body_html + "</div>\n"@ + match hydration_json {
        Some(j) => "<script>window.__OPEN_RUNO_STATE__ = "@ + script_safe(j) + ";</script>\n"@,
        None => Seq::empty(),
    } + scripts + "\n</body>\n</html>\n"@
}

pub fn render_page(page: &SsrPage) -> (r: String)
    ensures
        r@ == page_text(
            page.title@,
            render_node(page.body.model()),
            page.root_id@,
            match page.hydration_json {
                Some(j) => Some(j@),
                None => None,
            },
            page.head_extra@,
            page.scripts@,
        ),
{
    let mut s = "<!DOCTYPE html>\n<html>\n<head>\n<meta charset=\"utf-8\" />\n".to_owned();
    s.append("<meta name=\"viewport\" content=\"width=device-width, initial-scale=1\" />\n");
    s.append("<title>");
    s.append(escape_text_string(page.title).as_str());
    s.append("</title>\n");
    s.append(page.head_extra);
    s.append("</head>\n<body>\n<div id=\"");
    s.append(escape_quotes(page.root_id).as_str());
    s.append("\">");
    s.append(render_html(page.body).as_str());
    s.append("</div>\n");
    match page.hydration_json {
        Some(j) => {
            s.append("<script>window.__OPEN_RUNO_STATE__ = ");
            s.append(escape_json_for_script(j).as_str());
            s.append(";</script>\n");
        },
        None => {},
    }
    s.append(page.scripts);
    s.append("\n</body>\n</html>\n");
    assert(s@ =~= page_text(
        page.title@,
        render_node(page.body.model()),
        page.root_id@,
        match page.hydration_json {
            Some(j) => Some(j@),
            None => None,
        },
        page.head_extra@,
        page.scripts@,
    ));
    s
}

/// No `<` survives script escaping, so the embedded state cannot close
/// the script element or open a comment.
pub proof fn script_safe_has_no_lt(json: Seq<char>)
    ensures
        forall|i: int| 0 <= i < script_safe(json).len() ==> script_safe(json)[i] != '<',
    decreases json.len(),
{
    if json.len() > 0 {
        script_safe_has_no_lt(json.drop_last());
        let a = script_safe(json.drop_last());
        let b = if json.last() == '<' {
            seq!['\\', 'u', '0', '0', '3', 'c']
        } else {
            seq![json.last()]
        };
        assert forall|i: int| 0 <= i < script_safe(json).len() implies script_safe(json)[i] != '<' by {
            if i < a.len() {
                assert(script_safe(json)[i] == a[i]);
            } else {
                assert(script_safe(json)[i] == b[i - a.len()]);
            }
        }
    }
}

} // verus!
