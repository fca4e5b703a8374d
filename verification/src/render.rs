//! Text forms of a document for drawing tools: the DOT form of the graph,
//! and what a drawing of a node needs to know of it.

use crate::ast::{Document, DocumentView, EdgeView, NodeView};
use crate::text::{chars_of, has_at, has_prefix_at, same_chars};
use vstd::prelude::*;
use vstd::string::*;

verus! {

/// `s` with a backslash put before each double quote.
pub open spec fn escape_quotes(s: Seq<char>) -> Seq<char>
    decreases s.len(),
{
    if s.len() == 0 {
        Seq::empty()
    } else if s.last() == '"' {
        escape_quotes(s.drop_last()) + seq!['\\', '"']
    } else {
        escape_quotes(s.drop_last()).push(s.last())
    }
}

/// The DOT statement for a node: its identifier and its label.
pub open spec fn dot_node(n: NodeView) -> Seq<char> {
    "  "@ + n.id + " [label=\""@ + escape_quotes(n.label) + "\"];\n"@
}

/// The DOT statement for an edge. Both kinds of edge are drawn alike.
pub open spec fn dot_edge(e: EdgeView) -> Seq<char> {
    "  "@ + e.from + " -> "@ + e.to + ";\n"@
}

/// The DOT statements for `nodes`, in their order.
pub open spec fn dot_nodes(nodes: Seq<NodeView>) -> Seq<char>
    decreases nodes.len(),
{
    if nodes.len() == 0 {
        Seq::empty()
    } else {
        dot_nodes(nodes.drop_last()) + dot_node(nodes.last())
    }
}

/// The DOT statements for `edges`, in their order.
pub open spec fn dot_edges(edges: Seq<EdgeView>) -> Seq<char>
    decreases edges.len(),
{
    if edges.len() == 0 {
        Seq::empty()
    } else {
        dot_edges(edges.drop_last()) + dot_edge(edges.last())
    }
}

/// The DOT form of a document: a directed graph named `G`, the nodes and
/// then the edges, one statement on each line.
pub open spec fn dot_of(doc: DocumentView) -> Seq<char> {
    "digraph G{\n"@ + dot_nodes(doc.nodes) + dot_edges(doc.edges) + "}\n"@
}

fn push_escaped_quotes(out: &mut String, text: &str)
    ensures
        final(out)@ == old(out)@ + escape_quotes(text@),
{
    let chars = chars_of(text);
    let mut k: usize = 0;
    while k < chars.len()
        invariant
            chars@ == text@,
            k <= chars.len(),
            out@ =~= old(out)@ + escape_quotes(text@.take(k as int)),
        decreases chars.len() - k,
    {
        let ghost upto = text@.take(k + 1);
        assert(upto.drop_last() =~= text@.take(k as int));
        if chars[k] == '"' {
            out.push('\\');
        }
        out.push(chars[k]);
        k += 1;
    }
    assert(text@.take(k as int) =~= text@);
}

/// The DOT form of `doc`.
pub fn render_dot(doc: &Document) -> (out: String)
    ensures
        out@ == dot_of(doc@),
{
    let mut out = String::from_str("digraph G{\n");
    let ghost head = out@;
    let mut k: usize = 0;
    while k < doc.nodes.len()
        invariant
            k <= doc.nodes.len(),
            head == "digraph G{\n"@,
            out@ =~= head + dot_nodes(doc@.nodes.take(k as int)),
        decreases doc.nodes.len() - k,
    {
        let n = &doc.nodes[k];
        let ghost upto = doc@.nodes.take(k + 1);
        assert(upto.drop_last() =~= doc@.nodes.take(k as int));
        assert(upto.last() == n@);
        out.append("  ");
        out.append(n.id.as_str());
        out.append(" [label=\"");
        push_escaped_quotes(&mut out, n.label.as_str());
        out.append("\"];\n");
        k += 1;
    }
    assert(doc@.nodes.take(k as int) =~= doc@.nodes);
    let ghost middle = out@;
    let mut k: usize = 0;
    while k < doc.edges.len()
        invariant
            k <= doc.edges.len(),
            middle == head + dot_nodes(doc@.nodes),
            out@ =~= middle + dot_edges(doc@.edges.take(k as int)),
        decreases doc.edges.len() - k,
    {
        let e = &doc.edges[k];
        let ghost upto = doc@.edges.take(k + 1);
        assert(upto.drop_last() =~= doc@.edges.take(k as int));
        assert(upto.last() == e@);
        out.append("  ");
        out.append(e.from.as_str());
        out.append(" -> ");
        out.append(e.to.as_str());
        out.append(";\n");
        k += 1;
    }
    assert(doc@.edges.take(k as int) =~= doc@.edges);
    out.append("}\n");
    out
}

/// What stands for `c` in marked-up text: an entity for the ampersand and
/// for the two angle brackets, and `c` itself otherwise.
pub open spec fn html_entity(c: char) -> Seq<char> {
    if c == '&' {
        "&amp;"@
    } else if c == '<' {
        "&lt;"@
    } else if c == '>' {
        "&gt;"@
    } else {
        seq![c]
    }
}

/// `s` with each character replaced by what stands for it in marked-up
/// text.
pub open spec fn html_escaped(s: Seq<char>) -> Seq<char>
    decreases s.len(),
{
    if s.len() == 0 {
        Seq::empty()
    } else {
        html_escaped(s.drop_last()) + html_entity(s.last())
    }
}

/// `s`, made safe to stand in marked-up text.
pub fn htmlesc(s: &str) -> (out: String)
    ensures
        out@ == html_escaped(s@),
{
    let chars = chars_of(s);
    let mut out = String::new();
    let mut k: usize = 0;
    while k < chars.len()
        invariant
            chars@ == s@,
            k <= chars.len(),
            out@ =~= html_escaped(s@.take(k as int)),
        decreases chars.len() - k,
    {
        let ghost upto = s@.take(k + 1);
        assert(upto.drop_last() =~= s@.take(k as int));
        let c = chars[k];
        if c == '&' {
            out.append("&amp;");
        } else if c == '<' {
            out.append("&lt;");
        } else if c == '>' {
            out.append("&gt;");
        } else {
            out.push(c);
        }
        k += 1;
    }
    assert(s@.take(k as int) =~= s@);
    out
}

/// `c` in lower case, where it is an upper-case ASCII letter.
pub open spec fn ascii_lower(c: char) -> char {
    if 'A' <= c && c <= 'Z' {
        ((c as u8) + 32) as char
    } else {
        c
    }
}

/// `s` with its upper-case ASCII letters in lower case.
pub open spec fn ascii_lowercase(s: Seq<char>) -> Seq<char> {
    Seq::new(s.len(), |k: int| ascii_lower(s[k]))
}

/// Whether `p` stands somewhere in `s`.
pub open spec fn occurs_in(s: Seq<char>, p: Seq<char>) -> bool {
    exists|i: int| #[trigger] has_at(s, i, p)
}

/// Whether `s` ends with `c`.
pub open spec fn ends_with_char(s: Seq<char>, c: char) -> bool {
    s.len() > 0 && s.last() == c
}

/// How a node is drawn: the name of a shape, a fill colour and a stroke
/// colour.
pub ghost struct StyleView {
    pub shape: Seq<char>,
    pub fill: Seq<char>,
    pub stroke: Seq<char>,
}

/// Whether a node with this identifier and this label, in lower case, ends
/// a flow.
pub open spec fn is_terminal(id: Seq<char>, lower: Seq<char>) -> bool {
    has_at(id, 0, "end"@) || occurs_in(lower, "done"@) || occurs_in(lower, "success"@)
        || occurs_in(lower, "fail"@)
}

/// Whether a node with this label, in lower case, asks a question.
pub open spec fn is_decision(lower: Seq<char>) -> bool {
    occurs_in(lower, "? "@) || ends_with_char(lower, '?') || occurs_in(lower, "?\""@)
}

/// Whether a node with this label, in lower case, holds data.
pub open spec fn is_storage(lower: Seq<char>) -> bool {
    occurs_in(lower, "data"@) || occurs_in(lower, "store"@) || occurs_in(lower, "queue"@)
        || occurs_in(lower, "persist"@)
}

/// Whether a node with this label, in lower case, stands for a failure.
pub open spec fn is_failure(lower: Seq<char>) -> bool {
    occurs_in(lower, "error"@) || occurs_in(lower, "dead letter"@)
}

/// How the node with this label and this identifier is drawn. The first
/// rule that applies decides: the node `start`; a node that ends a flow;
/// one that asks a question; one that holds data; one that stands for a
/// failure; any other node.
pub open spec fn style_of(label: Seq<char>, id: Seq<char>) -> StyleView {
    let lower = ascii_lowercase(label);
    if id == "start"@ {
        StyleView { shape: "stadium"@, fill: "#e6ffe6"@, stroke: "#2e7d32"@ }
    } else if is_terminal(id, lower) {
        StyleView { shape: "stadium"@, fill: "#eeeeee"@, stroke: "#424242"@ }
    } else if is_decision(lower) {
        StyleView { shape: "diamond"@, fill: "#fff9c4"@, stroke: "#f9a825"@ }
    } else if is_storage(lower) {
        StyleView { shape: "cylinder"@, fill: "#e3f2fd"@, stroke: "#1565c0"@ }
    } else if is_failure(lower) {
        StyleView { shape: "rect"@, fill: "#ffebee"@, stroke: "#c62828"@ }
    } else {
        StyleView { shape: "rect"@, fill: "#ffffff"@, stroke: "#333333"@ }
    }
}

fn lowercase_chars(s: &str) -> (out: Vec<char>)
    ensures
        out@ == ascii_lowercase(s@),
{
    let chars = chars_of(s);
    let mut out: Vec<char> = Vec::new();
    let mut k: usize = 0;
    while k < chars.len()
        invariant
            chars@ == s@,
            k <= chars.len(),
            out@ =~= ascii_lowercase(s@).take(k as int),
        decreases chars.len() - k,
    {
        let c = chars[k];
        if c >= 'A' && c <= 'Z' {
            out.push(((c as u8) + 32) as char);
        } else {
            out.push(c);
        }
        k += 1;
    }
    out
}

fn contains(hay: &Vec<char>, needle: &str) -> (b: bool)
    ensures
        b == occurs_in(hay@, needle@),
{
    let p = chars_of(needle);
    let mut i: usize = 0;
    while i < hay.len()
        invariant
            p@ == needle@,
            i <= hay.len(),
            forall|j: int| 0 <= j < i ==> !has_at(hay@, j, p@),
        decreases hay.len() - i,
    {
        if has_prefix_at(hay, i, &p) {
            return true;
        }
        i += 1;
    }
    has_prefix_at(hay, i, &p)
}

/// How the node with this label and this identifier is drawn: the name of
/// its shape, its fill colour and its stroke colour.
pub fn kind_of(label: &str, id: &str) -> (style: (&'static str, &'static str, &'static str))
    ensures
        (StyleView { shape: style.0@, fill: style.1@, stroke: style.2@ }) == style_of(label@, id@),
{
    let lower = lowercase_chars(label);
    let name = chars_of(id);
    let n = lower.len();
    if same_chars(&name, &chars_of("start")) {
        return ("stadium", "#e6ffe6", "#2e7d32");
    }
    if has_prefix_at(&name, 0, &chars_of("end")) || contains(&lower, "done") || contains(
        &lower,
        "success",
    ) || contains(&lower, "fail") {
        ("stadium", "#eeeeee", "#424242")
    } else if contains(&lower, "? ") || (n > 0 && lower[n - 1] == '?') || contains(
        &lower,
        "?\"",
    ) {
        ("diamond", "#fff9c4", "#f9a825")
    } else if contains(&lower, "data") || contains(&lower, "store") || contains(&lower, "queue")
        || contains(&lower, "persist") {
        ("cylinder", "#e3f2fd", "#1565c0")
    } else if contains(&lower, "error") || contains(&lower, "dead letter") {
        ("rect", "#ffebee", "#c62828")
    } else {
        ("rect", "#ffffff", "#333333")
    }
}

} // verus!
