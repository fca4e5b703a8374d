//! From a document back to source text: the canonical text of a document,
//! which the parser reads as that document again.

use crate::ast::{Direction, Document, DocumentView, EdgeKind, EdgeView, MetadataView, NodeView};
use crate::text::chars_of;
use vstd::prelude::*;
use vstd::string::*;

verus! {

/// Whether the character `c` of a label, followed in the label by `rest`,
/// is written with a backslash before it: a double quote always, and a
/// backslash where it would else be read as the start of an escape, that is
/// before a double quote, before a backslash, and at the end of the label.
pub open spec fn needs_escape(c: char, rest: Seq<char>) -> bool {
    c == '"' || (c == '\\' && (rest.len() == 0 || rest[0] == '"' || rest[0] == '\\'))
}

/// The label `x` as it is written between the quotes of a string literal.
pub open spec fn escape_label(x: Seq<char>) -> Seq<char>
    decreases x.len(),
{
    if x.len() == 0 {
        Seq::empty()
    } else if needs_escape(x[0], x.drop_first()) {
        seq!['\\', x[0]] + escape_label(x.drop_first())
    } else {
        seq![x[0]] + escape_label(x.drop_first())
    }
}

/// The line that gives the title: a comment that begins with the marker.
/// A document without a title has no such line.
pub open spec fn title_line(metadata: Option<MetadataView>) -> Seq<char> {
    match metadata {
        Some(MetadataView { title: Some(title), tags: _ }) => seq!['%', '%', ' '] + "Diagram:"@
            + seq![' '] + title + seq!['\n'],
        _ => Seq::empty(),
    }
}

/// The word that names a direction.
pub open spec fn direction_name(direction: Direction) -> Seq<char> {
    match direction {
        Direction::LR => seq!['L', 'R'],
        Direction::TD => seq!['T', 'D'],
    }
}

/// The direction line.
pub open spec fn direction_line(direction: Direction) -> Seq<char> {
    "direction"@ + seq![' '] + direction_name(direction) + seq!['\n']
}

/// The line that declares a node.
pub open spec fn node_line(n: NodeView) -> Seq<char> {
    n.id + seq!['[', '"'] + escape_label(n.label) + seq!['"', ']', '\n']
}

/// The arrow of an edge of this kind.
pub open spec fn arrow(kind: EdgeKind) -> Seq<char> {
    match kind {
        EdgeKind::Flow => seq!['-', '-', '>'],
        EdgeKind::Conditional => seq!['-', '.', '-', '>'],
    }
}

/// The line that declares an edge.
pub open spec fn edge_line(e: EdgeView) -> Seq<char> {
    e.from + arrow(e.kind) + e.to + seq!['\n']
}

/// The lines that declare the nodes from index `k` on.
pub open spec fn node_lines(nodes: Seq<NodeView>, k: int) -> Seq<char>
    decreases nodes.len() - k,
{
    if 0 <= k < nodes.len() {
        node_line(nodes[k]) + node_lines(nodes, k + 1)
    } else {
        Seq::empty()
    }
}

/// The lines that declare the edges from index `k` on.
pub open spec fn edge_lines(edges: Seq<EdgeView>, k: int) -> Seq<char>
    decreases edges.len() - k,
{
    if 0 <= k < edges.len() {
        edge_line(edges[k]) + edge_lines(edges, k + 1)
    } else {
        Seq::empty()
    }
}

/// The canonical text of a document: the title line, the direction line,
/// a line for each node and a line for each edge, with no white space but
/// the one space that the title line and the direction line need.
pub open spec fn source_of(doc: DocumentView) -> Seq<char> {
    title_line(doc.metadata) + direction_line(doc.direction) + node_lines(doc.nodes, 0)
        + edge_lines(doc.edges, 0)
}

fn push_label(out: &mut String, label: &str)
    ensures
        final(out)@ == old(out)@ + escape_label(label@),
{
    let chars = chars_of(label);
    let n = chars.len();
    let mut k: usize = 0;
    assert(label@.subrange(0, n as int) =~= label@);
    while k < n
        invariant
            chars@ == label@,
            n == chars.len(),
            k <= n,
            out@ + escape_label(label@.subrange(k as int, n as int)) =~= old(out)@ + escape_label(
                label@,
            ),
        decreases n - k,
    {
        let ghost rest = label@.subrange(k as int, n as int);
        assert(rest.drop_first() =~= label@.subrange(k + 1, n as int));
        assert(rest[0] == chars@[k as int]);
        let c = chars[k];
        let follows = k + 1 < n && (chars[k + 1] == '"' || chars[k + 1] == '\\');
        if c == '"' || (c == '\\' && (k + 1 == n || follows)) {
            out.push('\\');
        }
        out.push(c);
        k += 1;
    }
    assert(label@.subrange(n as int, n as int) =~= Seq::<char>::empty());
}

/// The canonical text of `doc`.
pub fn to_source(doc: &Document) -> (out: String)
    ensures
        out@ == source_of(doc@),
{
    let mut out = String::new();
    match &doc.metadata {
        Some(metadata) => match &metadata.title {
            Some(title) => {
                out.push('%');
                out.push('%');
                out.push(' ');
                out.append("Diagram:");
                out.push(' ');
                out.append(title.as_str());
                out.push('\n');
            },
            None => {},
        },
        None => {},
    }
    assert(out@ =~= title_line(doc@.metadata));
    out.append("direction");
    out.push(' ');
    match doc.directives.direction {
        Direction::LR => {
            out.push('L');
            out.push('R');
        },
        Direction::TD => {
            out.push('T');
            out.push('D');
        },
    }
    out.push('\n');
    let ghost head = out@;
    assert(head =~= title_line(doc@.metadata) + direction_line(doc@.direction));
    let mut k: usize = 0;
    while k < doc.nodes.len()
        invariant
            k <= doc.nodes.len(),
            out@ + node_lines(doc@.nodes, k as int) =~= head + node_lines(doc@.nodes, 0),
        decreases doc.nodes.len() - k,
    {
        let n = &doc.nodes[k];
        assert(doc@.nodes[k as int] == n@);
        let ghost before = out@;
        out.append(n.id.as_str());
        out.push('[');
        out.push('"');
        push_label(&mut out, n.label.as_str());
        out.push('"');
        out.push(']');
        out.push('\n');
        assert(out@ =~= before + node_line(n@));
        k += 1;
    }
    let ghost middle = out@;
    let mut k: usize = 0;
    while k < doc.edges.len()
        invariant
            k <= doc.edges.len(),
            middle == head + node_lines(doc@.nodes, 0),
            out@ + edge_lines(doc@.edges, k as int) =~= middle + edge_lines(doc@.edges, 0),
        decreases doc.edges.len() - k,
    {
        let e = &doc.edges[k];
        assert(doc@.edges[k as int] == e@);
        let ghost before = out@;
        out.append(e.from.as_str());
        out.push('-');
        match e.kind {
            EdgeKind::Flow => {},
            EdgeKind::Conditional => {
                out.push('.');
            },
        }
        out.push('-');
        out.push('>');
        out.append(e.to.as_str());
        out.push('\n');
        assert(out@ =~= before + edge_line(e@));
        k += 1;
    }
    out
}

} // verus!
