//! The two checks that follow a clean syntax pass: that every edge joins
//! declared nodes, and that every node has an edge.

use crate::ast::{Edge, EdgeView, Node, NodeView};
use crate::error::{Diagnostic, DiagnosticView};
use vstd::prelude::*;
use vstd::string::*;

verus! {

/// Whether one of `nodes` has the identifier `id`.
pub open spec fn declares(nodes: Seq<NodeView>, id: Seq<char>) -> bool {
    exists|k: int| 0 <= k < nodes.len() && (#[trigger] nodes[k]).id == id
}

/// The finding for an edge that starts at an identifier that no node has.
pub open spec fn unknown_from(e: EdgeView) -> DiagnosticView {
    DiagnosticView {
        code: "E0201"@,
        message: "Edge from references unknown node '"@ + e.from + "'"@,
        span: e.span,
    }
}

/// The finding for an edge that ends at an identifier that no node has.
pub open spec fn unknown_to(e: EdgeView) -> DiagnosticView {
    DiagnosticView {
        code: "E0202"@,
        message: "Edge to references unknown node '"@ + e.to + "'"@,
        span: e.span,
    }
}

/// The findings for one edge: for its start, then for its end.
pub open spec fn edge_findings(nodes: Seq<NodeView>, e: EdgeView) -> Seq<DiagnosticView> {
    let from = if declares(nodes, e.from) {
        Seq::empty()
    } else {
        seq![unknown_from(e)]
    };
    let to = if declares(nodes, e.to) {
        Seq::empty()
    } else {
        seq![unknown_to(e)]
    };
    from + to
}

/// The findings of the reference check: those of each edge, in the order of
/// the edges.
pub open spec fn reference_findings(nodes: Seq<NodeView>, edges: Seq<EdgeView>) -> Seq<
    DiagnosticView,
>
    decreases edges.len(),
{
    if edges.len() == 0 {
        Seq::empty()
    } else {
        reference_findings(nodes, edges.drop_last()) + edge_findings(nodes, edges.last())
    }
}

/// The degree of `id`: the number of edges that start at it and the number
/// of edges that end at it, together. An edge from `id` to `id` counts twice.
pub open spec fn degree(edges: Seq<EdgeView>, id: Seq<char>) -> nat
    decreases edges.len(),
{
    if edges.len() == 0 {
        0
    } else {
        let e = edges.last();
        degree(edges.drop_last(), id) + if e.from == id {
            1nat
        } else {
            0nat
        } + if e.to == id {
            1nat
        } else {
            0nat
        }
    }
}

/// The finding for a node of degree 0.
pub open spec fn orphan_finding(n: NodeView) -> DiagnosticView {
    DiagnosticView {
        code: "E0203"@,
        message: "Orphan node '"@ + n.id + "' has no edges"@,
        span: n.span,
    }
}

/// The findings of the orphan check: one for each node of degree 0, in the
/// order of the nodes.
pub open spec fn orphan_findings(nodes: Seq<NodeView>, edges: Seq<EdgeView>) -> Seq<
    DiagnosticView,
>
    decreases nodes.len(),
{
    if nodes.len() == 0 {
        Seq::empty()
    } else {
        let n = nodes.last();
        orphan_findings(nodes.drop_last(), edges) + if degree(edges, n.id) == 0 {
            seq![orphan_finding(n)]
        } else {
            Seq::empty()
        }
    }
}

/// Whether one of `nodes` has the identifier `id`.
pub fn is_declared(nodes: &Vec<Node>, id: &String) -> (b: bool)
    ensures
        b == declares(nodes.deep_view(), id@),
{
    let mut k: usize = 0;
    while k < nodes.len()
        invariant
            k <= nodes.len(),
            forall|j: int| 0 <= j < k ==> (#[trigger] nodes.deep_view()[j]).id != id@,
        decreases nodes.len() - k,
    {
        if nodes[k].id == *id {
            assert(nodes.deep_view()[k as int].id == id@);
            return true;
        }
        k += 1;
    }
    false
}

fn message_about(before: &str, id: &String, after: &str) -> (text: String)
    ensures
        text@ == before@ + id@ + after@,
{
    let mut text = String::from_str(before);
    text.append(id.as_str());
    text.append(after);
    text
}

/// The reference check: a finding with the code `E0201` for each edge whose
/// start no node declares, one with `E0202` for each edge whose end no node
/// declares, in the order of the edges.
pub fn reference_errors(nodes: &Vec<Node>, edges: &Vec<Edge>) -> (out: Vec<Diagnostic>)
    ensures
        out.deep_view() == reference_findings(nodes.deep_view(), edges.deep_view()),
{
    let mut out: Vec<Diagnostic> = Vec::new();
    let mut k: usize = 0;
    while k < edges.len()
        invariant
            k <= edges.len(),
            out.deep_view() =~= reference_findings(
                nodes.deep_view(),
                edges.deep_view().take(k as int),
            ),
        decreases edges.len() - k,
    {
        let e = &edges[k];
        let ghost before = out.deep_view();
        let ghost ev = edges.deep_view()[k as int];
        assert(ev == e@);
        if !is_declared(nodes, &e.from) {
            out.push(
                Diagnostic {
                    code: String::from_str("E0201"),
                    message: message_about("Edge from references unknown node '", &e.from, "'"),
                    span: e.span,
                },
            );
        }
        if !is_declared(nodes, &e.to) {
            out.push(
                Diagnostic {
                    code: String::from_str("E0202"),
                    message: message_about("Edge to references unknown node '", &e.to, "'"),
                    span: e.span,
                },
            );
        }
        proof {
            let upto = edges.deep_view().take(k + 1);
            assert(upto.drop_last() =~= edges.deep_view().take(k as int));
            assert(upto.last() == ev);
            assert(out.deep_view() =~= before + edge_findings(nodes.deep_view(), ev));
        }
        k += 1;
    }
    assert(edges.deep_view().take(k as int) =~= edges.deep_view());
    out
}

/// Whether no edge starts or ends at `id`.
pub fn is_orphan(edges: &Vec<Edge>, id: &String) -> (b: bool)
    ensures
        b == (degree(edges.deep_view(), id@) == 0),
{
    let mut k: usize = 0;
    while k < edges.len()
        invariant
            k <= edges.len(),
            degree(edges.deep_view().take(k as int), id@) == 0,
        decreases edges.len() - k,
    {
        let e = &edges[k];
        let ghost upto = edges.deep_view().take(k + 1);
        assert(upto.drop_last() =~= edges.deep_view().take(k as int));
        assert(upto.last() == e@);
        if e.from == *id || e.to == *id {
            proof {
                lemma_degree_grows(edges.deep_view(), id@, k + 1);
            }
            return false;
        }
        k += 1;
    }
    assert(edges.deep_view().take(k as int) =~= edges.deep_view());
    true
}

/// The degree over the first `k` edges is at most the degree over all.
pub proof fn lemma_degree_grows(edges: Seq<EdgeView>, id: Seq<char>, k: int)
    requires
        0 <= k <= edges.len(),
    ensures
        degree(edges.take(k), id) <= degree(edges, id),
    decreases edges.len() - k,
{
    if k < edges.len() {
        lemma_degree_grows(edges, id, k + 1);
        assert(edges.take(k + 1).drop_last() =~= edges.take(k));
    } else {
        assert(edges.take(k) =~= edges);
    }
}

/// The orphan check: a finding with the code `E0203` for each node at which
/// no edge starts or ends, in the order of the nodes.
pub fn orphan_errors(nodes: &Vec<Node>, edges: &Vec<Edge>) -> (out: Vec<Diagnostic>)
    ensures
        out.deep_view() == orphan_findings(nodes.deep_view(), edges.deep_view()),
{
    let mut out: Vec<Diagnostic> = Vec::new();
    let mut k: usize = 0;
    while k < nodes.len()
        invariant
            k <= nodes.len(),
            out.deep_view() =~= orphan_findings(
                nodes.deep_view().take(k as int),
                edges.deep_view(),
            ),
        decreases nodes.len() - k,
    {
        let n = &nodes[k];
        let ghost before = out.deep_view();
        let ghost upto = nodes.deep_view().take(k + 1);
        assert(upto.drop_last() =~= nodes.deep_view().take(k as int));
        assert(upto.last() == n@);
        if is_orphan(edges, &n.id) {
            out.push(
                Diagnostic {
                    code: String::from_str("E0203"),
                    message: message_about("Orphan node '", &n.id, "' has no edges"),
                    span: n.span,
                },
            );
            assert(out.deep_view() =~= before.push(orphan_finding(n@)));
        }
        k += 1;
    }
    assert(nodes.deep_view().take(k as int) =~= nodes.deep_view());
    out
}

} // verus!
