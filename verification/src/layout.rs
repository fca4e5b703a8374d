//! The layers of a document, for drawing it: the nodes are set in layers
//! along the edges, and each node gets the rank of its layer and its place
//! within the layer.
//!
//! Nodes with one identifier are one node here, the first of them standing
//! for all. An edge counts where both its ends are declared.

use crate::ast::{Document, DocumentView, Edge, EdgeView, Node, NodeView};
use crate::text::chars_of;
use vstd::prelude::*;

verus! {

/// The index of the first node from `i` on with the identifier `id`, or the
/// number of nodes where there is none.
pub open spec fn first_with(nodes: Seq<NodeView>, id: Seq<char>, i: int) -> int
    decreases nodes.len() - i,
{
    if 0 <= i < nodes.len() && nodes[i].id != id {
        first_with(nodes, id, i + 1)
    } else {
        i
    }
}

/// The node that stands for the identifier `id`: the index of the first
/// node that has it, or the number of nodes where none has.
pub open spec fn key_of(nodes: Seq<NodeView>, id: Seq<char>) -> int {
    first_with(nodes, id, 0)
}

/// Whether an edge counts: both its ends are declared.
pub open spec fn linked(nodes: Seq<NodeView>, e: EdgeView) -> bool {
    key_of(nodes, e.from) < nodes.len() && key_of(nodes, e.to) < nodes.len()
}

/// For each node, the number of edges among the first `k` that count and
/// end at it.
pub open spec fn in_degrees(nodes: Seq<NodeView>, edges: Seq<EdgeView>, k: int) -> Seq<usize>
    decreases k,
{
    if k <= 0 {
        Seq::new(nodes.len(), |v: int| 0usize)
    } else {
        let before = in_degrees(nodes, edges, k - 1);
        let to = key_of(nodes, edges[k - 1].to);
        if linked(nodes, edges[k - 1]) {
            before.update(to, (before[to] + 1) as usize)
        } else {
            before
        }
    }
}

/// Whether `a` stands before `b` in the order of texts, the two being alike
/// up to index `i`: at the first index where they differ `a` holds the
/// lesser character, or `a` ends there and `b` does not.
pub open spec fn text_less(a: Seq<char>, b: Seq<char>, i: int) -> bool
    decreases b.len() - i,
{
    if i < 0 || i >= b.len() {
        false
    } else if i >= a.len() {
        true
    } else if a[i] != b[i] {
        a[i] < b[i]
    } else {
        text_less(a, b, i + 1)
    }
}

/// The first index from `j` on at which the node `x` stands before the node
/// that `queue` holds there, or the length of `queue`.
pub open spec fn slot_for(nodes: Seq<NodeView>, queue: Seq<usize>, x: int, j: int) -> int
    decreases queue.len() - j,
{
    if 0 <= j < queue.len() && !text_less(nodes[x].id, nodes[queue[j] as int].id, 0) {
        slot_for(nodes, queue, x, j + 1)
    } else {
        j
    }
}

/// The roots among the first `k` nodes, in the order of their identifiers:
/// the nodes that stand for their identifier and at which no edge ends.
pub open spec fn roots(nodes: Seq<NodeView>, indeg: Seq<usize>, k: int) -> Seq<usize>
    decreases k,
{
    if k <= 0 {
        Seq::empty()
    } else {
        let before = roots(nodes, indeg, k - 1);
        let x = k - 1;
        if key_of(nodes, nodes[x].id) == x && indeg[x] == 0 {
            before.insert(slot_for(nodes, before, x, 0), x as usize)
        } else {
            before
        }
    }
}

/// Where the layering begins: with the roots; where there is none, with
/// the first node.
pub open spec fn starts(nodes: Seq<NodeView>, indeg: Seq<usize>) -> Seq<usize> {
    let found = roots(nodes, indeg, nodes.len() as int);
    if found.len() == 0 && nodes.len() > 0 {
        seq![0usize]
    } else {
        found
    }
}

/// The state of the layering: the nodes that wait, in the order in which
/// they came, and how many of them have been taken; for each node the
/// number of edges that still have to reach it; and its layer, once it has
/// one.
#[verifier::ext_equal]
pub ghost struct Flow {
    pub queue: Seq<usize>,
    pub head: int,
    pub indeg: Seq<usize>,
    pub layer: Seq<Option<usize>>,
}

/// What one edge does when the node `u` of layer `lu` is taken: where it
/// starts at `u` and counts, the node at its end is lifted to the layer
/// behind `lu` unless it is further already, and has one edge less to wait
/// for; with none left it joins the queue.
pub open spec fn relax_one(nodes: Seq<NodeView>, s: Flow, e: EdgeView, u: int, lu: int) -> Flow {
    let v = key_of(nodes, e.to);
    if e.from == nodes[u].id && v < nodes.len() {
        let layer = if s.layer[v] is None || s.layer[v]->0 < lu + 1 {
            s.layer.update(v, Some((lu + 1) as usize))
        } else {
            s.layer
        };
        if s.indeg[v] > 0 {
            Flow {
                queue: if s.indeg[v] == 1 {
                    s.queue.push(v as usize)
                } else {
                    s.queue
                },
                head: s.head,
                indeg: s.indeg.update(v, (s.indeg[v] - 1) as usize),
                layer,
            }
        } else {
            Flow { queue: s.queue, head: s.head, indeg: s.indeg, layer }
        }
    } else {
        s
    }
}

/// What the edges from index `k` on do when the node `u` of layer `lu` is
/// taken, in their order.
pub open spec fn relax(
    nodes: Seq<NodeView>,
    edges: Seq<EdgeView>,
    s: Flow,
    u: int,
    lu: int,
    k: int,
) -> Flow
    decreases edges.len() - k,
{
    if k < 0 || k >= edges.len() {
        s
    } else {
        relax(nodes, edges, relax_one(nodes, s, edges[k], u, lu), u, lu, k + 1)
    }
}

/// The layer of node `u` as far as it is known: 0 where it has none yet.
pub open spec fn layer_or_zero(layer: Seq<Option<usize>>, u: int) -> usize {
    match layer[u] {
        Some(l) => l,
        None => 0,
    }
}

/// One step of the layering: the next node that waits is taken with the
/// layer it has, its edges do their work, and it keeps that layer unless
/// an edge of its own has given it one.
pub open spec fn step(nodes: Seq<NodeView>, edges: Seq<EdgeView>, s: Flow) -> Flow {
    let u = s.queue[s.head] as int;
    let lu = layer_or_zero(s.layer, u);
    let taken = Flow { queue: s.queue, head: s.head + 1, indeg: s.indeg, layer: s.layer };
    let after = relax(nodes, edges, taken, u, lu as int, 0);
    if after.layer[u] is None {
        Flow {
            queue: after.queue,
            head: after.head,
            indeg: after.indeg,
            layer: after.layer.update(u, Some(lu)),
        }
    } else {
        after
    }
}

/// The layering, run until no node waits.
pub open spec fn settle(nodes: Seq<NodeView>, edges: Seq<EdgeView>, s: Flow) -> Flow
    decreases usize::MAX - s.head,
    via settle_decreases
{
    if 0 <= s.head < s.queue.len() && s.head < usize::MAX {
        settle(nodes, edges, step(nodes, edges, s))
    } else {
        s
    }
}

#[via_fn]
proof fn settle_decreases(nodes: Seq<NodeView>, edges: Seq<EdgeView>, s: Flow) {
    let u = s.queue[s.head] as int;
    let lu = layer_or_zero(s.layer, u);
    let taken = Flow { queue: s.queue, head: s.head + 1, indeg: s.indeg, layer: s.layer };
    lemma_relax_head(nodes, edges, taken, u, lu as int, 0);
}

/// The edges take no node from the queue.
pub proof fn lemma_relax_head(
    nodes: Seq<NodeView>,
    edges: Seq<EdgeView>,
    s: Flow,
    u: int,
    lu: int,
    k: int,
)
    ensures
        relax(nodes, edges, s, u, lu, k).head == s.head,
    decreases edges.len() - k,
{
    if 0 <= k < edges.len() {
        lemma_relax_head(nodes, edges, relax_one(nodes, s, edges[k], u, lu), u, lu, k + 1);
    }
}

/// The layer of each node: that of the node that stands for its
/// identifier, once no node waits, and 0 where the layering never reached
/// it.
pub open spec fn layer_of(nodes: Seq<NodeView>, edges: Seq<EdgeView>, k: int) -> usize {
    let indeg = in_degrees(nodes, edges, edges.len() as int);
    let begin = Flow {
        queue: starts(nodes, indeg),
        head: 0,
        indeg,
        layer: Seq::new(nodes.len(), |v: int| None::<usize>),
    };
    layer_or_zero(settle(nodes, edges, begin).layer, key_of(nodes, nodes[k].id))
}

/// Among the first `j` of `lays`, the number of different layers below
/// `l`: each layer is counted where it stands first.
pub open spec fn rank(lays: Seq<usize>, l: usize, j: int) -> nat
    decreases j,
{
    if j <= 0 {
        0
    } else {
        rank(lays, l, j - 1) + if lays[j - 1] < l && first_with_layer(lays, lays[j - 1], 0) == j
            - 1 {
            1nat
        } else {
            0nat
        }
    }
}

/// The first index from `i` on at which `lays` holds `l`, or its length.
pub open spec fn first_with_layer(lays: Seq<usize>, l: usize, i: int) -> int
    decreases lays.len() - i,
{
    if 0 <= i < lays.len() && lays[i] != l {
        first_with_layer(lays, l, i + 1)
    } else {
        i
    }
}

/// Among the first `j` of `lays`, the number of those that are `l`.
pub open spec fn place(lays: Seq<usize>, l: usize, j: int) -> nat
    decreases j,
{
    if j <= 0 {
        0
    } else {
        place(lays, l, j - 1) + if lays[j - 1] == l {
            1nat
        } else {
            0nat
        }
    }
}

/// For each node of a document, in the order of the nodes, the rank of its
/// layer among the layers that hold a node, and its place among the nodes of
/// that layer.
pub open spec fn layers_of(doc: DocumentView) -> Seq<(usize, usize)> {
    let lays = Seq::new(doc.nodes.len(), |k: int| layer_of(doc.nodes, doc.edges, k));
    Seq::new(
        doc.nodes.len(),
        |k: int|
            (
                rank(lays, lays[k], doc.nodes.len() as int) as usize,
                place(lays, lays[k], k) as usize,
            ),
    )
}

/// A node stands for its own identifier, or a node before it does.
pub proof fn lemma_key_found(nodes: Seq<NodeView>, k: int, i: int)
    requires
        0 <= i <= k < nodes.len(),
    ensures
        i <= first_with(nodes, nodes[k].id, i) <= k,
    decreases k - i,
{
    if nodes[i].id != nodes[k].id {
        lemma_key_found(nodes, k, i + 1);
    }
}

fn key_index(nodes: &Vec<Node>, id: &String) -> (k: usize)
    ensures
        k == key_of(nodes.deep_view(), id@),
        k <= nodes.len(),
{
    let mut i: usize = 0;
    while i < nodes.len() && !(nodes[i].id == *id)
        invariant
            i <= nodes.len(),
            first_with(nodes.deep_view(), id@, i as int) == key_of(nodes.deep_view(), id@),
        decreases nodes.len() - i,
    {
        assert(nodes.deep_view()[i as int].id == nodes[i as int].id@);
        i += 1;
    }
    assert(i < nodes.len() ==> nodes.deep_view()[i as int].id == nodes[i as int].id@);
    i
}

fn in_degree_table(nodes: &Vec<Node>, edges: &Vec<Edge>) -> (out: Vec<usize>)
    ensures
        out@ == in_degrees(nodes.deep_view(), edges.deep_view(), edges.len() as int),
        out.len() == nodes.len(),
{
    let n = nodes.len();
    let mut out: Vec<usize> = Vec::new();
    let mut i: usize = 0;
    while i < n
        invariant
            i <= n,
            out@ =~= Seq::new(i as nat, |v: int| 0usize),
        decreases n - i,
    {
        out.push(0);
        i += 1;
    }
    let mut k: usize = 0;
    while k < edges.len()
        invariant
            n == nodes.len(),
            k <= edges.len(),
            out.len() == n,
            out@ == in_degrees(nodes.deep_view(), edges.deep_view(), k as int),
            forall|v: int| 0 <= v < n ==> #[trigger] out@[v] <= k,
        decreases edges.len() - k,
    {
        let e = &edges[k];
        assert(edges.deep_view()[k as int] == e@);
        let from = key_index(nodes, &e.from);
        let to = key_index(nodes, &e.to);
        if from < n && to < n {
            let d = out[to];
            out.set(to, d + 1);
        }
        k += 1;
    }
    out
}

fn comes_before(a: &String, b: &String) -> (less: bool)
    ensures
        less == text_less(a@, b@, 0),
{
    let x = chars_of(a.as_str());
    let y = chars_of(b.as_str());
    let mut i: usize = 0;
    while i < y.len() && i < x.len() && x[i] == y[i]
        invariant
            x@ == a@,
            y@ == b@,
            i <= x.len(),
            i <= y.len(),
            text_less(a@, b@, i as int) == text_less(a@, b@, 0),
        decreases y.len() - i,
    {
        i += 1;
    }
    if i >= y.len() {
        false
    } else if i >= x.len() {
        true
    } else {
        x[i] < y[i]
    }
}

fn start_queue(nodes: &Vec<Node>, indeg: &Vec<usize>) -> (queue: Vec<usize>)
    requires
        indeg.len() == nodes.len(),
    ensures
        queue@ == starts(nodes.deep_view(), indeg@),
        forall|j: int| 0 <= j < queue.len() ==> #[trigger] queue@[j] < nodes.len(),
{
    let n = nodes.len();
    let ghost nv = nodes.deep_view();
    let mut queue: Vec<usize> = Vec::new();
    let mut k: usize = 0;
    while k < n
        invariant
            n == nodes.len(),
            indeg.len() == n,
            nv == nodes.deep_view(),
            k <= n,
            queue@ == roots(nv, indeg@, k as int),
            forall|j: int| 0 <= j < queue.len() ==> #[trigger] queue@[j] < k,
        decreases n - k,
    {
        assert(nv[k as int].id == nodes[k as int].id@);
        if indeg[k] == 0 && key_index(nodes, &nodes[k].id) == k {
            let mut j: usize = 0;
            while j < queue.len() && !comes_before(&nodes[k].id, &nodes[queue[j]].id)
                invariant
                    n == nodes.len(),
                    nv == nodes.deep_view(),
                    k < n,
                    j <= queue.len(),
                    forall|i: int| 0 <= i < queue.len() ==> #[trigger] queue@[i] < k,
                    slot_for(nv, queue@, k as int, j as int) == slot_for(nv, queue@, k as int, 0),
                decreases queue.len() - j,
            {
                let ghost at = queue@[j as int] as int;
                assert(nv[at].id == nodes[at].id@);
                j += 1;
            }
            if j < queue.len() {
                let ghost at = queue@[j as int] as int;
                assert(nv[at].id == nodes[at].id@);
            }
            queue.insert(j, k);
        }
        k += 1;
    }
    if queue.len() == 0 && n > 0 {
        queue.push(0);
    }
    queue
}

fn node_layers(nodes: &Vec<Node>, edges: &Vec<Edge>) -> (lays: Vec<usize>)
    ensures
        lays@ == Seq::new(
            nodes.len() as nat,
            |k: int| layer_of(nodes.deep_view(), edges.deep_view(), k),
        ),
{
    let n = nodes.len();
    let ghost nv = nodes.deep_view();
    let ghost ev = edges.deep_view();
    let mut indeg = in_degree_table(nodes, edges);
    let mut queue = start_queue(nodes, &indeg);
    let mut layer: Vec<Option<usize>> = Vec::new();
    let mut i: usize = 0;
    while i < n
        invariant
            i <= n,
            layer@ =~= Seq::new(i as nat, |v: int| None::<usize>),
        decreases n - i,
    {
        layer.push(None);
        i += 1;
    }
    let ghost begin = Flow { queue: queue@, head: 0, indeg: indeg@, layer: layer@ };
    let mut head: usize = 0;
    while head < queue.len()
        invariant
            n == nodes.len(),
            nv == nodes.deep_view(),
            ev == edges.deep_view(),
            indeg.len() == n,
            layer.len() == n,
            head <= queue.len(),
            forall|j: int| 0 <= j < queue.len() ==> #[trigger] queue@[j] < n,
            forall|v: int| 0 <= v < n && layer@[v] is Some ==> (#[trigger] layer@[v])->0 <= head,
            settle(nv, ev, Flow { queue: queue@, head: head as int, indeg: indeg@, layer: layer@ })
                == settle(nv, ev, begin),
        decreases usize::MAX - head,
    {
        let ghost before = Flow { queue: queue@, head: head as int, indeg: indeg@, layer: layer@ };
        let u = queue[head];
        let lu: usize = match layer[u] {
            Some(l) => l,
            None => 0,
        };
        head += 1;
        let ghost taken = Flow { queue: queue@, head: head as int, indeg: indeg@, layer: layer@ };
        let mut k: usize = 0;
        while k < edges.len()
            invariant
                n == nodes.len(),
                nv == nodes.deep_view(),
                ev == edges.deep_view(),
                indeg.len() == n,
                layer.len() == n,
                u < n,
                lu < head,
                head <= queue.len(),
                k <= edges.len(),
                forall|j: int| 0 <= j < queue.len() ==> #[trigger] queue@[j] < n,
                forall|v: int|
                    0 <= v < n && layer@[v] is Some ==> (#[trigger] layer@[v])->0 <= head,
                relax(
                    nv,
                    ev,
                    Flow { queue: queue@, head: head as int, indeg: indeg@, layer: layer@ },
                    u as int,
                    lu as int,
                    k as int,
                ) == relax(nv, ev, taken, u as int, lu as int, 0),
            decreases edges.len() - k,
        {
            let e = &edges[k];
            assert(ev[k as int] == e@);
            assert(nv[u as int].id == nodes[u as int].id@);
            let ghost here = Flow {
                queue: queue@,
                head: head as int,
                indeg: indeg@,
                layer: layer@,
            };
            if e.from == nodes[u].id {
                let v = key_index(nodes, &e.to);
                if v < n {
                    let lift = match layer[v] {
                        Some(l) => l < lu + 1,
                        None => true,
                    };
                    if lift {
                        layer.set(v, Some(lu + 1));
                    }
                    let d = indeg[v];
                    if d > 0 {
                        indeg.set(v, d - 1);
                        if d == 1 {
                            queue.push(v);
                        }
                    }
                }
            }
            assert(Flow { queue: queue@, head: head as int, indeg: indeg@, layer: layer@ }
                =~= relax_one(nv, here, e@, u as int, lu as int));
            k += 1;
        }
        if layer[u].is_none() {
            layer.set(u, Some(lu));
        }
        assert(Flow { queue: queue@, head: head as int, indeg: indeg@, layer: layer@ } =~= step(
            nv,
            ev,
            before,
        ));
    }
    let mut lays: Vec<usize> = Vec::new();
    let mut k: usize = 0;
    while k < n
        invariant
            n == nodes.len(),
            nv == nodes.deep_view(),
            ev == edges.deep_view(),
            layer.len() == n,
            k <= n,
            layer@ == settle(nv, ev, begin).layer,
            begin == (Flow {
                queue: starts(nv, in_degrees(nv, ev, ev.len() as int)),
                head: 0,
                indeg: in_degrees(nv, ev, ev.len() as int),
                layer: Seq::new(nv.len(), |v: int| None::<usize>),
            }),
            lays@ =~= Seq::new(k as nat, |j: int| layer_of(nv, ev, j)),
        decreases n - k,
    {
        assert(nv[k as int].id == nodes[k as int].id@);
        proof {
            lemma_key_found(nv, k as int, 0);
        }
        let key = key_index(nodes, &nodes[k].id);
        let l: usize = match layer[key] {
            Some(l) => l,
            None => 0,
        };
        lays.push(l);
        k += 1;
    }
    lays
}

fn first_layer_index(lays: &Vec<usize>, l: usize) -> (i: usize)
    ensures
        i == first_with_layer(lays@, l, 0),
        i <= lays.len(),
{
    let mut i: usize = 0;
    while i < lays.len() && lays[i] != l
        invariant
            i <= lays.len(),
            first_with_layer(lays@, l, i as int) == first_with_layer(lays@, l, 0),
        decreases lays.len() - i,
    {
        i += 1;
    }
    i
}

/// For each node of `doc`, in the order of the nodes, the rank of its layer
/// among the layers that hold a node, and its place among the nodes of that
/// layer.
pub fn layers(doc: &Document) -> (out: Vec<(usize, usize)>)
    ensures
        out@ == layers_of(doc@),
        out.len() == doc.nodes.len(),
{
    let n = doc.nodes.len();
    let lays = node_layers(&doc.nodes, &doc.edges);
    let mut out: Vec<(usize, usize)> = Vec::new();
    let mut k: usize = 0;
    while k < n
        invariant
            n == doc.nodes.len(),
            lays@ == Seq::new(n as nat, |j: int| layer_of(doc@.nodes, doc@.edges, j)),
            k <= n,
            out@ =~= layers_of(doc@).take(k as int),
        decreases n - k,
    {
        let l = lays[k];
        let mut r: usize = 0;
        let mut j: usize = 0;
        while j < n
            invariant
                n == lays.len(),
                j <= n,
                r <= j,
                r == rank(lays@, l, j as int),
            decreases n - j,
        {
            if lays[j] < l && first_layer_index(&lays, lays[j]) == j {
                r += 1;
            }
            j += 1;
        }
        let mut p: usize = 0;
        let mut j: usize = 0;
        while j < k
            invariant
                k < n,
                n == lays.len(),
                j <= k,
                p <= j,
                p == place(lays@, l, j as int),
            decreases k - j,
        {
            if lays[j] == l {
                p += 1;
            }
            j += 1;
        }
        out.push((r, p));
        k += 1;
    }
    out
}

} // verus!
