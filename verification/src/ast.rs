//! The document model: what a diagram source text describes once it has been
//! accepted, together with the mathematical view of each type that the
//! contracts of the lexer and the parser are stated over.

use std::collections::BTreeMap;
use vstd::prelude::*;

verus! {

/// A place in the source text. Lines and columns count from 1, and a column
/// is one character, whatever its size in bytes.
#[derive(Debug, Clone, Copy, PartialEq, Eq)]
pub struct Position {
    pub line: usize,
    pub col: usize,
}

/// The view of a [`Position`]: the same pair as natural numbers.
pub ghost struct PositionView {
    pub line: nat,
    pub col: nat,
}

impl View for Position {
    type V = PositionView;

    open spec fn view(&self) -> PositionView {
        PositionView { line: self.line as nat, col: self.col as nat }
    }
}

/// A range of the source text, from the position of its first token to the
/// position of its last one.
#[derive(Debug, Clone, Copy, PartialEq, Eq)]
pub struct Span {
    pub start: Position,
    pub end: Position,
}

/// The view of a [`Span`].
pub ghost struct SpanView {
    pub start: PositionView,
    pub end: PositionView,
}

impl View for Span {
    type V = SpanView;

    open spec fn view(&self) -> SpanView {
        SpanView { start: self.start@, end: self.end@ }
    }
}

/// The view of an optional span.
pub open spec fn span_view(span: Option<Span>) -> Option<SpanView> {
    match span {
        Some(s) => Some(s@),
        None => None,
    }
}

/// The layout axis of a diagram: left to right, or top down.
#[derive(Debug, Clone, Copy, PartialEq, Eq)]
pub enum Direction {
    LR,
    TD,
}

/// The directives of a document. There is one: the direction.
#[derive(Debug, Clone, Copy, PartialEq, Eq)]
pub struct Directives {
    pub direction: Direction,
}

/// What a document says about itself: a title, taken from a leading
/// `Diagram:` comment, and free-form tags.
#[derive(Debug, Clone, PartialEq, Eq)]
pub struct Metadata {
    pub title: Option<String>,
    pub tags: Option<BTreeMap<String, String>>,
}

/// The view of a [`Metadata`].
pub ghost struct MetadataView {
    pub title: Option<Seq<char>>,
    pub tags: Option<Map<Seq<char>, Seq<char>>>,
}

impl View for Metadata {
    type V = MetadataView;

    open spec fn view(&self) -> MetadataView {
        MetadataView {
            title: match self.title {
                Some(t) => Some(t@),
                None => None,
            },
            tags: match self.tags {
                Some(m) => Some(m.deep_view()),
                None => None,
            },
        }
    }
}

/// A declared vertex: its identifier, its display label, and where it was
/// declared.
#[derive(Debug, Clone, PartialEq, Eq)]
pub struct Node {
    pub id: String,
    pub label: String,
    pub span: Option<Span>,
}

/// The view of a [`Node`].
pub ghost struct NodeView {
    pub id: Seq<char>,
    pub label: Seq<char>,
    pub span: Option<SpanView>,
}

impl View for Node {
    type V = NodeView;

    open spec fn view(&self) -> NodeView {
        NodeView { id: self.id@, label: self.label@, span: span_view(self.span) }
    }
}

impl DeepView for Node {
    type V = NodeView;

    open spec fn deep_view(&self) -> NodeView {
        self@
    }
}

/// The two kinds of edge: `-->` is a flow, `-.->` is conditional.
#[derive(Debug, Clone, Copy, PartialEq, Eq)]
pub enum EdgeKind {
    Flow,
    Conditional,
}

/// A declared directed relation between two node identifiers.
#[derive(Debug, Clone, PartialEq, Eq)]
pub struct Edge {
    pub from: String,
    pub to: String,
    pub kind: EdgeKind,
    pub span: Option<Span>,
}

/// The view of an [`Edge`].
pub ghost struct EdgeView {
    pub from: Seq<char>,
    pub to: Seq<char>,
    pub kind: EdgeKind,
    pub span: Option<SpanView>,
}

impl View for Edge {
    type V = EdgeView;

    open spec fn view(&self) -> EdgeView {
        EdgeView { from: self.from@, to: self.to@, kind: self.kind, span: span_view(self.span) }
    }
}

impl DeepView for Edge {
    type V = EdgeView;

    open spec fn deep_view(&self) -> EdgeView {
        self@
    }
}

/// A validated diagram: every edge joins declared nodes and every node has
/// an edge.
#[derive(Debug, Clone, PartialEq, Eq)]
pub struct Document {
    pub version: String,
    pub directives: Directives,
    pub metadata: Option<Metadata>,
    pub nodes: Vec<Node>,
    pub edges: Vec<Edge>,
}

/// The view of a [`Document`].
pub ghost struct DocumentView {
    pub version: Seq<char>,
    pub direction: Direction,
    pub metadata: Option<MetadataView>,
    pub nodes: Seq<NodeView>,
    pub edges: Seq<EdgeView>,
}

impl View for Document {
    type V = DocumentView;

    open spec fn view(&self) -> DocumentView {
        DocumentView {
            version: self.version@,
            direction: self.directives.direction,
            metadata: match self.metadata {
                Some(m) => Some(m@),
                None => None,
            },
            nodes: self.nodes.deep_view(),
            edges: self.edges.deep_view(),
        }
    }
}

} // verus!
