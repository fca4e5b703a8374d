//! The grammar, as functions of a token sequence: what the syntax pass of
//! the parser finds in it. The parser is proved to compute exactly this.
//!
//! A source text is a header of comment lines, a direction line, and a body
//! of node declarations, edge declarations, comments and blank lines. One
//! blank line may follow each comment line of the header; a text that begins
//! with a blank line has no direction line where it should stand. A line of
//! the body that is none of these is passed over.

use crate::ast::{Direction, EdgeKind, EdgeView, NodeView, PositionView, SpanView};
use crate::error::DiagnosticView;
use crate::lexer::{TokenKindView, TokenView};
use crate::text::{decimal, has_at, skip_repeated, skip_whitespace, trimmed_end};
use vstd::prelude::*;

verus! {

/// The widest line that the body may hold, measured from the column of its
/// first token to the column of its last one.
pub const MAX_LINE_WIDTH: usize = 100;

/// The kind of token `i`; past the end of `t`, the end marker.
pub open spec fn kind_at(t: Seq<TokenView>, i: int) -> TokenKindView {
    if 0 <= i < t.len() {
        t[i].kind
    } else {
        TokenKindView::Eof
    }
}

/// The position of a token.
pub open spec fn position_of(tok: TokenView) -> PositionView {
    PositionView { line: tok.line, col: tok.col }
}

/// The position of token `i`.
pub open spec fn pos_at(t: Seq<TokenView>, i: int) -> PositionView {
    position_of(t[i])
}

/// The span that begins and ends at `p`.
pub open spec fn point(p: PositionView) -> SpanView {
    SpanView { start: p, end: p }
}

/// The finding with this code and message at this place.
pub open spec fn finding(code: Seq<char>, message: Seq<char>, span: SpanView) -> DiagnosticView {
    DiagnosticView { code, message, span: Some(span) }
}

/// A lower-case ASCII letter.
pub open spec fn is_lower(c: char) -> bool {
    'a' <= c && c <= 'z'
}

/// A character that a node identifier may hold: a lower-case ASCII letter,
/// an ASCII digit or an underscore.
pub open spec fn is_snake_char(c: char) -> bool {
    is_lower(c) || ('0' <= c && c <= '9') || c == '_'
}

/// The rule for node identifiers: not empty, a lower-case letter first,
/// then lower-case letters, digits and underscores, and no underscore last.
pub open spec fn snake_case(id: Seq<char>) -> bool {
    &&& id.len() > 0
    &&& is_lower(id[0])
    &&& id.last() != '_'
    &&& forall|k: int| 0 <= k < id.len() ==> is_snake_char(#[trigger] id[k])
}

/// What a comment must begin with, after white space, to give the title.
pub open spec fn title_marker() -> Seq<char> {
    "Diagram:"@
}

/// Whether a comment with this text gives the title of the document.
pub open spec fn is_title_comment(text: Seq<char>) -> bool {
    has_at(text, skip_whitespace(text, 0), title_marker())
}

/// The title that a title comment gives: what follows the marker, however
/// often the marker is repeated, without the white space around it.
pub open spec fn title_of(text: Seq<char>) -> Seq<char> {
    let after = skip_repeated(text, skip_whitespace(text, 0), title_marker());
    let lo = skip_whitespace(text, after);
    text.subrange(lo, trimmed_end(text, lo, text.len() as int))
}

/// The index behind the comment at `i`: behind the newline token that ends
/// its line and, where a blank line follows, behind the newline token of
/// that one blank line.
pub open spec fn comment_end(t: Seq<TokenView>, i: int) -> int {
    if kind_at(t, i + 1) == TokenKindView::Newline {
        if kind_at(t, i + 2) == TokenKindView::Newline {
            i + 3
        } else {
            i + 2
        }
    } else {
        i + 1
    }
}

/// Where the header that begins at token `i` ends: at the first token
/// that is no comment, each comment taken with the end of its line and with
/// at most one blank line behind it. A newline token at the head of the text,
/// or a second blank line behind a comment, ends the header.
pub open spec fn header_end(t: Seq<TokenView>, i: int) -> int
    decreases t.len() - i,
{
    if 0 <= i < t.len() && t[i].kind is Comment {
        header_end(t, comment_end(t, i))
    } else {
        i
    }
}

/// The title that the header from token `i` on gives: that of its first
/// title comment.
pub open spec fn header_title(t: Seq<TokenView>, i: int) -> Option<Seq<char>>
    decreases t.len() - i,
{
    if 0 <= i < t.len() {
        match t[i].kind {
            TokenKindView::Comment(text) => if is_title_comment(text) {
                Some(title_of(text))
            } else {
                header_title(t, comment_end(t, i))
            },
            _ => None,
        }
    } else {
        None
    }
}

/// The word of the direction line, where the header is followed by one: the
/// keyword and, next to it, an identifier.
pub open spec fn direction_word(t: Seq<TokenView>) -> Option<Seq<char>> {
    let h = header_end(t, 0);
    match (kind_at(t, h), kind_at(t, h + 1)) {
        (TokenKindView::DirectionKw, TokenKindView::Identifier(word)) => Some(word),
        _ => None,
    }
}

/// The direction that a word names.
pub open spec fn direction_named(word: Seq<char>) -> Option<Direction> {
    if word == "LR"@ {
        Some(Direction::LR)
    } else if word == "TD"@ {
        Some(Direction::TD)
    } else {
        None
    }
}

/// Whether the header is followed by a direction line that names a
/// direction.
pub open spec fn has_direction_line(t: Seq<TokenView>) -> bool {
    match direction_word(t) {
        Some(word) => direction_named(word) is Some,
        None => false,
    }
}

/// The direction of the document: the one that the direction line names,
/// and left to right where there is no such line or it names none.
pub open spec fn direction_of(t: Seq<TokenView>) -> Direction {
    match direction_word(t) {
        Some(word) => match direction_named(word) {
            Some(d) => d,
            None => Direction::LR,
        },
        None => Direction::LR,
    }
}

/// What the direction line is found to lack.
pub open spec fn direction_findings(t: Seq<TokenView>) -> Seq<DiagnosticView> {
    let h = header_end(t, 0);
    let at = pos_at(t, h);
    match direction_word(t) {
        Some(word) => if direction_named(word) is Some {
            Seq::empty()
        } else {
            seq![
                finding(
                    "E0001"@,
                    "Invalid direction"@,
                    SpanView { start: at, end: PositionView { line: at.line, col: at.col + 1 } },
                ),
            ]
        },
        None => seq![finding("E0001"@, "Missing direction on first line"@, point(at))],
    }
}

/// The index of the first token of the body: behind the direction line and
/// its newline, or where the direction line is missing.
pub open spec fn body_start(t: Seq<TokenView>) -> int {
    let h = header_end(t, 0);
    match direction_word(t) {
        Some(_) => if kind_at(t, h + 2) == TokenKindView::Newline {
            h + 3
        } else {
            h + 2
        },
        None => h,
    }
}

/// The index of the first token of the line on which the body begins:
/// the keyword of the direction line where tokens follow the direction on
/// its line, and else the first token of the body.
pub open spec fn line_first(t: Seq<TokenView>) -> int {
    let h = header_end(t, 0);
    match direction_word(t) {
        Some(_) => if kind_at(t, h + 2) == TokenKindView::Newline {
            h + 3
        } else {
            h
        },
        None => h,
    }
}

/// What a stretch of the body holds: its nodes, its edges and its findings,
/// each in the order of the text.
#[verifier::ext_equal]
pub ghost struct Parsed {
    pub nodes: Seq<NodeView>,
    pub edges: Seq<EdgeView>,
    pub diags: Seq<DiagnosticView>,
}

impl Parsed {
    /// Nothing.
    pub open spec fn empty() -> Parsed {
        Parsed { nodes: Seq::empty(), edges: Seq::empty(), diags: Seq::empty() }
    }

    /// What `self` holds, followed by what `next` holds.
    pub open spec fn followed_by(self, next: Parsed) -> Parsed {
        Parsed {
            nodes: self.nodes + next.nodes,
            edges: self.edges + next.edges,
            diags: self.diags + next.diags,
        }
    }
}

/// The index of the first newline or end marker from `i` on: where the line
/// of token `i` stops.
pub open spec fn line_stop(t: Seq<TokenView>, i: int) -> int
    decreases t.len() - i,
{
    if 0 <= i < t.len() && t[i].kind != TokenKindView::Newline && t[i].kind
        != TokenKindView::Eof {
        line_stop(t, i + 1)
    } else {
        i
    }
}

/// The width of the line whose first token is `first` and whose newline is
/// token `stop`: from the column of its first token to that of its last.
pub open spec fn line_width(t: Seq<TokenView>, first: int, stop: int) -> int {
    t[stop - 1].col - t[first].col
}

/// Whether the line from token `first` to the newline `stop` holds a token
/// and is wider than the body allows.
pub open spec fn line_too_wide(t: Seq<TokenView>, first: int, stop: int) -> bool {
    first < stop && line_width(t, first, stop) > MAX_LINE_WIDTH
}

/// The finding for a line that is too wide. Its span is the line.
pub open spec fn wide_line_finding(t: Seq<TokenView>, first: int, stop: int) -> DiagnosticView {
    finding(
        "E0300"@,
        "Line "@ + decimal(t[first].line) + " exceeds max length ("@ + decimal(
            line_width(t, first, stop) as nat,
        ) + " > 100)"@,
        SpanView { start: pos_at(t, first), end: pos_at(t, stop - 1) },
    )
}

/// What the end of a line adds: a finding where the line is too wide.
pub open spec fn line_check(t: Seq<TokenView>, first: int, stop: int) -> Parsed {
    Parsed {
        nodes: Seq::empty(),
        edges: Seq::empty(),
        diags: if line_too_wide(t, first, stop) {
            seq![wide_line_finding(t, first, stop)]
        } else {
            Seq::empty()
        },
    }
}

/// Whether a node declaration begins at token `i`: an identifier and an
/// opening bracket.
pub open spec fn node_begins(t: Seq<TokenView>, i: int) -> bool {
    kind_at(t, i) is Identifier && kind_at(t, i + 1) == TokenKindView::LBracket
}

/// In the node declaration at `i`, the index behind the label: behind the
/// string literal that follows the bracket, or behind the bracket.
pub open spec fn label_end(t: Seq<TokenView>, i: int) -> int {
    if kind_at(t, i + 2) is StringLit {
        i + 3
    } else {
        i + 2
    }
}

/// The index behind the node declaration at `i`: behind its closing
/// bracket, where it has one.
pub open spec fn node_end(t: Seq<TokenView>, i: int) -> int {
    if kind_at(t, label_end(t, i)) == TokenKindView::RBracket {
        label_end(t, i) + 1
    } else {
        label_end(t, i)
    }
}

/// The node that the declaration at `i` declares. Where the label is
/// missing it is empty. The span runs from the identifier to the last token
/// of the declaration.
pub open spec fn node_at(t: Seq<TokenView>, i: int) -> NodeView {
    NodeView {
        id: kind_at(t, i)->Identifier_0,
        label: match kind_at(t, i + 2) {
            TokenKindView::StringLit(label) => label,
            _ => Seq::empty(),
        },
        span: Some(SpanView { start: pos_at(t, i), end: pos_at(t, node_end(t, i) - 1) }),
    }
}

/// What the node declaration at `i` is found to lack: a quoted label, the
/// closing bracket, an identifier in snake case; in this order.
pub open spec fn node_findings(t: Seq<TokenView>, i: int) -> Seq<DiagnosticView> {
    let unquoted = if kind_at(t, i + 2) is StringLit {
        Seq::empty()
    } else {
        seq![finding("E0003"@, "Node label must be quoted"@, point(pos_at(t, i + 2)))]
    };
    let unclosed = if kind_at(t, label_end(t, i)) == TokenKindView::RBracket {
        Seq::empty()
    } else {
        seq![finding("E0010"@, "Expected ] after label"@, point(pos_at(t, label_end(t, i))))]
    };
    let misnamed = if snake_case(kind_at(t, i)->Identifier_0) {
        Seq::empty()
    } else {
        seq![finding("E0100"@, "Identifier must be snake_case"@, point(pos_at(t, i)))]
    };
    unquoted + unclosed + misnamed
}

/// What the node declaration at `i` adds.
pub open spec fn node_statement(t: Seq<TokenView>, i: int) -> Parsed {
    Parsed { nodes: seq![node_at(t, i)], edges: Seq::empty(), diags: node_findings(t, i) }
}

/// The kind of edge that an arrow token stands for.
pub open spec fn arrow_kind(kind: TokenKindView) -> Option<EdgeKind> {
    match kind {
        TokenKindView::ArrowFlow => Some(EdgeKind::Flow),
        TokenKindView::ArrowCond => Some(EdgeKind::Conditional),
        _ => None,
    }
}

/// Whether an edge declaration begins at token `i`: an identifier, an
/// arrow and an identifier, one next to the other.
pub open spec fn edge_begins(t: Seq<TokenView>, i: int) -> bool {
    kind_at(t, i) is Identifier && arrow_kind(kind_at(t, i + 1)) is Some && kind_at(t, i + 2)
        is Identifier
}

/// The edge that the declaration at `i` declares. The span runs from the
/// one identifier to the other.
pub open spec fn edge_at(t: Seq<TokenView>, i: int) -> EdgeView {
    EdgeView {
        from: kind_at(t, i)->Identifier_0,
        to: kind_at(t, i + 2)->Identifier_0,
        kind: arrow_kind(kind_at(t, i + 1))->Some_0,
        span: Some(SpanView { start: pos_at(t, i), end: pos_at(t, i + 2) }),
    }
}

/// What the edge declaration at `i` adds.
pub open spec fn edge_statement(t: Seq<TokenView>, i: int) -> Parsed {
    Parsed { nodes: Seq::empty(), edges: seq![edge_at(t, i)], diags: Seq::empty() }
}

/// What the body holds from token `i` on, where the line of token `i`
/// began at token `first`.
///
/// A newline closes the line, which is then measured. A comment is passed
/// over. A node declaration is taken, and what follows it on the line is
/// read as a statement of its own. An edge declaration is taken, and the
/// rest of its line is passed over. Of anything else the whole line is
/// passed over.
pub open spec fn body(t: Seq<TokenView>, i: int, first: int) -> Parsed
    decreases t.len() - i,
    via body_decreases
{
    if i < 0 || i >= t.len() {
        Parsed::empty()
    } else if t[i].kind == TokenKindView::Eof {
        Parsed::empty()
    } else if t[i].kind == TokenKindView::Newline {
        line_check(t, first, i).followed_by(body(t, i + 1, i + 1))
    } else if t[i].kind is Comment {
        body(t, i + 1, first)
    } else if node_begins(t, i) {
        node_statement(t, i).followed_by(body(t, node_end(t, i), first))
    } else if edge_begins(t, i) {
        edge_statement(t, i).followed_by(body(t, line_stop(t, i + 3), first))
    } else {
        body(t, line_stop(t, i + 1), first)
    }
}

#[via_fn]
proof fn body_decreases(t: Seq<TokenView>, i: int, first: int) {
    if 0 <= i < t.len() {
        lemma_line_stop(t, i + 1);
        lemma_line_stop(t, i + 3);
    }
}

/// `line_stop` goes forward, over tokens that are neither a newline nor an
/// end marker, and stops at one that is or at the end.
pub proof fn lemma_line_stop(t: Seq<TokenView>, i: int)
    requires
        0 <= i,
    ensures
        i <= line_stop(t, i),
        i <= t.len() ==> line_stop(t, i) <= t.len(),
        forall|k: int|
            i <= k < line_stop(t, i) ==> (#[trigger] t[k]).kind != TokenKindView::Newline
                && t[k].kind != TokenKindView::Eof,
        line_stop(t, i) < t.len() ==> t[line_stop(t, i)].kind == TokenKindView::Newline
            || t[line_stop(t, i)].kind == TokenKindView::Eof,
    decreases t.len() - i,
{
    if i < t.len() && t[i].kind != TokenKindView::Newline && t[i].kind != TokenKindView::Eof {
        lemma_line_stop(t, i + 1);
    }
}

/// What the syntax pass finds in a token sequence.
pub ghost struct Syntax {
    pub direction: Direction,
    pub title: Option<Seq<char>>,
    pub nodes: Seq<NodeView>,
    pub edges: Seq<EdgeView>,
    pub diags: Seq<DiagnosticView>,
}

/// The syntax pass: the title from the header, the direction from the
/// direction line, and the nodes, edges and findings of the body, the
/// findings on the direction line before those of the body. A line is
/// measured from its first token: where tokens follow the direction on its
/// line, from the keyword.
pub open spec fn syntax(t: Seq<TokenView>) -> Syntax {
    let found = body(t, body_start(t), line_first(t));
    Syntax {
        direction: direction_of(t),
        title: header_title(t, 0),
        nodes: found.nodes,
        edges: found.edges,
        diags: direction_findings(t) + found.diags,
    }
}

} // verus!
