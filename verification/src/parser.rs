//! The parser: from source text to a validated document, or to the findings
//! that explain why there is none.
//!
//! Parsing goes in three stages, each of which runs only where the one
//! before it found nothing: the syntax pass over the tokens, the check that
//! every edge joins declared nodes, and the check that every node has an
//! edge.

use crate::ast::{
    Direction, Directives, Document, DocumentView, Edge, EdgeKind, Metadata, MetadataView, Node,
    Position, Span, SpanView,
};
use crate::error::{Diagnostic, DiagnosticView};
use crate::laws::{
    has_dangling, lemma_reports_dangling, lemma_reports_orphans, orphans, reports_dangling,
    reports_orphans,
};
use crate::lexer::{
    Lexer, Token, TokenKind, TokenKindView, TokenView, in_order, lemma_columns_grow, lex,
    well_formed,
};
use crate::syntax::{
    MAX_LINE_WIDTH, Parsed, Syntax, body, body_start, direction_findings, direction_of, edge_at,
    edge_begins, edge_statement, finding, header_end, header_title, is_snake_char, is_title_comment,
    lemma_line_stop, line_check, line_first, line_stop, node_at, node_begins, node_end,
    node_findings, node_statement, position_of, snake_case, syntax, title_of,
};
use crate::text::{
    chars_of, has_prefix_at, push_decimal, skip_repeated_in, skip_whitespace_in, string_of,
    trimmed_end_in,
};
use crate::validate::{orphan_errors, orphan_findings, reference_errors, reference_findings};
use vstd::prelude::*;
use vstd::string::*;

verus! {

/// The document that a clean syntax pass describes.
pub open spec fn document_of(found: Syntax) -> DocumentView {
    DocumentView {
        version: "1"@,
        direction: found.direction,
        metadata: match found.title {
            Some(title) => Some(MetadataView { title: Some(title), tags: None }),
            None => None,
        },
        nodes: found.nodes,
        edges: found.edges,
    }
}

/// What parsing makes of a token sequence: the findings of the first stage
/// that has any, or the document.
pub open spec fn analyse(t: Seq<TokenView>) -> Result<DocumentView, Seq<DiagnosticView>> {
    let found = syntax(t);
    let dangling = reference_findings(found.nodes, found.edges);
    let orphans = orphan_findings(found.nodes, found.edges);
    if found.diags.len() > 0 {
        Err(found.diags)
    } else if dangling.len() > 0 {
        Err(dangling)
    } else if orphans.len() > 0 {
        Err(orphans)
    } else {
        Ok(document_of(found))
    }
}

/// What parsing makes of a source text.
pub open spec fn parse_spec(src: Seq<char>) -> Result<DocumentView, Seq<DiagnosticView>> {
    analyse(lex(src))
}

/// Whether `result` is a rejection with exactly these findings, in this
/// order.
pub open spec fn rejected_with(
    result: Result<Document, Vec<Diagnostic>>,
    findings: Seq<DiagnosticView>,
) -> bool {
    match result {
        Ok(_) => false,
        Err(diags) => diags.deep_view() == findings,
    }
}

/// What the stages make of what the syntax pass found. Its own findings
/// come first. Where it has none and an edge dangles, the dangling edges are
/// reported, whatever the degrees of the nodes. Where no edge dangles either
/// and a node has degree 0, the nodes of degree 0 are reported. Else the text
/// is accepted.
pub open spec fn staged(result: Result<Document, Vec<Diagnostic>>, found: Syntax) -> bool {
    let dangling = reference_findings(found.nodes, found.edges);
    let lone = orphan_findings(found.nodes, found.edges);
    if found.diags.len() > 0 {
        rejected_with(result, found.diags)
    } else if has_dangling(found.nodes, found.edges) {
        rejected_with(result, dangling) && reports_dangling(dangling, found.nodes, found.edges)
    } else if orphans(found.nodes, found.edges).len() > 0 {
        rejected_with(result, lone) && reports_orphans(lone, found.nodes, found.edges)
    } else {
        result is Ok
    }
}

/// The finding with this code and message at this place.
fn finding_at(code: &str, message: String, span: Span) -> (d: Diagnostic)
    ensures
        d@ == finding(code@, message@, span@),
{
    Diagnostic { code: String::from_str(code), message, span: Some(span) }
}

/// The title that a comment with this text gives, where it gives one.
fn title_from(text: &String) -> (title: Option<String>)
    ensures
        match title {
            Some(found) => is_title_comment(text@) && found@ == title_of(text@),
            None => !is_title_comment(text@),
        },
{
    let chars = chars_of(text.as_str());
    let marker = chars_of("Diagram:");
    let begin = skip_whitespace_in(&chars, 0);
    if !has_prefix_at(&chars, begin, &marker) {
        return None;
    }
    let after = skip_repeated_in(&chars, begin, &marker);
    let lo = skip_whitespace_in(&chars, after);
    let hi = trimmed_end_in(&chars, lo, chars.len());
    Some(string_of(&chars, lo, hi))
}

/// A parser over the tokens of one source text. It is made for one call of
/// [`Parser::parse`] and owns its tokens and its cursor.
pub struct Parser {
    toks: Vec<Token>,
    idx: usize,
}

impl Parser {
    /// Parses `src`: the document that it describes, or the findings of the
    /// first stage that has any. Never both, and never neither. Findings of
    /// the syntax pass hide those of the reference check, and those hide the
    /// findings of the orphan check.
    pub fn parse(src: &str) -> (result: Result<Document, Vec<Diagnostic>>)
        ensures
            match result {
                Ok(doc) => parse_spec(src@) == Ok::<DocumentView, Seq<DiagnosticView>>(doc@),
                Err(diags) => parse_spec(src@) == Err::<DocumentView, Seq<DiagnosticView>>(
                    diags.deep_view(),
                ),
            },
            staged(result, syntax(lex(src@))),
    {
        let mut p = Parser::new(src);
        p.document()
    }

    /// A parser over the tokens of `src`, with its cursor at the first of
    /// them.
    pub fn new(src: &str) -> (p: Parser)
        ensures
            p.ready(),
            p.tokens() == lex(src@),
    {
        let toks = Lexer::tokenize(src);
        Parser { toks, idx: 0 }
    }

    /// The tokens that the parser holds.
    pub closed spec fn tokens(&self) -> Seq<TokenView> {
        self.toks.deep_view()
    }

    /// Whether the parser has yet to begin: it holds the tokens of a text,
    /// and its cursor is at the first of them.
    pub closed spec fn ready(&self) -> bool {
        self.wf() && self.idx == 0
    }

    /// The tokens are those of a text, and the cursor is at one of them.
    spec fn wf(&self) -> bool {
        well_formed(self.tokens()) && self.idx < self.toks.len()
    }

    /// The token at the cursor.
    fn peek(&self) -> (tok: &Token)
        requires
            self.idx < self.toks.len(),
        ensures
            *tok == self.toks[self.idx as int],
    {
        &self.toks[self.idx]
    }

    /// Moves the cursor to the next token, unless it is at the last one.
    fn bump(&mut self)
        requires
            old(self).toks.len() > 0,
        ensures
            final(self).toks == old(self).toks,
            final(self).idx == if old(self).idx + 1 < old(self).toks.len() {
                old(self).idx + 1
            } else {
                old(self).idx as int
            },
    {
        if self.idx < self.toks.len() - 1 {
            self.idx += 1;
        }
    }

    /// Moves the cursor over a newline token, where it is at one.
    fn expect_newline(&mut self)
        requires
            old(self).idx < old(self).toks.len(),
        ensures
            final(self).toks == old(self).toks,
            final(self).idx == if old(self).tokens()[old(self).idx as int].kind
                == TokenKindView::Newline && old(self).idx + 1 < old(self).toks.len() {
                old(self).idx + 1
            } else {
                old(self).idx as int
            },
    {
        if matches!(self.peek().kind, TokenKind::Newline) {
            self.bump();
        }
    }

    /// The span from the one token to the other.
    fn make_span(tok: &Token, end_tok: &Token) -> (span: Span)
        ensures
            span@ == (SpanView { start: position_of(tok@), end: position_of(end_tok@) }),
    {
        Span {
            start: Position { line: tok.line, col: tok.col },
            end: Position { line: end_tok.line, col: end_tok.col },
        }
    }

    /// Whether `id` keeps the rule for node identifiers.
    fn is_snake_case(id: &str) -> (b: bool)
        ensures
            b == snake_case(id@),
    {
        let chars = chars_of(id);
        let n = chars.len();
        if n == 0 {
            return false;
        }
        if !(chars[0] >= 'a' && chars[0] <= 'z') {
            return false;
        }
        if chars[n - 1] == '_' {
            return false;
        }
        let mut k: usize = 0;
        while k < n
            invariant
                chars@ == id@,
                n == chars.len(),
                k <= n,
                forall|j: int| 0 <= j < k ==> is_snake_char(#[trigger] chars@[j]),
            decreases n - k,
        {
            let ch = chars[k];
            if !((ch >= 'a' && ch <= 'z') || (ch >= '0' && ch <= '9') || ch == '_') {
                assert(!is_snake_char(id@[k as int]));
                return false;
            }
            k += 1;
        }
        true
    }

    /// Runs the three stages over the tokens: the document that they
    /// describe, or the findings of the first stage that has any.
    pub fn document(&mut self) -> (result: Result<Document, Vec<Diagnostic>>)
        requires
            old(self).ready(),
        ensures
            match result {
                Ok(doc) => analyse(old(self).tokens()) == Ok::<DocumentView, Seq<DiagnosticView>>(
                    doc@,
                ),
                Err(diags) => analyse(old(self).tokens()) == Err::<
                    DocumentView,
                    Seq<DiagnosticView>,
                >(diags.deep_view()),
            },
            staged(result, syntax(old(self).tokens())),
    {
        proof {
            let found = syntax(self.tokens());
            lemma_reports_dangling(found.nodes, found.edges);
            lemma_reports_orphans(found.nodes, found.edges);
        }
        let mut diags: Vec<Diagnostic> = Vec::new();
        let mut nodes: Vec<Node> = Vec::new();
        let mut edges: Vec<Edge> = Vec::new();
        let title = self.header();
        let (direction, first) = self.direction_line(&mut diags);
        self.body(first, &mut nodes, &mut edges, &mut diags);
        if diags.len() > 0 {
            return Err(diags);
        }
        let dangling = reference_errors(&nodes, &edges);
        if dangling.len() > 0 {
            return Err(dangling);
        }
        let orphans = orphan_errors(&nodes, &edges);
        if orphans.len() > 0 {
            return Err(orphans);
        }
        let metadata = match title {
            Some(title) => Some(Metadata { title: Some(title), tags: None }),
            None => None,
        };
        Ok(
            Document {
                version: String::from_str("1"),
                directives: Directives { direction },
                metadata,
                nodes,
                edges,
            },
        )
    }

    /// Passes over the header and gives its title: over each leading
    /// comment, the newline that ends its line, and one blank line behind it
    /// where there is one.
    fn header(&mut self) -> (title: Option<String>)
        requires
            old(self).wf(),
            old(self).idx == 0,
        ensures
            final(self).wf(),
            final(self).toks == old(self).toks,
            final(self).idx == header_end(old(self).tokens(), 0),
            match title {
                Some(found) => header_title(old(self).tokens(), 0) == Some(found@),
                None => header_title(old(self).tokens(), 0) is None,
            },
    {
        let ghost t = self.tokens();
        let mut title: Option<String> = None;
        while matches!(self.peek().kind, TokenKind::Comment(_))
            invariant
                self.wf(),
                self.toks == old(self).toks,
                t == self.tokens(),
                header_end(t, self.idx as int) == header_end(t, 0),
                match title {
                    Some(found) => header_title(t, 0) == Some(found@),
                    None => header_title(t, self.idx as int) == header_title(t, 0),
                },
            decreases self.toks.len() - self.idx,
        {
            if title.is_none() {
                match &self.peek().kind {
                    TokenKind::Comment(text) => {
                        title = title_from(text);
                    },
                    _ => {},
                }
            }
            self.bump();
            if matches!(self.peek().kind, TokenKind::Newline) {
                self.bump();
                self.expect_newline();
            }
        }
        title
    }

    /// Takes the direction line, or notes that it is missing. Gives the
    /// direction, and the index of the first token of the line on which the
    /// body begins.
    fn direction_line(&mut self, diags: &mut Vec<Diagnostic>) -> (out: (Direction, usize))
        requires
            old(self).wf(),
            old(self).idx == header_end(old(self).tokens(), 0),
            old(diags).len() == 0,
        ensures
            final(self).wf(),
            final(self).toks == old(self).toks,
            final(self).idx == body_start(old(self).tokens()),
            out.0 == direction_of(old(self).tokens()),
            out.1 == line_first(old(self).tokens()),
            out.1 <= final(self).idx,
            forall|k: int|
                out.1 <= k < final(self).idx ==> (#[trigger] old(self).tokens()[k]).kind
                    != TokenKindView::Newline,
            final(diags).deep_view() == direction_findings(old(self).tokens()),
    {
        let ghost t = self.tokens();
        let at = self.idx;
        let here = Position { line: self.toks[at].line, col: self.toks[at].col };
        let mut word: Option<String> = None;
        if matches!(self.toks[at].kind, TokenKind::DirectionKw) {
            match &self.toks[at + 1].kind {
                TokenKind::Identifier(w) => {
                    word = Some(w.clone());
                },
                _ => {},
            }
        }
        match word {
            Some(w) => {
                assert(in_order(t, at as int));
                let direction = if w == "LR".to_owned() {
                    Direction::LR
                } else if w == "TD".to_owned() {
                    Direction::TD
                } else {
                    let end = Position { line: here.line, col: here.col + 1 };
                    diags.push(
                        finding_at(
                            "E0001",
                            String::from_str("Invalid direction"),
                            Span { start: here, end },
                        ),
                    );
                    Direction::LR
                };
                self.bump();
                self.bump();
                let first = if matches!(self.peek().kind, TokenKind::Newline) {
                    self.bump();
                    self.idx
                } else {
                    at
                };
                assert(diags.deep_view() =~= direction_findings(t));
                (direction, first)
            },
            None => {
                diags.push(
                    finding_at(
                        "E0001",
                        String::from_str("Missing direction on first line"),
                        Span { start: here, end: here },
                    ),
                );
                assert(diags.deep_view() =~= direction_findings(t));
                (Direction::LR, at)
            },
        }
    }

    /// Passes over the rest of the line: stops at its newline, or at the
    /// end marker.
    fn skip_line(&mut self)
        requires
            old(self).wf(),
        ensures
            final(self).wf(),
            final(self).toks == old(self).toks,
            final(self).idx == line_stop(old(self).tokens(), old(self).idx as int),
    {
        let ghost t = self.tokens();
        while !matches!(self.peek().kind, TokenKind::Newline | TokenKind::Eof)
            invariant
                self.wf(),
                self.toks == old(self).toks,
                t == self.tokens(),
                line_stop(t, self.idx as int) == line_stop(t, old(self).idx as int),
            decreases self.toks.len() - self.idx,
        {
            self.bump();
        }
    }

    /// Takes the node declaration at the cursor.
    fn node_declaration(&mut self, nodes: &mut Vec<Node>, diags: &mut Vec<Diagnostic>)
        requires
            old(self).wf(),
            node_begins(old(self).tokens(), old(self).idx as int),
        ensures
            final(self).wf(),
            final(self).toks == old(self).toks,
            final(self).idx == node_end(old(self).tokens(), old(self).idx as int),
            final(nodes).deep_view() == old(nodes).deep_view().push(
                node_at(old(self).tokens(), old(self).idx as int),
            ),
            final(diags).deep_view() == old(diags).deep_view() + node_findings(
                old(self).tokens(),
                old(self).idx as int,
            ),
    {
        let ghost t = self.tokens();
        let start = self.idx;
        let id = match &self.peek().kind {
            TokenKind::Identifier(id) => id.clone(),
            _ => String::new(),
        };
        self.bump();
        self.bump();
        let label = match &self.peek().kind {
            TokenKind::StringLit(text) => {
                let label = text.clone();
                self.bump();
                label
            },
            _ => {
                let here = self.peek();
                diags.push(
                    finding_at(
                        "E0003",
                        String::from_str("Node label must be quoted"),
                        Self::make_span(here, here),
                    ),
                );
                String::new()
            },
        };
        if matches!(self.peek().kind, TokenKind::RBracket) {
            self.bump();
        } else {
            let here = self.peek();
            diags.push(
                finding_at(
                    "E0010",
                    String::from_str("Expected ] after label"),
                    Self::make_span(here, here),
                ),
            );
        }
        if !Self::is_snake_case(id.as_str()) {
            let here = &self.toks[start];
            diags.push(
                finding_at(
                    "E0100",
                    String::from_str("Identifier must be snake_case"),
                    Self::make_span(here, here),
                ),
            );
        }
        let span = Self::make_span(&self.toks[start], &self.toks[self.idx - 1]);
        nodes.push(Node { id, label, span: Some(span) });
        assert(nodes.deep_view() =~= old(nodes).deep_view().push(node_at(t, start as int)));
        assert(diags.deep_view() =~= old(diags).deep_view() + node_findings(t, start as int));
    }

    /// Takes the edge declaration at the cursor, and leaves the cursor
    /// behind its second identifier.
    fn edge_declaration(&mut self, edges: &mut Vec<Edge>)
        requires
            old(self).wf(),
            edge_begins(old(self).tokens(), old(self).idx as int),
        ensures
            final(self).wf(),
            final(self).toks == old(self).toks,
            final(self).idx == old(self).idx + 3,
            final(edges).deep_view() == old(edges).deep_view().push(
                edge_at(old(self).tokens(), old(self).idx as int),
            ),
    {
        let ghost t = self.tokens();
        let start = self.idx;
        let from = match &self.toks[start].kind {
            TokenKind::Identifier(id) => id.clone(),
            _ => String::new(),
        };
        let kind = match &self.toks[start + 1].kind {
            TokenKind::ArrowCond => EdgeKind::Conditional,
            _ => EdgeKind::Flow,
        };
        let to = match &self.toks[start + 2].kind {
            TokenKind::Identifier(id) => id.clone(),
            _ => String::new(),
        };
        let span = Self::make_span(&self.toks[start], &self.toks[start + 2]);
        self.bump();
        self.bump();
        self.bump();
        edges.push(Edge { from, to, kind, span: Some(span) });
        assert(edges.deep_view() =~= old(edges).deep_view().push(edge_at(t, start as int)));
    }

    /// Whether an edge declaration begins at the cursor.
    fn at_edge(&self) -> (b: bool)
        requires
            self.wf(),
            self.tokens()[self.idx as int].kind is Identifier,
        ensures
            b == edge_begins(self.tokens(), self.idx as int),
    {
        let at = self.idx;
        if !matches!(self.toks[at + 1].kind, TokenKind::ArrowFlow | TokenKind::ArrowCond) {
            return false;
        }
        matches!(self.toks[at + 2].kind, TokenKind::Identifier(_))
    }

    /// Measures the line from token `first` to the newline at the cursor.
    fn measure_line(&self, first: usize, diags: &mut Vec<Diagnostic>)
        requires
            self.wf(),
            first <= self.idx,
            self.tokens()[self.idx as int].kind == TokenKindView::Newline,
            forall|k: int|
                first <= k < self.idx ==> (#[trigger] self.tokens()[k]).kind
                    != TokenKindView::Newline,
        ensures
            final(diags).deep_view() == old(diags).deep_view() + line_check(
                self.tokens(),
                first as int,
                self.idx as int,
            ).diags,
    {
        let ghost t = self.tokens();
        if self.idx > first {
            let start_tok = &self.toks[first];
            let end_tok = &self.toks[self.idx - 1];
            proof {
                lemma_columns_grow(t, first as int, self.idx - 1);
            }
            let width = end_tok.col - start_tok.col;
            if width > MAX_LINE_WIDTH {
                let mut message = String::from_str("Line ");
                push_decimal(&mut message, start_tok.line);
                message.append(" exceeds max length (");
                push_decimal(&mut message, width);
                message.append(" > 100)");
                diags.push(finding_at("E0300", message, Self::make_span(start_tok, end_tok)));
                assert(diags.deep_view() =~= old(diags).deep_view() + line_check(
                    t,
                    first as int,
                    self.idx as int,
                ).diags);
                return ;
            }
        }
        assert(diags.deep_view() =~= old(diags).deep_view() + line_check(
            t,
            first as int,
            self.idx as int,
        ).diags);
    }

    /// Reads the body, from the cursor to the end marker. The line of the
    /// cursor begins at token `start`.
    fn body(
        &mut self,
        start: usize,
        nodes: &mut Vec<Node>,
        edges: &mut Vec<Edge>,
        diags: &mut Vec<Diagnostic>,
    )
        requires
            old(self).wf(),
            start <= old(self).idx,
            forall|k: int|
                start <= k < old(self).idx ==> (#[trigger] old(self).tokens()[k]).kind
                    != TokenKindView::Newline,
            old(nodes).len() == 0,
            old(edges).len() == 0,
        ensures
            final(self).toks == old(self).toks,
            final(nodes).deep_view() == body(
                old(self).tokens(),
                old(self).idx as int,
                start as int,
            ).nodes,
            final(edges).deep_view() == body(
                old(self).tokens(),
                old(self).idx as int,
                start as int,
            ).edges,
            final(diags).deep_view() == old(diags).deep_view() + body(
                old(self).tokens(),
                old(self).idx as int,
                start as int,
            ).diags,
    {
        let ghost t = self.tokens();
        let ghost all = body(t, self.idx as int, start as int);
        let mut first = start;
        while !matches!(self.peek().kind, TokenKind::Eof)
            invariant
                self.wf(),
                self.toks == old(self).toks,
                t == self.tokens(),
                first <= self.idx,
                forall|k: int|
                    first <= k < self.idx ==> (#[trigger] t[k]).kind != TokenKindView::Newline,
                nodes.deep_view() + body(t, self.idx as int, first as int).nodes =~= all.nodes,
                edges.deep_view() + body(t, self.idx as int, first as int).edges =~= all.edges,
                diags.deep_view() + body(t, self.idx as int, first as int).diags =~= old(
                    diags,
                ).deep_view() + all.diags,
            decreases self.toks.len() - self.idx,
        {
            let ghost at = self.idx as int;
            let ghost rest = body(t, at, first as int);
            if matches!(self.peek().kind, TokenKind::Newline) {
                self.measure_line(first, diags);
                assert(rest == line_check(t, first as int, at).followed_by(
                    body(t, at + 1, at + 1),
                ));
                self.bump();
                first = self.idx;
            } else if matches!(self.peek().kind, TokenKind::Comment(_)) {
                self.bump();
            } else if matches!(self.peek().kind, TokenKind::Identifier(_)) {
                if matches!(self.toks[self.idx + 1].kind, TokenKind::LBracket) {
                    self.node_declaration(nodes, diags);
                    assert(rest == node_statement(t, at).followed_by(
                        body(t, node_end(t, at), first as int),
                    ));
                } else if self.at_edge() {
                    self.edge_declaration(edges);
                    self.skip_line();
                    assert(rest == edge_statement(t, at).followed_by(
                        body(t, line_stop(t, at + 3), first as int),
                    ));
                } else {
                    self.skip_line();
                }
            } else {
                self.skip_line();
            }
            proof {
                lemma_line_stop(t, at + 1);
                lemma_line_stop(t, at + 3);
            }
        }
        assert(body(t, self.idx as int, first as int) == Parsed::empty());
    }
}

} // verus!
