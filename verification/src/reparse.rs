//! The canonical text of an accepted document is accepted again, as the
//! same document but for the places of its nodes and edges.

use crate::ast::{Direction, DocumentView, EdgeKind, EdgeView, MetadataView, NodeView};
use crate::laws::{
    law_document_valid, lemma_header_end, lemma_orphan_findings, lemma_reference_findings,
    lemma_wide_line_found,
};
use crate::lexer::{
    TokenKindView, TokenView, closing_tokens, col_of, in_order, is_escape, is_letter, is_word_char,
    lemma_columns_grow, lemma_lex_well_formed, lemma_lexeme_advances, lemma_line_start_bound,
    lemma_same_line, lemma_string_end, lemma_tokens_from_shape, lemma_tokens_sound, lemma_word_end,
    lex, lexeme_at, line_end, line_of, line_start, no_newline, sound_kind, string_end, string_text,
    tokens_from, well_formed, word_end,
};
use crate::parser::{analyse, document_of, parse_spec};
use crate::source::{
    arrow, direction_line, direction_name, edge_line, edge_lines, escape_label, needs_escape,
    node_line, node_lines, source_of, title_line,
};
use crate::syntax::{
    MAX_LINE_WIDTH, Parsed, body, body_start, comment_end, direction_findings, direction_named,
    direction_of, direction_word, edge_at, edge_begins, edge_statement, header_end, header_title,
    is_title_comment, kind_at, label_end, lemma_line_stop, line_check, line_first, line_stop,
    line_too_wide, node_at, node_begins, node_end, node_findings, node_statement, pos_at,
    snake_case, syntax, title_marker, title_of,
};
use crate::text::{
    has_at, is_whitespace, lemma_has_at_concat, lemma_has_at_index, skip_repeated, skip_whitespace,
    trimmed_end,
};
use crate::validate::{declares, degree, orphan_findings, reference_findings};
use vstd::prelude::*;

verus! {

/// The least number of columns that a token of this kind takes.
pub open spec fn token_width(kind: TokenKindView) -> int {
    match kind {
        TokenKindView::Identifier(word) => word.len() as int,
        TokenKindView::LBracket => 1,
        TokenKindView::StringLit(text) => escape_label(text).len() as int + 2,
        TokenKindView::ArrowFlow => 3,
        TokenKindView::ArrowCond => 4,
        _ => 0,
    }
}

/// Whether token `k + 1` of `t`, where it stands on the line of token `k`,
/// leaves token `k` the columns that it takes.
pub open spec fn spaced(t: Seq<TokenView>, k: int) -> bool {
    t[k].kind != TokenKindView::Newline && t[k + 1].kind != TokenKindView::Newline ==> t[k].col
        + token_width(t[k].kind) <= t[k + 1].col
}

/// Whether the string literal whose body begins at `j` is closed by a quote
/// on its line.
pub open spec fn string_closed(s: Seq<char>, j: int) -> bool
    decreases s.len() - j,
{
    if j < 0 || j >= s.len() || s[j] == '\n' {
        false
    } else if s[j] == '"' {
        true
    } else if is_escape(s, j) {
        string_closed(s, j + 2)
    } else {
        string_closed(s, j + 1)
    }
}

/// A closed string literal is at least as long as its text is when written
/// with the fewest escapes, and one that is not closed ends its line.
proof fn lemma_string_width(s: Seq<char>, j: int)
    requires
        0 <= j <= s.len(),
    ensures
        j <= string_end(s, j) <= s.len(),
        string_closed(s, j) ==> escape_label(string_text(s, j)).len() + 1 <= string_end(s, j) - j,
        !string_closed(s, j) ==> string_end(s, j) == s.len() || s[string_end(s, j)] == '\n',
    decreases s.len() - j,
{
    if j < s.len() && s[j] != '\n' && s[j] != '"' {
        let text = string_text(s, j);
        if is_escape(s, j) {
            lemma_string_width(s, j + 2);
            assert(text.drop_first() =~= string_text(s, j + 2));
        } else {
            lemma_string_width(s, j + 1);
            assert(text.drop_first() =~= string_text(s, j + 1));
            if string_closed(s, j) && s[j] == '\\' {
                let rest = string_text(s, j + 1);
                assert(s[j + 1] != '"' && s[j + 1] != '\\' && s[j + 1] != '\n');
                assert(!is_escape(s, j + 1));
                assert(rest[0] == s[j + 1]);
                assert(!needs_escape(s[j], rest));
            }
        }
    } else {
        assert(escape_label(string_text(s, j)).len() == 0);
    }
}

/// A lexeme is at least as long as its token is wide; a string literal that
/// is shorter is not closed and ends its line.
proof fn lemma_lexeme_width(s: Seq<char>, i: int)
    requires
        0 <= i < s.len(),
    ensures
        match lexeme_at(s, i).kind {
            Some(kind) => token_width(kind) <= lexeme_at(s, i).end - i || lexeme_at(s, i).end
                == s.len() || s[lexeme_at(s, i).end] == '\n',
            None => true,
        },
{
    reveal(lexeme_at);
    lemma_string_width(s, i + 1);
    lemma_word_end(s, i + 1);
    lemma_lexeme_advances(s, i);
}

/// In the tokens of a text, each token leaves the one before it the
/// columns that it takes.
pub proof fn lemma_tokens_spaced(s: Seq<char>, i: int)
    requires
        0 <= i <= s.len(),
    ensures
        forall|k: int|
            0 <= k < tokens_from(s, i).len() - 1 ==> #[trigger] spaced(tokens_from(s, i), k),
    decreases s.len() - i,
{
    let t = tokens_from(s, i);
    if i < s.len() {
        lemma_lexeme_advances(s, i);
        lemma_lexeme_width(s, i);
        let lx = lexeme_at(s, i);
        let rest = tokens_from(s, lx.end);
        lemma_tokens_spaced(s, lx.end);
        lemma_tokens_from_shape(s, lx.end);
        lemma_line_start_bound(s, i);
        lemma_line_start_bound(s, lx.end);
        match lx.kind {
            Some(kind) => {
                let tok = TokenView { kind, line: line_of(s, i), col: col_of(s, i) };
                assert(t == seq![tok] + rest);
                assert forall|k: int| 0 <= k < t.len() - 1 implies #[trigger] spaced(t, k) by {
                    assert(t[k + 1] == rest[k]);
                    if k > 0 {
                        assert(t[k] == rest[k - 1]);
                        assert(spaced(rest, k - 1));
                    } else {
                        assert(t[0] == tok);
                        if kind != TokenKindView::Newline && rest[0].kind
                            != TokenKindView::Newline {
                            lemma_same_line(s, i, lx.end);
                            if lx.end == s.len() {
                                assert(s[s.len() - 1] != '\n');
                                assert(rest[0].kind == TokenKindView::Newline);
                            } else if s[lx.end] == '\n' {
                                lemma_lexeme_advances(s, lx.end);
                                assert(rest[0].kind == TokenKindView::Newline);
                            }
                        }
                    }
                }
            },
            None => {},
        }
    } else {
        assert forall|k: int| 0 <= k < t.len() - 1 implies #[trigger] spaced(t, k) by {}
    }
}

/// What holds of a node of an accepted document, and makes its line read
/// as the node again: the identifier is in snake case and is not the
/// keyword, the label holds no newline, and the line is not too wide.
pub open spec fn writable_node(n: NodeView) -> bool {
    &&& snake_case(n.id)
    &&& n.id != "direction"@
    &&& no_newline(n.label)
    &&& n.id.len() + escape_label(n.label).len() + 3 <= MAX_LINE_WIDTH
}

/// What holds of an edge of an accepted document: its line is not too
/// wide.
pub open spec fn writable_edge(e: EdgeView) -> bool {
    e.from.len() + arrow(e.kind).len() <= MAX_LINE_WIDTH
}

/// What the lexer gives the parser, besides a well-formed sequence.
pub open spec fn lexed(t: Seq<TokenView>) -> bool {
    &&& well_formed(t)
    &&& forall|k: int| 0 <= k < t.len() ==> sound_kind((#[trigger] t[k]).kind)
    &&& forall|k: int| 0 <= k < t.len() - 1 ==> #[trigger] spaced(t, k)
}

proof fn lemma_line_closed(t: Seq<TokenView>, i: int)
    requires
        well_formed(t),
        0 <= i < t.len(),
        t[i].kind != TokenKindView::Eof,
    ensures
        i <= line_stop(t, i) < t.len(),
        t[line_stop(t, i)].kind == TokenKindView::Newline,
        forall|k: int|
            i <= k < line_stop(t, i) ==> (#[trigger] t[k]).kind != TokenKindView::Newline,
    decreases t.len() - i,
{
    if t[i].kind != TokenKindView::Newline {
        assert(in_order(t, i));
        lemma_line_closed(t, i + 1);
    }
}

/// On a line of a body without findings, two tokens are at most the widest
/// line apart.
proof fn lemma_line_fits(t: Seq<TokenView>, i: int, first: int, a: int, b: int)
    requires
        well_formed(t),
        0 <= first <= i < t.len(),
        forall|k: int| first <= k < i ==> (#[trigger] t[k]).kind != TokenKindView::Newline,
        t[i].kind != TokenKindView::Eof,
        body(t, i, first).diags.len() == 0,
        first <= a <= b < line_stop(t, i),
    ensures
        t[b].col - t[a].col <= MAX_LINE_WIDTH,
{
    lemma_line_closed(t, i);
    let stop = line_stop(t, i);
    if line_too_wide(t, first, stop) {
        lemma_wide_line_found(t, i, first, first, stop);
    }
    lemma_columns_grow(t, first, a);
    lemma_columns_grow(t, b, stop - 1);
}

/// The nodes and the edges of a body without findings can be written.
proof fn lemma_body_writable(t: Seq<TokenView>, i: int, first: int)
    requires
        lexed(t),
        0 <= first <= i <= t.len(),
        forall|k: int| first <= k < i ==> (#[trigger] t[k]).kind != TokenKindView::Newline,
        body(t, i, first).diags.len() == 0,
    ensures
        forall|k: int|
            0 <= k < body(t, i, first).nodes.len() ==> writable_node(
                #[trigger] body(t, i, first).nodes[k],
            ),
        forall|k: int|
            0 <= k < body(t, i, first).edges.len() ==> writable_edge(
                #[trigger] body(t, i, first).edges[k],
            ),
    decreases t.len() - i,
{
    let all = body(t, i, first);
    if i >= t.len() || t[i].kind == TokenKindView::Eof {
        assert(all == Parsed::empty());
    } else if t[i].kind == TokenKindView::Newline {
        let rest = body(t, i + 1, i + 1);
        assert(all.diags =~= line_check(t, first, i).diags + rest.diags);
        lemma_body_writable(t, i + 1, i + 1);
        assert(all.nodes =~= rest.nodes);
        assert(all.edges =~= rest.edges);
    } else if t[i].kind is Comment {
        lemma_body_writable(t, i + 1, first);
        assert(all == body(t, i + 1, first));
    } else if node_begins(t, i) {
        let next = node_end(t, i);
        let rest = body(t, next, first);
        let here = node_findings(t, i);
        assert(all.diags =~= here + rest.diags);
        assert(here.len() == 0);
        assert(t[i + 2].kind is StringLit);
        assert(t[i + 3].kind == TokenKindView::RBracket);
        assert(next == i + 4);
        lemma_line_closed(t, i);
        assert(line_stop(t, i) > i + 3);
        lemma_line_fits(t, i, first, i, i + 3);
        assert(spaced(t, i));
        assert(spaced(t, i + 1));
        assert(spaced(t, i + 2));
        let n = node_at(t, i);
        assert(sound_kind(t[i].kind));
        assert(sound_kind(t[i + 2].kind));
        assert(writable_node(n));
        lemma_body_writable(t, next, first);
        assert(all.edges =~= rest.edges);
        assert forall|k: int| 0 <= k < all.nodes.len() implies writable_node(
            #[trigger] all.nodes[k],
        ) by {
            if k > 0 {
                assert(all.nodes[k] == rest.nodes[k - 1]);
            }
        }
    } else if edge_begins(t, i) {
        lemma_line_stop(t, i + 3);
        lemma_line_closed(t, i);
        let next = line_stop(t, i + 3);
        assert(line_stop(t, i) > i + 2);
        assert(next == line_stop(t, i));
        let rest = body(t, next, first);
        assert(all.diags =~= rest.diags);
        lemma_line_fits(t, i, first, i, i + 2);
        assert(spaced(t, i));
        assert(spaced(t, i + 1));
        let e = edge_at(t, i);
        assert(writable_edge(e));
        lemma_body_writable(t, next, first);
        assert(all.nodes =~= rest.nodes);
        assert forall|k: int| 0 <= k < all.edges.len() implies writable_edge(
            #[trigger] all.edges[k],
        ) by {
            if k > 0 {
                assert(all.edges[k] == rest.edges[k - 1]);
            }
        }
    } else {
        lemma_line_stop(t, i + 1);
        lemma_line_closed(t, i);
        lemma_body_writable(t, line_stop(t, i + 1), first);
        assert(all == body(t, line_stop(t, i + 1), first));
    }
}

/// Whether `w` has the shape of an identifier: a letter, then letters,
/// digits and underscores.
pub open spec fn is_word(w: Seq<char>) -> bool {
    &&& w.len() > 0
    &&& is_letter(w[0])
    &&& forall|k: int| 0 <= k < w.len() ==> is_word_char(#[trigger] w[k])
}

/// An identifier in snake case has the shape of an identifier.
proof fn lemma_snake_case_is_word(id: Seq<char>)
    requires
        snake_case(id),
    ensures
        is_word(id),
{
    assert forall|k: int| 0 <= k < id.len() implies is_word_char(#[trigger] id[k]) by {
        assert(crate::syntax::is_snake_char(id[k]));
    }
}

/// A word that stands in the text, with no word character behind it, is
/// scanned as a whole.
proof fn lemma_word_scanned(s: Seq<char>, i: int, w: Seq<char>, k: int)
    requires
        has_at(s, i, w),
        0 <= k <= w.len(),
        forall|j: int| 0 <= j < w.len() ==> is_word_char(#[trigger] w[j]),
        i + w.len() == s.len() || !is_word_char(s[i + w.len()]),
    ensures
        word_end(s, i + k) == i + w.len(),
    decreases w.len() - k,
{
    if k < w.len() {
        lemma_has_at_index(s, i, w, k);
        lemma_word_scanned(s, i, w, k + 1);
    }
}

/// A label written between quotes is scanned as that label, up to the
/// closing quote.
proof fn lemma_label_scanned(s: Seq<char>, j: int, x: Seq<char>)
    requires
        0 <= j,
        has_at(s, j, escape_label(x) + seq!['"']),
        no_newline(x),
    ensures
        string_text(s, j) == x,
        string_end(s, j) == j + escape_label(x).len() + 1,
    decreases x.len(),
{
    let all = escape_label(x) + seq!['"'];
    if x.len() == 0 {
        lemma_has_at_index(s, j, all, 0);
        assert(string_text(s, j) =~= x);
    } else {
        let c = x[0];
        let rest = x.drop_first();
        let tail = escape_label(rest) + seq!['"'];
        assert(c != '\n');
        assert(no_newline(rest)) by {
            assert forall|k: int| 0 <= k < rest.len() implies rest[k] != '\n' by {
                assert(rest[k] == x[k + 1]);
            }
        }
        if needs_escape(c, rest) {
            let head = seq!['\\', c];
            assert(all =~= head + tail);
            lemma_has_at_concat(s, j, head, tail);
            lemma_has_at_index(s, j, head, 0);
            lemma_has_at_index(s, j, head, 1);
            lemma_label_scanned(s, j + 2, rest);
            assert(is_escape(s, j));
            assert(string_text(s, j) =~= seq![c] + rest);
            assert(seq![c] + rest =~= x);
        } else {
            let head = seq![c];
            assert(all =~= head + tail);
            lemma_has_at_concat(s, j, head, tail);
            lemma_has_at_index(s, j, head, 0);
            lemma_label_scanned(s, j + 1, rest);
            if c == '\\' {
                lemma_has_at_index(s, j + 1, tail, 0);
                assert(!needs_escape(rest[0], rest.drop_first()));
                assert(tail[0] == rest[0]);
                assert(!is_escape(s, j));
            }
            assert(string_text(s, j) =~= seq![c] + rest);
            assert(seq![c] + rest =~= x);
        }
    }
}

/// The token of this kind on this line at this column.
pub open spec fn token(kind: TokenKindView, line: nat, col: int) -> TokenView {
    TokenView { kind, line, col: col as nat }
}

/// One step of the lexer, on a line that begins at `p` and holds no
/// newline up to `q`.
proof fn lemma_token_step(s: Seq<char>, p: int, q: int)
    requires
        0 <= p <= q < s.len(),
        line_start(s, p) == p,
        forall|k: int| p <= k < q ==> s[k] != '\n',
    ensures
        tokens_from(s, q) == match lexeme_at(s, q).kind {
            Some(kind) => seq![token(kind, line_of(s, p), q - p + 1)] + tokens_from(
                s,
                lexeme_at(s, q).end,
            ),
            None => tokens_from(s, lexeme_at(s, q).end),
        },
{
    lemma_same_line(s, p, q);
}

/// The tokens of the line that declares the node `n`, on line `line`.
pub open spec fn node_tokens(n: NodeView, line: nat) -> Seq<TokenView> {
    let a = n.id.len() as int;
    let b = escape_label(n.label).len() as int;
    seq![
        token(TokenKindView::Identifier(n.id), line, 1),
        token(TokenKindView::LBracket, line, 1 + a),
        token(TokenKindView::StringLit(n.label), line, 2 + a),
        token(TokenKindView::RBracket, line, 4 + a + b),
        token(TokenKindView::Newline, line, 5 + a + b),
    ]
}

/// The line of a node is read as the tokens of the node.
proof fn lemma_node_line_tokens(s: Seq<char>, p: int, n: NodeView)
    requires
        0 <= p,
        has_at(s, p, node_line(n)),
        line_start(s, p) == p,
        writable_node(n),
    ensures
        tokens_from(s, p) == node_tokens(n, line_of(s, p)) + tokens_from(
            s,
            p + node_line(n).len(),
        ),
        line_start(s, p + node_line(n).len()) == p + node_line(n).len(),
        line_of(s, p + node_line(n).len()) == line_of(s, p) + 1,
{
    let id = n.id;
    let esc = escape_label(n.label);
    let a = id.len() as int;
    let b = esc.len() as int;
    let open = seq!['[', '"'];
    let close = seq!['"', ']', '\n'];
    let line = line_of(s, p);
    lemma_has_at_concat(s, p, id + open + esc, close);
    lemma_has_at_concat(s, p, id + open, esc);
    lemma_has_at_concat(s, p, id, open);
    lemma_has_at_index(s, p + a, open, 0);
    lemma_has_at_index(s, p + a, open, 1);
    lemma_has_at_index(s, p + a + 2 + b, close, 0);
    lemma_has_at_index(s, p + a + 2 + b, close, 1);
    lemma_has_at_index(s, p + a + 2 + b, close, 2);
    lemma_snake_case_is_word(id);
    lemma_has_at_index(s, p, id, 0);
    let q1 = p + a;
    let q2 = q1 + 1;
    let q3 = q2 + 1 + b + 1;
    let q4 = q3 + 1;
    assert forall|k: int| p <= k < q1 implies s[k] != '\n' by {
        lemma_has_at_index(s, p, id, k - p);
    }
    // the identifier
    lemma_word_scanned(s, p, id, 1);
    assert(s.subrange(p, q1) == id);
    // the label
    assert(s.subrange(q2 + 1 + b, q2 + 1 + b + 1) =~= seq!['"']);
    lemma_has_at_concat(s, q2 + 1, esc, seq!['"']);
    lemma_label_scanned(s, q2 + 1, n.label);
    lemma_string_end(s, q2 + 1);
    assert(forall|k: int| p <= k < q4 ==> s[k] != '\n');
    reveal(lexeme_at);
    lemma_token_step(s, p, p);
    lemma_token_step(s, p, q1);
    lemma_token_step(s, p, q2);
    lemma_token_step(s, p, q3);
    lemma_token_step(s, p, q4);
    let after = tokens_from(s, q4 + 1);
    assert(tokens_from(s, q4) == seq![token(TokenKindView::Newline, line, q4 - p + 1)] + after);
    assert(tokens_from(s, q3) == seq![token(TokenKindView::RBracket, line, q3 - p + 1)]
        + tokens_from(s, q4));
    assert(tokens_from(s, q2) == seq![token(TokenKindView::StringLit(n.label), line, q2 - p + 1)]
        + tokens_from(s, q3));
    assert(tokens_from(s, q1) == seq![token(TokenKindView::LBracket, line, q1 - p + 1)]
        + tokens_from(s, q2));
    assert(tokens_from(s, p) == seq![token(TokenKindView::Identifier(id), line, 1)] + tokens_from(
        s,
        q1,
    ));
    assert(tokens_from(s, p) =~= node_tokens(n, line) + after);
    lemma_same_line(s, p, q4);
}

/// The tokens of the line that declares the edge `e`, on line `line`.
pub open spec fn edge_tokens(e: EdgeView, line: nat) -> Seq<TokenView> {
    let a = e.from.len() as int;
    let w = arrow(e.kind).len() as int;
    let c = e.to.len() as int;
    seq![
        token(TokenKindView::Identifier(e.from), line, 1),
        token(
            match e.kind {
                EdgeKind::Flow => TokenKindView::ArrowFlow,
                EdgeKind::Conditional => TokenKindView::ArrowCond,
            },
            line,
            1 + a,
        ),
        token(TokenKindView::Identifier(e.to), line, 1 + a + w),
        token(TokenKindView::Newline, line, 1 + a + w + c),
    ]
}

/// The line of an edge is read as the tokens of the edge.
proof fn lemma_edge_line_tokens(s: Seq<char>, p: int, e: EdgeView)
    requires
        0 <= p,
        has_at(s, p, edge_line(e)),
        line_start(s, p) == p,
        is_word(e.from),
        is_word(e.to),
        e.from != "direction"@,
        e.to != "direction"@,
    ensures
        tokens_from(s, p) == edge_tokens(e, line_of(s, p)) + tokens_from(
            s,
            p + edge_line(e).len(),
        ),
        line_start(s, p + edge_line(e).len()) == p + edge_line(e).len(),
        line_of(s, p + edge_line(e).len()) == line_of(s, p) + 1,
{
    let a = e.from.len() as int;
    let w = arrow(e.kind).len() as int;
    let c = e.to.len() as int;
    let line = line_of(s, p);
    let end = seq!['\n'];
    lemma_has_at_concat(s, p, e.from + arrow(e.kind) + e.to, end);
    lemma_has_at_concat(s, p, e.from + arrow(e.kind), e.to);
    lemma_has_at_concat(s, p, e.from, arrow(e.kind));
    let q1 = p + a;
    let q2 = q1 + w;
    let q3 = q2 + c;
    lemma_has_at_index(s, q3, end, 0);
    lemma_has_at_index(s, q1, arrow(e.kind), 0);
    lemma_has_at_index(s, q1, arrow(e.kind), 1);
    lemma_has_at_index(s, q1, arrow(e.kind), 2);
    if e.kind == EdgeKind::Conditional {
        lemma_has_at_index(s, q1, arrow(e.kind), 3);
    }
    lemma_has_at_index(s, p, e.from, 0);
    lemma_has_at_index(s, q2, e.to, 0);
    assert forall|k: int| p <= k < q3 implies s[k] != '\n' by {
        if k < q1 {
            lemma_has_at_index(s, p, e.from, k - p);
        } else if k >= q2 {
            lemma_has_at_index(s, q2, e.to, k - q2);
        }
    }
    lemma_word_scanned(s, p, e.from, 1);
    lemma_word_scanned(s, q2, e.to, 1);
    assert(s.subrange(p, q1) == e.from);
    assert(s.subrange(q2, q3) == e.to);
    reveal(lexeme_at);
    lemma_token_step(s, p, p);
    lemma_token_step(s, p, q1);
    lemma_token_step(s, p, q2);
    lemma_token_step(s, p, q3);
    let after = tokens_from(s, q3 + 1);
    assert(tokens_from(s, q3) == seq![token(TokenKindView::Newline, line, q3 - p + 1)] + after);
    assert(tokens_from(s, q2) == seq![token(TokenKindView::Identifier(e.to), line, q2 - p + 1)]
        + tokens_from(s, q3));
    assert(tokens_from(s, q1) == seq![edge_tokens(e, line)[1]] + tokens_from(s, q2));
    assert(tokens_from(s, p) == seq![token(TokenKindView::Identifier(e.from), line, 1)]
        + tokens_from(s, q1));
    assert(tokens_from(s, p) =~= edge_tokens(e, line) + after);
    lemma_same_line(s, p, q3);
}

/// The tokens of the direction line, on line `line`.
pub open spec fn direction_tokens(direction: Direction, line: nat) -> Seq<TokenView> {
    seq![
        token(TokenKindView::DirectionKw, line, 1),
        token(TokenKindView::Identifier(direction_name(direction)), line, 11),
        token(TokenKindView::Newline, line, 13),
    ]
}

/// The direction line is read as the keyword and the name.
proof fn lemma_direction_line_tokens(s: Seq<char>, p: int, direction: Direction)
    requires
        0 <= p,
        has_at(s, p, direction_line(direction)),
        line_start(s, p) == p,
    ensures
        tokens_from(s, p) == direction_tokens(direction, line_of(s, p)) + tokens_from(s, p + 13),
        direction_line(direction).len() == 13,
        line_start(s, p + 13) == p + 13,
        line_of(s, p + 13) == line_of(s, p) + 1,
{
    reveal_strlit("direction");
    let kw = "direction"@;
    let name = direction_name(direction);
    let line = line_of(s, p);
    lemma_has_at_concat(s, p, kw + seq![' '] + name, seq!['\n']);
    lemma_has_at_concat(s, p, kw + seq![' '], name);
    lemma_has_at_concat(s, p, kw, seq![' ']);
    lemma_has_at_index(s, p + 9, seq![' '], 0);
    lemma_has_at_index(s, p + 10, name, 0);
    lemma_has_at_index(s, p + 10, name, 1);
    lemma_has_at_index(s, p + 12, seq!['\n'], 0);
    lemma_has_at_index(s, p, kw, 0);
    assert forall|k: int| p <= k < p + 12 implies s[k] != '\n' by {
        if k < p + 9 {
            lemma_has_at_index(s, p, kw, k - p);
        }
    }
    assert forall|j: int| 0 <= j < kw.len() implies is_word_char(#[trigger] kw[j]) by {}
    lemma_word_scanned(s, p, kw, 1);
    lemma_word_scanned(s, p + 10, name, 1);
    assert(s.subrange(p, p + 9) == kw);
    assert(s.subrange(p + 10, p + 12) == name);
    assert(name.len() == 2);
    assert(name != kw);
    reveal(lexeme_at);
    lemma_token_step(s, p, p);
    lemma_token_step(s, p, p + 9);
    lemma_token_step(s, p, p + 10);
    lemma_token_step(s, p, p + 12);
    let after = tokens_from(s, p + 13);
    assert(tokens_from(s, p + 12) == seq![token(TokenKindView::Newline, line, 13)] + after);
    assert(tokens_from(s, p + 10) == seq![token(TokenKindView::Identifier(name), line, 11)]
        + tokens_from(s, p + 12));
    assert(tokens_from(s, p + 9) == tokens_from(s, p + 10));
    assert(tokens_from(s, p) == seq![token(TokenKindView::DirectionKw, line, 1)] + tokens_from(
        s,
        p + 9,
    ));
    assert(tokens_from(s, p) =~= direction_tokens(direction, line) + after);
    lemma_same_line(s, p, p + 12);
}

/// The text of the comment that gives the title `title`.
pub open spec fn title_comment(title: Seq<char>) -> Seq<char> {
    seq![' '] + "Diagram:"@ + seq![' '] + title
}

/// The tokens of the title line, on line `line`.
pub open spec fn title_tokens(title: Seq<char>, line: nat) -> Seq<TokenView> {
    seq![
        token(TokenKindView::Comment(title_comment(title)), line, 1),
        token(TokenKindView::Newline, line, 13 + title.len() as int),
    ]
}

proof fn lemma_line_end_found(s: Seq<char>, i: int, end: int)
    requires
        0 <= i <= end < s.len(),
        forall|k: int| i <= k < end ==> s[k] != '\n',
        s[end] == '\n',
    ensures
        line_end(s, i) == end,
    decreases end - i,
{
    if i < end {
        lemma_line_end_found(s, i + 1, end);
    }
}

/// The title line is read as a comment and a newline.
proof fn lemma_title_line_tokens(s: Seq<char>, p: int, title: Seq<char>)
    requires
        0 <= p,
        has_at(s, p, seq!['%', '%'] + title_comment(title) + seq!['\n']),
        line_start(s, p) == p,
        no_newline(title),
    ensures
        tokens_from(s, p) == title_tokens(title, line_of(s, p)) + tokens_from(
            s,
            p + title.len() + 13,
        ),
        line_start(s, p + title.len() + 13) == p + title.len() + 13,
        line_of(s, p + title.len() + 13) == line_of(s, p) + 1,
{
    reveal_strlit("Diagram:");
    let text = title_comment(title);
    let line = line_of(s, p);
    let end = p + 2 + text.len();
    assert(text.len() == title.len() + 10);
    lemma_has_at_concat(s, p, seq!['%', '%'] + text, seq!['\n']);
    lemma_has_at_concat(s, p, seq!['%', '%'], text);
    lemma_has_at_index(s, p, seq!['%', '%'], 0);
    lemma_has_at_index(s, p, seq!['%', '%'], 1);
    lemma_has_at_index(s, end, seq!['\n'], 0);
    assert forall|k: int| p <= k < end implies s[k] != '\n' by {
        if k >= p + 2 {
            lemma_has_at_index(s, p + 2, text, k - p - 2);
            let j = k - p - 2;
            if j >= 10 {
                assert(text[j] == title[j - 10]);
            }
        }
    }
    lemma_line_end_found(s, p + 2, end);
    assert(s.subrange(p + 2, end) == text);
    reveal(lexeme_at);
    lemma_token_step(s, p, p);
    lemma_token_step(s, p, end);
    let after = tokens_from(s, end + 1);
    assert(tokens_from(s, end) == seq![token(TokenKindView::Newline, line, end - p + 1)] + after);
    assert(tokens_from(s, p) == seq![token(TokenKindView::Comment(text), line, 1)] + tokens_from(
        s,
        end,
    ));
    assert(tokens_from(s, p) =~= title_tokens(title, line) + after);
    lemma_same_line(s, p, end);
}

/// The tokens of the lines that declare the nodes from index `k` on, the
/// first of them on line `line`.
pub open spec fn nodes_tokens(nodes: Seq<NodeView>, k: int, line: nat) -> Seq<TokenView>
    decreases nodes.len() - k,
{
    if 0 <= k < nodes.len() {
        node_tokens(nodes[k], line) + nodes_tokens(nodes, k + 1, line + 1)
    } else {
        Seq::empty()
    }
}

/// The tokens of the lines that declare the edges from index `k` on, the
/// first of them on line `line`.
pub open spec fn edges_tokens(edges: Seq<EdgeView>, k: int, line: nat) -> Seq<TokenView>
    decreases edges.len() - k,
{
    if 0 <= k < edges.len() {
        edge_tokens(edges[k], line) + edges_tokens(edges, k + 1, line + 1)
    } else {
        Seq::empty()
    }
}

/// The lines of the nodes are read as the tokens of the nodes.
proof fn lemma_node_lines_tokens(s: Seq<char>, p: int, nodes: Seq<NodeView>, k: int)
    requires
        0 <= p,
        0 <= k <= nodes.len(),
        has_at(s, p, node_lines(nodes, k)),
        line_start(s, p) == p,
        forall|j: int| 0 <= j < nodes.len() ==> writable_node(#[trigger] nodes[j]),
    ensures
        tokens_from(s, p) == nodes_tokens(nodes, k, line_of(s, p)) + tokens_from(
            s,
            p + node_lines(nodes, k).len(),
        ),
        line_start(s, p + node_lines(nodes, k).len()) == p + node_lines(nodes, k).len(),
        line_of(s, p + node_lines(nodes, k).len()) == line_of(s, p) + nodes.len() - k,
    decreases nodes.len() - k,
{
    if k < nodes.len() {
        let here = node_line(nodes[k]);
        let rest = node_lines(nodes, k + 1);
        lemma_has_at_concat(s, p, here, rest);
        lemma_node_line_tokens(s, p, nodes[k]);
        lemma_node_lines_tokens(s, p + here.len(), nodes, k + 1);
        assert(tokens_from(s, p) =~= nodes_tokens(nodes, k, line_of(s, p)) + tokens_from(
            s,
            p + node_lines(nodes, k).len(),
        ));
    } else {
        assert(tokens_from(s, p) =~= nodes_tokens(nodes, k, line_of(s, p)) + tokens_from(s, p));
    }
}

/// Whether both ends of each edge have the shape of an identifier and are
/// not the keyword.
pub open spec fn edges_named(edges: Seq<EdgeView>) -> bool {
    forall|j: int|
        0 <= j < edges.len() ==> {
            let e = #[trigger] edges[j];
            is_word(e.from) && is_word(e.to) && e.from != "direction"@ && e.to != "direction"@
        }
}

/// The lines of the edges are read as the tokens of the edges.
proof fn lemma_edge_lines_tokens(s: Seq<char>, p: int, edges: Seq<EdgeView>, k: int)
    requires
        0 <= p,
        0 <= k <= edges.len(),
        has_at(s, p, edge_lines(edges, k)),
        line_start(s, p) == p,
        edges_named(edges),
    ensures
        tokens_from(s, p) == edges_tokens(edges, k, line_of(s, p)) + tokens_from(
            s,
            p + edge_lines(edges, k).len(),
        ),
        line_start(s, p + edge_lines(edges, k).len()) == p + edge_lines(edges, k).len(),
        line_of(s, p + edge_lines(edges, k).len()) == line_of(s, p) + edges.len() - k,
    decreases edges.len() - k,
{
    if k < edges.len() {
        let here = edge_line(edges[k]);
        let rest = edge_lines(edges, k + 1);
        lemma_has_at_concat(s, p, here, rest);
        lemma_edge_line_tokens(s, p, edges[k]);
        lemma_edge_lines_tokens(s, p + here.len(), edges, k + 1);
        assert(tokens_from(s, p) =~= edges_tokens(edges, k, line_of(s, p)) + tokens_from(
            s,
            p + edge_lines(edges, k).len(),
        ));
    } else {
        assert(tokens_from(s, p) =~= edges_tokens(edges, k, line_of(s, p)) + tokens_from(s, p));
    }
}

/// The title of a document, where it has one.
pub open spec fn title_in(doc: DocumentView) -> Option<Seq<char>> {
    match doc.metadata {
        Some(MetadataView { title: Some(title), tags: _ }) => Some(title),
        _ => None,
    }
}

/// The tokens of the title line of a document that has a title.
pub open spec fn header_tokens(doc: DocumentView) -> Seq<TokenView> {
    match title_in(doc) {
        Some(title) => title_tokens(title, 1),
        None => Seq::empty(),
    }
}

/// The tokens of the canonical text of a document.
pub open spec fn canonical_tokens(doc: DocumentView) -> Seq<TokenView> {
    let h = header_tokens(doc).len() / 2;
    header_tokens(doc) + direction_tokens(doc.direction, 1 + h) + nodes_tokens(
        doc.nodes,
        0,
        2 + h,
    ) + edges_tokens(doc.edges, 0, 2 + h + doc.nodes.len()) + seq![
        token(TokenKindView::Eof, 2 + h + doc.nodes.len() + doc.edges.len(), 1),
    ]
}

/// Whether a document can be written so that it is read again: its
/// version is the one that the parser gives; its metadata, where it has
/// any, is a title without tags, and the title holds no newline and
/// neither begins nor ends with white space; and its nodes and edges can be
/// written.
pub open spec fn writable(doc: DocumentView) -> bool {
    &&& doc.version == "1"@
    &&& match doc.metadata {
        Some(meta) => meta.tags is None && match meta.title {
            Some(title) => no_newline(title) && trimmed(title),
            None => false,
        },
        None => true,
    }
    &&& forall|j: int| 0 <= j < doc.nodes.len() ==> writable_node(#[trigger] doc.nodes[j])
    &&& forall|j: int| 0 <= j < doc.edges.len() ==> writable_edge(#[trigger] doc.edges[j])
}

/// Whether a document is valid: every edge starts and ends at a declared
/// node, and every node has an edge.
pub open spec fn valid(doc: DocumentView) -> bool {
    &&& forall|j: int|
        0 <= j < doc.edges.len() ==> declares(doc.nodes, (#[trigger] doc.edges[j]).from)
            && declares(doc.nodes, doc.edges[j].to)
    &&& forall|j: int|
        0 <= j < doc.nodes.len() ==> degree(doc.edges, (#[trigger] doc.nodes[j]).id) > 0
}

/// In a valid document whose nodes can be written, the ends of the edges
/// have the shape of identifiers.
proof fn lemma_edges_named(doc: DocumentView)
    requires
        writable(doc),
        valid(doc),
    ensures
        edges_named(doc.edges),
{
    assert forall|j: int| 0 <= j < doc.edges.len() implies {
        let e = #[trigger] doc.edges[j];
        is_word(e.from) && is_word(e.to) && e.from != "direction"@ && e.to != "direction"@
    } by {
        let e = doc.edges[j];
        let a = choose|a: int| 0 <= a < doc.nodes.len() && (#[trigger] doc.nodes[a]).id == e.from;
        let b = choose|b: int| 0 <= b < doc.nodes.len() && (#[trigger] doc.nodes[b]).id == e.to;
        lemma_snake_case_is_word(doc.nodes[a].id);
        lemma_snake_case_is_word(doc.nodes[b].id);
    }
}

/// The lines of the nodes and of the edges, where they close the text, are
/// read as the tokens of the nodes, those of the edges, and the end marker.
proof fn lemma_statement_tokens(s: Seq<char>, p: int, doc: DocumentView)
    requires
        0 <= p,
        has_at(s, p, node_lines(doc.nodes, 0)),
        has_at(s, p + node_lines(doc.nodes, 0).len(), edge_lines(doc.edges, 0)),
        p + node_lines(doc.nodes, 0).len() + edge_lines(doc.edges, 0).len() == s.len(),
        line_start(s, p) == p,
        p > 0,
        writable(doc),
        edges_named(doc.edges),
    ensures
        tokens_from(s, p) == nodes_tokens(doc.nodes, 0, line_of(s, p)) + edges_tokens(
            doc.edges,
            0,
            line_of(s, p) + doc.nodes.len(),
        ) + seq![
            token(TokenKindView::Eof, line_of(s, p) + doc.nodes.len() + doc.edges.len(), 1),
        ],
{
    lemma_node_lines_tokens(s, p, doc.nodes, 0);
    let after_nodes = p + node_lines(doc.nodes, 0).len();
    lemma_edge_lines_tokens(s, after_nodes, doc.edges, 0);
    let after_edges = after_nodes + edge_lines(doc.edges, 0).len();
    lemma_line_start_bound(s, after_edges - 1);
    assert(s[after_edges - 1] == '\n');
    assert(tokens_from(s, after_edges) == closing_tokens(s));
    assert(closing_tokens(s) =~= seq![
        token(TokenKindView::Eof, line_of(s, p) + doc.nodes.len() + doc.edges.len(), 1),
    ]);
}

/// The canonical text of a writable document is read as its canonical
/// tokens.
proof fn lemma_canonical_tokens(doc: DocumentView)
    requires
        writable(doc),
        edges_named(doc.edges),
    ensures
        lex(source_of(doc)) == canonical_tokens(doc),
{
    let s = source_of(doc);
    let head = title_line(doc.metadata);
    let dir = direction_line(doc.direction);
    let ns = node_lines(doc.nodes, 0);
    let es = edge_lines(doc.edges, 0);
    assert(s.subrange(0, s.len() as int) =~= s);
    assert(has_at(s, 0, s));
    lemma_has_at_concat(s, 0, head + dir + ns, es);
    lemma_has_at_concat(s, 0, head + dir, ns);
    lemma_has_at_concat(s, 0, head, dir);
    let after_title = head.len() as int;
    let h = header_tokens(doc).len() / 2;
    assert(tokens_from(s, 0) == header_tokens(doc) + tokens_from(s, after_title) && line_start(
        s,
        after_title,
    ) == after_title && line_of(s, after_title) == 1 + h) by {
        match title_in(doc) {
            Some(title) => {
                reveal_strlit("Diagram:");
                assert(head =~= seq!['%', '%'] + title_comment(title) + seq!['\n']);
                lemma_title_line_tokens(s, 0, title);
                assert(after_title == title.len() + 13);
            },
            None => {
                assert(after_title == 0);
                assert(header_tokens(doc) =~= Seq::<TokenView>::empty());
                assert(tokens_from(s, 0) =~= header_tokens(doc) + tokens_from(s, after_title));
            },
        }
    }
    lemma_direction_line_tokens(s, after_title, doc.direction);
    let after_direction = after_title + 13;
    lemma_statement_tokens(s, after_direction, doc);
    assert(lex(s) =~= canonical_tokens(doc));
}

proof fn lemma_line_stop_shift(t: Seq<TokenView>, m: int, i: int)
    requires
        0 <= m <= i <= t.len(),
    ensures
        line_stop(t.subrange(m, t.len() as int), i - m) == line_stop(t, i) - m,
    decreases t.len() - i,
{
    let u = t.subrange(m, t.len() as int);
    if i < t.len() {
        assert(u[i - m] == t[i]);
        if t[i].kind != TokenKindView::Newline && t[i].kind != TokenKindView::Eof {
            lemma_line_stop_shift(t, m, i + 1);
        }
    }
}

/// What the body holds from a token on does not depend on the tokens
/// before the line of that token.
proof fn lemma_body_shift(t: Seq<TokenView>, m: int, i: int, first: int)
    requires
        t.len() > 0,
        t.last().kind == TokenKindView::Eof,
        0 <= m <= first <= i <= t.len(),
    ensures
        body(t, i, first) == body(t.subrange(m, t.len() as int), i - m, first - m),
    decreases t.len() - i,
{
    let u = t.subrange(m, t.len() as int);
    let n = t.len() as int;
    assert forall|j: int| m <= j ==> kind_at(u, j - m) == #[trigger] kind_at(t, j) by {
        if m <= j < n {
            assert(u[j - m] == t[j]);
        }
    }
    assert forall|j: int| m <= j < n ==> pos_at(u, j - m) == #[trigger] pos_at(t, j) by {
        if m <= j < n {
            assert(u[j - m] == t[j]);
        }
    }
    if i >= n {
    } else {
        assert(u[i - m] == t[i]);
        assert(kind_at(t, i) == t[i].kind);
        if t[i].kind == TokenKindView::Eof {
        } else if t[i].kind == TokenKindView::Newline {
            lemma_body_shift(t, m, i + 1, i + 1);
            if first < i {
                assert(u[i - 1 - m] == t[i - 1]);
                assert(u[first - m] == t[first]);
                assert(pos_at(t, first) == pos_at(u, first - m));
                assert(pos_at(t, i - 1) == pos_at(u, i - 1 - m));
            }
            assert(line_check(t, first, i) == line_check(u, first - m, i - m));
        } else if t[i].kind is Comment {
            lemma_body_shift(t, m, i + 1, first);
        } else if node_begins(t, i) {
            assert(kind_at(t, i + 1) == kind_at(u, i + 1 - m));
            assert(kind_at(t, i + 2) == kind_at(u, i + 2 - m));
            assert(kind_at(t, i + 3) == kind_at(u, i + 3 - m));
            assert(i + 2 < n);
            assert(label_end(t, i) < n);
            assert(label_end(u, i - m) == label_end(t, i) - m);
            assert(kind_at(t, label_end(t, i)) == kind_at(u, label_end(t, i) - m));
            assert(node_end(u, i - m) == node_end(t, i) - m);
            assert(node_end(t, i) <= n);
            assert(pos_at(t, i) == pos_at(u, i - m));
            assert(pos_at(t, i + 2) == pos_at(u, i + 2 - m));
            assert(pos_at(t, label_end(t, i)) == pos_at(u, label_end(t, i) - m));
            assert(pos_at(t, node_end(t, i) - 1) == pos_at(u, node_end(t, i) - 1 - m));
            assert(node_at(t, i) == node_at(u, i - m));
            assert(node_findings(t, i) == node_findings(u, i - m));
            lemma_body_shift(t, m, node_end(t, i), first);
        } else if edge_begins(t, i) {
            assert(kind_at(t, i + 1) == kind_at(u, i + 1 - m));
            assert(kind_at(t, i + 2) == kind_at(u, i + 2 - m));
            assert(i + 3 <= n);
            assert(pos_at(t, i) == pos_at(u, i - m));
            assert(pos_at(t, i + 2) == pos_at(u, i + 2 - m));
            assert(edge_at(t, i) == edge_at(u, i - m));
            lemma_line_stop(t, i + 3);
            lemma_line_stop_shift(t, m, i + 3);
            lemma_body_shift(t, m, line_stop(t, i + 3), first);
            assert(edge_begins(u, i - m));
        } else {
            assert(kind_at(t, i + 1) == kind_at(u, i + 1 - m));
            assert(kind_at(t, i + 2) == kind_at(u, i + 2 - m));
            assert(!node_begins(u, i - m));
            assert(!edge_begins(u, i - m));
            lemma_line_stop(t, i + 1);
            lemma_line_stop_shift(t, m, i + 1);
            lemma_body_shift(t, m, line_stop(t, i + 1), first);
        }
    }
}

/// The node `n` without its place.
pub open spec fn bare_node(n: NodeView) -> NodeView {
    NodeView { id: n.id, label: n.label, span: None }
}

/// The edge `e` without its place.
pub open spec fn bare_edge(e: EdgeView) -> EdgeView {
    EdgeView { from: e.from, to: e.to, kind: e.kind, span: None }
}

/// The nodes without their places.
pub open spec fn bare_nodes(nodes: Seq<NodeView>) -> Seq<NodeView> {
    Seq::new(nodes.len(), |k: int| bare_node(nodes[k]))
}

/// The edges without their places.
pub open spec fn bare_edges(edges: Seq<EdgeView>) -> Seq<EdgeView> {
    Seq::new(edges.len(), |k: int| bare_edge(edges[k]))
}

/// The document without the places of its nodes and edges: what it says.
pub open spec fn bare(doc: DocumentView) -> DocumentView {
    DocumentView {
        version: doc.version,
        direction: doc.direction,
        metadata: doc.metadata,
        nodes: bare_nodes(doc.nodes),
        edges: bare_edges(doc.edges),
    }
}

/// The tokens of node lines are parsed as those nodes, without findings.
proof fn lemma_nodes_parsed(nodes: Seq<NodeView>, k: int, line: nat, rest: Seq<TokenView>)
    requires
        0 <= k <= nodes.len(),
        rest.len() > 0,
        rest.last().kind == TokenKindView::Eof,
        forall|j: int| 0 <= j < nodes.len() ==> writable_node(#[trigger] nodes[j]),
    ensures
        bare_nodes(body(nodes_tokens(nodes, k, line) + rest, 0, 0).nodes) == bare_nodes(
            nodes.subrange(k, nodes.len() as int),
        ) + bare_nodes(body(rest, 0, 0).nodes),
        body(nodes_tokens(nodes, k, line) + rest, 0, 0).edges == body(rest, 0, 0).edges,
        body(nodes_tokens(nodes, k, line) + rest, 0, 0).diags == body(rest, 0, 0).diags,
    decreases nodes.len() - k,
{
    let t = nodes_tokens(nodes, k, line) + rest;
    if k < nodes.len() {
        let n = nodes[k];
        let here = node_tokens(n, line);
        let tail = nodes_tokens(nodes, k + 1, line + 1) + rest;
        assert(t =~= here + tail);
        assert(t[0] == here[0] && t[1] == here[1] && t[2] == here[2] && t[3] == here[3] && t[4]
            == here[4]);
        assert(tail.last() == rest.last());
        lemma_nodes_parsed(nodes, k + 1, line + 1, rest);
        lemma_body_shift(t, 5, 5, 5);
        assert(t.subrange(5, t.len() as int) =~= tail);
        assert(node_begins(t, 0));
        assert(node_end(t, 0) == 4);
        assert(node_findings(t, 0) =~= Seq::empty());
        assert(!line_too_wide(t, 0, 4));
        let after = body(tail, 0, 0);
        assert(body(t, 5, 5) == after);
        assert(body(t, 4, 0) == line_check(t, 0, 4).followed_by(body(t, 5, 5)));
        assert(body(t, 0, 0) == node_statement(t, 0).followed_by(body(t, 4, 0)));
        let b = body(t, 0, 0);
        assert(b.nodes =~= seq![node_at(t, 0)] + after.nodes);
        assert(b.edges =~= after.edges);
        assert(b.diags =~= after.diags);
        let left = bare_nodes(nodes.subrange(k, nodes.len() as int));
        let next = bare_nodes(nodes.subrange(k + 1, nodes.len() as int));
        assert(left =~= seq![bare_node(n)] + next);
        assert(bare_nodes(b.nodes) =~= seq![bare_node(node_at(t, 0))] + bare_nodes(after.nodes));
        assert(bare_node(node_at(t, 0)) == bare_node(n));
        assert(bare_nodes(b.nodes) =~= left + bare_nodes(body(rest, 0, 0).nodes));
    } else {
        assert(t =~= rest);
        assert(bare_nodes(nodes.subrange(k, nodes.len() as int)) =~= Seq::empty());
        assert(bare_nodes(body(rest, 0, 0).nodes) =~= Seq::empty() + bare_nodes(
            body(rest, 0, 0).nodes,
        ));
    }
}

/// The tokens of edge lines are parsed as those edges, without findings.
proof fn lemma_edges_parsed(edges: Seq<EdgeView>, k: int, line: nat, rest: Seq<TokenView>)
    requires
        0 <= k <= edges.len(),
        rest.len() > 0,
        rest.last().kind == TokenKindView::Eof,
        forall|j: int| 0 <= j < edges.len() ==> writable_edge(#[trigger] edges[j]),
    ensures
        bare_edges(body(edges_tokens(edges, k, line) + rest, 0, 0).edges) == bare_edges(
            edges.subrange(k, edges.len() as int),
        ) + bare_edges(body(rest, 0, 0).edges),
        body(edges_tokens(edges, k, line) + rest, 0, 0).nodes == body(rest, 0, 0).nodes,
        body(edges_tokens(edges, k, line) + rest, 0, 0).diags == body(rest, 0, 0).diags,
    decreases edges.len() - k,
{
    let t = edges_tokens(edges, k, line) + rest;
    if k < edges.len() {
        let e = edges[k];
        let here = edge_tokens(e, line);
        let tail = edges_tokens(edges, k + 1, line + 1) + rest;
        assert(t =~= here + tail);
        assert(t[0] == here[0] && t[1] == here[1] && t[2] == here[2] && t[3] == here[3]);
        assert(tail.last() == rest.last());
        lemma_edges_parsed(edges, k + 1, line + 1, rest);
        lemma_body_shift(t, 4, 4, 4);
        assert(t.subrange(4, t.len() as int) =~= tail);
        assert(!node_begins(t, 0));
        assert(edge_begins(t, 0));
        assert(line_stop(t, 3) == 3);
        assert(!line_too_wide(t, 0, 3));
        let after = body(tail, 0, 0);
        assert(body(t, 4, 4) == after);
        assert(body(t, 3, 0) == line_check(t, 0, 3).followed_by(body(t, 4, 4)));
        assert(body(t, 0, 0) == edge_statement(t, 0).followed_by(body(t, 3, 0)));
        let b = body(t, 0, 0);
        assert(b.edges =~= seq![edge_at(t, 0)] + after.edges);
        assert(b.nodes =~= after.nodes);
        assert(b.diags =~= after.diags);
        let left = bare_edges(edges.subrange(k, edges.len() as int));
        let next = bare_edges(edges.subrange(k + 1, edges.len() as int));
        assert(left =~= seq![bare_edge(e)] + next);
        assert(bare_edges(b.edges) =~= seq![bare_edge(edge_at(t, 0))] + bare_edges(after.edges));
        assert(bare_edge(edge_at(t, 0)) == bare_edge(e));
        assert(bare_edges(b.edges) =~= left + bare_edges(body(rest, 0, 0).edges));
    } else {
        assert(t =~= rest);
        assert(bare_edges(edges.subrange(k, edges.len() as int)) =~= Seq::empty());
        assert(bare_edges(body(rest, 0, 0).edges) =~= Seq::empty() + bare_edges(
            body(rest, 0, 0).edges,
        ));
    }
}

/// Whether `x` neither begins nor ends with white space.
pub open spec fn trimmed(x: Seq<char>) -> bool {
    x.len() == 0 || (!is_whitespace(x[0]) && !is_whitespace(x.last()))
}

proof fn lemma_skip_whitespace(s: Seq<char>, i: int)
    requires
        0 <= i <= s.len(),
    ensures
        i <= skip_whitespace(s, i) <= s.len(),
        skip_whitespace(s, i) < s.len() ==> !is_whitespace(s[skip_whitespace(s, i)]),
    decreases s.len() - i,
{
    if i < s.len() && is_whitespace(s[i]) {
        lemma_skip_whitespace(s, i + 1);
    }
}

proof fn lemma_skip_repeated(s: Seq<char>, i: int, p: Seq<char>)
    requires
        0 <= i <= s.len(),
    ensures
        i <= skip_repeated(s, i, p) <= s.len(),
    decreases s.len() - i,
{
    if p.len() > 0 && has_at(s, i, p) {
        lemma_skip_repeated(s, i + p.len(), p);
    }
}

proof fn lemma_trimmed_end(s: Seq<char>, lo: int, hi: int)
    requires
        0 <= lo <= hi <= s.len(),
    ensures
        lo <= trimmed_end(s, lo, hi) <= hi,
        lo < trimmed_end(s, lo, hi) ==> !is_whitespace(s[trimmed_end(s, lo, hi) - 1]),
    decreases hi - lo,
{
    if lo < hi && is_whitespace(s[hi - 1]) {
        lemma_trimmed_end(s, lo, hi - 1);
    }
}

/// A title neither begins nor ends with white space, and holds no newline
/// where the comment that gives it holds none.
pub proof fn lemma_title_trimmed(text: Seq<char>)
    ensures
        trimmed(title_of(text)),
        no_newline(text) ==> no_newline(title_of(text)),
{
    let begin = skip_whitespace(text, 0);
    lemma_skip_whitespace(text, 0);
    let after = skip_repeated(text, begin, title_marker());
    lemma_skip_repeated(text, begin, title_marker());
    let lo = skip_whitespace(text, after);
    lemma_skip_whitespace(text, after);
    lemma_trimmed_end(text, lo, text.len() as int);
}

/// The comment that is written for a title gives that title.
pub proof fn lemma_title_read_again(title: Seq<char>)
    requires
        trimmed(title),
    ensures
        is_title_comment(title_comment(title)),
        title_of(title_comment(title)) == title,
{
    reveal_strlit("Diagram:");
    let marker = title_marker();
    let text = title_comment(title);
    let n = text.len() as int;
    assert(n == title.len() + 10);
    assert(text[0] == ' ');
    assert(text[1] == 'D');
    assert(text[9] == ' ');
    assert(skip_whitespace(text, 1) == 1);
    assert(skip_whitespace(text, 0) == 1);
    assert(text.subrange(1, 9) =~= marker);
    assert(has_at(text, 1, marker));
    assert(!has_at(text, 9, marker)) by {
        if has_at(text, 9, marker) {
            lemma_has_at_index(text, 9, marker, 0);
        }
    }
    assert(skip_repeated(text, 9, marker) == 9);
    assert(skip_repeated(text, 1, marker) == 9);
    if title.len() == 0 {
        assert(skip_whitespace(text, 10) == 10);
    } else {
        assert(text[10] == title[0]);
        assert(text[n - 1] == title.last());
        assert(skip_whitespace(text, 10) == 10);
    }
    assert(skip_whitespace(text, 9) == 10);
    assert(trimmed_end(text, 10, n) == n);
    assert(text.subrange(10, n) =~= title);
}

/// The title of a header whose tokens carry sound text neither begins nor
/// ends with white space and holds no newline.
proof fn lemma_header_title(t: Seq<TokenView>, i: int)
    requires
        forall|k: int| 0 <= k < t.len() ==> sound_kind((#[trigger] t[k]).kind),
    ensures
        match header_title(t, i) {
            Some(title) => trimmed(title) && no_newline(title),
            None => true,
        },
    decreases t.len() - i,
{
    if 0 <= i < t.len() {
        assert(sound_kind(t[i].kind));
        match t[i].kind {
            TokenKindView::Comment(text) => {
                if is_title_comment(text) {
                    lemma_title_trimmed(text);
                } else {
                    lemma_header_title(t, comment_end(t, i));
                }
            },
            _ => {},
        }
    }
}

/// Nodes that say the same declare the same identifiers.
proof fn lemma_declares_bare(a: Seq<NodeView>, b: Seq<NodeView>, id: Seq<char>)
    requires
        bare_nodes(a) == bare_nodes(b),
    ensures
        declares(a, id) == declares(b, id),
{
    assert(a.len() == bare_nodes(a).len());
    assert(b.len() == bare_nodes(b).len());
    if declares(a, id) {
        let k = choose|k: int| 0 <= k < a.len() && (#[trigger] a[k]).id == id;
        assert(bare_nodes(a)[k] == bare_node(a[k]));
        assert(bare_nodes(b)[k] == bare_node(b[k]));
        assert(b[k].id == id);
    }
    if declares(b, id) {
        let k = choose|k: int| 0 <= k < b.len() && (#[trigger] b[k]).id == id;
        assert(bare_nodes(a)[k] == bare_node(a[k]));
        assert(bare_nodes(b)[k] == bare_node(b[k]));
        assert(a[k].id == id);
    }
}

/// Edges that say the same give each identifier the same degree.
proof fn lemma_degree_bare(a: Seq<EdgeView>, b: Seq<EdgeView>, id: Seq<char>)
    requires
        bare_edges(a) == bare_edges(b),
    ensures
        degree(a, id) == degree(b, id),
    decreases a.len(),
{
    assert(a.len() == bare_edges(a).len());
    assert(b.len() == bare_edges(b).len());
    if a.len() > 0 {
        let n = a.len() - 1;
        assert(bare_edges(a)[n] == bare_edge(a[n]));
        assert(bare_edges(b)[n] == bare_edge(b[n]));
        assert(bare_edges(a.drop_last()) =~= bare_edges(a).drop_last());
        assert(bare_edges(b.drop_last()) =~= bare_edges(b).drop_last());
        lemma_degree_bare(a.drop_last(), b.drop_last(), id);
    }
}

/// The tokens of the canonical text of a writable and valid document are
/// parsed as a document that says the same.
proof fn lemma_canonical_tokens_parsed(doc: DocumentView)
    requires
        writable(doc),
        valid(doc),
    ensures
        analyse(canonical_tokens(doc)) is Ok,
        bare(analyse(canonical_tokens(doc))->Ok_0) == bare(doc),
{
    reveal_strlit("LR");
    reveal_strlit("TD");
    let t = canonical_tokens(doc);
    let head = header_tokens(doc);
    let h = head.len() as int;
    let lines = h / 2;
    let dir = direction_tokens(doc.direction, (1 + lines) as nat);
    let ns = nodes_tokens(doc.nodes, 0, (2 + lines) as nat);
    let es = edges_tokens(doc.edges, 0, (2 + lines + doc.nodes.len()) as nat);
    let end = seq![
        token(TokenKindView::Eof, (2 + lines + doc.nodes.len() + doc.edges.len()) as nat, 1),
    ];
    assert(t == head + dir + ns + es + end);
    assert(t.last() == end[0]);
    // the header
    match title_in(doc) {
        Some(title) => {
            assert(h == 2);
            assert(t[0] == head[0]);
            assert(t[1] == head[1]);
            assert(t[2] == dir[0]);
            assert(t[3] == dir[1]);
            assert(t[4] == dir[2]);
            lemma_title_read_again(title);
            assert(comment_end(t, 0) == 2);
            assert(header_end(t, 2) == 2);
            assert(header_end(t, 0) == 2);
            assert(header_title(t, 0) == Some(title));
        },
        None => {
            assert(h == 0);
            assert(t[0] == dir[0]);
            assert(t[1] == dir[1]);
            assert(t[2] == dir[2]);
            assert(header_end(t, 0) == 0);
            assert(header_title(t, 0) == None::<Seq<char>>);
        },
    }
    // the direction line
    let name = direction_name(doc.direction);
    assert(direction_word(t) == Some(name));
    assert(name =~= match doc.direction {
        Direction::LR => "LR"@,
        Direction::TD => "TD"@,
    });
    assert(direction_named(name) == Some(doc.direction));
    assert(direction_of(t) == doc.direction);
    assert(direction_findings(t) =~= Seq::empty());
    assert(body_start(t) == h + 3);
    // the body
    let start = h + 3;
    lemma_body_shift(t, start, line_first(t), start);
    let tail = es + end;
    assert(t.subrange(start, t.len() as int) =~= ns + tail);
    lemma_nodes_parsed(doc.nodes, 0, (2 + lines) as nat, tail);
    lemma_edges_parsed(doc.edges, 0, (2 + lines + doc.nodes.len()) as nat, end);
    assert(body(end, 0, 0) == Parsed::empty());
    let found = syntax(t);
    assert(doc.nodes.subrange(0, doc.nodes.len() as int) =~= doc.nodes);
    assert(doc.edges.subrange(0, doc.edges.len() as int) =~= doc.edges);
    assert(bare_nodes(Seq::<NodeView>::empty()) =~= Seq::empty());
    assert(bare_edges(Seq::<EdgeView>::empty()) =~= Seq::empty());
    assert(bare_nodes(found.nodes) =~= bare_nodes(doc.nodes));
    assert(bare_edges(found.edges) =~= bare_edges(doc.edges));
    assert(found.diags =~= Seq::empty());
    // the two checks
    lemma_reference_findings(found.nodes, found.edges);
    lemma_orphan_findings(found.nodes, found.edges);
    let dangling = reference_findings(found.nodes, found.edges);
    let orphans = orphan_findings(found.nodes, found.edges);
    assert(found.edges.len() == bare_edges(found.edges).len());
    assert(found.nodes.len() == bare_nodes(found.nodes).len());
    if dangling.len() > 0 {
        let d = dangling[0];
        let k = choose|k: int|
            0 <= k < found.edges.len() && ((d == crate::validate::unknown_from(
                #[trigger] found.edges[k],
            ) && !declares(found.nodes, found.edges[k].from)) || (d
                == crate::validate::unknown_to(found.edges[k]) && !declares(
                found.nodes,
                found.edges[k].to,
            )));
        assert(bare_edges(found.edges)[k] == bare_edges(doc.edges)[k]);
        lemma_declares_bare(found.nodes, doc.nodes, found.edges[k].from);
        lemma_declares_bare(found.nodes, doc.nodes, found.edges[k].to);
        assert(declares(doc.nodes, doc.edges[k].from));
    }
    if orphans.len() > 0 {
        let d = orphans[0];
        let k = choose|k: int|
            0 <= k < found.nodes.len() && d == crate::validate::orphan_finding(
                #[trigger] found.nodes[k],
            ) && degree(found.edges, found.nodes[k].id) == 0;
        assert(bare_nodes(found.nodes)[k] == bare_nodes(doc.nodes)[k]);
        lemma_degree_bare(found.edges, doc.edges, found.nodes[k].id);
        assert(degree(doc.edges, doc.nodes[k].id) > 0);
    }
    assert(analyse(t) == Ok::<DocumentView, Seq<crate::error::DiagnosticView>>(document_of(found)));
    assert(bare(document_of(found)) == bare(doc));
}

/// The canonical text of a writable and valid document is accepted, as a
/// document that says the same: nothing but the places of the nodes and
/// edges differs.
pub proof fn law_written_document_read_again(doc: DocumentView)
    requires
        writable(doc),
        valid(doc),
    ensures
        parse_spec(source_of(doc)) is Ok,
        bare(parse_spec(source_of(doc))->Ok_0) == bare(doc),
{
    lemma_edges_named(doc);
    lemma_canonical_tokens(doc);
    lemma_canonical_tokens_parsed(doc);
}

/// The document of an accepted text is writable and valid.
pub proof fn lemma_accepted_document(src: Seq<char>)
    requires
        parse_spec(src) is Ok,
    ensures
        writable(parse_spec(src)->Ok_0),
        valid(parse_spec(src)->Ok_0),
{
    let t = lex(src);
    let found = syntax(t);
    lemma_lex_well_formed(src);
    lemma_tokens_sound(src, 0);
    lemma_tokens_spaced(src, 0);
    assert(lexed(t));
    law_document_valid(src);
    lemma_header_title(t, 0);
    let start = body_start(t);
    let h = header_end(t, 0);
    lemma_header_end(t, 0);
    assert(direction_findings(t).len() == 0);
    assert(direction_word(t) is Some);
    assert(kind_at(t, h) == TokenKindView::DirectionKw);
    assert(kind_at(t, h + 1) is Identifier);
    assert(h + 2 < t.len());
    assert(0 <= start <= t.len());
    assert(found.diags =~= direction_findings(t) + body(t, start, line_first(t)).diags);
    assert(body(t, start, line_first(t)).diags.len() == 0);
    lemma_body_writable(t, start, line_first(t));
}

/// The canonical text of a document does not depend on the places of its
/// nodes and edges.
proof fn lemma_source_bare(doc: DocumentView)
    ensures
        source_of(bare(doc)) == source_of(doc),
{
    lemma_node_lines_bare(doc.nodes, 0);
    lemma_edge_lines_bare(doc.edges, 0);
}

proof fn lemma_node_lines_bare(nodes: Seq<NodeView>, k: int)
    requires
        0 <= k,
    ensures
        node_lines(bare_nodes(nodes), k) == node_lines(nodes, k),
    decreases nodes.len() - k,
{
    if k < nodes.len() {
        lemma_node_lines_bare(nodes, k + 1);
        assert(bare_nodes(nodes)[k] == bare_node(nodes[k]));
    }
}

proof fn lemma_edge_lines_bare(edges: Seq<EdgeView>, k: int)
    requires
        0 <= k,
    ensures
        edge_lines(bare_edges(edges), k) == edge_lines(edges, k),
    decreases edges.len() - k,
{
    if k < edges.len() {
        lemma_edge_lines_bare(edges, k + 1);
        assert(bare_edges(edges)[k] == bare_edge(edges[k]));
    }
}

/// Parsing is idempotent over the canonical text: the canonical text of
/// the document of an accepted text is accepted; its document says the same
/// as the first, so that nothing is lost and nothing invented but the
/// places of the nodes and edges; and the canonical text of that document is
/// the same text again.
pub proof fn law_canonical_text_read_again(src: Seq<char>)
    requires
        parse_spec(src) is Ok,
    ensures
        parse_spec(source_of(parse_spec(src)->Ok_0)) is Ok,
        bare(parse_spec(source_of(parse_spec(src)->Ok_0))->Ok_0) == bare(parse_spec(src)->Ok_0),
        source_of(parse_spec(source_of(parse_spec(src)->Ok_0))->Ok_0) == source_of(
            parse_spec(src)->Ok_0,
        ),
{
    let doc = parse_spec(src)->Ok_0;
    lemma_accepted_document(src);
    law_written_document_read_again(doc);
    let again = parse_spec(source_of(doc))->Ok_0;
    lemma_source_bare(doc);
    lemma_source_bare(again);
}

} // verus!
