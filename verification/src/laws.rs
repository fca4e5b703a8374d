//! What holds of every source text: the laws of the parser, each proved
//! from the definitions that the contracts of the lexer and the parser are
//! stated over.

use crate::ast::{EdgeView, NodeView};
use crate::error::{DiagnosticView, has_code};
use crate::lexer::{TokenKindView, TokenView, is_word_char, lemma_lex_well_formed, lex, well_formed};
use crate::parser::parse_spec;
use crate::syntax::{
    body, body_start, comment_end, direction_findings, edge_begins, has_direction_line, header_end,
    lemma_line_stop, line_check, line_first, line_stop, line_too_wide, node_begins, node_end,
    node_findings, snake_case, syntax,
};
use crate::validate::{
    declares, degree, edge_findings, orphan_finding, orphan_findings, reference_findings,
    unknown_from, unknown_to,
};
use vstd::prelude::*;

verus! {

/// The eight codes are eight different strings.
pub proof fn lemma_codes_differ()
    ensures
        "E0001"@.len() == 5 && "E0001"@[4] == '1' && "E0001"@[3] == '0' && "E0001"@[2] == '0',
        "E0003"@.len() == 5 && "E0003"@[4] == '3' && "E0003"@[3] == '0' && "E0003"@[2] == '0',
        "E0010"@.len() == 5 && "E0010"@[4] == '0' && "E0010"@[3] == '1' && "E0010"@[2] == '0',
        "E0100"@.len() == 5 && "E0100"@[4] == '0' && "E0100"@[3] == '0' && "E0100"@[2] == '1',
        "E0300"@.len() == 5 && "E0300"@[4] == '0' && "E0300"@[3] == '0' && "E0300"@[2] == '3',
        "E0201"@.len() == 5 && "E0201"@[4] == '1' && "E0201"@[3] == '0' && "E0201"@[2] == '2',
        "E0202"@.len() == 5 && "E0202"@[4] == '2' && "E0202"@[3] == '0' && "E0202"@[2] == '2',
        "E0203"@.len() == 5 && "E0203"@[4] == '3' && "E0203"@[3] == '0' && "E0203"@[2] == '2',
{
    reveal_strlit("E0001");
    reveal_strlit("E0003");
    reveal_strlit("E0010");
    reveal_strlit("E0100");
    reveal_strlit("E0300");
    reveal_strlit("E0201");
    reveal_strlit("E0202");
    reveal_strlit("E0203");
}

/// A code that one of two sequences carries, the two together carry.
pub proof fn lemma_has_code_concat(a: Seq<DiagnosticView>, b: Seq<DiagnosticView>, code: Seq<char>)
    ensures
        has_code(a + b, code) <==> has_code(a, code) || has_code(b, code),
{
    if has_code(a, code) {
        let k = choose|k: int| 0 <= k < a.len() && (#[trigger] a[k]).code == code;
        assert((a + b)[k] == a[k]);
    }
    if has_code(b, code) {
        let k = choose|k: int| 0 <= k < b.len() && (#[trigger] b[k]).code == code;
        assert((a + b)[a.len() + k] == b[k]);
    }
    if has_code(a + b, code) {
        let k = choose|k: int| 0 <= k < (a + b).len() && (#[trigger] (a + b)[k]).code == code;
        if k < a.len() {
            assert(a[k] == (a + b)[k]);
        } else {
            assert(b[k - a.len()] == (a + b)[k]);
        }
    }
}

/// A text is accepted if and only if none of the three stages finds
/// anything: there is a document exactly where there is no finding.
pub proof fn law_accepted_iff_clean(src: Seq<char>)
    ensures
        parse_spec(src) is Ok <==> syntax(lex(src)).diags.len() == 0 && reference_findings(
            syntax(lex(src)).nodes,
            syntax(lex(src)).edges,
        ).len() == 0 && orphan_findings(syntax(lex(src)).nodes, syntax(lex(src)).edges).len()
            == 0,
        parse_spec(src) is Err ==> parse_spec(src)->Err_0.len() > 0,
{
}

/// A text with no direction line behind its header, or with one that names
/// neither `LR` nor `TD`, is rejected, and a finding carries `E0001`.
pub proof fn law_direction_required(src: Seq<char>)
    requires
        !has_direction_line(lex(src)),
    ensures
        parse_spec(src) is Err,
        has_code(parse_spec(src)->Err_0, "E0001"@),
{
    let t = lex(src);
    let first = direction_findings(t);
    assert(first.len() == 1);
    assert(first[0].code == "E0001"@);
    assert(has_code(first, "E0001"@));
    lemma_has_code_concat(first, body(t, body_start(t), line_first(t)).diags, "E0001"@);
}

/// Whether `id` holds an upper-case ASCII letter.
pub open spec fn has_upper(id: Seq<char>) -> bool {
    exists|k: int| 0 <= k < id.len() && 'A' <= #[trigger] id[k] && id[k] <= 'Z'
}

/// Whether `id` holds a character that is no ASCII letter, no ASCII digit
/// and no underscore.
pub open spec fn has_foreign_char(id: Seq<char>) -> bool {
    exists|k: int| 0 <= k < id.len() && !is_word_char(#[trigger] id[k])
}

/// Whether `id` ends in an underscore.
pub open spec fn ends_in_underscore(id: Seq<char>) -> bool {
    id.len() > 0 && id.last() == '_'
}

/// An identifier that holds an upper-case letter or a character that is no
/// letter, digit or underscore, or that ends in an underscore, is not in
/// snake case.
pub proof fn lemma_not_snake_case(id: Seq<char>)
    requires
        has_upper(id) || has_foreign_char(id) || ends_in_underscore(id),
    ensures
        !snake_case(id),
{
}

pub proof fn lemma_body_flags_identifier(t: Seq<TokenView>, i: int, first: int, k: int)
    requires
        0 <= k < body(t, i, first).nodes.len(),
        !snake_case(body(t, i, first).nodes[k].id),
    ensures
        has_code(body(t, i, first).diags, "E0100"@),
    decreases t.len() - i,
{
    if i < 0 || i >= t.len() || t[i].kind == TokenKindView::Eof {
    } else if t[i].kind == TokenKindView::Newline {
        let rest = body(t, i + 1, i + 1);
        assert(body(t, i, first).nodes =~= rest.nodes);
        lemma_body_flags_identifier(t, i + 1, i + 1, k);
        lemma_has_code_concat(line_check(t, first, i).diags, rest.diags, "E0100"@);
    } else if t[i].kind is Comment {
        lemma_body_flags_identifier(t, i + 1, first, k);
    } else if node_begins(t, i) {
        let rest = body(t, node_end(t, i), first);
        let here = node_findings(t, i);
        if k == 0 {
            assert(here.last().code == "E0100"@);
            assert(has_code(here, "E0100"@));
        } else {
            assert(body(t, i, first).nodes[k] == rest.nodes[k - 1]);
            lemma_body_flags_identifier(t, node_end(t, i), first, k - 1);
        }
        lemma_has_code_concat(here, rest.diags, "E0100"@);
    } else if edge_begins(t, i) {
        lemma_line_stop(t, i + 3);
        let rest = body(t, line_stop(t, i + 3), first);
        assert(body(t, i, first).nodes =~= rest.nodes);
        lemma_body_flags_identifier(t, line_stop(t, i + 3), first, k);
        lemma_has_code_concat(Seq::empty(), rest.diags, "E0100"@);
    } else {
        lemma_line_stop(t, i + 1);
        lemma_body_flags_identifier(t, line_stop(t, i + 1), first, k);
    }
}

/// A node declaration whose identifier holds an upper-case letter or a
/// character that is no letter, digit or underscore, or ends in an
/// underscore, has the text rejected, and a finding carries `E0100`.
pub proof fn law_identifier_in_snake_case(src: Seq<char>, k: int)
    requires
        0 <= k < syntax(lex(src)).nodes.len(),
        ({
            let id = syntax(lex(src)).nodes[k].id;
            has_upper(id) || has_foreign_char(id) || ends_in_underscore(id)
        }),
    ensures
        parse_spec(src) is Err,
        has_code(parse_spec(src)->Err_0, "E0100"@),
{
    let t = lex(src);
    let start = body_start(t);
    lemma_not_snake_case(syntax(t).nodes[k].id);
    lemma_body_flags_identifier(t, start, line_first(t), k);
    lemma_has_code_concat(direction_findings(t), body(t, start, line_first(t)).diags, "E0100"@);
}

/// What the reference check finds: for each edge whose start or end no
/// node declares the finding that says so, and nothing else.
pub proof fn lemma_reference_findings(nodes: Seq<NodeView>, edges: Seq<EdgeView>)
    ensures
        forall|k: int|
            0 <= k < edges.len() && !declares(nodes, (#[trigger] edges[k]).from)
                ==> reference_findings(nodes, edges).contains(unknown_from(edges[k])),
        forall|k: int|
            0 <= k < edges.len() && !declares(nodes, (#[trigger] edges[k]).to)
                ==> reference_findings(nodes, edges).contains(unknown_to(edges[k])),
        forall|j: int|
            0 <= j < reference_findings(nodes, edges).len() ==> {
                let d = #[trigger] reference_findings(nodes, edges)[j];
                exists|k: int|
                    0 <= k < edges.len() && ((d == unknown_from(#[trigger] edges[k]) && !declares(
                        nodes,
                        edges[k].from,
                    )) || (d == unknown_to(edges[k]) && !declares(nodes, edges[k].to)))
            },
    decreases edges.len(),
{
    let all = reference_findings(nodes, edges);
    if edges.len() > 0 {
        let before = edges.drop_last();
        let last = edges.last();
        let early = reference_findings(nodes, before);
        let late = edge_findings(nodes, last);
        lemma_reference_findings(nodes, before);
        assert(all == early + late);
        assert forall|k: int|
            0 <= k < edges.len() && !declares(
                nodes,
                (#[trigger] edges[k]).from,
            ) implies all.contains(unknown_from(edges[k])) by {
            if k < before.len() {
                assert(before[k] == edges[k]);
                let j = choose|j: int| 0 <= j < early.len() && early[j] == unknown_from(edges[k]);
                assert(all[j] == early[j]);
            } else {
                assert(late[0] == unknown_from(last));
                assert(all[early.len() as int] == late[0]);
            }
        }
        assert forall|k: int|
            0 <= k < edges.len() && !declares(nodes, (#[trigger] edges[k]).to) implies all.contains(
            unknown_to(edges[k]),
        ) by {
            if k < before.len() {
                assert(before[k] == edges[k]);
                let j = choose|j: int| 0 <= j < early.len() && early[j] == unknown_to(edges[k]);
                assert(all[j] == early[j]);
            } else {
                assert(late.last() == unknown_to(last));
                assert(all[early.len() + late.len() - 1] == late.last());
            }
        }
        assert forall|j: int| 0 <= j < all.len() implies {
            let d = #[trigger] all[j];
            exists|k: int|
                0 <= k < edges.len() && ((d == unknown_from(#[trigger] edges[k]) && !declares(
                    nodes,
                    edges[k].from,
                )) || (d == unknown_to(edges[k]) && !declares(nodes, edges[k].to)))
        } by {
            let d = all[j];
            if j < early.len() {
                assert(early[j] == d);
                let k = choose|k: int|
                    0 <= k < before.len() && ((d == unknown_from(#[trigger] before[k])
                        && !declares(nodes, before[k].from)) || (d == unknown_to(before[k])
                        && !declares(nodes, before[k].to)));
                assert(edges[k] == before[k]);
            } else {
                assert(d == late[j - early.len()]);
                assert(edges[edges.len() - 1] == last);
            }
        }
    }
}

/// Where the syntax pass finds nothing, an edge whose start or end no node
/// declares has the text rejected, with the finding `E0201` for the start
/// and `E0202` for the end, and no finding carries `E0203`, whatever the
/// degrees of the nodes.
pub proof fn law_dangling_edge_rejected(src: Seq<char>, k: int)
    requires
        syntax(lex(src)).diags.len() == 0,
        0 <= k < syntax(lex(src)).edges.len(),
        !declares(syntax(lex(src)).nodes, syntax(lex(src)).edges[k].from) || !declares(
            syntax(lex(src)).nodes,
            syntax(lex(src)).edges[k].to,
        ),
    ensures
        parse_spec(src) is Err,
        !declares(syntax(lex(src)).nodes, syntax(lex(src)).edges[k].from) ==> {
            &&& parse_spec(src)->Err_0.contains(unknown_from(syntax(lex(src)).edges[k]))
            &&& has_code(parse_spec(src)->Err_0, "E0201"@)
        },
        !declares(syntax(lex(src)).nodes, syntax(lex(src)).edges[k].to) ==> {
            &&& parse_spec(src)->Err_0.contains(unknown_to(syntax(lex(src)).edges[k]))
            &&& has_code(parse_spec(src)->Err_0, "E0202"@)
        },
        !has_code(parse_spec(src)->Err_0, "E0203"@),
{
    let found = syntax(lex(src));
    let e = found.edges[k];
    let all = reference_findings(found.nodes, found.edges);
    lemma_reference_findings(found.nodes, found.edges);
    lemma_codes_differ();
    if !declares(found.nodes, e.from) {
        let j = choose|j: int| 0 <= j < all.len() && all[j] == unknown_from(e);
        assert(all[j].code == "E0201"@);
    }
    if !declares(found.nodes, e.to) {
        let j = choose|j: int| 0 <= j < all.len() && all[j] == unknown_to(e);
        assert(all[j].code == "E0202"@);
    }
    assert(parse_spec(src) == Err::<crate::ast::DocumentView, Seq<DiagnosticView>>(all));
    if has_code(all, "E0203"@) {
        let j = choose|j: int| 0 <= j < all.len() && (#[trigger] all[j]).code == "E0203"@;
        let d = all[j];
        assert(d.code == "E0201"@ || d.code == "E0202"@);
        assert(false);
    }
}

/// What the orphan check finds: for each node of degree 0 the finding that
/// says so, and nothing else.
pub proof fn lemma_orphan_findings(nodes: Seq<NodeView>, edges: Seq<EdgeView>)
    ensures
        forall|k: int|
            0 <= k < nodes.len() && degree(edges, (#[trigger] nodes[k]).id) == 0
                ==> orphan_findings(nodes, edges).contains(orphan_finding(nodes[k])),
        forall|j: int|
            0 <= j < orphan_findings(nodes, edges).len() ==> {
                let d = #[trigger] orphan_findings(nodes, edges)[j];
                exists|k: int|
                    0 <= k < nodes.len() && d == orphan_finding(#[trigger] nodes[k]) && degree(
                        edges,
                        nodes[k].id,
                    ) == 0
            },
    decreases nodes.len(),
{
    let all = orphan_findings(nodes, edges);
    if nodes.len() > 0 {
        let before = nodes.drop_last();
        let last = nodes.last();
        let early = orphan_findings(before, edges);
        lemma_orphan_findings(before, edges);
        assert forall|k: int|
            0 <= k < nodes.len() && degree(
                edges,
                (#[trigger] nodes[k]).id,
            ) == 0 implies all.contains(orphan_finding(nodes[k])) by {
            if k < before.len() {
                assert(before[k] == nodes[k]);
                let j = choose|j: int| 0 <= j < early.len() && early[j] == orphan_finding(nodes[k]);
                assert(all[j] == early[j]);
            } else {
                assert(all[early.len() as int] == orphan_finding(last));
            }
        }
        assert forall|j: int| 0 <= j < all.len() implies {
            let d = #[trigger] all[j];
            exists|k: int|
                0 <= k < nodes.len() && d == orphan_finding(#[trigger] nodes[k]) && degree(
                    edges,
                    nodes[k].id,
                ) == 0
        } by {
            let d = all[j];
            if j < early.len() {
                assert(early[j] == d);
                let k = choose|k: int|
                    0 <= k < before.len() && d == orphan_finding(#[trigger] before[k]) && degree(
                        edges,
                        before[k].id,
                    ) == 0;
                assert(nodes[k] == before[k]);
            } else {
                assert(nodes[nodes.len() - 1] == last);
            }
        }
    }
}

/// Where the syntax pass and the reference check find nothing, the text is
/// rejected if and only if a node has degree 0, and then the findings are
/// those of exactly the nodes of degree 0, each with the code `E0203`.
pub proof fn law_orphans_rejected(src: Seq<char>)
    requires
        syntax(lex(src)).diags.len() == 0,
        reference_findings(syntax(lex(src)).nodes, syntax(lex(src)).edges).len() == 0,
    ensures
        parse_spec(src) is Err <==> exists|k: int|
            0 <= k < syntax(lex(src)).nodes.len() && degree(
                syntax(lex(src)).edges,
                (#[trigger] syntax(lex(src)).nodes[k]).id,
            ) == 0,
        parse_spec(src) is Err ==> {
            &&& forall|k: int|
                0 <= k < syntax(lex(src)).nodes.len() && degree(
                    syntax(lex(src)).edges,
                    (#[trigger] syntax(lex(src)).nodes[k]).id,
                ) == 0 ==> parse_spec(src)->Err_0.contains(
                    orphan_finding(syntax(lex(src)).nodes[k]),
                )
            &&& forall|j: int|
                0 <= j < parse_spec(src)->Err_0.len() ==> {
                    let d = #[trigger] parse_spec(src)->Err_0[j];
                    &&& d.code == "E0203"@
                    &&& exists|k: int|
                        0 <= k < syntax(lex(src)).nodes.len() && d == orphan_finding(
                            #[trigger] syntax(lex(src)).nodes[k],
                        ) && degree(syntax(lex(src)).edges, syntax(lex(src)).nodes[k].id) == 0
                }
        },
{
    let found = syntax(lex(src));
    let all = orphan_findings(found.nodes, found.edges);
    lemma_orphan_findings(found.nodes, found.edges);
    if all.len() > 0 {
        assert(parse_spec(src) == Err::<crate::ast::DocumentView, Seq<DiagnosticView>>(all));
        assert(all[0].code == "E0203"@);
    }
    if exists|k: int|
        0 <= k < found.nodes.len() && degree(found.edges, (#[trigger] found.nodes[k]).id) == 0 {
        let k = choose|k: int|
            0 <= k < found.nodes.len() && degree(found.edges, (#[trigger] found.nodes[k]).id) == 0;
        assert(all.contains(orphan_finding(found.nodes[k])));
    }
}

/// Whether the tokens from `first` up to the newline token `stop` are a
/// line of the body: the newline stands in the body, the line holds a
/// token, and it begins behind a newline token of the body or is the line on
/// which the body begins. That line begins at the keyword where tokens
/// follow the direction on its line.
pub open spec fn is_body_line(t: Seq<TokenView>, first: int, stop: int) -> bool {
    &&& 0 <= first < stop < t.len()
    &&& body_start(t) <= stop
    &&& t[stop].kind == TokenKindView::Newline
    &&& forall|k: int| first <= k < stop ==> (#[trigger] t[k]).kind != TokenKindView::Newline
    &&& first == line_first(t) || (body_start(t) < first && t[first - 1].kind
        == TokenKindView::Newline)
}

/// The line on which the body begins starts at or before the body, with no
/// newline token between the two.
pub proof fn lemma_line_first(t: Seq<TokenView>)
    ensures
        0 <= line_first(t) <= body_start(t),
        forall|k: int|
            line_first(t) <= k < body_start(t) ==> (#[trigger] t[k]).kind
                != TokenKindView::Newline,
{
    lemma_header_end(t, 0);
}

pub proof fn lemma_line_stop_found(t: Seq<TokenView>, i: int, stop: int)
    requires
        well_formed(t),
        0 <= i <= stop < t.len(),
        t[stop].kind == TokenKindView::Newline,
        forall|k: int| i <= k < stop ==> (#[trigger] t[k]).kind != TokenKindView::Newline,
    ensures
        line_stop(t, i) == stop,
    decreases stop - i,
{
    if i < stop {
        assert(t[i].kind != TokenKindView::Eof);
        lemma_line_stop_found(t, i + 1, stop);
    }
}

proof fn lemma_line_stop_before(t: Seq<TokenView>, i: int, stop: int)
    requires
        well_formed(t),
        0 <= i <= stop < t.len(),
        t[stop].kind == TokenKindView::Newline,
    ensures
        i <= line_stop(t, i) <= stop,
    decreases stop - i,
{
    if i < stop && t[i].kind != TokenKindView::Newline && t[i].kind != TokenKindView::Eof {
        lemma_line_stop_before(t, i + 1, stop);
    }
}

proof fn lemma_node_end_before(t: Seq<TokenView>, i: int, stop: int)
    requires
        0 <= i < stop < t.len(),
        t[stop].kind == TokenKindView::Newline,
        node_begins(t, i),
    ensures
        i < node_end(t, i) <= stop,
{
}

pub proof fn lemma_wide_line_found(t: Seq<TokenView>, i: int, cur: int, first: int, stop: int)
    requires
        well_formed(t),
        0 <= cur <= i <= stop < t.len(),
        t[stop].kind == TokenKindView::Newline,
        forall|k: int| first <= k < stop ==> (#[trigger] t[k]).kind != TokenKindView::Newline,
        line_too_wide(t, first, stop),
        (cur == first && first <= i) || (i < first && t[first - 1].kind == TokenKindView::Newline),
    ensures
        has_code(body(t, i, cur).diags, "E0300"@),
    decreases t.len() - i,
{
    let code = "E0300"@;
    let inside = cur == first && first <= i;
    if i == stop {
        let here = line_check(t, cur, i).diags;
        assert(here[0].code == code);
        assert(has_code(here, code));
        lemma_has_code_concat(here, body(t, i + 1, i + 1).diags, code);
    } else {
        assert(t[i].kind != TokenKindView::Eof);
        let limit = if inside {
            stop
        } else {
            first - 1
        };
        assert(i <= limit <= stop);
        assert(t[limit].kind == TokenKindView::Newline);
        if t[i].kind == TokenKindView::Newline {
            lemma_wide_line_found(t, i + 1, i + 1, first, stop);
            lemma_has_code_concat(line_check(t, cur, i).diags, body(t, i + 1, i + 1).diags, code);
        } else if t[i].kind is Comment {
            lemma_wide_line_found(t, i + 1, cur, first, stop);
        } else if node_begins(t, i) {
            lemma_node_end_before(t, i, limit);
            lemma_wide_line_found(t, node_end(t, i), cur, first, stop);
            lemma_has_code_concat(node_findings(t, i), body(t, node_end(t, i), cur).diags, code);
        } else if edge_begins(t, i) {
            lemma_line_stop_before(t, i + 3, limit);
            if inside {
                lemma_line_stop_found(t, i + 3, stop);
            }
            let next = line_stop(t, i + 3);
            lemma_wide_line_found(t, next, cur, first, stop);
            lemma_has_code_concat(Seq::empty(), body(t, next, cur).diags, code);
        } else {
            lemma_line_stop_before(t, i + 1, limit);
            if inside {
                lemma_line_stop_found(t, i + 1, stop);
            }
            lemma_wide_line_found(t, line_stop(t, i + 1), cur, first, stop);
        }
    }
}

/// A line of the body that is wider than 100 columns, from the column of
/// its first token to the column of its last, has the text rejected, and a
/// finding carries `E0300`. Where tokens follow the direction on its line,
/// that line is a line of the body and its first token is the keyword.
pub proof fn law_wide_line_rejected(src: Seq<char>, first: int, stop: int)
    requires
        is_body_line(lex(src), first, stop),
        line_too_wide(lex(src), first, stop),
    ensures
        parse_spec(src) is Err,
        has_code(parse_spec(src)->Err_0, "E0300"@),
{
    let t = lex(src);
    let start = body_start(t);
    lemma_lex_well_formed(src);
    lemma_line_first(t);
    lemma_wide_line_found(t, start, line_first(t), first, stop);
    lemma_has_code_concat(direction_findings(t), body(t, start, line_first(t)).diags, "E0300"@);
}

/// A code that the body can give: for a label without quotes, for a missing
/// closing bracket, for an identifier that is not in snake case, for a line
/// that is too wide.
pub open spec fn is_body_code(code: Seq<char>) -> bool {
    code == "E0003"@ || code == "E0010"@ || code == "E0100"@ || code == "E0300"@
}

/// A code of the syntax pass: the one for the direction line, or one that
/// the body can give.
pub open spec fn is_syntax_code(code: Seq<char>) -> bool {
    code == "E0001"@ || is_body_code(code)
}

/// A code of the reference check.
pub open spec fn is_reference_code(code: Seq<char>) -> bool {
    code == "E0201"@ || code == "E0202"@
}

/// The code of the orphan check.
pub open spec fn is_orphan_code(code: Seq<char>) -> bool {
    code == "E0203"@
}

/// No code belongs to two stages.
pub proof fn law_stages_apart(code: Seq<char>)
    ensures
        !(is_syntax_code(code) && is_reference_code(code)),
        !(is_syntax_code(code) && is_orphan_code(code)),
        !(is_reference_code(code) && is_orphan_code(code)),
{
    lemma_codes_differ();
}

/// Every finding of the body carries a code that the body can give.
pub proof fn lemma_body_codes(t: Seq<TokenView>, i: int, first: int)
    ensures
        forall|k: int|
            0 <= k < body(t, i, first).diags.len() ==> is_body_code(
                (#[trigger] body(t, i, first).diags[k]).code,
            ),
    decreases t.len() - i,
{
    let all = body(t, i, first).diags;
    if i < 0 || i >= t.len() || t[i].kind == TokenKindView::Eof {
    } else if t[i].kind == TokenKindView::Newline {
        lemma_body_codes(t, i + 1, i + 1);
        let here = line_check(t, first, i).diags;
        assert forall|k: int| 0 <= k < all.len() implies is_body_code(
            (#[trigger] all[k]).code,
        ) by {
            if k >= here.len() {
                assert(all[k] == body(t, i + 1, i + 1).diags[k - here.len()]);
            }
        }
    } else if t[i].kind is Comment {
        lemma_body_codes(t, i + 1, first);
    } else if node_begins(t, i) {
        lemma_body_codes(t, node_end(t, i), first);
        let here = node_findings(t, i);
        assert forall|k: int| 0 <= k < all.len() implies is_body_code(
            (#[trigger] all[k]).code,
        ) by {
            if k >= here.len() {
                assert(all[k] == body(t, node_end(t, i), first).diags[k - here.len()]);
            }
        }
    } else if edge_begins(t, i) {
        lemma_line_stop(t, i + 3);
        lemma_body_codes(t, line_stop(t, i + 3), first);
        assert(all =~= body(t, line_stop(t, i + 3), first).diags);
    } else {
        lemma_line_stop(t, i + 1);
        lemma_body_codes(t, line_stop(t, i + 1), first);
    }
}

/// The findings of a rejected text are not empty and come from one stage:
/// all carry codes of the syntax pass, or all carry codes of the reference
/// check, or all carry the code of the orphan check.
pub proof fn law_one_stage_reports(src: Seq<char>)
    ensures
        parse_spec(src) is Err ==> {
            let diags = parse_spec(src)->Err_0;
            &&& diags.len() > 0
            &&& {
                ||| forall|k: int|
                    0 <= k < diags.len() ==> is_syntax_code((#[trigger] diags[k]).code)
                ||| forall|k: int|
                    0 <= k < diags.len() ==> is_reference_code((#[trigger] diags[k]).code)
                ||| forall|k: int|
                    0 <= k < diags.len() ==> is_orphan_code((#[trigger] diags[k]).code)
            }
        },
{
    let t = lex(src);
    let found = syntax(t);
    let start = body_start(t);
    if found.diags.len() > 0 {
        lemma_body_codes(t, start, line_first(t));
        let head = direction_findings(t);
        assert forall|k: int| 0 <= k < found.diags.len() implies is_syntax_code(
            (#[trigger] found.diags[k]).code,
        ) by {
            if k >= head.len() {
                assert(found.diags[k] == body(t, start, line_first(t)).diags[k - head.len()]);
            }
        }
    } else if reference_findings(found.nodes, found.edges).len() > 0 {
        lemma_reference_findings(found.nodes, found.edges);
    } else {
        lemma_orphan_findings(found.nodes, found.edges);
    }
}

/// The document of an accepted text is valid: the identifier of every
/// node is in snake case, every edge starts and ends at a declared node,
/// and every node has an edge.
pub proof fn law_document_valid(src: Seq<char>)
    requires
        parse_spec(src) is Ok,
    ensures
        forall|k: int|
            0 <= k < parse_spec(src)->Ok_0.nodes.len() ==> snake_case(
                (#[trigger] parse_spec(src)->Ok_0.nodes[k]).id,
            ),
        forall|k: int|
            0 <= k < parse_spec(src)->Ok_0.edges.len() ==> declares(
                parse_spec(src)->Ok_0.nodes,
                (#[trigger] parse_spec(src)->Ok_0.edges[k]).from,
            ) && declares(parse_spec(src)->Ok_0.nodes, parse_spec(src)->Ok_0.edges[k].to),
        forall|k: int|
            0 <= k < parse_spec(src)->Ok_0.nodes.len() ==> degree(
                parse_spec(src)->Ok_0.edges,
                (#[trigger] parse_spec(src)->Ok_0.nodes[k]).id,
            ) > 0,
{
    let t = lex(src);
    let found = syntax(t);
    let start = body_start(t);
    lemma_reference_findings(found.nodes, found.edges);
    lemma_orphan_findings(found.nodes, found.edges);
    assert forall|k: int| 0 <= k < found.nodes.len() implies snake_case(
        (#[trigger] found.nodes[k]).id,
    ) by {
        if !snake_case(found.nodes[k].id) {
            lemma_body_flags_identifier(t, start, line_first(t), k);
            lemma_has_code_concat(
                direction_findings(t),
                body(t, start, line_first(t)).diags,
                "E0100"@,
            );
        }
    }
}

/// A text is rejected with a finding that carries `E0001` if and only if
/// no direction line that names a direction stands behind its header.
pub proof fn law_direction_code(src: Seq<char>)
    ensures
        (parse_spec(src) is Err && has_code(parse_spec(src)->Err_0, "E0001"@))
            <==> !has_direction_line(lex(src)),
{
    let t = lex(src);
    let found = syntax(t);
    let start = body_start(t);
    if !has_direction_line(t) {
        law_direction_required(src);
    } else if parse_spec(src) is Err && has_code(parse_spec(src)->Err_0, "E0001"@) {
        let diags = parse_spec(src)->Err_0;
        let k = choose|k: int| 0 <= k < diags.len() && (#[trigger] diags[k]).code == "E0001"@;
        lemma_codes_differ();
        lemma_body_codes(t, start, line_first(t));
        assert(direction_findings(t) =~= Seq::empty());
        if found.diags.len() > 0 {
            assert(diags =~= body(t, start, line_first(t)).diags);
            assert(is_body_code(diags[k].code));
        } else {
            lemma_reference_findings(found.nodes, found.edges);
            lemma_orphan_findings(found.nodes, found.edges);
            assert(is_reference_code(diags[k].code) || is_orphan_code(diags[k].code));
        }
    }
}

/// Where the body has a finding with `E0100`, the identifier of one of its
/// nodes is not in snake case.
pub proof fn lemma_body_identifier_flagged(t: Seq<TokenView>, i: int, first: int)
    requires
        has_code(body(t, i, first).diags, "E0100"@),
    ensures
        exists|k: int|
            0 <= k < body(t, i, first).nodes.len() && !snake_case(
                (#[trigger] body(t, i, first).nodes[k]).id,
            ),
    decreases t.len() - i,
{
    let code = "E0100"@;
    let all = body(t, i, first);
    lemma_codes_differ();
    if i < 0 || i >= t.len() || t[i].kind == TokenKindView::Eof {
        assert(all.diags.len() == 0);
    } else if t[i].kind == TokenKindView::Newline {
        let rest = body(t, i + 1, i + 1);
        let here = line_check(t, first, i).diags;
        lemma_has_code_concat(here, rest.diags, code);
        lemma_body_identifier_flagged(t, i + 1, i + 1);
        let k = choose|k: int|
            0 <= k < rest.nodes.len() && !snake_case((#[trigger] rest.nodes[k]).id);
        assert(all.nodes[k] == rest.nodes[k]);
    } else if t[i].kind is Comment {
        lemma_body_identifier_flagged(t, i + 1, first);
    } else if node_begins(t, i) {
        let rest = body(t, node_end(t, i), first);
        let here = node_findings(t, i);
        lemma_has_code_concat(here, rest.diags, code);
        if has_code(here, code) {
            assert(!snake_case(all.nodes[0].id));
        } else {
            lemma_body_identifier_flagged(t, node_end(t, i), first);
            let k = choose|k: int|
                0 <= k < rest.nodes.len() && !snake_case((#[trigger] rest.nodes[k]).id);
            assert(all.nodes[k + 1] == rest.nodes[k]);
        }
    } else if edge_begins(t, i) {
        lemma_line_stop(t, i + 3);
        let rest = body(t, line_stop(t, i + 3), first);
        lemma_has_code_concat(Seq::empty(), rest.diags, code);
        lemma_body_identifier_flagged(t, line_stop(t, i + 3), first);
        let k = choose|k: int|
            0 <= k < rest.nodes.len() && !snake_case((#[trigger] rest.nodes[k]).id);
        assert(all.nodes[k] == rest.nodes[k]);
    } else {
        lemma_line_stop(t, i + 1);
        lemma_body_identifier_flagged(t, line_stop(t, i + 1), first);
    }
}

/// A text is rejected with a finding that carries `E0100` if and only if
/// it declares a node whose identifier is not in snake case.
pub proof fn law_identifier_code(src: Seq<char>)
    ensures
        (parse_spec(src) is Err && has_code(parse_spec(src)->Err_0, "E0100"@)) <==> exists|k: int|
            0 <= k < syntax(lex(src)).nodes.len() && !snake_case(
                (#[trigger] syntax(lex(src)).nodes[k]).id,
            ),
{
    let t = lex(src);
    let found = syntax(t);
    let start = body_start(t);
    let code = "E0100"@;
    lemma_codes_differ();
    lemma_has_code_concat(direction_findings(t), body(t, start, line_first(t)).diags, code);
    if exists|k: int| 0 <= k < found.nodes.len() && !snake_case((#[trigger] found.nodes[k]).id) {
        let k = choose|k: int|
            0 <= k < found.nodes.len() && !snake_case((#[trigger] found.nodes[k]).id);
        lemma_body_flags_identifier(t, start, line_first(t), k);
    }
    if parse_spec(src) is Err && has_code(parse_spec(src)->Err_0, code) {
        let diags = parse_spec(src)->Err_0;
        let j = choose|j: int| 0 <= j < diags.len() && (#[trigger] diags[j]).code == code;
        if found.diags.len() > 0 {
            lemma_body_identifier_flagged(t, start, line_first(t));
        } else {
            lemma_reference_findings(found.nodes, found.edges);
            lemma_orphan_findings(found.nodes, found.edges);
            assert(is_reference_code(diags[j].code) || is_orphan_code(diags[j].code));
        }
    }
}

/// A text is rejected with a finding that carries `E0201` if and only if
/// the syntax pass finds nothing and an edge starts at an identifier that
/// no node declares; and alike with `E0202` for the end of an edge.
pub proof fn law_reference_codes(src: Seq<char>)
    ensures
        (parse_spec(src) is Err && has_code(parse_spec(src)->Err_0, "E0201"@)) <==> (syntax(
            lex(src),
        ).diags.len() == 0 && exists|k: int|
            0 <= k < syntax(lex(src)).edges.len() && !declares(
                syntax(lex(src)).nodes,
                (#[trigger] syntax(lex(src)).edges[k]).from,
            )),
        (parse_spec(src) is Err && has_code(parse_spec(src)->Err_0, "E0202"@)) <==> (syntax(
            lex(src),
        ).diags.len() == 0 && exists|k: int|
            0 <= k < syntax(lex(src)).edges.len() && !declares(
                syntax(lex(src)).nodes,
                (#[trigger] syntax(lex(src)).edges[k]).to,
            )),
{
    let t = lex(src);
    let found = syntax(t);
    let start = body_start(t);
    let all = reference_findings(found.nodes, found.edges);
    lemma_codes_differ();
    lemma_reference_findings(found.nodes, found.edges);
    lemma_orphan_findings(found.nodes, found.edges);
    lemma_body_codes(t, start, line_first(t));
    if found.diags.len() == 0 {
        if exists|k: int|
            0 <= k < found.edges.len() && !declares(found.nodes, (#[trigger] found.edges[k]).from) {
            let k = choose|k: int|
                0 <= k < found.edges.len() && !declares(
                    found.nodes,
                    (#[trigger] found.edges[k]).from,
                );
            law_dangling_edge_rejected(src, k);
        }
        if exists|k: int|
            0 <= k < found.edges.len() && !declares(found.nodes, (#[trigger] found.edges[k]).to) {
            let k = choose|k: int|
                0 <= k < found.edges.len() && !declares(
                    found.nodes,
                    (#[trigger] found.edges[k]).to,
                );
            law_dangling_edge_rejected(src, k);
        }
    }
    if parse_spec(src) is Err {
        let diags = parse_spec(src)->Err_0;
        if has_code(diags, "E0201"@) {
            let j = choose|j: int| 0 <= j < diags.len() && (#[trigger] diags[j]).code == "E0201"@;
            law_code_tells_stage(src, j);
            assert(diags == all);
            let d = all[j];
            let m = choose|m: int|
                0 <= m < found.edges.len() && ((d == unknown_from(#[trigger] found.edges[m])
                    && !declares(found.nodes, found.edges[m].from)) || (d == unknown_to(
                    found.edges[m],
                ) && !declares(found.nodes, found.edges[m].to)));
            assert(d == unknown_from(found.edges[m]));
        }
        if has_code(diags, "E0202"@) {
            let j = choose|j: int| 0 <= j < diags.len() && (#[trigger] diags[j]).code == "E0202"@;
            law_code_tells_stage(src, j);
            assert(diags == all);
            let d = all[j];
            let m = choose|m: int|
                0 <= m < found.edges.len() && ((d == unknown_from(#[trigger] found.edges[m])
                    && !declares(found.nodes, found.edges[m].from)) || (d == unknown_to(
                    found.edges[m],
                ) && !declares(found.nodes, found.edges[m].to)));
            assert(d == unknown_to(found.edges[m]));
        }
    }
}

/// The code of a finding tells the stage that rejected the text.
pub proof fn law_code_tells_stage(src: Seq<char>, j: int)
    requires
        parse_spec(src) is Err,
        0 <= j < parse_spec(src)->Err_0.len(),
    ensures
        is_syntax_code(parse_spec(src)->Err_0[j].code) <==> syntax(lex(src)).diags.len() > 0,
        is_reference_code(parse_spec(src)->Err_0[j].code) <==> syntax(lex(src)).diags.len() == 0
            && reference_findings(syntax(lex(src)).nodes, syntax(lex(src)).edges).len() > 0,
        is_orphan_code(parse_spec(src)->Err_0[j].code) <==> syntax(lex(src)).diags.len() == 0
            && reference_findings(syntax(lex(src)).nodes, syntax(lex(src)).edges).len() == 0,
{
    let t = lex(src);
    let found = syntax(t);
    let start = body_start(t);
    lemma_codes_differ();
    lemma_reference_findings(found.nodes, found.edges);
    lemma_orphan_findings(found.nodes, found.edges);
    lemma_body_codes(t, start, line_first(t));
    let diags = parse_spec(src)->Err_0;
    if found.diags.len() > 0 {
        let head = direction_findings(t);
        if j >= head.len() {
            assert(diags[j] == body(t, start, line_first(t)).diags[j - head.len()]);
        } else {
            assert(diags[j] == head[j]);
        }
        assert(is_syntax_code(diags[j].code));
    }
}

/// A text is rejected with a finding that carries `E0203` if and only if
/// the syntax pass and the reference check find nothing and a node has
/// degree 0.
pub proof fn law_orphan_code(src: Seq<char>)
    ensures
        (parse_spec(src) is Err && has_code(parse_spec(src)->Err_0, "E0203"@)) <==> (syntax(
            lex(src),
        ).diags.len() == 0 && reference_findings(
            syntax(lex(src)).nodes,
            syntax(lex(src)).edges,
        ).len() == 0 && exists|k: int|
            0 <= k < syntax(lex(src)).nodes.len() && degree(
                syntax(lex(src)).edges,
                (#[trigger] syntax(lex(src)).nodes[k]).id,
            ) == 0),
{
    let found = syntax(lex(src));
    if found.diags.len() == 0 && reference_findings(found.nodes, found.edges).len() == 0 {
        law_orphans_rejected(src);
        if parse_spec(src) is Err {
            let diags = parse_spec(src)->Err_0;
            assert(diags[0].code == "E0203"@);
        }
    }
    if parse_spec(src) is Err && has_code(parse_spec(src)->Err_0, "E0203"@) {
        let diags = parse_spec(src)->Err_0;
        let j = choose|j: int| 0 <= j < diags.len() && (#[trigger] diags[j]).code == "E0203"@;
        law_code_tells_stage(src, j);
    }
}

/// Where the body has a finding with `E0300`, one of its lines is too
/// wide.
pub proof fn lemma_wide_line_exists(t: Seq<TokenView>, i: int, cur: int)
    requires
        0 <= cur <= i,
        forall|k: int| cur <= k < i ==> (#[trigger] t[k]).kind != TokenKindView::Newline,
        has_code(body(t, i, cur).diags, "E0300"@),
    ensures
        exists|first: int, stop: int|
            {
                &&& cur <= first < stop < t.len()
                &&& i <= stop
                &&& t[stop].kind == TokenKindView::Newline
                &&& forall|k: int|
                    first <= k < stop ==> (#[trigger] t[k]).kind != TokenKindView::Newline
                &&& first == cur || t[first - 1].kind == TokenKindView::Newline
                &&& #[trigger] line_too_wide(t, first, stop)
            },
    decreases t.len() - i,
{
    let code = "E0300"@;
    let all = body(t, i, cur);
    lemma_codes_differ();
    if i >= t.len() || t[i].kind == TokenKindView::Eof {
        assert(all.diags.len() == 0);
    } else if t[i].kind == TokenKindView::Newline {
        let rest = body(t, i + 1, i + 1);
        let here = line_check(t, cur, i).diags;
        lemma_has_code_concat(here, rest.diags, code);
        if has_code(here, code) {
            assert(line_too_wide(t, cur, i));
        } else {
            lemma_wide_line_exists(t, i + 1, i + 1);
            let (first, stop) = choose|first: int, stop: int|
                {
                    &&& i + 1 <= first < stop < t.len()
                    &&& i + 1 <= stop
                    &&& t[stop].kind == TokenKindView::Newline
                    &&& forall|k: int|
                        first <= k < stop ==> (#[trigger] t[k]).kind != TokenKindView::Newline
                    &&& first == i + 1 || t[first - 1].kind == TokenKindView::Newline
                    &&& #[trigger] line_too_wide(t, first, stop)
                };
            assert(line_too_wide(t, first, stop));
        }
    } else if t[i].kind is Comment {
        lemma_wide_line_exists(t, i + 1, cur);
    } else if node_begins(t, i) {
        let rest = body(t, node_end(t, i), cur);
        let here = node_findings(t, i);
        lemma_has_code_concat(here, rest.diags, code);
        lemma_wide_line_exists(t, node_end(t, i), cur);
    } else if edge_begins(t, i) {
        lemma_line_stop(t, i + 3);
        let rest = body(t, line_stop(t, i + 3), cur);
        lemma_has_code_concat(Seq::empty(), rest.diags, code);
        lemma_wide_line_exists(t, line_stop(t, i + 3), cur);
    } else {
        lemma_line_stop(t, i + 1);
        lemma_wide_line_exists(t, line_stop(t, i + 1), cur);
    }
}

/// The header ends within the tokens.
pub proof fn lemma_header_end(t: Seq<TokenView>, i: int)
    requires
        0 <= i <= t.len(),
    ensures
        i <= header_end(t, i) <= t.len(),
    decreases t.len() - i,
{
    if i < t.len() && t[i].kind is Comment {
        lemma_header_end(t, comment_end(t, i));
    }
}

/// A text is rejected with a finding that carries `E0300` if and only if a
/// line of its body is wider than 100 columns.
pub proof fn law_wide_line_code(src: Seq<char>)
    ensures
        (parse_spec(src) is Err && has_code(parse_spec(src)->Err_0, "E0300"@)) <==> exists|
            first: int,
            stop: int,
        |
            is_body_line(lex(src), first, stop) && #[trigger] line_too_wide(lex(src), first, stop),
{
    let t = lex(src);
    let start = body_start(t);
    let code = "E0300"@;
    lemma_codes_differ();
    if exists|first: int, stop: int|
        is_body_line(t, first, stop) && #[trigger] line_too_wide(t, first, stop) {
        let (first, stop) = choose|first: int, stop: int|
            is_body_line(t, first, stop) && #[trigger] line_too_wide(t, first, stop);
        law_wide_line_rejected(src, first, stop);
    }
    if parse_spec(src) is Err && has_code(parse_spec(src)->Err_0, code) {
        let diags = parse_spec(src)->Err_0;
        let j = choose|j: int| 0 <= j < diags.len() && (#[trigger] diags[j]).code == code;
        law_code_tells_stage(src, j);
        lemma_has_code_concat(direction_findings(t), body(t, start, line_first(t)).diags, code);
        lemma_line_first(t);
        lemma_wide_line_exists(t, start, line_first(t));
        let (first, stop) = choose|first: int, stop: int|
            {
                &&& line_first(t) <= first < stop < t.len()
                &&& start <= stop
                &&& t[stop].kind == TokenKindView::Newline
                &&& forall|k: int|
                    first <= k < stop ==> (#[trigger] t[k]).kind != TokenKindView::Newline
                &&& first == line_first(t) || t[first - 1].kind == TokenKindView::Newline
                &&& #[trigger] line_too_wide(t, first, stop)
            };
        assert(is_body_line(t, first, stop));
    }
}

/// The nodes of degree 0, in the order of the nodes.
pub open spec fn orphans(nodes: Seq<NodeView>, edges: Seq<EdgeView>) -> Seq<NodeView>
    decreases nodes.len(),
{
    if nodes.len() == 0 {
        Seq::empty()
    } else if degree(edges, nodes.last().id) == 0 {
        orphans(nodes.drop_last(), edges).push(nodes.last())
    } else {
        orphans(nodes.drop_last(), edges)
    }
}

/// The findings of the orphan check are those of the nodes of degree 0,
/// one for each and in their order, each with the code `E0203` and the
/// place of its node.
pub proof fn law_orphan_findings_in_order(nodes: Seq<NodeView>, edges: Seq<EdgeView>)
    ensures
        orphan_findings(nodes, edges).len() == orphans(nodes, edges).len(),
        forall|k: int|
            0 <= k < orphans(nodes, edges).len() ==> {
                let d = #[trigger] orphan_findings(nodes, edges)[k];
                &&& d == orphan_finding(orphans(nodes, edges)[k])
                &&& d.code == "E0203"@
                &&& d.span == orphans(nodes, edges)[k].span
            },
    decreases nodes.len(),
{
    if nodes.len() > 0 {
        law_orphan_findings_in_order(nodes.drop_last(), edges);
    }
}

/// The findings of the reference check are built edge by edge, in the
/// order of the edges: those of the first `k + 1` edges are those of the
/// first `k` followed by those of edge `k`, which are the finding `E0201`
/// where its start is not declared and then the finding `E0202` where its
/// end is not declared, each with the place of the edge.
pub proof fn law_reference_findings_in_order(nodes: Seq<NodeView>, edges: Seq<EdgeView>, k: int)
    requires
        0 <= k < edges.len(),
    ensures
        reference_findings(nodes, edges.take(k + 1)) == reference_findings(nodes, edges.take(k))
            + edge_findings(nodes, edges[k]),
        reference_findings(nodes, edges.take(edges.len() as int)) == reference_findings(
            nodes,
            edges,
        ),
        unknown_from(edges[k]).code == "E0201"@ && unknown_from(edges[k]).span == edges[k].span,
        unknown_to(edges[k]).code == "E0202"@ && unknown_to(edges[k]).span == edges[k].span,
{
    assert(edges.take(k + 1).drop_last() =~= edges.take(k));
    assert(edges.take(k + 1).last() == edges[k]);
    assert(edges.take(edges.len() as int) =~= edges);
}

/// What a rejected text is rejected with: the findings of the syntax pass
/// where it has any; else those of the reference check, where it has any,
/// and then each carries `E0201` or `E0202`; else those of the orphan check,
/// and then each carries `E0203`.
pub proof fn law_rejected_with(src: Seq<char>)
    requires
        parse_spec(src) is Err,
    ensures
        syntax(lex(src)).diags.len() > 0 ==> parse_spec(src)->Err_0 == syntax(lex(src)).diags,
        syntax(lex(src)).diags.len() == 0 && reference_findings(
            syntax(lex(src)).nodes,
            syntax(lex(src)).edges,
        ).len() > 0 ==> {
            &&& parse_spec(src)->Err_0 == reference_findings(
                syntax(lex(src)).nodes,
                syntax(lex(src)).edges,
            )
            &&& forall|j: int|
                0 <= j < parse_spec(src)->Err_0.len() ==> is_reference_code(
                    (#[trigger] parse_spec(src)->Err_0[j]).code,
                )
        },
        syntax(lex(src)).diags.len() == 0 && reference_findings(
            syntax(lex(src)).nodes,
            syntax(lex(src)).edges,
        ).len() == 0 ==> {
            &&& parse_spec(src)->Err_0 == orphan_findings(
                syntax(lex(src)).nodes,
                syntax(lex(src)).edges,
            )
            &&& forall|j: int|
                0 <= j < parse_spec(src)->Err_0.len() ==> is_orphan_code(
                    (#[trigger] parse_spec(src)->Err_0[j]).code,
                )
        },
{
    let found = syntax(lex(src));
    lemma_reference_findings(found.nodes, found.edges);
    lemma_orphan_findings(found.nodes, found.edges);
}

/// Whether an edge starts or ends at an identifier that no node declares.
pub open spec fn has_dangling(nodes: Seq<NodeView>, edges: Seq<EdgeView>) -> bool {
    exists|k: int|
        0 <= k < edges.len() && (!declares(nodes, (#[trigger] edges[k]).from) || !declares(
            nodes,
            edges[k].to,
        ))
}

/// Whether `diags` report the dangling edges and nothing else: each carries
/// `E0201` or `E0202`; an edge whose start is not declared has a finding with
/// `E0201` at its place, and one whose end is not declared has a finding
/// with `E0202` at its place.
pub open spec fn reports_dangling(
    diags: Seq<DiagnosticView>,
    nodes: Seq<NodeView>,
    edges: Seq<EdgeView>,
) -> bool {
    &&& diags.len() > 0
    &&& forall|j: int|
        0 <= j < diags.len() ==> (#[trigger] diags[j]).code == "E0201"@ || diags[j].code
            == "E0202"@
    &&& forall|k: int|
        0 <= k < edges.len() && !declares(nodes, (#[trigger] edges[k]).from) ==> exists|j: int|
            0 <= j < diags.len() && (#[trigger] diags[j]).code == "E0201"@ && diags[j].span
                == edges[k].span
    &&& forall|k: int|
        0 <= k < edges.len() && !declares(nodes, (#[trigger] edges[k]).to) ==> exists|j: int|
            0 <= j < diags.len() && (#[trigger] diags[j]).code == "E0202"@ && diags[j].span
                == edges[k].span
}

/// Whether `diags` report the nodes of degree 0 and nothing else: one
/// finding for each, in their order, with `E0203` and the place of the node.
pub open spec fn reports_orphans(
    diags: Seq<DiagnosticView>,
    nodes: Seq<NodeView>,
    edges: Seq<EdgeView>,
) -> bool {
    &&& diags.len() == orphans(nodes, edges).len()
    &&& forall|j: int|
        0 <= j < diags.len() ==> (#[trigger] diags[j]).code == "E0203"@ && diags[j].span
            == orphans(nodes, edges)[j].span
}

/// Where an edge dangles, the findings of the reference check report the
/// dangling edges; and they are empty where none dangles.
pub proof fn lemma_reports_dangling(nodes: Seq<NodeView>, edges: Seq<EdgeView>)
    ensures
        has_dangling(nodes, edges) ==> reports_dangling(
            reference_findings(nodes, edges),
            nodes,
            edges,
        ),
        !has_dangling(nodes, edges) ==> reference_findings(nodes, edges).len() == 0,
{
    let all = reference_findings(nodes, edges);
    lemma_reference_findings(nodes, edges);
    if has_dangling(nodes, edges) {
        let k = choose|k: int|
            0 <= k < edges.len() && (!declares(nodes, (#[trigger] edges[k]).from) || !declares(
                nodes,
                edges[k].to,
            ));
        assert(all.contains(unknown_from(edges[k])) || all.contains(unknown_to(edges[k])));
        assert forall|k: int|
            0 <= k < edges.len() && !declares(nodes, (#[trigger] edges[k]).from) implies exists|
            j: int,
        |
            0 <= j < all.len() && (#[trigger] all[j]).code == "E0201"@ && all[j].span
                == edges[k].span by {
            let j = choose|j: int| 0 <= j < all.len() && all[j] == unknown_from(edges[k]);
            assert(all[j].code == "E0201"@);
        }
        assert forall|k: int|
            0 <= k < edges.len() && !declares(nodes, (#[trigger] edges[k]).to) implies exists|
            j: int,
        |
            0 <= j < all.len() && (#[trigger] all[j]).code == "E0202"@ && all[j].span
                == edges[k].span by {
            let j = choose|j: int| 0 <= j < all.len() && all[j] == unknown_to(edges[k]);
            assert(all[j].code == "E0202"@);
        }
    } else if all.len() > 0 {
        let d = all[0];
        let k = choose|k: int|
            0 <= k < edges.len() && ((d == unknown_from(#[trigger] edges[k]) && !declares(
                nodes,
                edges[k].from,
            )) || (d == unknown_to(edges[k]) && !declares(nodes, edges[k].to)));
        assert(has_dangling(nodes, edges));
    }
}

/// The findings of the orphan check report the nodes of degree 0.
pub proof fn lemma_reports_orphans(nodes: Seq<NodeView>, edges: Seq<EdgeView>)
    ensures
        reports_orphans(orphan_findings(nodes, edges), nodes, edges),
{
    law_orphan_findings_in_order(nodes, edges);
}

} // verus!
