use graphrite_core::ast::{Direction, Document, EdgeKind, Position, Span};
use graphrite_core::error::Diagnostic;
use graphrite_core::parser::Parser;

fn span(l1: usize, c1: usize, l2: usize, c2: usize) -> Option<Span> {
    Some(Span {
        start: Position { line: l1, col: c1 },
        end: Position { line: l2, col: c2 },
    })
}

fn diag(code: &str, message: &str, span: Option<Span>) -> Diagnostic {
    Diagnostic {
        code: code.to_string(),
        message: message.to_string(),
        span,
    }
}

fn codes(errs: &[Diagnostic]) -> Vec<&str> {
    errs.iter().map(|d| d.code.as_str()).collect()
}

fn accept(src: &str) -> Document {
    Parser::parse(src).expect("parse")
}

fn reject(src: &str) -> Vec<Diagnostic> {
    Parser::parse(src).unwrap_err()
}

#[test]
fn two_nodes_and_a_flow() {
    let doc = accept("direction LR\na[\"A\"]\nb[\"B\"]\na --> b\n");
    assert_eq!(doc.version, "1");
    assert_eq!(doc.directives.direction, Direction::LR);
    assert_eq!(doc.metadata, None);
    assert_eq!(doc.nodes.len(), 2);
    assert_eq!(doc.nodes[0].id, "a");
    assert_eq!(doc.nodes[0].label, "A");
    assert_eq!(doc.nodes[0].span, span(2, 1, 2, 6));
    assert_eq!(doc.nodes[1].id, "b");
    assert_eq!(doc.nodes[1].label, "B");
    assert_eq!(doc.nodes[1].span, span(3, 1, 3, 6));
    assert_eq!(doc.edges.len(), 1);
    assert_eq!(doc.edges[0].from, "a");
    assert_eq!(doc.edges[0].to, "b");
    assert_eq!(doc.edges[0].kind, EdgeKind::Flow);
    assert_eq!(doc.edges[0].span, span(4, 1, 4, 7));
}

#[test]
fn top_down_direction() {
    let doc = accept("direction TD\na[\"A\"]\na -.-> a\n");
    assert_eq!(doc.directives.direction, Direction::TD);
    assert_eq!(doc.edges[0].kind, EdgeKind::Conditional);
    assert_eq!(doc.edges[0].span, span(3, 1, 3, 8));
}

#[test]
fn text_without_final_newline() {
    let doc = accept("direction LR\na[\"A\"]\na --> a");
    assert_eq!(doc.nodes.len(), 1);
    assert_eq!(doc.edges.len(), 1);
}

#[test]
fn title_comes_from_the_leading_comment() {
    let doc = accept("%% Diagram: Simple\n\ndirection LR\na[\"A\"]\na --> a\n");
    let meta = doc.metadata.expect("metadata");
    assert_eq!(meta.title.as_deref(), Some("Simple"));
    assert_eq!(meta.tags, None);
}

#[test]
fn first_title_comment_wins() {
    let doc = accept("%% Diagram: One\n%% Diagram: Two\ndirection LR\na[\"A\"]\na --> a\n");
    assert_eq!(doc.metadata.unwrap().title.as_deref(), Some("One"));
}

#[test]
fn other_comments_before_the_title_are_passed_over() {
    let doc = accept("%% hello\n\n%% Diagram: T\ndirection LR\na[\"A\"]\na --> a\n");
    assert_eq!(doc.metadata.unwrap().title.as_deref(), Some("T"));
}

#[test]
fn title_comment_behind_the_direction_gives_no_title() {
    let doc = accept("direction LR\n%% Diagram: Late\na[\"A\"]\na --> a\n");
    assert_eq!(doc.metadata, None);
}

#[test]
fn comment_that_is_no_title_gives_no_metadata() {
    let doc = accept("%% diagram: lower case\n%% a Diagram: inside\ndirection LR\na[\"A\"]\na --> a\n");
    assert_eq!(doc.metadata, None);
}

#[test]
fn title_is_trimmed_and_repeated_markers_are_dropped() {
    let doc = accept("%%\t Diagram:Diagram: \u{a0} My  flow \u{3000}\t\ndirection LR\na[\"A\"]\na --> a\n");
    assert_eq!(doc.metadata.unwrap().title.as_deref(), Some("My  flow"));
}

#[test]
fn marker_behind_white_space_stays_in_the_title() {
    let doc = accept("%% Diagram: Diagram: x\ndirection LR\na[\"A\"]\na --> a\n");
    assert_eq!(doc.metadata.unwrap().title.as_deref(), Some("Diagram: x"));
}

#[test]
fn empty_title() {
    let doc = accept("%% Diagram:\ndirection LR\na[\"A\"]\na --> a\n");
    assert_eq!(doc.metadata.unwrap().title.as_deref(), Some(""));
}

#[test]
fn one_blank_line_may_follow_each_leading_comment() {
    let doc = accept("%% a\n\n%% b\n\n%% Diagram: T\n\ndirection LR\na[\"A\"]\na --> a\n");
    assert_eq!(doc.metadata.unwrap().title.as_deref(), Some("T"));
    let doc = accept("%% a\n%% b\ndirection LR\na[\"A\"]\na --> a\n");
    assert_eq!(doc.nodes.len(), 1);
}

#[test]
fn blank_line_at_the_head_hides_the_direction() {
    assert_eq!(
        reject("\ndirection LR\n"),
        vec![diag("E0001", "Missing direction on first line", span(1, 1, 1, 1))]
    );
    assert_eq!(
        reject("\ndirection LR\na[\"A\"]\na --> a\n"),
        vec![diag("E0001", "Missing direction on first line", span(1, 1, 1, 1))]
    );
    assert_eq!(
        reject("  \n%% c\ndirection LR\na[\"A\"]\na --> a\n"),
        vec![diag("E0001", "Missing direction on first line", span(1, 3, 1, 3))]
    );
}

#[test]
fn second_blank_line_behind_a_comment_hides_the_direction() {
    assert_eq!(
        reject("%% c\n\n\ndirection LR\na[\"A\"]\na --> a\n"),
        vec![diag("E0001", "Missing direction on first line", span(3, 1, 3, 1))]
    );
    assert_eq!(
        reject("%% Diagram: T\n\n\n\ndirection TD\n"),
        vec![diag("E0001", "Missing direction on first line", span(3, 1, 3, 1))]
    );
}

#[test]
fn missing_direction_is_reported_where_it_should_stand() {
    assert_eq!(
        reject("a[\"A\"]\n"),
        vec![diag("E0001", "Missing direction on first line", span(1, 1, 1, 1))]
    );
    assert_eq!(
        reject("%% c\n  a[\"A\"]\na --> a\n"),
        vec![diag("E0001", "Missing direction on first line", span(2, 3, 2, 3))]
    );
}

#[test]
fn empty_text_lacks_a_direction() {
    assert_eq!(
        reject(""),
        vec![diag("E0001", "Missing direction on first line", span(1, 1, 1, 1))]
    );
}

#[test]
fn keyword_without_a_word_is_a_missing_direction() {
    assert_eq!(
        reject("direction\na[\"A\"]\na --> a\n"),
        vec![diag("E0001", "Missing direction on first line", span(1, 1, 1, 1))]
    );
    assert_eq!(
        reject("direction [LR]\n"),
        vec![diag("E0001", "Missing direction on first line", span(1, 1, 1, 1))]
    );
}

#[test]
fn unknown_direction_word_is_an_invalid_direction() {
    assert_eq!(
        reject("direction XX\na[\"A\"]\na --> a\n"),
        vec![diag("E0001", "Invalid direction", span(1, 1, 1, 2))]
    );
    assert_eq!(
        reject("  direction lr\n"),
        vec![diag("E0001", "Invalid direction", span(1, 3, 1, 4))]
    );
}

#[test]
fn direction_finding_does_not_stop_the_pass() {
    let errs = reject("Foo[\"F\"]\n");
    assert_eq!(codes(&errs), vec!["E0001", "E0100"]);
}

#[test]
fn rest_of_the_direction_line_is_read() {
    let doc = accept("direction LR a[\"A\"]\na --> a\n");
    assert_eq!(doc.nodes.len(), 1);
    assert_eq!(doc.nodes[0].span, span(1, 14, 1, 19));
}

#[test]
fn unquoted_label_lacks_quotes_and_bracket() {
    assert_eq!(
        reject("direction LR\na[unquoted]\n"),
        vec![
            diag("E0003", "Node label must be quoted", span(2, 3, 2, 3)),
            diag("E0010", "Expected ] after label", span(2, 3, 2, 3)),
        ]
    );
}

#[test]
fn missing_closing_bracket() {
    assert_eq!(
        reject("direction LR\na[\"A\"\na --> a\n"),
        vec![diag("E0010", "Expected ] after label", span(2, 6, 2, 6))]
    );
    assert_eq!(
        reject("direction LR\na[\"A\" x]\n"),
        vec![diag("E0010", "Expected ] after label", span(2, 7, 2, 7))]
    );
}

#[test]
fn bracket_without_label() {
    assert_eq!(
        reject("direction LR\na[]\n"),
        vec![diag("E0003", "Node label must be quoted", span(2, 3, 2, 3))]
    );
}

#[test]
fn identifier_rule() {
    for id in ["Foo", "fooBar", "foo_", "a_B", "X", "a1_"] {
        let src = format!("direction LR\n{}[\"L\"]\n{} --> {}\n", id, id, id);
        assert_eq!(
            reject(&src),
            vec![diag("E0100", "Identifier must be snake_case", span(2, 1, 2, 1))],
            "{}",
            id
        );
    }
    for id in ["foo", "foo_bar", "a", "a1", "a_1_b", "a__b", "directions"] {
        let src = format!("direction LR\n{}[\"L\"]\n{} --> {}\n", id, id, id);
        let doc = accept(&src);
        assert_eq!(doc.nodes[0].id, id);
    }
}

#[test]
fn identifier_rule_binds_nodes_only() {
    let errs = reject("direction LR\nfoo[\"F\"]\nFoo --> foo\n");
    assert_eq!(codes(&errs), vec!["E0201"]);
}

#[test]
fn syntax_pass_collects_findings_of_several_lines() {
    let errs = reject("direction LR\nFoo[\"F\"]\nbar_[x]\nbaz[\"B\"\n");
    assert_eq!(
        codes(&errs),
        vec!["E0100", "E0003", "E0010", "E0100", "E0010"]
    );
}

#[test]
fn wide_line_is_reported_with_its_width() {
    let src = format!("direction LR\na[\"{}\"]\n", "A".repeat(120));
    assert_eq!(
        reject(&src),
        vec![diag(
            "E0300",
            "Line 2 exceeds max length (124 > 100)",
            span(2, 1, 2, 125)
        )]
    );
}

#[test]
fn width_of_one_hundred_is_allowed() {
    let src = format!("direction LR\na[\"{}\"]\na --> a\n", "A".repeat(96));
    let doc = accept(&src);
    assert_eq!(doc.nodes[0].span, span(2, 1, 2, 101));
    let src = format!("direction LR\na[\"{}\"]\na --> a\n", "A".repeat(97));
    assert_eq!(
        reject(&src),
        vec![diag(
            "E0300",
            "Line 2 exceeds max length (101 > 100)",
            span(2, 1, 2, 102)
        )]
    );
}

#[test]
fn width_is_measured_from_the_first_token() {
    let src = format!("direction LR\n     a[\"{}\"]\na --> a\n", "A".repeat(96));
    let doc = accept(&src);
    assert_eq!(doc.nodes[0].span, span(2, 6, 2, 106));
    let src = format!("direction LR\n\n  a[\"{}\"]\na --> a\n", "A".repeat(97));
    assert_eq!(
        reject(&src),
        vec![diag(
            "E0300",
            "Line 3 exceeds max length (101 > 100)",
            span(3, 3, 3, 104)
        )]
    );
}

#[test]
fn width_reaches_to_a_trailing_comment() {
    let src = format!("direction LR\na[\"A\"]{}%% far\na --> a\n", " ".repeat(100));
    assert_eq!(
        reject(&src),
        vec![diag(
            "E0300",
            "Line 2 exceeds max length (106 > 100)",
            span(2, 1, 2, 107)
        )]
    );
}

#[test]
fn direction_line_is_measured_from_the_keyword() {
    let src = format!("direction LR{}x\n", " ".repeat(100));
    assert_eq!(
        reject(&src),
        vec![diag(
            "E0300",
            "Line 1 exceeds max length (112 > 100)",
            span(1, 1, 1, 113)
        )]
    );
    let src = format!("direction LR a[\"{}\"]\na --> a\n", "A".repeat(90));
    assert_eq!(
        reject(&src),
        vec![diag(
            "E0300",
            "Line 1 exceeds max length (107 > 100)",
            span(1, 1, 1, 108)
        )]
    );
    let src = format!("  direction LR a[\"{}\"]\na --> a\n", "A".repeat(83));
    let doc = accept(&src);
    assert_eq!(doc.nodes[0].span, span(1, 16, 1, 103));
    let src = format!("  direction LR a[\"{}\"]\na --> a\n", "A".repeat(84));
    assert_eq!(
        reject(&src),
        vec![diag(
            "E0300",
            "Line 1 exceeds max length (101 > 100)",
            span(1, 3, 1, 104)
        )]
    );
}

#[test]
fn direction_line_alone_is_not_measured() {
    let src = format!("direction{}LR\na[\"A\"]\na --> a\n", " ".repeat(200));
    assert_eq!(accept(&src).nodes.len(), 1);
}

#[test]
fn long_comment_line_is_not_wide() {
    let src = format!("direction LR\n%% {}\na[\"A\"]\na --> a\n", "x".repeat(300));
    assert_eq!(accept(&src).nodes.len(), 1);
}

#[test]
fn wide_line_that_is_passed_over_is_still_reported() {
    let src = format!("direction LR\na[\"A\"]\na --> a\n| {} |\n", " ".repeat(120));
    assert_eq!(codes(&reject(&src)), vec!["E0300"]);
}

#[test]
fn dangling_edge_reports_start_and_end() {
    assert_eq!(
        reject("direction LR\nfoo[\"Foo\"]\nbar --> baz\n"),
        vec![
            diag(
                "E0201",
                "Edge from references unknown node 'bar'",
                span(3, 1, 3, 9)
            ),
            diag(
                "E0202",
                "Edge to references unknown node 'baz'",
                span(3, 1, 3, 9)
            ),
        ]
    );
}

#[test]
fn dangling_edges_hide_orphans() {
    let errs = reject("direction LR\nfoo[\"Foo\"]\nlone[\"Lone\"]\nfoo --> baz\nqux -.-> foo\n");
    assert_eq!(codes(&errs), vec!["E0202", "E0201"]);
    assert_eq!(errs[0].span, span(4, 1, 4, 9));
    assert_eq!(errs[1].span, span(5, 1, 5, 10));
}

#[test]
fn syntax_findings_hide_dangling_edges() {
    let errs = reject("direction LR\nFoo[\"Foo\"]\nbar --> baz\n");
    assert_eq!(codes(&errs), vec!["E0100"]);
}

#[test]
fn orphan_is_reported_at_its_declaration() {
    assert_eq!(
        reject("direction LR\nfoo[\"Foo\"]\nbar[\"Bar\"]\nfoo --> foo\n"),
        vec![diag(
            "E0203",
            "Orphan node 'bar' has no edges",
            span(3, 1, 3, 10)
        )]
    );
}

#[test]
fn every_orphan_is_reported_in_order() {
    let errs = reject("direction LR\nc[\"C\"]\na[\"A\"]\nb[\"B\"]\nd[\"D\"]\na --> b\n");
    assert_eq!(
        errs.iter().map(|d| d.message.as_str()).collect::<Vec<_>>(),
        vec![
            "Orphan node 'c' has no edges",
            "Orphan node 'd' has no edges"
        ]
    );
}

#[test]
fn node_may_be_declared_behind_its_edge() {
    let doc = accept("direction LR\na --> b\nb[\"B\"]\na[\"A\"]\n");
    assert_eq!(doc.nodes[0].id, "b");
    assert_eq!(doc.edges.len(), 1);
}

#[test]
fn node_may_be_declared_twice() {
    let doc = accept("direction LR\na[\"One\"]\na[\"Two\"]\na --> a\n");
    assert_eq!(doc.nodes.len(), 2);
    assert_eq!(doc.nodes[0].label, "One");
    assert_eq!(doc.nodes[1].label, "Two");
}

#[test]
fn rest_of_an_edge_line_is_passed_over() {
    let doc = accept("direction LR\na[\"A\"]\nb[\"B\"]\na --> b c[\"C\"] --> | \"x\"\n");
    assert_eq!(doc.nodes.len(), 2);
    assert_eq!(doc.edges.len(), 1);
    assert_eq!(doc.edges[0].span, span(4, 1, 4, 7));
}

#[test]
fn line_of_any_other_shape_is_passed_over() {
    let src = "direction LR\n\
a[\"A\"]\n\
--> a\n\
| zz[\"Z\"]\n\
\"text\" a --> nowhere\n\
] a --> nowhere\n\
direction TD a --> nowhere\n\
a b --> c\n\
a -->\n\
a --> [\n\
a\n\
a --> a\n";
    let doc = accept(src);
    assert_eq!(doc.nodes.len(), 1);
    assert_eq!(doc.edges.len(), 1);
    assert_eq!(doc.edges[0].span, span(12, 1, 12, 7));
    assert_eq!(doc.directives.direction, Direction::LR);
}

#[test]
fn statement_may_follow_a_node_on_its_line() {
    let doc = accept("direction LR\na[\"A\"] b[\"B\"] a --> b\n");
    assert_eq!(doc.nodes.len(), 2);
    assert_eq!(doc.edges.len(), 1);
    assert_eq!(doc.nodes[1].span, span(2, 8, 2, 13));
    assert_eq!(doc.edges[0].span, span(2, 15, 2, 21));
}

#[test]
fn comments_may_stand_anywhere() {
    let doc = accept("%% top\ndirection LR %% axis\n%% nodes\na[\"A\"] %% first\n\n%% edges\na --> a %% loop\n%% end");
    assert_eq!(doc.nodes.len(), 1);
    assert_eq!(doc.edges.len(), 1);
}

#[test]
fn label_keeps_its_escaped_quotes() {
    let doc = accept("direction LR\na[\"say \\\"hi\\\" \\\\ bye\"]\na --> a\n");
    assert_eq!(doc.nodes[0].label, "say \"hi\" \\ bye");
}

#[test]
fn label_may_be_empty_and_may_hold_brackets() {
    let doc = accept("direction LR\na[\"\"]\nb[\"[x] --> %% | y\"]\na --> b\n");
    assert_eq!(doc.nodes[0].label, "");
    assert_eq!(doc.nodes[1].label, "[x] --> %% | y");
}

#[test]
fn self_loop_gives_degree_two() {
    let doc = accept("direction LR\nfoo[\"Foo\"]\nfoo --> foo\n");
    assert_eq!(doc.nodes.len(), 1);
    assert_eq!(doc.edges[0].from, doc.edges[0].to);
}

#[test]
fn parsing_twice_gives_the_same() {
    for src in [
        "direction LR\na[\"A\"]\nb[\"B\"]\na --> b\n",
        "a[\"A\"]\n",
        "direction LR\nfoo[\"Foo\"]\nbar --> baz\n",
    ] {
        assert_eq!(Parser::parse(src), Parser::parse(src));
    }
}

#[test]
fn accepted_document_is_valid() {
    let doc = accept("%% Diagram: T\ndirection TD\na[\"A\"]\nb[\"B\"]\nc[\"C\"]\na --> b\nb -.-> c\nc --> a\n");
    for e in &doc.edges {
        assert!(doc.nodes.iter().any(|n| n.id == e.from));
        assert!(doc.nodes.iter().any(|n| n.id == e.to));
    }
    for n in &doc.nodes {
        assert!(doc.edges.iter().any(|e| e.from == n.id || e.to == n.id));
    }
}

#[test]
fn findings_come_from_one_stage() {
    let syntax = ["E0001", "E0003", "E0010", "E0100", "E0300"];
    let reference = ["E0201", "E0202"];
    let cases = [
        "a[\"A\"]\nb --> c\nlone[\"L\"]\n".to_string(),
        "direction LR\nA[x\nb --> c\n".to_string(),
        "direction LR\nlone[\"L\"]\nb --> c\n".to_string(),
        "direction LR\nlone[\"L\"]\n".to_string(),
        format!("direction LR\nlone[\"{}\"]\nb --> c\n", "L".repeat(200)),
    ];
    for src in cases {
        let errs = reject(&src);
        assert!(!errs.is_empty());
        let all_syntax = errs.iter().all(|d| syntax.contains(&d.code.as_str()));
        let all_reference = errs.iter().all(|d| reference.contains(&d.code.as_str()));
        let all_orphan = errs.iter().all(|d| d.code == "E0203");
        assert!(all_syntax || all_reference || all_orphan, "{:?}", src);
    }
}

#[test]
fn parser_made_for_a_text_gives_what_parse_gives() {
    for src in [
        "direction LR\na[\"A\"]\nb[\"B\"]\na --> b\n",
        "\ndirection LR\n",
        "direction LR\nfoo[\"Foo\"]\nbar --> baz\n",
        "direction LR\nfoo[\"Foo\"]\nbar[\"Bar\"]\nfoo --> foo\n",
        "",
    ] {
        let mut parser = Parser::new(src);
        assert_eq!(parser.document(), Parser::parse(src), "{:?}", src);
    }
}

#[test]
fn dangling_ends_are_reported_edge_by_edge() {
    let errs = reject("direction LR\na[\"A\"]\nlone[\"L\"]\nx --> a\na --> y\nx -.-> y\na --> a\n");
    assert_eq!(codes(&errs), vec!["E0201", "E0202", "E0201", "E0202"]);
    assert_eq!(errs[0].span, span(4, 1, 4, 7));
    assert_eq!(errs[1].span, span(5, 1, 5, 7));
    assert_eq!(errs[2].span, span(6, 1, 6, 8));
    assert_eq!(errs[3].span, span(6, 1, 6, 8));
}
