use graphrite_core::ast::{Edge, EdgeKind, Node, Position, Span};
use graphrite_core::error::{pretty_line, Diagnostic, GraphriteError};
use graphrite_core::validate::{is_declared, is_orphan, orphan_errors, reference_errors};

fn node(id: &str) -> Node {
    Node {
        id: id.to_string(),
        label: id.to_uppercase(),
        span: None,
    }
}

fn edge(from: &str, to: &str) -> Edge {
    Edge {
        from: from.to_string(),
        to: to.to_string(),
        kind: EdgeKind::Flow,
        span: Some(Span {
            start: Position { line: 7, col: 1 },
            end: Position { line: 7, col: 9 },
        }),
    }
}

#[test]
fn declared_identifiers() {
    let nodes = vec![node("a"), node("b"), node("a")];
    assert!(is_declared(&nodes, &"a".to_string()));
    assert!(is_declared(&nodes, &"b".to_string()));
    assert!(!is_declared(&nodes, &"c".to_string()));
    assert!(!is_declared(&nodes, &"".to_string()));
    assert!(!is_declared(&Vec::new(), &"a".to_string()));
}

#[test]
fn reference_check_on_clean_edges() {
    let nodes = vec![node("a"), node("b")];
    let edges = vec![edge("a", "b"), edge("b", "b")];
    assert_eq!(reference_errors(&nodes, &edges), Vec::<Diagnostic>::new());
    assert_eq!(reference_errors(&nodes, &Vec::new()), Vec::<Diagnostic>::new());
}

#[test]
fn reference_check_reports_each_end_of_each_edge() {
    let nodes = vec![node("a")];
    let edges = vec![edge("a", "x"), edge("a", "a"), edge("y", "z"), edge("y", "a")];
    let errs = reference_errors(&nodes, &edges);
    let got: Vec<(&str, &str)> = errs
        .iter()
        .map(|d| (d.code.as_str(), d.message.as_str()))
        .collect();
    assert_eq!(
        got,
        vec![
            ("E0202", "Edge to references unknown node 'x'"),
            ("E0201", "Edge from references unknown node 'y'"),
            ("E0202", "Edge to references unknown node 'z'"),
            ("E0201", "Edge from references unknown node 'y'"),
        ]
    );
    for d in &errs {
        assert_eq!(d.span, edges[0].span);
    }
}

#[test]
fn orphans_by_degree() {
    let edges = vec![edge("a", "b"), edge("c", "c")];
    assert!(!is_orphan(&edges, &"a".to_string()));
    assert!(!is_orphan(&edges, &"b".to_string()));
    assert!(!is_orphan(&edges, &"c".to_string()));
    assert!(is_orphan(&edges, &"d".to_string()));
    assert!(is_orphan(&Vec::new(), &"a".to_string()));
}

#[test]
fn orphan_check_reports_nodes_without_edges() {
    let mut lone = node("lone");
    lone.span = Some(Span {
        start: Position { line: 2, col: 1 },
        end: Position { line: 2, col: 12 },
    });
    let nodes = vec![node("a"), lone.clone(), node("b"), node("z")];
    let edges = vec![edge("a", "b")];
    assert_eq!(
        orphan_errors(&nodes, &edges),
        vec![
            Diagnostic {
                code: "E0203".to_string(),
                message: "Orphan node 'lone' has no edges".to_string(),
                span: lone.span,
            },
            Diagnostic {
                code: "E0203".to_string(),
                message: "Orphan node 'z' has no edges".to_string(),
                span: None,
            },
        ]
    );
    assert_eq!(orphan_errors(&Vec::new(), &edges), Vec::<Diagnostic>::new());
}

#[test]
fn error_shows_its_message() {
    let e = GraphriteError::Message("no such file".to_string());
    assert_eq!(e.message(), "no such file");
}

#[test]
fn finding_as_a_line_for_a_reader() {
    let with_place = Diagnostic {
        code: "E0203".to_string(),
        message: "Orphan node 'bar' has no edges".to_string(),
        span: Some(Span {
            start: Position { line: 12, col: 3 },
            end: Position { line: 12, col: 40 },
        }),
    };
    assert_eq!(pretty_line(&with_place), "12:3:E0203 Orphan node 'bar' has no edges ^");
    let without = Diagnostic {
        code: "E0001".to_string(),
        message: "Invalid direction".to_string(),
        span: None,
    };
    assert_eq!(pretty_line(&without), "E0001 Invalid direction");
}
