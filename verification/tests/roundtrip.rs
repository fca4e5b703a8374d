use graphrite_core::ast::{Direction, Document, Edge, EdgeKind, Metadata, Node};
use graphrite_core::parser::Parser;
use graphrite_core::source::to_source;

fn content(doc: &Document) -> (String, Direction, Option<Metadata>, Vec<(String, String)>, Vec<(String, String, EdgeKind)>) {
    (
        doc.version.clone(),
        doc.directives.direction,
        doc.metadata.clone(),
        doc.nodes
            .iter()
            .map(|n| (n.id.clone(), n.label.clone()))
            .collect(),
        doc.edges
            .iter()
            .map(|e| (e.from.clone(), e.to.clone(), e.kind))
            .collect(),
    )
}

fn assert_round_trip(src: &str) {
    let doc = Parser::parse(src).expect("parse");
    let text = to_source(&doc);
    let again = Parser::parse(&text).unwrap_or_else(|e| panic!("{:?} gives {:?}: {:?}", src, text, e));
    assert_eq!(content(&again), content(&doc), "{:?}", src);
    assert_eq!(to_source(&again), text);
}

#[test]
fn canonical_text_of_a_document() {
    let doc = Document {
        version: "1".to_string(),
        directives: graphrite_core::ast::Directives { direction: Direction::TD },
        metadata: Some(Metadata { title: Some("My flow".to_string()), tags: None }),
        nodes: vec![
            Node { id: "a".to_string(), label: "A \"x\" \\".to_string(), span: None },
            Node { id: "b_2".to_string(), label: "p\\q \\\\ \\\"".to_string(), span: None },
        ],
        edges: vec![
            Edge { from: "a".to_string(), to: "b_2".to_string(), kind: EdgeKind::Flow, span: None },
            Edge { from: "b_2".to_string(), to: "a".to_string(), kind: EdgeKind::Conditional, span: None },
        ],
    };
    assert_eq!(
        to_source(&doc),
        "%% Diagram: My flow\ndirection TD\na[\"A \\\"x\\\" \\\\\"]\nb_2[\"p\\q \\\\\\ \\\\\\\"\"]\na-->b_2\nb_2-.->a\n"
    );
}

#[test]
fn canonical_text_without_title() {
    let doc = Parser::parse("direction LR\n\n  a [ \"A\" ]   \n a  -->  a  %% loop\n").unwrap();
    assert_eq!(to_source(&doc), "direction LR\na[\"A\"]\na-->a\n");
}

#[test]
fn canonical_text_is_read_as_the_same_document() {
    for src in [
        "direction LR\na[\"A\"]\nb[\"B\"]\na --> b\n",
        "%% Diagram: Simple\n\ndirection TD\n\na[\"A\"]\nb[\"B\"]\na -.-> b\n",
        "%% Diagram:\ndirection LR\na[\"\"]\na --> a\n",
        "%%Diagram:Diagram: Diagram: twice \t\ndirection LR\na[\"x\"]\na --> a",
        "%% note\n%% Diagram: \u{a0}wide\u{3000} spaces\u{2003}\ndirection LR\na[\"x\"]\na-->a\n",
        "direction LR a[\"A\"] b[\"B\"] a --> b junk | [ ]\n",
        "direction LR\na[\"say \\\"hi\\\"\"]\nb[\"back\\\\slash\"]\nc[\"lone \\ slash\"]\nd[\"end\\\\\"]\na --> b\nc -.-> d\n",
        "direction LR\na[\"\\\\\\\"\"]\nb[\"\\\\\\\\\"]\nc[\"\\x\\\\\\y\"]\na --> b\nb --> c\n",
        "direction LR\na[\"tab\there \r\"]\na --> a\n",
        "direction LR\na[\"\u{e9}\u{8d8a}\u{1f600}\"]\na --> a\n",
        "direction LR\ndirections[\"D\"]\ndirections --> directions\n",
        "direction LR\na[\"One\"]\na[\"Two\"]\na --> a\n",
        "direction LR\na --> b\nb[\"B\"]\na[\"A\"]\n",
        "direction LR\na[\"%% no comment\"]\nb[\"[\\\"]\"]\na --> b\n",
    ] {
        assert_round_trip(src);
    }
}

#[test]
fn canonical_text_is_no_wider_than_the_text_it_came_from() {
    let widest = format!("direction LR\na[\"{}\"]\na-->a\n", "A".repeat(96));
    assert_round_trip(&widest);
    let slashes = format!("direction LR\na[\"{}\"]\na-->a\n", "\\x".repeat(48));
    assert_round_trip(&slashes);
    let quotes = format!("direction LR\na[\"{}\"]\na-->a\n", "\\\"".repeat(48));
    assert_round_trip(&quotes);
    let long_id = format!("direction LR\n{}[\"\"]\n{}-->a\na[\"\"]\n", "a".repeat(97), "a".repeat(97));
    assert_round_trip(&long_id);
    let cond = format!("direction LR\n{}[\"\"]\n{}-.->a\na[\"\"]\n", "a".repeat(96), "a".repeat(96));
    assert_round_trip(&cond);
}

struct Lcg(u64);

impl Lcg {
    fn next(&mut self, n: usize) -> usize {
        self.0 = self
            .0
            .wrapping_mul(6364136223846793005)
            .wrapping_add(1442695040888963407);
        ((self.0 >> 33) as usize) % n
    }
}

#[test]
fn canonical_text_of_generated_documents() {
    let ids = ["a", "b", "c_1", "node", "x9", "directions"];
    let pieces = ["A", " ", "\\", "\"", "\\\\", "\\\"", "x", "?", "%%", "[", "]", "-->", "\u{e9}", "\t"];
    let gaps = ["", " ", "  ", "\t"];
    let mut rng = Lcg(7);
    let mut accepted = 0;
    for _ in 0..3000 {
        let mut src = String::new();
        if rng.next(3) == 0 {
            src.push_str("%% Diagram: ");
            for _ in 0..rng.next(4) {
                src.push_str(pieces[rng.next(pieces.len())]);
            }
            src.push('\n');
        }
        src.push_str(if rng.next(2) == 0 { "direction LR\n" } else { "direction TD\n" });
        let count = 1 + rng.next(3);
        for k in 0..count {
            src.push_str(gaps[rng.next(gaps.len())]);
            src.push_str(ids[k]);
            src.push_str(gaps[rng.next(gaps.len())]);
            src.push('[');
            src.push('"');
            for _ in 0..rng.next(6) {
                src.push_str(pieces[rng.next(pieces.len())]);
            }
            src.push('"');
            src.push(']');
            src.push_str(if rng.next(4) == 0 { " " } else { "\n" });
        }
        src.push('\n');
        for k in 0..count {
            src.push_str(ids[k]);
            src.push_str(gaps[rng.next(gaps.len())]);
            src.push_str(if rng.next(2) == 0 { "-->" } else { "-.->" });
            src.push_str(gaps[rng.next(gaps.len())]);
            src.push_str(ids[rng.next(count)]);
            src.push('\n');
        }
        if Parser::parse(&src).is_ok() {
            accepted += 1;
            assert_round_trip(&src);
        }
    }
    assert!(accepted > 500, "{}", accepted);
}
