use graphrite_core::parser::Parser;
use graphrite_core::render::{htmlesc, kind_of, render_dot};

#[test]
fn dot_form_of_a_small_graph() {
    let doc = Parser::parse("direction TD\na[\"A \\\"x\\\"\"]\nb[\"B\"]\na --> b\nb -.-> a\n").unwrap();
    assert_eq!(
        render_dot(&doc),
        "digraph G{\n  a [label=\"A \\\"x\\\"\"];\n  b [label=\"B\"];\n  a -> b;\n  b -> a;\n}\n"
    );
}

#[test]
fn dot_form_keeps_backslashes_as_they_are() {
    let doc = Parser::parse("direction LR\na[\"p\\\\q\"]\na --> a\n").unwrap();
    assert_eq!(doc.nodes[0].label, "p\\q");
    assert_eq!(
        render_dot(&doc),
        "digraph G{\n  a [label=\"p\\q\"];\n  a -> a;\n}\n"
    );
}

#[test]
fn markup_entities() {
    assert_eq!(htmlesc(""), "");
    assert_eq!(htmlesc("plain"), "plain");
    assert_eq!(htmlesc("a < b && b > c"), "a &lt; b &amp;&amp; b &gt; c");
    assert_eq!(htmlesc("&amp;"), "&amp;amp;");
    assert_eq!(htmlesc("\"quoted\""), "\"quoted\"");
}

#[test]
fn style_of_the_start_node() {
    assert_eq!(kind_of("Anything", "start"), ("stadium", "#e6ffe6", "#2e7d32"));
    assert_eq!(kind_of("Done?", "start"), ("stadium", "#e6ffe6", "#2e7d32"));
    assert_eq!(kind_of("Plain", "starts"), ("rect", "#ffffff", "#333333"));
    assert_eq!(kind_of("Plain", "star"), ("rect", "#ffffff", "#333333"));
}

#[test]
fn style_of_a_node_that_ends_a_flow() {
    let style = ("stadium", "#eeeeee", "#424242");
    assert_eq!(kind_of("Plain", "end"), style);
    assert_eq!(kind_of("Plain", "end_success"), style);
    assert_eq!(kind_of("All DONE", "x"), style);
    assert_eq!(kind_of("Success", "x"), style);
    assert_eq!(kind_of("It Failed?", "x"), style);
    assert_eq!(kind_of("Plain", "the_end"), ("rect", "#ffffff", "#333333"));
}

#[test]
fn style_of_a_decision() {
    let style = ("diamond", "#fff9c4", "#f9a825");
    assert_eq!(kind_of("Valid?", "x"), style);
    assert_eq!(kind_of("Valid? yes", "x"), style);
    assert_eq!(kind_of("say \"why?\"", "x"), style);
    assert_eq!(kind_of("Store?", "x"), style);
    assert_eq!(kind_of("a?b", "x"), ("rect", "#ffffff", "#333333"));
}

#[test]
fn style_of_storage() {
    let style = ("cylinder", "#e3f2fd", "#1565c0");
    assert_eq!(kind_of("User Data", "x"), style);
    assert_eq!(kind_of("Store", "x"), style);
    assert_eq!(kind_of("Work QUEUE", "x"), style);
    assert_eq!(kind_of("Persistence", "x"), style);
    assert_eq!(kind_of("Data error", "x"), style);
}

#[test]
fn style_of_a_failure_and_of_the_rest() {
    assert_eq!(kind_of("Error", "x"), ("rect", "#ffebee", "#c62828"));
    assert_eq!(kind_of("Dead Letter box", "x"), ("rect", "#ffebee", "#c62828"));
    assert_eq!(kind_of("Dead  letter", "x"), ("rect", "#ffffff", "#333333"));
    assert_eq!(kind_of("", ""), ("rect", "#ffffff", "#333333"));
    assert_eq!(kind_of("Process", "x"), ("rect", "#ffffff", "#333333"));
}

#[test]
fn only_ascii_letters_are_lowered() {
    assert_eq!(kind_of("D\u{d6}NE", "x"), ("rect", "#ffffff", "#333333"));
    assert_eq!(kind_of("\u{c9}RROR", "x"), ("rect", "#ffffff", "#333333"));
}
