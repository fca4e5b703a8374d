use graphrite_core::parser::Parser;

const BLUESKY: &str = "%% Diagram: Bluesky architecture\n\
direction LR\n\
\n\
user_app[\"Mobile/Web Client\"]\n\
pds_api[\"Personal Data Server\"]\n\
relay[\"Relay\"]\n\
app_view[\"App View\"]\n\
feed_gen[\"Feed Generator\"]\n\
labeler[\"Labeler\"]\n\
\n\
user_app --> pds_api\n\
pds_api --> relay\n\
relay --> app_view\n\
relay --> feed_gen\n\
relay -.-> labeler\n\
feed_gen --> app_view\n\
labeler -.-> app_view\n\
app_view --> user_app\n";

#[test]
fn parse_bluesky_nodes() {
    let doc = Parser::parse(BLUESKY).unwrap();
    assert!(doc.nodes.len() >= 5);
}

#[test]
fn parse_bluesky_no_orphans() {
    let doc = Parser::parse(BLUESKY).unwrap();
    let mut deg = std::collections::BTreeMap::new();
    for n in &doc.nodes {
        deg.insert(&n.id, 0usize);
    }
    for e in &doc.edges {
        *deg.get_mut(&e.from).unwrap() += 1;
        *deg.get_mut(&e.to).unwrap() += 1;
    }
    assert!(deg.values().all(|d| *d > 0));
}
