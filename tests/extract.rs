use site_search::extract::{extract_search_content, Node};

fn text(s: &str) -> Node {
    Node::Text { value: s.to_string() }
}

fn sample() -> Vec<Node> {
    vec![
        Node::Heading { depth: 1, children: vec![text("Intro")] },
        Node::Block { children: vec![text("Hello "), Node::Strong { children: vec![text("world")] }] },
        Node::CodeBlock { value: "let x = 1;".to_string() },
        Node::Heading { depth: 2, children: vec![Node::Emphasis { children: vec![text("More")] }, text(" info")] },
        Node::Block {
            children: vec![
                Node::Block { children: vec![text("bye "), Node::InlineCode { value: "fn".to_string() }] },
                Node::Link { children: vec![Node::Delete { children: vec![text(" old")] }] },
            ],
        },
        Node::Other,
    ]
}

#[test]
fn extract_fields_in_document_order() {
    let d = extract_search_content(&sample(), "id1".to_string(), "/x".to_string(), None);
    assert_eq!(d.id, "id1");
    assert_eq!(d.url, "/x");
    assert_eq!(d.headings, vec!["Intro", "More info"]);
    assert_eq!(d.code, vec!["let x = 1;"]);
    assert_eq!(d.body, "Hello worldbye fn old");
    assert_eq!(d.title, "Intro");
}

#[test]
fn extract_title_override_wins() {
    let d = extract_search_content(&sample(), "a".to_string(), "/a".to_string(), Some("Front".to_string()));
    assert_eq!(d.title, "Front");
    let d = extract_search_content(&sample(), "a".to_string(), "/a".to_string(), Some(String::new()));
    assert_eq!(d.title, "Intro");
}

#[test]
fn extract_empty_document() {
    let d = extract_search_content(&vec![], "a".to_string(), "/a".to_string(), None);
    assert_eq!(d.title, "");
    assert_eq!(d.body, "");
    assert!(d.headings.is_empty());
    assert!(d.code.is_empty());
}

#[test]
fn extract_nested_block_heading_counts() {
    let nodes = vec![Node::Block {
        children: vec![Node::Heading { depth: 3, children: vec![text("Deep")] }, Node::CodeBlock { value: "x".to_string() }],
    }];
    let d = extract_search_content(&nodes, "a".to_string(), "/a".to_string(), None);
    assert_eq!(d.headings, vec!["Deep"]);
    assert_eq!(d.code, vec!["x"]);
    assert_eq!(d.title, "Deep");
    assert_eq!(d.body, "");
}
