//! Scenario tests for the documented behaviour of the scanner, the builder
//! and the query engine.

use std::collections::VecDeque;
use html_tree::closing_tags_named;
use html_tree::find_by_attribute;
use html_tree::find_by_tag_name;
use html_tree::find_by_text;
use html_tree::graph_creator;
use html_tree::tokenize;
use html_tree::Attributes;
use html_tree::Node;
use html_tree::Tokens;

fn build(input: &str) -> Node {
    let mut tokens = tokenize(input);
    assert!(closing_tags_named(&tokens));
    graph_creator(&mut tokens)
}

/// A well-formed document survives the scan and the build with its tag
/// names, attributes, text content and nesting order intact.
#[test]
fn roundtrip_preserves_structure() {
    let root = build("<div a=\"1\"><p>hi</p><span b=\"2\">x</span>tail</div>");
    match &root {
        Node::Element { tag_name, attributes, children } => {
            assert_eq!(tag_name, "div");
            assert_eq!(attributes.get("a").unwrap(), "1");
            assert_eq!(children.len(), 3);
            match &children[0] {
                Node::Element { tag_name, children, .. } => {
                    assert_eq!(tag_name, "p");
                    assert_eq!(children.len(), 1);
                    match &children[0] {
                        Node::Text(t) => assert_eq!(t, "hi"),
                        _ => panic!("expected text under p"),
                    }
                }
                _ => panic!("expected p element first"),
            }
            match &children[1] {
                Node::Element { tag_name, attributes, children } => {
                    assert_eq!(tag_name, "span");
                    assert_eq!(attributes.get("b").unwrap(), "2");
                    assert_eq!(children.len(), 1);
                }
                _ => panic!("expected span element second"),
            }
            match &children[2] {
                Node::Text(t) => assert_eq!(t, "tail"),
                _ => panic!("expected trailing text third"),
            }
        }
        _ => panic!("expected element root"),
    }
}

/// A void element inside a document closes itself and takes no children;
/// the siblings after it stay siblings.
#[test]
fn roundtrip_with_void_child() {
    let root = build("<div><img src=\"x\"><p>hi</p></div>");
    match &root {
        Node::Element { tag_name, children, .. } => {
            assert_eq!(tag_name, "div");
            assert_eq!(children.len(), 2);
            match &children[0] {
                Node::Element { tag_name, attributes, children } => {
                    assert_eq!(tag_name, "img");
                    assert_eq!(attributes.get("src").unwrap(), "x");
                    assert!(children.is_empty());
                }
                _ => panic!("expected the img element first"),
            }
            match &children[1] {
                Node::Element { tag_name, .. } => assert_eq!(tag_name, "p"),
                _ => panic!("expected the p element second"),
            }
        }
        _ => panic!("expected element root"),
    }
}

/// Repeated searches with the same predicate on the same tree return the
/// same node.
#[test]
fn find_first_is_idempotent() {
    let root = build("<div><p>one</p><p>two</p></div>");
    let first = find_by_tag_name("p", &root).unwrap();
    let second = find_by_tag_name("p", &root).unwrap();
    assert!(std::ptr::eq(first, second));
    let t1 = find_by_text("two", &root).unwrap();
    let t2 = find_by_text("two", &root).unwrap();
    assert!(std::ptr::eq(t1, t2));
}

/// With two `p` elements in the tree, the search returns the first one in
/// document order.
#[test]
fn by_tag_name_returns_first_in_document_order() {
    let root = build("<div><p>first</p><p>second</p></div>");
    let found = find_by_tag_name("p", &root).unwrap();
    match found {
        Node::Element { tag_name, children, .. } => {
            assert_eq!(tag_name, "p");
            match &children[0] {
                Node::Text(t) => assert_eq!(t, "first"),
                _ => panic!("expected text under the first p"),
            }
        }
        _ => panic!("expected an element"),
    }
}

/// A void element without an explicit `/>` still closes itself: the scanner
/// turns its `>` into a self-close marker, so it gets no children.
#[test]
fn void_element_self_closes() {
    let tokens = tokenize("<img src=\"x\">");
    let expected = [
        Tokens::LessThan,
        Tokens::Identifier("img".to_string()),
        Tokens::Attribute("src".to_string()),
        Tokens::Equals,
        Tokens::StringLiteral("x".to_string()),
        Tokens::SelfClosingTagEnd,
        Tokens::EOF,
    ];
    assert_eq!(tokens.len(), expected.len());
    for (got, want) in tokens.iter().zip(expected.iter()) {
        assert_eq!(format!("{:?}", got), format!("{:?}", want));
    }

    let root = build("<img src=\"x\">");
    match &root {
        Node::Element { tag_name, attributes, children } => {
            assert_eq!(tag_name, "img");
            assert_eq!(attributes.get("src").unwrap(), "x");
            assert!(children.is_empty());
        }
        _ => panic!("expected element"),
    }
}

/// When the same attribute name is written twice, the last write wins.
#[test]
fn duplicate_attribute_last_write_wins() {
    let root = build("<div a=\"1\" a=\"2\">");
    match &root {
        Node::Element { attributes, .. } => {
            assert_eq!(attributes.get("a").unwrap(), "2");
        }
        _ => panic!("expected element"),
    }

    let mut attrs = Attributes::new();
    attrs.insert("a".to_string(), "1".to_string());
    attrs.insert("a".to_string(), "2".to_string());
    assert_eq!(attrs.get("a").unwrap(), "2");
    assert!(attrs.get("b").is_none());
}

/// A comment between text runs yields no token and leaves no trace in the
/// tree.
#[test]
fn comment_leaves_no_trace() {
    let tokens = tokenize("a<!-- note -->b");
    let kinds: Vec<String> = tokens.iter().map(|t| format!("{:?}", t)).collect();
    assert_eq!(
        kinds,
        vec![
            format!("{:?}", Tokens::Text("a".to_string())),
            format!("{:?}", Tokens::Text("b".to_string())),
            format!("{:?}", Tokens::EOF),
        ]
    );

    let root = build("<div>a<!-- note -->b</div>");
    match &root {
        Node::Element { children, .. } => {
            assert_eq!(children.len(), 2);
            match (&children[0], &children[1]) {
                (Node::Text(a), Node::Text(b)) => {
                    assert_eq!(a, "a");
                    assert_eq!(b, "b");
                }
                _ => panic!("expected two text children"),
            }
        }
        _ => panic!("expected element"),
    }
}

/// The worked example: `<p>hi</p>` scans to the exact token sequence and
/// builds the exact one-child tree.
#[test]
fn example_p_hi() {
    let tokens = tokenize("<p>hi</p>");
    let expected = [
        Tokens::LessThan,
        Tokens::Identifier("p".to_string()),
        Tokens::GreaterThan,
        Tokens::Text("hi".to_string()),
        Tokens::ClosingTag,
        Tokens::Identifier("p".to_string()),
        Tokens::GreaterThan,
        Tokens::EOF,
    ];
    assert_eq!(tokens.len(), expected.len());
    for (got, want) in tokens.iter().zip(expected.iter()) {
        assert_eq!(format!("{:?}", got), format!("{:?}", want));
    }

    let root = build("<p>hi</p>");
    match &root {
        Node::Element { tag_name, attributes, children } => {
            assert_eq!(tag_name, "p");
            assert!(attributes.get("anything").is_none());
            assert_eq!(children.len(), 1);
            match &children[0] {
                Node::Text(t) => assert_eq!(t, "hi"),
                _ => panic!("expected a text child"),
            }
        }
        _ => panic!("expected element"),
    }
}

/// Malformed, unclosed markup still builds: the partial elements nest as
/// far as the input goes.
#[test]
fn malformed_input_builds_partial_tree() {
    let root = build("<div><p>text");
    match &root {
        Node::Element { tag_name, children, .. } => {
            assert_eq!(tag_name, "div");
            assert_eq!(children.len(), 1);
            match &children[0] {
                Node::Element { tag_name, children, .. } => {
                    assert_eq!(tag_name, "p");
                    assert_eq!(children.len(), 1);
                    match &children[0] {
                        Node::Text(t) => assert_eq!(t, "text"),
                        _ => panic!("expected text"),
                    }
                }
                _ => panic!("expected nested p"),
            }
        }
        _ => panic!("expected element"),
    }
}

/// A close marker without a tag name after it is the one fatal case; the
/// check that guards the builder refuses exactly such streams.
#[test]
fn close_marker_without_name_is_refused() {
    let bad = tokenize("</>");
    assert!(!closing_tags_named(&bad));

    let good = tokenize("<p>hi</p>");
    assert!(closing_tags_named(&good));

    let empty: VecDeque<Tokens> = VecDeque::new();
    assert!(closing_tags_named(&empty));
}

/// Scanner recovery: an unterminated quote consumes to end of input, an
/// unknown `<!` construct is discarded through its `>`, and empty input
/// still ends with the end-of-input marker.
#[test]
fn scanner_recovers_from_anomalies() {
    let tokens = tokenize("<p a=\"unterminated");
    let kinds: Vec<String> = tokens.iter().map(|t| format!("{:?}", t)).collect();
    assert_eq!(
        kinds,
        vec![
            format!("{:?}", Tokens::LessThan),
            format!("{:?}", Tokens::Identifier("p".to_string())),
            format!("{:?}", Tokens::Attribute("a".to_string())),
            format!("{:?}", Tokens::Equals),
            format!("{:?}", Tokens::StringLiteral("unterminated".to_string())),
            format!("{:?}", Tokens::EOF),
        ]
    );

    let doctype = tokenize("<!DOCTYPE html><p>x</p>");
    match doctype.front().unwrap() {
        Tokens::LessThan => {}
        other => panic!("doctype should leave no token, got {:?}", other),
    }

    let empty = tokenize("");
    assert_eq!(empty.len(), 1);
    assert!(matches!(empty.front().unwrap(), Tokens::EOF));
}

/// Searches that find nothing say so, and attribute search matches name and
/// value exactly.
#[test]
fn queries_miss_and_match_exactly() {
    let root = build("<div><a href=\"https://example.com\">link</a></div>");
    assert!(find_by_tag_name("nav", &root).is_none());
    assert!(find_by_text("missing", &root).is_none());
    assert!(find_by_attribute("href", "https://example.org", &root).is_none());
    let hit = find_by_attribute("href", "https://example.com", &root).unwrap();
    match hit {
        Node::Element { tag_name, .. } => assert_eq!(tag_name, "a"),
        _ => panic!("expected the anchor element"),
    }
}
