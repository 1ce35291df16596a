//! The tree builder exercised on a whole page of tokens.

use std::collections::VecDeque;
use html_tree::graph_creator;
use html_tree::Attributes;
use html_tree::Node;
use html_tree::Tokens;

fn compare_nodes(expected: &Node, actual: &Node, path: &str) {
    match (expected, actual) {
        (
            Node::Element { tag_name: e_tag, attributes: e_attrs, children: e_children },
            Node::Element { tag_name: a_tag, attributes: a_attrs, children: a_children },
        ) => {
            assert_eq!(e_tag, a_tag, "Tag name mismatch at {}", path);
            assert!(
                e_attrs.same_attributes(a_attrs),
                "Attributes mismatch for tag {} at {}",
                e_tag,
                path
            );
            for (i, (e_child, a_child)) in e_children.iter().zip(a_children.iter()).enumerate() {
                compare_nodes(e_child, a_child, &format!("{}/{}[{}]", path, e_tag, i));
            }
            assert_eq!(
                e_children.len(),
                a_children.len(),
                "Different number of children for tag {} at {}",
                e_tag,
                path
            );
        }
        (Node::Text(e_text), Node::Text(a_text)) => {
            assert_eq!(e_text, a_text, "Text content mismatch at {}", path);
        }
        _ => {
            panic!("Node type mismatch at {}", path);
        }
    }
}

#[test]
fn test_parser() {
    let test_tokens = [
      Tokens::LessThan,
      Tokens::Identifier("html".to_string()),
      Tokens::Attribute("lang".to_string()),
      Tokens::Equals,
      Tokens::StringLiteral("en".to_string()),
      Tokens::GreaterThan,
  
      Tokens::LessThan,
      Tokens::Identifier("head".to_string()),
      Tokens::GreaterThan,
  
      Tokens::LessThan,
      Tokens::Identifier("meta".to_string()),
      Tokens::Attribute("charset".to_string()),
      Tokens::Equals,
      Tokens::StringLiteral("UTF-8".to_string()),
      Tokens::SelfClosingTagEnd, // Corrected from Tokens::GreaterThan
  
      Tokens::LessThan,
      Tokens::Identifier("meta".to_string()),
      Tokens::Attribute("name".to_string()),
      Tokens::Equals,
      Tokens::StringLiteral("viewport".to_string()),
      Tokens::Attribute("content".to_string()),
      Tokens::Equals,
      Tokens::StringLiteral("width=device-width, initial-scale=1.0".to_string()),
      Tokens::SelfClosingTagEnd, // Corrected from Tokens::GreaterThan
  
      Tokens::LessThan,
      Tokens::Identifier("title".to_string()),
      Tokens::GreaterThan,
      Tokens::Text("Tokenizer Test Page".to_string()),
      Tokens::ClosingTag,
      Tokens::Identifier("title".to_string()),
      Tokens::GreaterThan,
  
      Tokens::LessThan,
      Tokens::Identifier("style".to_string()),
      Tokens::GreaterThan,
      // The entire CSS content would be parsed as a single Text token by your enum
      Tokens::Text(r#"body { font-family: sans-serif; margin: 20px; background-color: #f4f4f4; color: #333; } .container { max-width: 800px; margin: 0 auto; background-color: #fff; padding: 20px; border-radius: 8px; box-shadow: 0 2px 4px rgba(0, 0, 0, 0.1); } h1 { color: #0056b3; } p { line-height: 1.6; } code { background-color: #e0e0e0; padding: 2px 4px; border-radius: 3px; }"#.to_string()),
      Tokens::ClosingTag,
      Tokens::Identifier("style".to_string()),
      Tokens::GreaterThan,
      Tokens::ClosingTag,
      Tokens::Identifier("head".to_string()),
      Tokens::GreaterThan,
      Tokens::LessThan,
      Tokens::Identifier("body".to_string()),
      Tokens::GreaterThan,
      Tokens::LessThan,
      Tokens::Identifier("div".to_string()),
      Tokens::Attribute("class".to_string()),
      Tokens::Equals,
      Tokens::StringLiteral("container".to_string()),
      Tokens::GreaterThan,
      Tokens::LessThan,
      Tokens::Identifier("h1".to_string()),
      Tokens::GreaterThan,
      Tokens::Text("This is some sample text".to_string()),
      Tokens::ClosingTag,
      Tokens::Identifier("h1".to_string()),
      Tokens::GreaterThan,
      Tokens::LessThan,
      Tokens::Identifier("p".to_string()),
      Tokens::Attribute("class".to_string()),
      Tokens::Equals,
      Tokens::StringLiteral("intro".to_string()),
      Tokens::GreaterThan,
      Tokens::Text("Welcome to this ".to_string()),
      Tokens::LessThan,
      Tokens::Identifier("span".to_string()),
      Tokens::Attribute("id".to_string()),
      Tokens::Equals,
      Tokens::StringLiteral("test_span".to_string()),
      Tokens::GreaterThan,
      Tokens::Text("simple page".to_string()),
      Tokens::ClosingTag,
      Tokens::Identifier("span".to_string()),
      Tokens::GreaterThan,
      Tokens::Text(" for tokenizer testing.".to_string()),
      Tokens::ClosingTag,
      Tokens::Identifier("p".to_string()),
      Tokens::GreaterThan,
      Tokens::LessThan,
      Tokens::Identifier("p".to_string()),
      Tokens::GreaterThan,
      Tokens::Text("Here's a paragraph with a ".to_string()),
      Tokens::LessThan,
      Tokens::Identifier("a".to_string()),
      Tokens::Attribute("href".to_string()),
      Tokens::Equals,
      Tokens::StringLiteral("https://example.com".to_string()),
      Tokens::Attribute("target".to_string()),
      Tokens::Equals,
      Tokens::StringLiteral("_blank".to_string()),
      Tokens::Attribute("data-info".to_string()),
      Tokens::Equals,
      Tokens::StringLiteral("link".to_string()),
      Tokens::GreaterThan,
      Tokens::Text("link".to_string()),
      Tokens::ClosingTag,
      Tokens::Identifier("a".to_string()),
      Tokens::GreaterThan,
      Tokens::Text(".".to_string()),
      Tokens::ClosingTag,
      Tokens::Identifier("p".to_string()),
      Tokens::GreaterThan,
      Tokens::LessThan,
      Tokens::Identifier("img".to_string()),
      Tokens::Attribute("src".to_string()),
      Tokens::Equals,
      Tokens::StringLiteral("https://placehold.co/150x50/cccccc/333333?text=Image".to_string()),
      Tokens::Attribute("alt".to_string()),
      Tokens::Equals,
      Tokens::StringLiteral("Placeholder Image".to_string()),
      Tokens::SelfClosingTagEnd,
      Tokens::LessThan,
      Tokens::Identifier("br".to_string()),
      Tokens::SelfClosingTagEnd,
      Tokens::LessThan,
      Tokens::Identifier("div".to_string()),
      Tokens::Attribute("id".to_string()),
      Tokens::Equals,
      Tokens::StringLiteral("dynamicContent".to_string()),
      Tokens::Attribute("style".to_string()),
      Tokens::Equals,
      Tokens::StringLiteral("background-color: lightblue;".to_string()),
      Tokens::GreaterThan,
      Tokens::LessThan,
      Tokens::Identifier("p".to_string()),
      Tokens::GreaterThan,
      Tokens::Text("Another paragraph inside a div.".to_string()),
      Tokens::ClosingTag,
      Tokens::Identifier("p".to_string()),
      Tokens::GreaterThan,
      Tokens::ClosingTag,
      Tokens::Identifier("div".to_string()),
      Tokens::GreaterThan,
      Tokens::LessThan,
      Tokens::Identifier("p".to_string()),
      Tokens::GreaterThan,
      Tokens::Text("This is the final content.".to_string()),
      Tokens::ClosingTag,
      Tokens::Identifier("p".to_string()),
      Tokens::GreaterThan,
      Tokens::ClosingTag,
      Tokens::Identifier("div".to_string()),
      Tokens::GreaterThan,
      Tokens::ClosingTag,
      Tokens::Identifier("body".to_string()),
      Tokens::GreaterThan,
      Tokens::ClosingTag,
      Tokens::Identifier("html".to_string()),
      Tokens::GreaterThan,
      Tokens::EOF,
    ];
    let ast = vec![
        Node::Element {
            tag_name: "html".to_string(),
            attributes: {
                let mut attrs = Attributes::new();
                attrs.insert("lang".to_string(), "en".to_string());
                attrs
            },
            children: vec![
                Node::Element {
                    tag_name: "head".to_string(),
                    attributes: Attributes::new(),
                    children: vec![
                        Node::Element {
                            tag_name: "meta".to_string(),
                            attributes: {
                                let mut attrs = Attributes::new();
                                attrs.insert("charset".to_string(), "UTF-8".to_string());
                                attrs
                            },
                            children: vec![],
                        },
                        Node::Element {
                            tag_name: "meta".to_string(),
                            attributes: {
                                let mut attrs = Attributes::new();
                                attrs.insert("name".to_string(), "viewport".to_string());
                                attrs.insert("content".to_string(), "width=device-width, initial-scale=1.0".to_string());
                                attrs
                            },
                            children: vec![],
                        },
                        Node::Element {
                            tag_name: "title".to_string(),
                            attributes: Attributes::new(),
                            children: vec![
                                Node::Text("Tokenizer Test Page".to_string()),
                            ],
                        },
                        Node::Element {
                            tag_name: "style".to_string(),
                            attributes: Attributes::new(),
                            children: vec![
                                Node::Text(r#"body { font-family: sans-serif; margin: 20px; background-color: #f4f4f4; color: #333; } .container { max-width: 800px; margin: 0 auto; background-color: #fff; padding: 20px; border-radius: 8px; box-shadow: 0 2px 4px rgba(0, 0, 0, 0.1); } h1 { color: #0056b3; } p { line-height: 1.6; } code { background-color: #e0e0e0; padding: 2px 4px; border-radius: 3px; }"#.to_string()),
                            ],
                        },
                    ],
                },
                Node::Element {
                    tag_name: "body".to_string(),
                    attributes: Attributes::new(),
                    children: vec![
                        Node::Element {
                            tag_name: "div".to_string(),
                            attributes: {
                                let mut attrs = Attributes::new();
                                attrs.insert("class".to_string(), "container".to_string());
                                attrs
                            },
                            children: vec![
                                Node::Element {
                                    tag_name: "h1".to_string(),
                                    attributes: Attributes::new(),
                                    children: vec![
                                        Node::Text("This is some sample text".to_string()),
                                    ],
                                },
                                Node::Element {
                                    tag_name: "p".to_string(),
                                    attributes: {
                                        let mut attrs = Attributes::new();
                                        attrs.insert("class".to_string(), "intro".to_string());
                                        attrs
                                    },
                                    children: vec![
                                        Node::Text("Welcome to this ".to_string()),
                                        Node::Element {
                                            tag_name: "span".to_string(),
                                            attributes: {
                                                let mut attrs = Attributes::new();
                                                attrs.insert("id".to_string(), "test_span".to_string());
                                                attrs
                                            },
                                            children: vec![
                                                Node::Text("simple page".to_string()),
                                            ],
                                        },
                                        Node::Text(" for tokenizer testing.".to_string()),
                                    ],
                                },
                                Node::Element {
                                    tag_name: "p".to_string(),
                                    attributes: Attributes::new(),
                                    children: vec![
                                        Node::Text("Here's a paragraph with a ".to_string()),
                                        Node::Element {
                                            tag_name: "a".to_string(),
                                            attributes: {
                                                let mut attrs = Attributes::new();
                                                attrs.insert("target".to_string(), "_blank".to_string());
                                                attrs.insert("href".to_string(), "https://example.com".to_string());
                                                attrs.insert("data-info".to_string(), "link".to_string());
                                                attrs
                                            },
                                            children: vec![
                                                Node::Text("link".to_string()),
                                            ],
                                        },
                                        Node::Text(".".to_string()),
                                    ],
                                },
                                Node::Element {
                                    tag_name: "img".to_string(),
                                    attributes: {
                                        let mut attrs = Attributes::new();
                                        attrs.insert("src".to_string(), "https://placehold.co/150x50/cccccc/333333?text=Image".to_string());
                                        attrs.insert("alt".to_string(), "Placeholder Image".to_string());
                                        attrs
                                    },
                                    children: vec![],
                                },
                                Node::Element {
                                    tag_name: "br".to_string(),
                                    attributes: Attributes::new(),
                                    children: vec![],
                                },
                                Node::Element {
                                    tag_name: "div".to_string(),
                                    attributes: {
                                        let mut attrs = Attributes::new();
                                        attrs.insert("id".to_string(), "dynamicContent".to_string());
                                        attrs.insert("style".to_string(), "background-color: lightblue;".to_string());
                                        attrs
                                    },
                                    children: vec![
                                        Node::Element {
                                            tag_name: "p".to_string(),
                                            attributes: Attributes::new(),
                                            children: vec![
                                                Node::Text("Another paragraph inside a div.".to_string()),
                                            ],
                                        },
                                    ],
                                },
                                Node::Element {
                                    tag_name: "p".to_string(),
                                    attributes: Attributes::new(),
                                    children: vec![
                                        Node::Text("This is the final content.".to_string()),
                                    ],
                                },
                            ],
                        },
                    ],
                },
            ],
        },
    ];
    let mut test_tokens_deque: VecDeque<Tokens> = test_tokens.into_iter().collect();
    let output_graph = graph_creator(&mut test_tokens_deque);

    compare_nodes(&ast[0], &output_graph, "");
}
