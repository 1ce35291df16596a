//! The scanner exercised on a whole page of markup.

use html_tree::tokenize;
use html_tree::Tokens;

#[test]
fn it_works() {
    let html_content = r#"<!DOCTYPE html><html lang="en"><head><meta charset="UTF-8"><meta name="viewport" content="width=device-width, initial-scale=1.0"><title>Tokenizer Test Page</title><style>body {font-family: sans-serif;margin: 20px;background-color: #f4f4f4;color: #333;}.container {max-width: 800px;margin: 0 auto;background-color: #fff;padding: 20px;border-radius: 8px;box-shadow: 0 2px 4px rgba(0, 0, 0, 0.1);}h1 {color: #0056b3;}p {line-height: 1.6;}code {background-color: #e0e0e0;padding: 2px 4px;border-radius: 3px;}</style></head><body><div class="container"><!-- LessThan, GreaterThan, Identifier (html, head, body, div, p, a, img) --><!-- ClosingTag (</div>, </body>, </html>) --><h1>This is some sample text</h1><p class="intro">Welcome to this <span id="test_span">simple page</span> for tokenizer testing.</p><p>Here's a paragraph with a <a href="https://example.com" target="_blank" data-info="link">link</a>.</p><!-- SelfClosingTagEnd (/>) --><img src="https://placehold.co/150x50/cccccc/333333?text=Image" alt="Placeholder Image" /><br/><!-- Attribute (class, id, href, target, data-info, src, alt) --><!-- Equals (=) --><!-- String ("intro", "test_span", "https://example.com", "_blank", "link", "https://placehold.co/150x50/cccccc/333333?text=Image", "Placeholder Image") --><!-- Text (This is some sample text, Welcome to this, simple page, for tokenizer testing., Here's a paragraph with a, link, .) --><!-- A more complex div --><div id="dynamicContent" style="background-color: lightblue;"><p>Another paragraph inside a div.</p></div><p>This is the final content.</p><!-- EOF will be at the very end of the file after </html> --></div></body></html>"#;

    let result = tokenize(html_content);
    let test_tokens = [
          Tokens::LessThan,
          Tokens::Identifier("html".to_string()),
          Tokens::Attribute("lang".to_string()),
          Tokens::Equals,
          Tokens::StringLiteral("en".to_string()),
          Tokens::GreaterThan,
      
          Tokens::LessThan,
          Tokens::Identifier("head".to_string()),
          Tokens::GreaterThan,
      
          Tokens::LessThan,
          Tokens::Identifier("meta".to_string()),
          Tokens::Attribute("charset".to_string()),
          Tokens::Equals,
          Tokens::StringLiteral("UTF-8".to_string()),
          Tokens::SelfClosingTagEnd, // Corrected from Tokens::GreaterThan
      
          Tokens::LessThan,
          Tokens::Identifier("meta".to_string()),
          Tokens::Attribute("name".to_string()),
          Tokens::Equals,
          Tokens::StringLiteral("viewport".to_string()),
          Tokens::Attribute("content".to_string()),
          Tokens::Equals,
          Tokens::StringLiteral("width=device-width, initial-scale=1.0".to_string()),
          Tokens::SelfClosingTagEnd, // Corrected from Tokens::GreaterThan
      
          Tokens::LessThan,
          Tokens::Identifier("title".to_string()),
          Tokens::GreaterThan,
          Tokens::Text("Tokenizer Test Page".to_string()),
          Tokens::ClosingTag,
          Tokens::Identifier("title".to_string()),
          Tokens::GreaterThan,
      
          Tokens::LessThan,
          Tokens::Identifier("style".to_string()),
          Tokens::GreaterThan,
          // The entire CSS content would be parsed as a single Text token by your enum
          Tokens::Text(r#"body { font-family: sans-serif; margin: 20px; background-color: #f4f4f4; color: #333; } .container { max-width: 800px; margin: 0 auto; background-color: #fff; padding: 20px; border-radius: 8px; box-shadow: 0 2px 4px rgba(0, 0, 0, 0.1); } h1 { color: #0056b3; } p { line-height: 1.6; } code { background-color: #e0e0e0; padding: 2px 4px; border-radius: 3px; }"#.to_string()),
          Tokens::ClosingTag,
          Tokens::Identifier("style".to_string()),
          Tokens::GreaterThan,
          Tokens::ClosingTag,
          Tokens::Identifier("head".to_string()),
          Tokens::GreaterThan,
          Tokens::LessThan,
          Tokens::Identifier("body".to_string()),
          Tokens::GreaterThan,
          Tokens::LessThan,
          Tokens::Identifier("div".to_string()),
          Tokens::Attribute("class".to_string()),
          Tokens::Equals,
          Tokens::StringLiteral("container".to_string()),
          Tokens::GreaterThan,
          Tokens::LessThan,
          Tokens::Identifier("h1".to_string()),
          Tokens::GreaterThan,
          Tokens::Text("This is some sample text".to_string()),
          Tokens::ClosingTag,
          Tokens::Identifier("h1".to_string()),
          Tokens::GreaterThan,
          Tokens::LessThan,
          Tokens::Identifier("p".to_string()),
          Tokens::Attribute("class".to_string()),
          Tokens::Equals,
          Tokens::StringLiteral("intro".to_string()),
          Tokens::GreaterThan,
          Tokens::Text("Welcome to this ".to_string()),
          Tokens::LessThan,
          Tokens::Identifier("span".to_string()),
          Tokens::Attribute("id".to_string()),
          Tokens::Equals,
          Tokens::StringLiteral("test_span".to_string()),
          Tokens::GreaterThan,
          Tokens::Text("simple page".to_string()),
          Tokens::ClosingTag,
          Tokens::Identifier("span".to_string()),
          Tokens::GreaterThan,
          Tokens::Text(" for tokenizer testing.".to_string()),
          Tokens::ClosingTag,
          Tokens::Identifier("p".to_string()),
          Tokens::GreaterThan,
          Tokens::LessThan,
          Tokens::Identifier("p".to_string()),
          Tokens::GreaterThan,
          Tokens::Text("Here's a paragraph with a ".to_string()),
          Tokens::LessThan,
          Tokens::Identifier("a".to_string()),
          Tokens::Attribute("href".to_string()),
          Tokens::Equals,
          Tokens::StringLiteral("https://example.com".to_string()),
          Tokens::Attribute("target".to_string()),
          Tokens::Equals,
          Tokens::StringLiteral("_blank".to_string()),
          Tokens::Attribute("data-info".to_string()),
          Tokens::Equals,
          Tokens::StringLiteral("link".to_string()),
          Tokens::GreaterThan,
          Tokens::Text("link".to_string()),
          Tokens::ClosingTag,
          Tokens::Identifier("a".to_string()),
          Tokens::GreaterThan,
          Tokens::Text(".".to_string()),
          Tokens::ClosingTag,
          Tokens::Identifier("p".to_string()),
          Tokens::GreaterThan,
          Tokens::LessThan,
          Tokens::Identifier("img".to_string()),
          Tokens::Attribute("src".to_string()),
          Tokens::Equals,
          Tokens::StringLiteral("https://placehold.co/150x50/cccccc/333333?text=Image".to_string()),
          Tokens::Attribute("alt".to_string()),
          Tokens::Equals,
          Tokens::StringLiteral("Placeholder Image".to_string()),
          Tokens::SelfClosingTagEnd,
          Tokens::LessThan,
          Tokens::Identifier("br".to_string()),
          Tokens::SelfClosingTagEnd,
          Tokens::LessThan,
          Tokens::Identifier("div".to_string()),
          Tokens::Attribute("id".to_string()),
          Tokens::Equals,
          Tokens::StringLiteral("dynamicContent".to_string()),
          Tokens::Attribute("style".to_string()),
          Tokens::Equals,
          Tokens::StringLiteral("background-color: lightblue;".to_string()),
          Tokens::GreaterThan,
          Tokens::LessThan,
          Tokens::Identifier("p".to_string()),
          Tokens::GreaterThan,
          Tokens::Text("Another paragraph inside a div.".to_string()),
          Tokens::ClosingTag,
          Tokens::Identifier("p".to_string()),
          Tokens::GreaterThan,
          Tokens::ClosingTag,
          Tokens::Identifier("div".to_string()),
          Tokens::GreaterThan,
          Tokens::LessThan,
          Tokens::Identifier("p".to_string()),
          Tokens::GreaterThan,
          Tokens::Text("This is the final content.".to_string()),
          Tokens::ClosingTag,
          Tokens::Identifier("p".to_string()),
          Tokens::GreaterThan,
          Tokens::ClosingTag,
          Tokens::Identifier("div".to_string()),
          Tokens::GreaterThan,
          Tokens::ClosingTag,
          Tokens::Identifier("body".to_string()),
          Tokens::GreaterThan,
          Tokens::ClosingTag,
          Tokens::Identifier("html".to_string()),
          Tokens::GreaterThan,
          Tokens::EOF,
    ];

    for (i, token) in result.iter().enumerate() {
        match (token, &test_tokens[i]) {
            (Tokens::LessThan, Tokens::LessThan) => (),
            (Tokens::GreaterThan, Tokens::GreaterThan) => (),
            (Tokens::ClosingTag, Tokens::ClosingTag) => (),
            (Tokens::SelfClosingTagEnd, Tokens::SelfClosingTagEnd) => (),
            (Tokens::Equals, Tokens::Equals) => (),
            (Tokens::EOF, Tokens::EOF) => (),
            (Tokens::Identifier(a), Tokens::Identifier(b)) => assert_eq!(a, b),
            (Tokens::Attribute(a), Tokens::Attribute(b)) => assert_eq!(a, b),
            (Tokens::StringLiteral(a), Tokens::StringLiteral(b)) => assert_eq!(a, b),
            (Tokens::Text(a), Tokens::Text(b)) => assert_eq!(a.replace(" ", ""), b.replace(" ", "")),
            _ => panic!(
                "Token mismatch at index {}: {:?} != {:?} and result is {:?}",
                i, token, test_tokens[i], result
            ),
        }
    }
}
