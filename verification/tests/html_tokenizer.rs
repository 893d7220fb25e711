use html_css_parser::HtmlToken;
use html_css_parser::HtmlTokenizer;

fn collect_html_tokens(input: &str) -> Vec<HtmlToken<'_>> {
    let mut tokenizer = HtmlTokenizer::new(input);
    let mut tokens = Vec::new();
    while let Some(token) = tokenizer.next_token() {
        tokens.push(token);
    }
    tokens
}

#[test]
fn test_simple_tag() {
    let mut tokenizer = HtmlTokenizer::new("<div></div>");

    assert_eq!(
        tokenizer.next_token(),
        Some(HtmlToken::StartTag { name: "div", attributes: vec![], self_closing: false })
    );

    assert_eq!(tokenizer.next_token(), Some(HtmlToken::EndTag { name: "div" }));

    assert_eq!(tokenizer.next_token(), None);
}

#[test]
fn test_tag_with_attributes() {
    let mut tokenizer = HtmlTokenizer::new(r#"<div class="container" id="main">"#);

    assert_eq!(
        tokenizer.next_token(),
        Some(HtmlToken::StartTag {
            name: "div",
            attributes: vec![("class", "container"), ("id", "main")],
            self_closing: false,
        })
    );
}

#[test]
fn test_self_closing_tag() {
    let mut tokenizer = HtmlTokenizer::new("<br/>");

    assert_eq!(
        tokenizer.next_token(),
        Some(HtmlToken::StartTag { name: "br", attributes: vec![], self_closing: true })
    );
}

#[test]
fn test_text_content() {
    let mut tokenizer = HtmlTokenizer::new("Hello World");

    assert_eq!(tokenizer.next_token(), Some(HtmlToken::Text("Hello World")));
}

#[test]
fn test_comment() {
    let mut tokenizer = HtmlTokenizer::new("<!-- This is a comment -->");

    assert_eq!(tokenizer.next_token(), Some(HtmlToken::Comment(" This is a comment ")));
}

#[test]
fn test_doctype() {
    let mut tokenizer = HtmlTokenizer::new("<!DOCTYPE html>");

    assert_eq!(tokenizer.next_token(), Some(HtmlToken::Doctype("!DOCTYPE html")));
}

#[test]
fn test_mixed_content() {
    let html = r#"<div class="test">Hello <!-- comment --> <span>World</span></div>"#;
    let tokens = collect_html_tokens(html);

    assert_eq!(tokens.len(), 7);
    assert!(matches!(tokens[0], HtmlToken::StartTag { name: "div", .. }));
    assert!(matches!(tokens[1], HtmlToken::Text("Hello ")));
    assert!(matches!(tokens[2], HtmlToken::Comment(" comment ")));
    assert!(matches!(tokens[3], HtmlToken::StartTag { name: "span", .. }));
    assert!(matches!(tokens[4], HtmlToken::Text("World")));
    assert!(matches!(tokens[5], HtmlToken::EndTag { name: "span" }));
    assert!(matches!(tokens[6], HtmlToken::EndTag { name: "div" }));
}

#[test]
fn test_unquoted_and_bare_attributes() {
    let tokens = collect_html_tokens("<input type=text disabled>");

    assert_eq!(
        tokens[0],
        HtmlToken::StartTag {
            name: "input",
            attributes: vec![("type", "text"), ("disabled", "")],
            self_closing: false,
        }
    );
}

#[test]
fn test_single_quoted_attribute() {
    let tokens = collect_html_tokens("<a href='x.html'>");

    assert_eq!(
        tokens[0],
        HtmlToken::StartTag {
            name: "a",
            attributes: vec![("href", "x.html")],
            self_closing: false,
        }
    );
}

#[test]
fn test_duplicate_attributes_preserved() {
    let tokens = collect_html_tokens(r#"<p class="a" class="b">"#);

    assert_eq!(
        tokens[0],
        HtmlToken::StartTag {
            name: "p",
            attributes: vec![("class", "a"), ("class", "b")],
            self_closing: false,
        }
    );
}

#[test]
fn test_end_tag_attributes_discarded() {
    let tokens = collect_html_tokens(r#"</div class="x">rest"#);

    assert_eq!(tokens.len(), 2);
    assert_eq!(tokens[0], HtmlToken::EndTag { name: "div" });
    assert_eq!(tokens[1], HtmlToken::Text("rest"));
}

#[test]
fn test_unclosed_comment() {
    let tokens = collect_html_tokens("<!-- dangling");

    assert_eq!(tokens.len(), 1);
    assert_eq!(tokens[0], HtmlToken::Comment(" dangling"));
}

#[test]
fn test_invalid_tag_ends_stream() {
    let tokens = collect_html_tokens("before<>after");

    assert_eq!(tokens.len(), 1);
    assert_eq!(tokens[0], HtmlToken::Text("before"));
}

#[test]
fn test_leading_whitespace_skipped() {
    let tokens = collect_html_tokens("   \n  <p>x</p>");

    assert!(matches!(tokens[0], HtmlToken::StartTag { name: "p", .. }));
}
