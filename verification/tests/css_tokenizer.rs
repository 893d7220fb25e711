use html_css_parser::CssToken;
use html_css_parser::CssTokenizer;

fn collect_css_tokens(input: &str) -> Vec<CssToken<'_>> {
    let mut tokenizer = CssTokenizer::new(input);
    let mut tokens = Vec::new();
    while let Some(token) = tokenizer.next_token() {
        tokens.push(token);
    }
    tokens
}

#[test]
fn test_simple_tokens() {
    let tokens = collect_css_tokens("{ } ( ) [ ] : ; ,");

    assert!(matches!(tokens[0], CssToken::LeftBrace));
    assert!(matches!(tokens[1], CssToken::Whitespace));
    assert!(matches!(tokens[2], CssToken::RightBrace));
    assert!(matches!(tokens[3], CssToken::Whitespace));
    assert!(matches!(tokens[4], CssToken::LeftParen));
    assert!(matches!(tokens[5], CssToken::Whitespace));
    assert!(matches!(tokens[6], CssToken::RightParen));
    assert!(matches!(tokens[7], CssToken::Whitespace));
    assert!(matches!(tokens[8], CssToken::LeftBracket));
}

#[test]
fn test_identifiers() {
    let tokens = collect_css_tokens("div class-name _private");

    assert!(matches!(tokens[0], CssToken::Ident("div")));
    assert!(matches!(tokens[1], CssToken::Whitespace));
    assert!(matches!(tokens[2], CssToken::Ident("class-name")));
    assert!(matches!(tokens[3], CssToken::Whitespace));
    assert!(matches!(tokens[4], CssToken::Ident("_private")));
}

#[test]
fn test_numbers() {
    let tokens = collect_css_tokens("42 3.14 -10 50% 16px");

    assert!(matches!(tokens[0], CssToken::Number("42")));
    assert!(matches!(tokens[1], CssToken::Whitespace));
    assert!(matches!(tokens[2], CssToken::Number("3.14")));
    assert!(matches!(tokens[3], CssToken::Whitespace));
    assert!(matches!(tokens[4], CssToken::Number("-10")));
    assert!(matches!(tokens[5], CssToken::Whitespace));
    assert!(matches!(tokens[6], CssToken::Percentage("50")));
    assert!(matches!(tokens[7], CssToken::Whitespace));
    assert!(matches!(tokens[8], CssToken::Dimension { value: "16", unit: "px" }));
}

#[test]
fn test_strings() {
    let tokens = collect_css_tokens(r#""hello" 'world'"#);

    assert!(matches!(tokens[0], CssToken::QuotedString("hello")));
    assert!(matches!(tokens[1], CssToken::Whitespace));
    assert!(matches!(tokens[2], CssToken::QuotedString("world")));
}

#[test]
fn test_hash() {
    let tokens = collect_css_tokens("#main #ff0000");

    assert!(matches!(tokens[0], CssToken::Hash("main")));
    assert!(matches!(tokens[1], CssToken::Whitespace));
    assert!(matches!(tokens[2], CssToken::Hash("ff0000")));
}

#[test]
fn test_at_keyword() {
    let tokens = collect_css_tokens("@media @import");

    assert!(matches!(tokens[0], CssToken::AtKeyword("media")));
    assert!(matches!(tokens[1], CssToken::Whitespace));
    assert!(matches!(tokens[2], CssToken::AtKeyword("import")));
}

#[test]
fn test_url() {
    let tokens = collect_css_tokens(r#"url(image.png) url("path/to/file.jpg")"#);

    assert!(matches!(tokens[0], CssToken::Url("image.png")));
    assert!(matches!(tokens[1], CssToken::Whitespace));
    assert!(matches!(tokens[2], CssToken::Url("path/to/file.jpg")));
}

#[test]
fn test_comments() {
    let tokens = collect_css_tokens("/* comment */ div");

    assert!(matches!(tokens[0], CssToken::Comment(" comment ")));
    assert!(matches!(tokens[1], CssToken::Whitespace));
    assert!(matches!(tokens[2], CssToken::Ident("div")));
}

#[test]
fn test_declaration_token_sequence() {
    let tokens = collect_css_tokens("div { color: red; }");

    assert_eq!(tokens.len(), 11);
    assert!(matches!(tokens[0], CssToken::Ident("div")));
    assert!(matches!(tokens[1], CssToken::Whitespace));
    assert!(matches!(tokens[2], CssToken::LeftBrace));
    assert!(matches!(tokens[3], CssToken::Whitespace));
    assert!(matches!(tokens[4], CssToken::Ident("color")));
    assert!(matches!(tokens[5], CssToken::Colon));
    assert!(matches!(tokens[6], CssToken::Whitespace));
    assert!(matches!(tokens[7], CssToken::Ident("red")));
    assert!(matches!(tokens[8], CssToken::Semicolon));
    assert!(matches!(tokens[9], CssToken::Whitespace));
    assert!(matches!(tokens[10], CssToken::RightBrace));
}

#[test]
fn test_empty_input() {
    let tokens = collect_css_tokens("");
    assert!(tokens.is_empty());
}

#[test]
fn test_unterminated_comment() {
    let tokens = collect_css_tokens("/* never closed");
    assert_eq!(tokens.len(), 1);
    assert!(matches!(tokens[0], CssToken::Comment(" never closed")));
}

#[test]
fn test_unterminated_string() {
    let tokens = collect_css_tokens("\"half open");
    assert_eq!(tokens.len(), 1);
    assert!(matches!(tokens[0], CssToken::QuotedString("half open")));
}

#[test]
fn test_string_escapes_kept_verbatim() {
    let tokens = collect_css_tokens(r#""a\"b""#);
    assert_eq!(tokens.len(), 1);
    assert!(matches!(tokens[0], CssToken::QuotedString(r#"a\"b"#)));
}

#[test]
fn test_bare_hash_and_at_are_delimiters() {
    let tokens = collect_css_tokens("# @");
    assert!(matches!(tokens[0], CssToken::Delim('#')));
    assert!(matches!(tokens[1], CssToken::Whitespace));
    assert!(matches!(tokens[2], CssToken::Delim('@')));
}

#[test]
fn test_url_unquoted_trimmed() {
    let tokens = collect_css_tokens("url(  spaced.png  )");
    assert_eq!(tokens.len(), 1);
    assert!(matches!(tokens[0], CssToken::Url("spaced.png")));
}

#[test]
fn test_url_unterminated() {
    let tokens = collect_css_tokens("url(open.png");
    assert_eq!(tokens.len(), 1);
    assert!(matches!(tokens[0], CssToken::Url("open.png")));
}

#[test]
fn test_leading_dot_number() {
    let tokens = collect_css_tokens(".5 .x");
    assert!(matches!(tokens[0], CssToken::Number(".5")));
    assert!(matches!(tokens[1], CssToken::Whitespace));
    assert!(matches!(tokens[2], CssToken::Delim('.')));
    assert!(matches!(tokens[3], CssToken::Ident("x")));
}

#[test]
fn test_url_ident_without_paren() {
    let tokens = collect_css_tokens("url x");
    assert!(matches!(tokens[0], CssToken::Ident("url")));
    assert!(matches!(tokens[1], CssToken::Whitespace));
    assert!(matches!(tokens[2], CssToken::Ident("x")));
}
