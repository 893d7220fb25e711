use html_css_parser::CssParser;
use html_css_parser::Selector;

#[test]
fn test_simple_rule() {
    let mut parser = CssParser::new("div { color: red; }");
    let rules = parser.parse();

    assert_eq!(rules.len(), 1);

    let rule = &rules[0];
    assert_eq!(rule.selectors.len(), 1);
    assert!(matches!(rule.selectors[0], Selector::Type(ref name) if name == "div"));
    assert_eq!(rule.declarations.get("color"), Some(&"red".to_string()));
}

#[test]
fn test_multiple_selectors() {
    let mut parser = CssParser::new("div, p, span { margin: 0; }");
    let rules = parser.parse();

    assert_eq!(rules.len(), 1);

    let rule = &rules[0];
    assert_eq!(rule.selectors.len(), 3);
    assert!(matches!(rule.selectors[0], Selector::Type(ref name) if name == "div"));
    assert!(matches!(rule.selectors[1], Selector::Type(ref name) if name == "p"));
    assert!(matches!(rule.selectors[2], Selector::Type(ref name) if name == "span"));
}

#[test]
fn test_class_selector() {
    let mut parser = CssParser::new(".container { width: 100%; }");
    let rules = parser.parse();

    assert_eq!(rules.len(), 1);

    let rule = &rules[0];
    assert_eq!(rule.selectors.len(), 1);
    assert!(matches!(rule.selectors[0], Selector::Class(ref name) if name == "container"));
    assert_eq!(rule.declarations.get("width"), Some(&"100%".to_string()));
}

#[test]
fn test_id_selector() {
    let mut parser = CssParser::new("#main { display: block; }");
    let rules = parser.parse();

    assert_eq!(rules.len(), 1);

    let rule = &rules[0];
    assert_eq!(rule.selectors.len(), 1);
    assert!(matches!(rule.selectors[0], Selector::Id(ref name) if name == "main"));
    assert_eq!(rule.declarations.get("display"), Some(&"block".to_string()));
}

#[test]
fn test_universal_selector() {
    let mut parser = CssParser::new("* { box-sizing: border-box; }");
    let rules = parser.parse();

    assert_eq!(rules.len(), 1);

    let rule = &rules[0];
    assert_eq!(rule.selectors.len(), 1);
    assert!(matches!(rule.selectors[0], Selector::Universal));
    assert_eq!(rule.declarations.get("box-sizing"), Some(&"border-box".to_string()));
}

#[test]
fn test_descendant_selector() {
    let mut parser = CssParser::new("div p { font-size: 14px; }");
    let rules = parser.parse();

    assert_eq!(rules.len(), 1);

    let rule = &rules[0];
    assert_eq!(rule.selectors.len(), 1);

    if let Selector::Descendant(left, right) = &rule.selectors[0] {
        assert!(matches!(**left, Selector::Type(ref name) if name == "div"));
        assert!(matches!(**right, Selector::Type(ref name) if name == "p"));
    } else {
        panic!("Expected descendant selector");
    }
}

#[test]
fn test_child_selector() {
    let mut parser = CssParser::new("div > p { margin: 10px; }");
    let rules = parser.parse();

    assert_eq!(rules.len(), 1);

    let rule = &rules[0];
    assert_eq!(rule.selectors.len(), 1);

    if let Selector::Child(left, right) = &rule.selectors[0] {
        assert!(matches!(**left, Selector::Type(ref name) if name == "div"));
        assert!(matches!(**right, Selector::Type(ref name) if name == "p"));
    } else {
        panic!("Expected child selector");
    }
}

#[test]
fn test_multiple_declarations() {
    let mut parser = CssParser::new("div { color: red; background: blue; font-size: 16px; }");
    let rules = parser.parse();

    assert_eq!(rules.len(), 1);

    let rule = &rules[0];
    assert_eq!(rule.declarations.len(), 3);
    assert_eq!(rule.declarations.get("color"), Some(&"red".to_string()));
    assert_eq!(rule.declarations.get("background"), Some(&"blue".to_string()));
    assert_eq!(rule.declarations.get("font-size"), Some(&"16px".to_string()));
}

#[test]
fn test_multiple_rules() {
    let css = r#"
        div { color: red; }
        .container { width: 100%; }
        #main { display: block; }
    "#;

    let mut parser = CssParser::new(css);
    let rules = parser.parse();

    assert_eq!(rules.len(), 3);

    assert!(matches!(rules[0].selectors[0], Selector::Type(ref name) if name == "div"));
    assert!(matches!(rules[1].selectors[0], Selector::Class(ref name) if name == "container"));
    assert!(matches!(rules[2].selectors[0], Selector::Id(ref name) if name == "main"));
}

#[test]
fn test_adjacent_and_sibling_selectors() {
    let mut parser = CssParser::new("h1 + p { margin: 0; } h1 ~ p { color: gray; }");
    let rules = parser.parse();

    assert_eq!(rules.len(), 2);
    assert!(matches!(rules[0].selectors[0], Selector::Adjacent(_, _)));
    assert!(matches!(rules[1].selectors[0], Selector::GeneralSibling(_, _)));
}

#[test]
fn test_left_associative_combinators() {
    let mut parser = CssParser::new("div p > span { a: b; }");
    let rules = parser.parse();

    assert_eq!(rules.len(), 1);
    if let Selector::Child(left, right) = &rules[0].selectors[0] {
        assert!(matches!(**right, Selector::Type(ref name) if name == "span"));
        if let Selector::Descendant(ll, lr) = &**left {
            assert!(matches!(**ll, Selector::Type(ref name) if name == "div"));
            assert!(matches!(**lr, Selector::Type(ref name) if name == "p"));
        } else {
            panic!("Expected descendant selector on the left");
        }
    } else {
        panic!("Expected child selector at the top");
    }
}

#[test]
fn test_duplicate_property_last_wins() {
    let mut parser = CssParser::new("a { color: red; color: blue; }");
    let rules = parser.parse();

    assert_eq!(rules.len(), 1);
    assert_eq!(rules[0].declarations.len(), 1);
    assert_eq!(rules[0].declarations.get("color"), Some(&"blue".to_string()));
}

#[test]
fn test_value_whitespace_collapsed() {
    let mut parser = CssParser::new("a { margin: 0   auto ; }");
    let rules = parser.parse();

    assert_eq!(rules.len(), 1);
    assert_eq!(rules[0].declarations.get("margin"), Some(&"0 auto".to_string()));
}

#[test]
fn test_value_with_delimiter_and_url() {
    let mut parser = CssParser::new("a { grid-row: 1 / 2; background: url(bg.png); }");
    let rules = parser.parse();

    assert_eq!(rules.len(), 1);
    assert_eq!(rules[0].declarations.get("grid-row"), Some(&"1 / 2".to_string()));
    assert_eq!(rules[0].declarations.get("background"), Some(&"url(bg.png)".to_string()));
}

#[test]
fn test_malformed_segment_skipped() {
    let mut parser = CssParser::new("; } div { color: red; }");
    let rules = parser.parse();

    assert_eq!(rules.len(), 1);
    assert!(matches!(rules[0].selectors[0], Selector::Type(ref name) if name == "div"));
}

#[test]
fn test_missing_closing_brace_tolerated() {
    let mut parser = CssParser::new("div { color: red; ");
    let rules = parser.parse();

    assert_eq!(rules.len(), 1);
    assert_eq!(rules[0].declarations.get("color"), Some(&"red".to_string()));
}

#[test]
fn test_declaration_without_colon_dropped() {
    let mut parser = CssParser::new("div { color red; width: 10px; }");
    let rules = parser.parse();

    assert_eq!(rules.len(), 1);
    assert_eq!(rules[0].declarations.get("color"), None);
    assert_eq!(rules[0].declarations.get("width"), Some(&"10px".to_string()));
}

#[test]
fn test_empty_stylesheet() {
    let mut parser = CssParser::new("");
    let rules = parser.parse();
    assert!(rules.is_empty());
}

#[test]
fn test_stray_tokens_inside_block() {
    let mut parser = CssParser::new("div { : red; width: 1px; }");
    let rules = parser.parse();

    assert_eq!(rules.len(), 1);
    assert_eq!(rules[0].declarations.len(), 1);
    assert_eq!(rules[0].declarations.get("width"), Some(&"1px".to_string()));
}

#[test]
fn test_at_rule_consumed_best_effort() {
    // The at-keyword is opaque: no rule is recognized at it, parsing
    // resynchronizes and still terminates on the block that follows.
    let mut parser = CssParser::new("@media screen { a { b: c; } }");
    let rules = parser.parse();

    assert_eq!(rules.len(), 1);
    assert!(matches!(rules[0].selectors[0], Selector::Type(ref name) if name == "screen"));
    assert_eq!(rules[0].declarations.get("b"), Some(&"c".to_string()));
}

#[test]
fn test_parser_is_single_pass() {
    let mut parser = CssParser::new("div { color: red; }");
    let first = parser.parse();
    let second = parser.parse();

    assert_eq!(first.len(), 1);
    assert!(second.is_empty());
}

#[test]
fn test_garbage_input_terminates() {
    let mut parser = CssParser::new("### $$$ ))) {{{ }}} ;;; ,,,");
    let rules = parser.parse();
    assert!(rules.is_empty());
}
