use html_css_parser::HtmlParser;
use html_css_parser::Node;

#[test]
fn test_nested_elements() {
    let mut parser = HtmlParser::new(r#"<div class="c"><p>Hi</p></div>"#);
    let nodes = parser.parse();

    assert_eq!(nodes.len(), 1);
    let div = match &nodes[0] {
        Node::Element(e) => e,
        _ => panic!("Expected an element"),
    };
    assert_eq!(div.tag_name, "div");
    assert_eq!(div.attributes.get("class"), Some(&"c".to_string()));
    assert_eq!(div.children.len(), 1);

    let p = match &div.children[0] {
        Node::Element(e) => e,
        _ => panic!("Expected an element child"),
    };
    assert_eq!(p.tag_name, "p");
    assert_eq!(p.attributes.len(), 0);
    assert_eq!(p.children.len(), 1);
    assert!(matches!(&p.children[0], Node::Text(t) if t == "Hi"));
}

#[test]
fn test_mismatched_end_tag_becomes_text() {
    let mut parser = HtmlParser::new("<div><span>x</div>");
    let nodes = parser.parse();

    assert_eq!(nodes.len(), 1);
    let div = match &nodes[0] {
        Node::Element(e) => e,
        _ => panic!("Expected an element"),
    };
    assert_eq!(div.tag_name, "div");
    assert_eq!(div.children.len(), 1);

    let span = match &div.children[0] {
        Node::Element(e) => e,
        _ => panic!("Expected the span element"),
    };
    assert_eq!(span.tag_name, "span");
    assert_eq!(span.children.len(), 2);
    assert!(matches!(&span.children[0], Node::Text(t) if t == "x"));
    assert!(matches!(&span.children[1], Node::Text(t) if t == "</div>"));
}

#[test]
fn test_void_element_takes_no_children() {
    let mut parser = HtmlParser::new(r#"<img src="a.png">more text"#);
    let nodes = parser.parse();

    assert_eq!(nodes.len(), 2);
    let img = match &nodes[0] {
        Node::Element(e) => e,
        _ => panic!("Expected the img element"),
    };
    assert_eq!(img.tag_name, "img");
    assert_eq!(img.attributes.get("src"), Some(&"a.png".to_string()));
    assert!(img.children.is_empty());
    assert!(matches!(&nodes[1], Node::Text(t) if t == "more text"));
}

#[test]
fn test_void_element_case_insensitive() {
    let mut parser = HtmlParser::new("<BR>after");
    let nodes = parser.parse();

    assert_eq!(nodes.len(), 2);
    let br = match &nodes[0] {
        Node::Element(e) => e,
        _ => panic!("Expected the br element"),
    };
    assert_eq!(br.tag_name, "BR");
    assert!(br.children.is_empty());
    assert!(matches!(&nodes[1], Node::Text(t) if t == "after"));
}

#[test]
fn test_doctype_skipped() {
    let mut parser = HtmlParser::new("<!DOCTYPE html><p>x</p>");
    let nodes = parser.parse();

    assert_eq!(nodes.len(), 1);
    assert!(matches!(&nodes[0], Node::Element(e) if e.tag_name == "p"));
}

#[test]
fn test_comment_node_kept() {
    let mut parser = HtmlParser::new("<div><!-- note --></div>");
    let nodes = parser.parse();

    assert_eq!(nodes.len(), 1);
    let div = match &nodes[0] {
        Node::Element(e) => e,
        _ => panic!("Expected an element"),
    };
    assert_eq!(div.children.len(), 1);
    assert!(matches!(&div.children[0], Node::Comment(c) if c == " note "));
}

#[test]
fn test_unclosed_element_closed_by_end_of_input() {
    let mut parser = HtmlParser::new("<div><p>text");
    let nodes = parser.parse();

    assert_eq!(nodes.len(), 1);
    let div = match &nodes[0] {
        Node::Element(e) => e,
        _ => panic!("Expected an element"),
    };
    assert_eq!(div.children.len(), 1);
    let p = match &div.children[0] {
        Node::Element(e) => e,
        _ => panic!("Expected the p element"),
    };
    assert!(matches!(&p.children[0], Node::Text(t) if t == "text"));
}

#[test]
fn test_duplicate_attributes_collapse_last_wins() {
    let mut parser = HtmlParser::new(r#"<p class="a" class="b"></p>"#);
    let nodes = parser.parse();

    assert_eq!(nodes.len(), 1);
    let p = match &nodes[0] {
        Node::Element(e) => e,
        _ => panic!("Expected an element"),
    };
    assert_eq!(p.attributes.len(), 1);
    assert_eq!(p.attributes.get("class"), Some(&"b".to_string()));
}

#[test]
fn test_bare_end_tag_stops_top_level() {
    let mut parser = HtmlParser::new("<p>a</p></div><p>b</p>");
    let nodes = parser.parse();

    assert_eq!(nodes.len(), 1);
    assert!(matches!(&nodes[0], Node::Element(e) if e.tag_name == "p"));
}

#[test]
fn test_empty_input_parses_to_nothing() {
    let mut parser = HtmlParser::new("");
    let nodes = parser.parse();
    assert!(nodes.is_empty());
}

#[test]
fn test_self_closing_element_childless() {
    let mut parser = HtmlParser::new("<widget/>tail");
    let nodes = parser.parse();

    assert_eq!(nodes.len(), 2);
    let w = match &nodes[0] {
        Node::Element(e) => e,
        _ => panic!("Expected an element"),
    };
    assert_eq!(w.tag_name, "widget");
    assert!(w.children.is_empty());
    assert!(matches!(&nodes[1], Node::Text(t) if t == "tail"));
}

#[test]
fn test_deep_nesting_terminates() {
    let mut input = String::new();
    for _ in 0..60 {
        input.push_str("<a>");
    }
    input.push('x');
    let mut parser = HtmlParser::new(&input);
    let nodes = parser.parse();

    assert_eq!(nodes.len(), 1);
    let mut depth = 0;
    let mut cur = &nodes[0];
    loop {
        match cur {
            Node::Element(e) => {
                assert_eq!(e.tag_name, "a");
                depth += 1;
                if e.children.is_empty() {
                    break;
                }
                cur = &e.children[0];
            }
            Node::Text(t) => {
                assert_eq!(t, "x");
                break;
            }
            Node::Comment(_) => panic!("Unexpected comment"),
        }
    }
    assert_eq!(depth, 60);
}
