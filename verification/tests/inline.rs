use boldify::ast::{ContainerNode, ContainerType, InlineNode, ListItemNode, NodeBase, Span, TextNode};
use boldify::error::ParseError;
use boldify::id::NodeIdGen;
use boldify::inline::parse_inline;

fn parse(input: &str) -> Vec<InlineNode> {
    parse_inline(input, 1, 0, 1, &mut NodeIdGen::new()).unwrap()
}

fn collect(nodes: &[InlineNode], buf: &mut String) {
    for node in nodes {
        match node {
            InlineNode::Text(t) => buf.push_str(&t.text),
            InlineNode::Container(c) => collect(&c.children, buf),
            InlineNode::ListItem(li) => collect(&li.children, buf),
        }
    }
}

fn text_content(nodes: &[InlineNode]) -> String {
    let mut buf = String::new();
    collect(nodes, &mut buf);
    buf
}

#[test]
fn backslash_hash_produces_literal_hash() {
    let nodes = parse(r"\#hashtag");
    assert_eq!(text_content(&nodes), "#hashtag");
}

#[test]
fn backslash_star_produces_literal_star() {
    let nodes = parse(r"\*not italic\*");
    assert_eq!(text_content(&nodes), "*not italic*");
}

#[test]
fn backslash_double_star_escapes_first_opens_second() {
    // \** → first '*' is escaped, second '*' opens an unclosed marker → error
    let result = parse_inline(r"\**bold", 1, 0, 1, &mut NodeIdGen::new());
    assert!(result.is_err());
}

#[test]
fn backslash_tilde_produces_literal_tilde() {
    let nodes = parse(r"\~~not strikethrough\~~");
    assert_eq!(text_content(&nodes), "~~not strikethrough~~");
}

#[test]
fn backslash_backslash_produces_literal_backslash() {
    let nodes = parse(r"\\");
    assert_eq!(text_content(&nodes), "\\");
}

#[test]
fn backslash_at_end_of_input_produces_backslash() {
    // A lone \ at end of input: no following char → treated as literal text
    let nodes = parse("text\\");
    assert_eq!(text_content(&nodes), "text\\");
}

#[test]
fn backslash_escapes_opening_bracket() {
    let nodes = parse(r"\[not a link");
    assert_eq!(text_content(&nodes), "[not a link");
}

#[test]
fn backslash_inside_bold_escapes_star() {
    // **before \* after** → bold contains "before * after"
    let nodes = parse(r"**before \* after**");
    assert_eq!(nodes.len(), 1);
    assert!(
        matches!(&nodes[0], InlineNode::Container(c) if c.container_type == ContainerType::Bold)
    );
    assert_eq!(text_content(&nodes), "before * after");
}

#[test]
fn parentheses_allowed_in_text() {
    let nodes = parse("see (below)");
    assert_eq!(text_content(&nodes), "see (below)");
}

#[test]
fn curly_braces_allowed_in_text() {
    let nodes = parse("value={true}");
    assert_eq!(text_content(&nodes), "value={true}");
}

#[test]
fn backtick_always_forbidden() {
    let result = parse_inline("`code`", 1, 0, 1, &mut NodeIdGen::new());
    assert!(result.is_err());
}

#[test]
fn opening_bracket_always_forbidden() {
    let result = parse_inline("[link]", 1, 0, 1, &mut NodeIdGen::new());
    assert!(result.is_err());
}

#[test]
fn inline_nesting_too_deep_returns_error() {
    // 65 nesting levels: **__**__... (alternating bold/underline)
    let markers = ["**", "__"];
    let open: String = (0..65).map(|i| markers[i % 2]).collect();
    let close: String = (0..65).rev().map(|i| markers[i % 2]).collect();
    let input = format!("{}x{}", open, close);
    let result = parse_inline(&input, 1, 0, 1, &mut NodeIdGen::new());
    assert!(matches!(result, Err(ParseError::NestingTooDeep { .. })));
}

#[test]
fn inline_nesting_at_limit_is_accepted() {
    // exactly 64 levels: must succeed
    let markers = ["**", "__"];
    let open: String = (0..64).map(|i| markers[i % 2]).collect();
    let close: String = (0..64).rev().map(|i| markers[i % 2]).collect();
    let input = format!("{}x{}", open, close);
    let result = parse_inline(&input, 1, 0, 1, &mut NodeIdGen::new());
    assert!(result.is_ok());
}
