use boldify::ast::{ContainerNode, ContainerType, InlineNode, ListItemNode, NodeBase, Span, TextNode};
use boldify::converter::{ToUnicode, convert, inline_to_unicode};

fn text(t: &str) -> InlineNode {
    InlineNode::Text(TextNode {
        base: NodeBase::new(0, Span::new(0, 0)),
        text: t.to_string(),
    })
}

fn container(ct: ContainerType, children: Vec<InlineNode>) -> ContainerNode {
    ContainerNode {
        base: NodeBase::new(0, Span::new(0, 0)),
        container_type: ct,
        children,
    }
}

fn item(children: Vec<InlineNode>) -> InlineNode {
    InlineNode::ListItem(ListItemNode {
        base: NodeBase::new(0, Span::new(0, 0)),
        children,
    })
}

#[test]
fn converting_two_lists_of_roots_is_converting_each() {
    let a = vec![
        container(ContainerType::Text, vec![text("one\n")]),
        container(ContainerType::Bold, vec![text("two")]),
    ];
    let b = vec![container(ContainerType::Blockquote, vec![text("three")])];
    let mut both = a.clone();
    both.extend(b.clone());
    assert_eq!(convert(&both), format!("{}{}", convert(&a), convert(&b)));
}

#[test]
fn blockquote_is_framed_by_quotation_marks() {
    let q = container(ContainerType::Blockquote, vec![text("x")]);
    assert_eq!(q.to_unicode(), "❝ x ❞");
}

#[test]
fn bullet_list_items_are_one_per_line_and_other_children_are_dropped() {
    let l = container(
        ContainerType::List,
        vec![item(vec![text("a")]), text("ignored"), item(vec![]), item(vec![text("c")])],
    );
    assert_eq!(l.to_unicode(), "• a\n• \n• c");
}

#[test]
fn ordered_list_numbers_items_from_one() {
    let items: Vec<InlineNode> = (1..=11).map(|i| item(vec![text(&format!("i{}", i))])).collect();
    let l = container(ContainerType::OrderedList, items);
    let out = l.to_unicode();
    assert!(out.starts_with("1. i1\n2. i2\n"));
    assert!(out.ends_with("\n10. i10\n11. i11"));
}

#[test]
fn list_item_renders_its_children_in_order() {
    let li = ListItemNode {
        base: NodeBase::new(0, Span::new(0, 0)),
        children: vec![text("a"), text("b")],
    };
    assert_eq!(li.to_unicode(), "ab");
    assert_eq!(inline_to_unicode(&text("plain")), "plain");
}

#[test]
fn text_container_is_passed_through() {
    assert_eq!(convert(&[container(ContainerType::Text, vec![text("🔥 ok")])]), "🔥 ok");
}

#[test]
fn highlight_is_overlined_and_framed() {
    let h = container(ContainerType::Surline, vec![text("ab c")]);
    assert_eq!(h.to_unicode(), "〚a\u{0305}b\u{0305} c\u{0305}〛");
}
