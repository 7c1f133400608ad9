//! Rendering of a syntax tree as Unicode-styled text.
//!
//! Every container renders its children one after the other, then applies
//! its style: the letter styles and combining marks of `handlers`, quotation
//! marks for a blockquote, bullets or numbers for the items of a list.

use vstd::prelude::*;
use crate::ast::{
    ContainerNode, ContainerType, InlineNode, ListItemNode, NodeView, TextNode, container_view,
    containers_view, holds_styled_text, inline_view, inlines_view, lemma_containers_view_push,
    lemma_inlines_view_push,
};
use crate::handlers::bold::{bold_handler, bold_table};
use crate::handlers::handler::FontHandler;
use crate::handlers::italic::{italic_handler, italic_table};
use crate::handlers::shared::{grapheme_clusters, mark_all, table_all};
use crate::handlers::strikethrough::strikethrough_handler;
use crate::handlers::surline::surline_handler;
use crate::handlers::underline::underline_handler;
use crate::text::{decimal, push_char, push_chars, usize_to_decimal};

verus! {

/// What the style of `kind` makes of the rendered children `raw` of a
/// container (a highlight is overlined and framed by `〚` and `〛`); the lists, which render item by item, are left to
/// `node_unicode`.
pub open spec fn styled(kind: ContainerType, raw: Seq<char>) -> Seq<char> {
    match kind {
        ContainerType::Bold => table_all(grapheme_clusters(raw), bold_table()),
        ContainerType::Italic => table_all(grapheme_clusters(raw), italic_table()),
        ContainerType::Underline => mark_all(grapheme_clusters(raw), "\u{0332}"@),
        ContainerType::Strikethrough => mark_all(grapheme_clusters(raw), "\u{0336}"@),
        ContainerType::Surline => "〚"@ + mark_all(grapheme_clusters(raw), "\u{0305}"@) + "〛"@,
        ContainerType::Blockquote => "❝ "@ + raw + " ❞"@,
        _ => raw,
    }
}

/// The rendering of a node.
pub open spec fn node_unicode(n: NodeView) -> Seq<char>
    decreases n, 1int,
{
    match n {
        NodeView::Text { text, .. } => text,
        NodeView::ListItem { children, .. } => nodes_unicode(children),
        NodeView::Container { kind, children, .. } => match kind {
            ContainerType::List => bullet_items(children),
            ContainerType::OrderedList => numbered_items(children),
            _ => styled(kind, nodes_unicode(children)),
        },
    }
}

/// The renderings of `s`, concatenated.
pub open spec fn nodes_unicode(s: Seq<NodeView>) -> Seq<char>
    decreases s, 0int,
{
    if s.len() == 0 {
        Seq::empty()
    } else {
        nodes_unicode(s.drop_last()) + node_unicode(s.last())
    }
}

/// The list items of `s`, each as `• ` and its rendering, one per line;
/// the other nodes are left out.
pub open spec fn bullet_items(s: Seq<NodeView>) -> Seq<char>
    decreases s, 0int,
{
    if s.len() == 0 {
        Seq::empty()
    } else {
        let prev = bullet_items(s.drop_last());
        if s.last() is ListItem {
            let sep = if prev.len() == 0 {
                prev
            } else {
                prev.push('\n')
            };
            sep + "• "@ + node_unicode(s.last())
        } else {
            prev
        }
    }
}

/// Number of list items in `s`.
pub open spec fn count_items(s: Seq<NodeView>) -> nat
    decreases s.len(),
{
    if s.len() == 0 {
        0
    } else {
        count_items(s.drop_last()) + if s.last() is ListItem {
            1nat
        } else {
            0nat
        }
    }
}

/// The list items of `s`, numbered from 1 as `1. `, `2. `, …, one per line;
/// the other nodes are left out.
pub open spec fn numbered_items(s: Seq<NodeView>) -> Seq<char>
    decreases s, 0int,
{
    if s.len() == 0 {
        Seq::empty()
    } else {
        let prev = numbered_items(s.drop_last());
        if s.last() is ListItem {
            let k = count_items(s);
            let sep = if k > 1 {
                prev.push('\n')
            } else {
                prev
            };
            sep + decimal(k) + ". "@ + node_unicode(s.last())
        } else {
            prev
        }
    }
}

/// A node that renders itself.
pub trait ToUnicode {
    /// The rendering of `self`.
    spec fn unicode_spec(&self) -> Seq<char>;

    /// Converts the node to Unicode-formatted text; the style is that of
    /// the container that owns it.
    fn to_unicode(&self) -> (r: String)
        ensures
            r@ == self.unicode_spec(),
    ;
}

/// The rendering of one inline node.
pub fn inline_to_unicode(node: &InlineNode) -> (r: String)
    ensures
        r@ == node_unicode(inline_view(*node)),
    decreases node, 2int,
{
    match node {
        InlineNode::Text(n) => n.text.clone(),
        InlineNode::Container(n) => container_to_unicode(n),
        InlineNode::ListItem(n) => inlines_to_unicode(&n.children),
    }
}

/// The renderings of `nodes`, concatenated.
pub fn inlines_to_unicode(nodes: &Vec<InlineNode>) -> (r: String)
    ensures
        r@ == nodes_unicode(inlines_view(nodes@)),
    decreases nodes, 0int,
{
    let mut out = String::new();
    let mut k: usize = 0;
    while k < nodes.len()
        invariant
            k <= nodes@.len(),
            out@ == nodes_unicode(inlines_view(nodes@.take(k as int))),
        decreases nodes@.len() - k,
    {
        let part = inline_to_unicode(&nodes[k]);
        push_chars(&mut out, part.as_str());
        proof {
            assert(nodes@.take(k as int).push(nodes@[k as int]) =~= nodes@.take(k + 1));
            lemma_inlines_view_push(nodes@.take(k as int), nodes@[k as int]);
            let vs = inlines_view(nodes@.take(k + 1));
            assert(vs.drop_last() =~= inlines_view(nodes@.take(k as int)));
        }
        k = k + 1;
    }
    assert(nodes@.take(k as int) =~= nodes@);
    out
}

/// The items of a bulleted list.
fn bullet_list(nodes: &Vec<InlineNode>) -> (r: String)
    ensures
        r@ == bullet_items(inlines_view(nodes@)),
    decreases nodes, 1int,
{
    let mut out = String::new();
    let mut k: usize = 0;
    while k < nodes.len()
        invariant
            k <= nodes@.len(),
            out@ == bullet_items(inlines_view(nodes@.take(k as int))),
        decreases nodes@.len() - k,
    {
        let ghost vs = inlines_view(nodes@.take(k + 1));
        proof {
            assert(nodes@.take(k as int).push(nodes@[k as int]) =~= nodes@.take(k + 1));
            lemma_inlines_view_push(nodes@.take(k as int), nodes@[k as int]);
            assert(vs.drop_last() =~= inlines_view(nodes@.take(k as int)));
            assert(vs.last() == inline_view(nodes@[k as int]));
        }
        match &nodes[k] {
            InlineNode::ListItem(li) => {
                if !out.as_str().is_empty() {
                    push_char(&mut out, '\n');
                }
                push_chars(&mut out, "• ");
                let item = inlines_to_unicode(&li.children);
                push_chars(&mut out, item.as_str());
                proof {
                    assert(node_unicode(vs.last()) == item@);
                    assert(out@ =~= bullet_items(vs));
                }
            },
            _ => {
                proof {
                    assert(!(vs.last() is ListItem));
                    assert(out@ =~= bullet_items(vs));
                }
            },
        }
        k = k + 1;
    }
    assert(nodes@.take(k as int) =~= nodes@);
    out
}

proof fn lemma_count_items_bound(s: Seq<NodeView>)
    ensures
        count_items(s) <= s.len(),
    decreases s.len(),
{
    if s.len() > 0 {
        lemma_count_items_bound(s.drop_last());
    }
}

/// The items of a numbered list.
fn numbered_list(nodes: &Vec<InlineNode>) -> (r: String)
    ensures
        r@ == numbered_items(inlines_view(nodes@)),
    decreases nodes, 1int,
{
    let mut out = String::new();
    let mut counter: usize = 0;
    let mut k: usize = 0;
    while k < nodes.len()
        invariant
            k <= nodes@.len(),
            counter == count_items(inlines_view(nodes@.take(k as int))),
            out@ == numbered_items(inlines_view(nodes@.take(k as int))),
        decreases nodes@.len() - k,
    {
        let ghost vs = inlines_view(nodes@.take(k + 1));
        proof {
            assert(nodes@.take(k as int).push(nodes@[k as int]) =~= nodes@.take(k + 1));
            lemma_inlines_view_push(nodes@.take(k as int), nodes@[k as int]);
            assert(vs.drop_last() =~= inlines_view(nodes@.take(k as int)));
            assert(vs.last() == inline_view(nodes@[k as int]));
            lemma_count_items_bound(inlines_view(nodes@.take(k as int)));
            crate::ast::lemma_inlines_view_index(nodes@.take(k as int));
        }
        match &nodes[k] {
            InlineNode::ListItem(li) => {
                counter = counter + 1;
                if counter > 1 {
                    push_char(&mut out, '\n');
                }
                let number = usize_to_decimal(counter);
                push_chars(&mut out, number.as_str());
                push_chars(&mut out, ". ");
                let item = inlines_to_unicode(&li.children);
                push_chars(&mut out, item.as_str());
                proof {
                    assert(node_unicode(vs.last()) == item@);
                    assert(counter == count_items(vs));
                    assert(out@ =~= numbered_items(vs));
                }
            },
            _ => {
                proof {
                    assert(!(vs.last() is ListItem));
                    assert(counter == count_items(vs));
                    assert(out@ =~= numbered_items(vs));
                }
            },
        }
        k = k + 1;
    }
    assert(nodes@.take(k as int) =~= nodes@);
    out
}

/// The rendering of a container: its children rendered, then styled.
pub fn container_to_unicode(node: &ContainerNode) -> (r: String)
    ensures
        r@ == node_unicode(container_view(*node)),
    decreases node, 1int,
{
    match node.container_type {
        ContainerType::List => bullet_list(&node.children),
        ContainerType::OrderedList => numbered_list(&node.children),
        _ => {
            let raw = inlines_to_unicode(&node.children);
            match node.container_type {
                ContainerType::Bold => bold_handler().apply(raw.as_str()),
                ContainerType::Italic => italic_handler().apply(raw.as_str()),
                ContainerType::Underline => underline_handler().apply(raw.as_str()),
                ContainerType::Strikethrough => strikethrough_handler().apply(raw.as_str()),
                ContainerType::Surline => {
                    let mut out = String::new();
                    push_chars(&mut out, "〚");
                    push_chars(&mut out, surline_handler().apply(raw.as_str()).as_str());
                    push_chars(&mut out, "〛");
                    out
                },
                ContainerType::Blockquote => {
                    let mut out = String::new();
                    push_chars(&mut out, "❝ ");
                    push_chars(&mut out, raw.as_str());
                    push_chars(&mut out, " ❞");
                    out
                },
                _ => raw,
            }
        },
    }
}

impl ToUnicode for TextNode {
    open spec fn unicode_spec(&self) -> Seq<char> {
        self.text@
    }

    fn to_unicode(&self) -> (r: String) {
        self.text.clone()
    }
}

impl ToUnicode for ListItemNode {
    open spec fn unicode_spec(&self) -> Seq<char> {
        nodes_unicode(inlines_view(self.children@))
    }

    fn to_unicode(&self) -> (r: String) {
        inlines_to_unicode(&self.children)
    }
}

impl ToUnicode for ContainerNode {
    open spec fn unicode_spec(&self) -> Seq<char> {
        node_unicode(container_view(*self))
    }

    fn to_unicode(&self) -> (r: String) {
        container_to_unicode(self)
    }
}

/// Converts a list of root nodes to Unicode-formatted text: their
/// renderings one after the other, with no separator (the parsers encode
/// every line break in the tree).
pub fn convert(nodes: &[ContainerNode]) -> (r: String)
    ensures
        r@ == nodes_unicode(containers_view(nodes@)),
{
    let mut out = String::new();
    let mut k: usize = 0;
    while k < nodes.len()
        invariant
            k <= nodes@.len(),
            out@ == nodes_unicode(containers_view(nodes@.take(k as int))),
        decreases nodes@.len() - k,
    {
        let part = container_to_unicode(&nodes[k]);
        push_chars(&mut out, part.as_str());
        proof {
            assert(nodes@.take(k as int).push(nodes@[k as int]) =~= nodes@.take(k + 1));
            lemma_containers_view_push(nodes@.take(k as int), nodes@[k as int]);
            let vs = containers_view(nodes@.take(k + 1));
            assert(vs.drop_last() =~= containers_view(nodes@.take(k as int)));
        }
        k = k + 1;
    }
    assert(nodes@.take(k as int) =~= nodes@);
    out
}

proof fn lemma_containers_view_append(a: Seq<ContainerNode>, b: Seq<ContainerNode>)
    ensures
        containers_view(a + b) == containers_view(a) + containers_view(b),
    decreases b.len(),
{
    if b.len() == 0 {
        assert(a + b =~= a);
        assert(containers_view(a) + containers_view(b) =~= containers_view(a));
    } else {
        let init = b.drop_last();
        lemma_containers_view_append(a, init);
        assert(a + b =~= (a + init).push(b.last()));
        assert(b =~= init.push(b.last()));
        lemma_containers_view_push(a + init, b.last());
        lemma_containers_view_push(init, b.last());
        assert(containers_view(a + b) =~= containers_view(a) + containers_view(b));
    }
}

proof fn lemma_nodes_unicode_append(a: Seq<NodeView>, b: Seq<NodeView>)
    ensures
        nodes_unicode(a + b) == nodes_unicode(a) + nodes_unicode(b),
    decreases b.len(),
{
    if b.len() == 0 {
        assert(a + b =~= a);
        assert(nodes_unicode(a) + nodes_unicode(b) =~= nodes_unicode(a));
    } else {
        let init = b.drop_last();
        lemma_nodes_unicode_append(a, init);
        assert((a + b).drop_last() =~= a + init);
        assert((a + b).last() == b.last());
        assert(nodes_unicode(a + b) =~= nodes_unicode(a) + nodes_unicode(b));
    }
}

/// `convert` joins the renderings of the root containers with no
/// separator: converting `a` followed by `b` gives the conversion of `a`
/// followed by that of `b`.
pub proof fn lemma_convert_append(a: Seq<ContainerNode>, b: Seq<ContainerNode>)
    ensures
        nodes_unicode(containers_view(a + b)) == nodes_unicode(containers_view(a)) + nodes_unicode(
            containers_view(b),
        ),
{
    lemma_containers_view_append(a, b);
    lemma_nodes_unicode_append(containers_view(a), containers_view(b));
}

/// A text container that holds only a styled container holding only
/// `text` renders as the style of `text`.
pub proof fn lemma_render_styled_text(n: NodeView, kind: ContainerType, text: Seq<char>)
    requires
        holds_styled_text(n, kind, text),
        kind != ContainerType::List,
        kind != ContainerType::OrderedList,
    ensures
        nodes_unicode(seq![n]) == styled(kind, text),
{
    let children = n->Container_children;
    let inner = children[0];
    let t = inner->Container_children;
    assert(seq![n].drop_last() =~= Seq::<NodeView>::empty());
    assert(children.drop_last() =~= Seq::<NodeView>::empty());
    assert(t.drop_last() =~= Seq::<NodeView>::empty());
    assert(nodes_unicode(Seq::<NodeView>::empty()) =~= Seq::<char>::empty());
    assert(node_unicode(t[0]) == text);
    assert(t.last() == t[0]);
    assert(nodes_unicode(t) =~= text);
    assert(node_unicode(inner) == styled(kind, nodes_unicode(t)));
    assert(children.last() == inner);
    assert(nodes_unicode(children) =~= styled(kind, text));
    assert(node_unicode(n) == nodes_unicode(children));
    assert(seq![n].last() == n);
    assert(nodes_unicode(seq![n]) =~= styled(kind, text));
}

} // verus!
