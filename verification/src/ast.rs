//! The syntax tree that both parsers produce and the renderer consumes.

use vstd::prelude::*;

verus! {

/// A byte range `start..end` of the source text.
#[derive(Debug, Clone, Copy, PartialEq, Eq, Structural)]
pub struct Span {
    pub start: usize,
    pub end: usize,
}

impl Span {
    /// Number of bytes covered; zero when `end` lies before `start`.
    pub open spec fn spec_len(&self) -> nat {
        if self.end >= self.start {
            (self.end - self.start) as nat
        } else {
            0
        }
    }

    pub fn new(start: usize, end: usize) -> (s: Self)
        ensures
            s.start == start,
            s.end == end,
    {
        Span { start, end }
    }

    pub fn len(&self) -> (n: usize)
        ensures
            n == self.spec_len(),
    {
        self.end.saturating_sub(self.start)
    }

    /// A span is empty exactly when its end does not lie after its start.
    pub fn is_empty(&self) -> (b: bool)
        ensures
            b == (self.spec_len() == 0),
            b == (self.end <= self.start),
    {
        self.len() == 0
    }
}

/// Identity and source range of a node.
#[derive(Debug, Clone, Copy, PartialEq, Eq, Structural)]
pub struct NodeBase {
    pub id: u64,
    pub span: Span,
}

impl NodeBase {
    pub fn new(id: u64, span: Span) -> (b: Self)
        ensures
            b.id == id,
            b.span == span,
    {
        NodeBase { id, span }
    }
}

/// The style or block kind of a container.
#[derive(Debug, Clone, Copy, PartialEq, Eq, Structural)]
pub enum ContainerType {
    Text,
    Bold,
    Italic,
    Underline,
    Strikethrough,
    Surline,
    Blockquote,
    List,
    OrderedList,
}

#[derive(Debug, Clone, PartialEq)]
pub struct TextNode {
    pub base: NodeBase,
    pub text: String,
}

#[derive(Debug, PartialEq)]
pub struct ListItemNode {
    pub base: NodeBase,
    pub children: Vec<InlineNode>,
}

#[derive(Debug, PartialEq)]
pub enum InlineNode {
    Text(TextNode),
    Container(ContainerNode),
    ListItem(ListItemNode),
}

#[derive(Debug, PartialEq)]
pub struct ContainerNode {
    pub base: NodeBase,
    pub container_type: ContainerType,
    pub children: Vec<InlineNode>,
}

/// The mathematical model of a node: its text as a character sequence and
/// its children as a sequence of models.
pub enum NodeView {
    Text { base: NodeBase, text: Seq<char> },
    Container { base: NodeBase, kind: ContainerType, children: Seq<NodeView> },
    ListItem { base: NodeBase, children: Seq<NodeView> },
}

/// `n` is a container of kind `kind` whose only child is a text node
/// holding `text`.
pub open spec fn holds_only_text(n: NodeView, kind: ContainerType, text: Seq<char>) -> bool {
    match n {
        NodeView::Container { kind: k, children, .. } => k == kind && children.len() == 1
            && match children[0] {
            NodeView::Text { text: t, .. } => t == text,
            _ => false,
        },
        _ => false,
    }
}

/// `n` is a text container whose only child is a container of kind `kind`
/// that holds only `text`.
pub open spec fn holds_styled_text(n: NodeView, kind: ContainerType, text: Seq<char>) -> bool {
    match n {
        NodeView::Container { kind: k, children, .. } => k == ContainerType::Text && children.len()
            == 1 && holds_only_text(children[0], kind, text),
        _ => false,
    }
}

pub open spec fn inline_view(n: InlineNode) -> NodeView
    decreases n, 1int,
{
    match n {
        InlineNode::Text(t) => NodeView::Text { base: t.base, text: t.text@ },
        InlineNode::Container(c) => container_view(c),
        InlineNode::ListItem(li) => NodeView::ListItem {
            base: li.base,
            children: inlines_view(li.children@),
        },
    }
}

pub open spec fn container_view(c: ContainerNode) -> NodeView
    decreases c, 0int,
{
    NodeView::Container {
        base: c.base,
        kind: c.container_type,
        children: inlines_view(c.children@),
    }
}

pub open spec fn inlines_view(s: Seq<InlineNode>) -> Seq<NodeView>
    decreases s, 0int,
{
    if s.len() == 0 {
        Seq::empty()
    } else {
        inlines_view(s.drop_last()).push(inline_view(s.last()))
    }
}

pub open spec fn containers_view(s: Seq<ContainerNode>) -> Seq<NodeView>
    decreases s.len(),
{
    if s.len() == 0 {
        Seq::empty()
    } else {
        containers_view(s.drop_last()).push(container_view(s.last()))
    }
}

pub proof fn lemma_inlines_view_push(s: Seq<InlineNode>, n: InlineNode)
    ensures
        inlines_view(s.push(n)) == inlines_view(s).push(inline_view(n)),
{
    assert(s.push(n).drop_last() =~= s);
}

pub proof fn lemma_containers_view_push(s: Seq<ContainerNode>, n: ContainerNode)
    ensures
        containers_view(s.push(n)) == containers_view(s).push(container_view(n)),
{
    assert(s.push(n).drop_last() =~= s);
}

pub proof fn lemma_inlines_view_index(s: Seq<InlineNode>)
    ensures
        inlines_view(s).len() == s.len(),
        forall|i: int| 0 <= i < s.len() ==> #[trigger] inlines_view(s)[i] == inline_view(s[i]),
    decreases s.len(),
{
    if s.len() > 0 {
        lemma_inlines_view_index(s.drop_last());
    }
}

pub proof fn lemma_containers_view_index(s: Seq<ContainerNode>)
    ensures
        containers_view(s).len() == s.len(),
        forall|i: int|
            0 <= i < s.len() ==> #[trigger] containers_view(s)[i] == container_view(s[i]),
    decreases s.len(),
{
    if s.len() > 0 {
        lemma_containers_view_index(s.drop_last());
    }
}

impl InlineNode {
    pub fn base(&self) -> (b: &NodeBase)
        ensures
            b == match self {
                InlineNode::Text(n) => &n.base,
                InlineNode::Container(n) => &n.base,
                InlineNode::ListItem(n) => &n.base,
            },
    {
        match self {
            InlineNode::Text(n) => &n.base,
            InlineNode::Container(n) => &n.base,
            InlineNode::ListItem(n) => &n.base,
        }
    }
}

} // verus!

verus! {

/// A deep copy of `n`.
pub fn clone_inline(n: &InlineNode) -> (r: InlineNode)
    ensures
        inline_view(r) == inline_view(*n),
    decreases n, 1int,
{
    match n {
        InlineNode::Text(t) => InlineNode::Text(
            TextNode { base: t.base, text: t.text.clone() },
        ),
        InlineNode::Container(c) => InlineNode::Container(clone_container(c)),
        InlineNode::ListItem(li) => InlineNode::ListItem(
            ListItemNode { base: li.base, children: clone_inlines(&li.children) },
        ),
    }
}

/// A deep copy of `c`.
pub fn clone_container(c: &ContainerNode) -> (r: ContainerNode)
    ensures
        container_view(r) == container_view(*c),
    decreases c, 0int,
{
    ContainerNode {
        base: c.base,
        container_type: c.container_type,
        children: clone_inlines(&c.children),
    }
}

/// A deep copy of every node of `v`.
pub fn clone_inlines(v: &Vec<InlineNode>) -> (r: Vec<InlineNode>)
    ensures
        inlines_view(r@) == inlines_view(v@),
    decreases v, 0int,
{
    let mut r: Vec<InlineNode> = Vec::new();
    let mut k: usize = 0;
    while k < v.len()
        invariant
            k <= v@.len(),
            inlines_view(r@) == inlines_view(v@.take(k as int)),
        decreases v@.len() - k,
    {
        let x = clone_inline(&v[k]);
        proof {
            lemma_inlines_view_push(r@, x);
            lemma_inlines_view_push(v@.take(k as int), v@[k as int]);
            assert(v@.take(k as int).push(v@[k as int]) =~= v@.take(k + 1));
        }
        r.push(x);
        k = k + 1;
    }
    assert(v@.take(k as int) =~= v@);
    r
}

impl Clone for InlineNode {
    fn clone(&self) -> (r: Self)
        ensures
            inline_view(r) == inline_view(*self),
    {
        clone_inline(self)
    }
}

impl Clone for ContainerNode {
    fn clone(&self) -> (r: Self)
        ensures
            container_view(r) == container_view(*self),
    {
        clone_container(self)
    }
}

impl Clone for ListItemNode {
    fn clone(&self) -> (r: Self)
        ensures
            r.base == self.base,
            inlines_view(r.children@) == inlines_view(self.children@),
    {
        ListItemNode { base: self.base, children: clone_inlines(&self.children) }
    }
}

} // verus!
