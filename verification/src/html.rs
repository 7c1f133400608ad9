//! HTML parser: turns a subset of HTML into root containers.
//!
//! Supported tags: `<b>`, `<strong>`, `<i>`, `<em>`, `<u>`, `<mark>`, `<s>`,
//! `<del>`, `<ul>`, `<ol>`, `<li>`, `<p>`, `<br>`. Every other tag, among
//! them `<div>`, `<span>`, `<blockquote>` and headings, produces
//! `ParseError::UnsupportedSymbol`. Comments and `<!DOCTYPE ...>` are skipped.

use vstd::prelude::*;
use crate::ast::{
    ContainerNode, ContainerType, InlineNode, ListItemNode, NodeBase, NodeView, Span, TextNode,
    container_view, containers_view, holds_styled_text, inline_view, inlines_view, lemma_containers_view_push,
    lemma_inlines_view_push,
};
use crate::error::{ParseError, ParseErrorView, SourcePosition};
use crate::id::NodeIdGen;
use crate::inline::find_char_from;
use crate::syntax::{Parser, SupportedSymbol, SymbolView, input_fits, sym, symbols_view};
use crate::text::{
    all_white_space, ascii_lowercase, char_is_whitespace, chars_of, is_alphanumeric,
    is_ascii_alphanumeric,
    is_blank, is_white_space, push_char, same_chars, utf8_len,
};

verus! {

/// Deepest accepted nesting of open tags.
pub const MAX_DEPTH: usize = 64;

/// What an open tag becomes once closed.
#[derive(Debug, Clone, Copy, PartialEq, Eq, Structural)]
pub enum TagKind {
    Container(ContainerType),
    ListItem,
}

/// The model of a tag that is open: its kind, its (lowercase) name, the
/// children gathered so far and where it was opened.
pub struct OpenTagView {
    pub kind: TagKind,
    pub name: Seq<char>,
    pub children: Seq<NodeView>,
    pub opened_at: SourcePosition,
}

/// The tree under construction: the open tags (innermost last), the root
/// containers and the last identifier handed out.
pub struct Doc {
    pub stack: Seq<OpenTagView>,
    pub result: Seq<NodeView>,
    pub id: int,
}

pub open spec fn is_text_container(n: NodeView) -> bool {
    n matches NodeView::Container { kind: ContainerType::Text, .. }
}

/// `n` with `child` appended to its children (`n` is a container).
pub open spec fn with_child(n: NodeView, child: NodeView) -> NodeView {
    match n {
        NodeView::Container { base, kind, children } => NodeView::Container {
            base,
            kind,
            children: children.push(child),
        },
        _ => n,
    }
}

/// A node that lands at the root outside any block: it joins the last root
/// container when that one is a text container, else it gets a new one.
pub open spec fn merge_or_push_text_spec(node: NodeView, d: Doc) -> Doc {
    if d.result.len() > 0 && is_text_container(d.result.last()) {
        Doc { result: d.result.drop_last().push(with_child(d.result.last(), node)), ..d }
    } else {
        Doc {
            result: d.result.push(
                NodeView::Container {
                    base: NodeBase { id: (d.id + 1) as u64, span: Span { start: 0, end: 0 } },
                    kind: ContainerType::Text,
                    children: seq![node],
                },
            ),
            id: d.id + 1,
            ..d
        }
    }
}

/// The innermost open tag with `child` appended to its children.
pub open spec fn push_to_top(stack: Seq<OpenTagView>, child: NodeView) -> Seq<OpenTagView> {
    let top = stack.last();
    stack.drop_last().push(OpenTagView { children: top.children.push(child), ..top })
}

/// A node goes into the innermost open tag, or to the root.
pub open spec fn push_inline_spec(node: NodeView, d: Doc) -> Doc {
    if d.stack.len() > 0 {
        Doc { stack: push_to_top(d.stack, node), ..d }
    } else {
        merge_or_push_text_spec(node, d)
    }
}

pub open spec fn newline_text(id: int) -> NodeView {
    NodeView::Text {
        base: NodeBase { id: (id + 1) as u64, span: Span { start: 0, end: 0 } },
        text: seq!['\n'],
    }
}

/// A `"\n"` text node pushed where the parse stands.
pub open spec fn push_newline_spec(d: Doc) -> Doc {
    push_inline_spec(newline_text(d.id), Doc { id: d.id + 1, ..d })
}

/// Whether a child counts as content: anything but a `"\n"` text node.
pub open spec fn is_content_child(c: NodeView) -> bool {
    match c {
        NodeView::Text { text, .. } => text != seq!['\n'],
        _ => true,
    }
}

/// Whether a root node counts as content: a list, or a container with a
/// content child.
pub open spec fn is_content_root(n: NodeView) -> bool {
    match n {
        NodeView::Container { kind, children, .. } => kind == ContainerType::List || kind
            == ContainerType::OrderedList || exists|j: int|
            0 <= j < children.len() && is_content_child(#[trigger] children[j]),
        _ => false,
    }
}

pub open spec fn result_has_content_spec(result: Seq<NodeView>) -> bool {
    exists|i: int| 0 <= i < result.len() && is_content_root(#[trigger] result[i])
}

pub open spec fn is_list_kind(k: TagKind) -> bool {
    k == TagKind::Container(ContainerType::List) || k == TagKind::Container(
        ContainerType::OrderedList,
    )
}

/// Pending text becomes a text node that ends at byte `byte_end`; white
/// space alone directly inside a list is dropped.
pub open spec fn flush_spec(buf: Seq<char>, byte_end: int, d: Doc) -> Doc {
    if buf.len() == 0 {
        d
    } else if all_white_space(buf) && d.stack.len() > 0 && is_list_kind(d.stack.last().kind) {
        d
    } else {
        let start = if byte_end >= utf8_len(buf) {
            byte_end - utf8_len(buf)
        } else {
            0
        };
        push_inline_spec(
            NodeView::Text {
                base: NodeBase {
                    id: (d.id + 1) as u64,
                    span: Span { start: start as usize, end: byte_end as usize },
                },
                text: buf,
            },
            Doc { id: d.id + 1, ..d },
        )
    }
}

/// The node that a closed tag becomes.
pub open spec fn close_open_tag_spec(t: OpenTagView, id: int) -> NodeView {
    let base = NodeBase { id: (id + 1) as u64, span: Span { start: 0, end: 0 } };
    match t.kind {
        TagKind::ListItem => NodeView::ListItem { base, children: t.children },
        TagKind::Container(ct) => NodeView::Container { base, kind: ct, children: t.children },
    }
}

pub open spec fn is_block_kind(ct: ContainerType) -> bool {
    ct == ContainerType::List || ct == ContainerType::OrderedList || ct == ContainerType::Blockquote
}

/// A closed node attached at the root.
pub open spec fn attach_to_root_spec(node: NodeView, d: Doc) -> Doc {
    match node {
        NodeView::Container { kind, .. } => if is_block_kind(kind) {
            Doc { result: d.result.push(node), ..d }
        } else {
            merge_or_push_text_spec(node, d)
        },
        NodeView::ListItem { .. } => Doc {
            result: d.result.push(
                NodeView::Container {
                    base: NodeBase { id: (d.id + 1) as u64, span: Span { start: 0, end: 0 } },
                    kind: ContainerType::Text,
                    children: seq![node],
                },
            ),
            id: d.id + 1,
            ..d
        },
        NodeView::Text { .. } => merge_or_push_text_spec(node, d),
    }
}

/// A closed node goes into the innermost open tag, or to the root.
pub open spec fn attach_closed_spec(node: NodeView, d: Doc) -> Doc {
    if d.stack.len() > 0 {
        Doc { stack: push_to_top(d.stack, node), ..d }
    } else {
        attach_to_root_spec(node, d)
    }
}

/// Index of the innermost open tag named `name`, among the first `n` tags.
pub open spec fn rposition_from(stack: Seq<OpenTagView>, name: Seq<char>, n: int) -> Option<int>
    decreases n,
{
    if n <= 0 {
        None
    } else if stack[n - 1].name == name {
        Some(n - 1)
    } else {
        rposition_from(stack, name, n - 1)
    }
}

/// Closing the innermost open tag named `name`; a closing tag that matches
/// no open tag is ignored.
pub open spec fn pop_tag_spec(name: Seq<char>, d: Doc) -> Doc {
    match rposition_from(d.stack, name, d.stack.len() as int) {
        None => d,
        Some(idx) => {
            let node = close_open_tag_spec(d.stack[idx], d.id);
            attach_closed_spec(node, Doc { stack: d.stack.remove(idx), id: d.id + 1, ..d })
        },
    }
}

/// `</name>`: a `</p>` at the root ends the paragraph with a line break
/// when the root holds content (and does nothing else); all else closes a
/// tag.
pub open spec fn process_close_spec(name: Seq<char>, d: Doc) -> Doc {
    if name != "p"@ || d.stack.len() > 0 {
        pop_tag_spec(name, d)
    } else if result_has_content_spec(d.result) {
        push_newline_spec(d)
    } else {
        d
    }
}

/// What an open tag named `name` becomes, if the tag is supported.
pub open spec fn tag_to_kind_spec(name: Seq<char>) -> Option<TagKind> {
    if name == "strong"@ || name == "b"@ {
        Some(TagKind::Container(ContainerType::Bold))
    } else if name == "em"@ || name == "i"@ {
        Some(TagKind::Container(ContainerType::Italic))
    } else if name == "u"@ {
        Some(TagKind::Container(ContainerType::Underline))
    } else if name == "mark"@ {
        Some(TagKind::Container(ContainerType::Surline))
    } else if name == "s"@ || name == "del"@ {
        Some(TagKind::Container(ContainerType::Strikethrough))
    } else if name == "ul"@ {
        Some(TagKind::Container(ContainerType::List))
    } else if name == "ol"@ {
        Some(TagKind::Container(ContainerType::OrderedList))
    } else if name == "li"@ {
        Some(TagKind::ListItem)
    } else {
        None
    }
}

/// Opening a supported tag: a list at the root after content gets a line
/// break before it; nesting deeper than `MAX_DEPTH` is refused.
pub open spec fn push_open_tag_spec(kind: TagKind, name: Seq<char>, pos: SourcePosition, d: Doc) -> Result<
    Doc,
    ParseErrorView,
> {
    let d1 = if d.stack.len() == 0 && result_has_content_spec(d.result) && is_list_kind(kind) {
        push_newline_spec(d)
    } else {
        d
    };
    let new_depth = d1.stack.len() + 1;
    if new_depth > MAX_DEPTH {
        Err(ParseErrorView::NestingTooDeep { depth: new_depth as usize, max: MAX_DEPTH })
    } else {
        Ok(
            Doc {
                stack: d1.stack.push(
                    OpenTagView { kind, name, children: Seq::empty(), opened_at: pos },
                ),
                ..d1
            },
        )
    }
}

/// `<name ...>`: `<br>` is a line break, `<p>` a line break after root
/// content, a self-closing tag nothing, a supported tag is opened and any
/// other tag is refused.
pub open spec fn process_open_spec(
    name: Seq<char>,
    self_closing: bool,
    pos: SourcePosition,
    d: Doc,
) -> Result<Doc, ParseErrorView> {
    if name == "br"@ {
        Ok(push_newline_spec(d))
    } else if name == "p"@ {
        if d.stack.len() == 0 && result_has_content_spec(d.result) {
            Ok(push_newline_spec(d))
        } else {
            Ok(d)
        }
    } else if self_closing {
        Ok(d)
    } else {
        match tag_to_kind_spec(name) {
            Some(kind) => push_open_tag_spec(kind, name, pos, d),
            None => Err(
                ParseErrorView::UnsupportedSymbol {
                    symbol: seq!['<'] + name + seq!['>'],
                    position: pos,
                },
            ),
        }
    }
}

/// Line and column after reading `c`.
pub open spec fn advance_char_spec(lc: (int, int), c: char) -> (int, int) {
    if c == '\n' {
        (lc.0 + 1, 1)
    } else {
        (lc.0, lc.1 + 1)
    }
}

/// Line and column after reading `s[from..to]`.
pub open spec fn advance_spec(lc: (int, int), s: Seq<char>, from: int, to: int) -> (int, int)
    decreases to - from,
{
    if from >= to {
        lc
    } else {
        advance_char_spec(advance_spec(lc, s, from, to - 1), s[to - 1])
    }
}

/// First index `j >= k` where `s[j..]` starts with `-->`.
pub open spec fn find_comment_end(s: Seq<char>, k: int) -> Option<int>
    decreases s.len() - k,
{
    if k < 0 || k + 2 >= s.len() {
        None
    } else if s[k] == '-' && s[k + 1] == '-' && s[k + 2] == '>' {
        Some(k)
    } else {
        find_comment_end(s, k + 1)
    }
}

/// Where a comment or a `<!...>` declaration at `k` ends, if one starts there.
pub open spec fn skip_comment_or_doctype_spec(s: Seq<char>, k: int) -> Option<int> {
    if k + 3 < s.len() && s[k] == '<' && s[k + 1] == '!' && s[k + 2] == '-' && s[k + 3] == '-' {
        match find_comment_end(s, k) {
            Some(p) => Some(p + 3),
            None => Some(s.len() as int),
        }
    } else if k + 1 < s.len() && s[k] == '<' && s[k + 1] == '!' {
        match find_char_from(s, k, '>') {
            Some(p) => Some(p + 1),
            None => Some(s.len() as int),
        }
    } else {
        None
    }
}

/// A character of a tag name: alphanumeric (`char::is_alphanumeric`, which
/// on ASCII is `is_ascii_alphanumeric`), `-` or `_`.
pub open spec fn is_name_char(c: char) -> bool {
    (if (c as u32) < 0x80 {
        is_ascii_alphanumeric(c)
    } else {
        is_alphanumeric(c)
    }) || c == '-' || c == '_'
}

/// Number of name characters from index `k` on.
pub open spec fn name_run(s: Seq<char>, k: int) -> int
    decreases s.len() - k,
{
    if k < 0 || k >= s.len() || !is_name_char(s[k]) {
        0
    } else {
        1 + name_run(s, k + 1)
    }
}

/// The tag name at `from`, ASCII letters lowered.
pub open spec fn tag_name_spec(s: Seq<char>, from: int) -> Seq<char> {
    s.subrange(from, from + name_run(s, from)).map_values(|c: char| ascii_lowercase(c))
}

/// Where the tag whose name starts at `from` ends: just after the next `>`,
/// or at the end of the input.
pub open spec fn tag_end_spec(s: Seq<char>, from: int) -> int {
    match find_char_from(s, from, '>') {
        Some(p) => p + 1,
        None => s.len() as int,
    }
}

/// Number of white-space characters that `t` ends with.
pub open spec fn ws_suffix(t: Seq<char>, n: int) -> int
    decreases n,
{
    if n <= 0 || n > t.len() || !is_white_space(t[n - 1]) {
        0
    } else {
        1 + ws_suffix(t, n - 1)
    }
}

/// `s[from..to]`, with trailing white space removed, ends with `/`.
pub open spec fn self_closing_spec(s: Seq<char>, from: int, to: int) -> bool {
    let e = to - ws_suffix(s.subrange(from, to), to - from);
    e > from && s[e - 1] == '/'
}

/// The state of the scan.
pub struct HtmlState {
    pub doc: Doc,
    pub buf: Seq<char>,
    pub line: int,
    pub col: int,
    pub k: int,
}

pub open spec fn html_pos(st: HtmlState, s: Seq<char>) -> SourcePosition {
    SourcePosition {
        line: st.line as usize,
        column: st.col as usize,
        byte_offset: utf8_len(s.take(st.k)) as usize,
    }
}

/// One step of the scan at `st.k < s.len()`: a text character, or a tag.
#[verifier::opaque]
pub open spec fn html_step(s: Seq<char>, st: HtmlState) -> Result<HtmlState, ParseErrorView> {
    let k = st.k;
    let c = s[k];
    if c != '<' {
        let lc = advance_char_spec((st.line, st.col), c);
        Ok(
            HtmlState {
                buf: if st.doc.stack.len() > 0 || (c != '\n' && c != '\r') {
                    st.buf.push(c)
                } else {
                    st.buf
                },
                line: lc.0,
                col: lc.1,
                k: k + 1,
                ..st
            },
        )
    } else {
        let d = flush_spec(st.buf, utf8_len(s.take(k)) as int, st.doc);
        let tag_pos = html_pos(st, s);
        let (res, end) = match skip_comment_or_doctype_spec(s, k) {
            Some(end) => (Ok(d), end),
            None => if k + 1 < s.len() && s[k + 1] == '/' {
                let end = tag_end_spec(s, k + 2);
                (Ok(process_close_spec(tag_name_spec(s, k + 2), d)), end)
            } else {
                let end = tag_end_spec(s, k + 1);
                (
                    process_open_spec(
                        tag_name_spec(s, k + 1),
                        self_closing_spec(s, k + 1, end),
                        tag_pos,
                        d,
                    ),
                    end,
                )
            },
        };
        match res {
            Err(e) => Err(e),
            Ok(d2) => {
                let lc = advance_spec((st.line, st.col), s, k, end);
                Ok(HtmlState { doc: d2, buf: Seq::empty(), line: lc.0, col: lc.1, k: end })
            },
        }
    }
}

/// The scan from `st` to the end of the input.
pub open spec fn html_loop(s: Seq<char>, st: HtmlState) -> Result<Seq<NodeView>, ParseErrorView>
    decreases s.len() - st.k,
{
    if st.k < 0 || st.k >= s.len() {
        let d = flush_spec(st.buf, utf8_len(s) as int, st.doc);
        if d.stack.len() > 0 {
            Err(
                ParseErrorView::UnclosedTag {
                    tag: d.stack.last().name,
                    position: d.stack.last().opened_at,
                },
            )
        } else {
            Ok(d.result)
        }
    } else {
        match html_step(s, st) {
            Err(e) => Err(e),
            Ok(st2) => if st2.k <= st.k || st2.k > s.len() {
                Ok(st.doc.result)
            } else {
                html_loop(s, st2)
            },
        }
    }
}

/// What `HtmlParser::parse` returns for the input characters `s`.
pub open spec fn parse_html_spec(s: Seq<char>) -> Result<Seq<NodeView>, ParseErrorView> {
    if s.len() == 0 {
        Ok(Seq::empty())
    } else {
        html_loop(
            s,
            HtmlState {
                doc: Doc { stack: Seq::empty(), result: Seq::empty(), id: 0 },
                buf: Seq::empty(),
                line: 1,
                col: 1,
                k: 0,
            },
        )
    }
}

} // verus!

verus! {

/// A tag that is open: its kind, its lowercase name, the children gathered
/// so far and where it was opened.
struct OpenTag {
    kind: TagKind,
    tag_name: String,
    children: Vec<InlineNode>,
    opened_at: SourcePosition,
}

spec fn tag_view(t: OpenTag) -> OpenTagView {
    OpenTagView {
        kind: t.kind,
        name: t.tag_name@,
        children: inlines_view(t.children@),
        opened_at: t.opened_at,
    }
}

spec fn stack_view(v: Seq<OpenTag>) -> Seq<OpenTagView> {
    v.map_values(|t: OpenTag| tag_view(t))
}

spec fn doc_of(stack: Seq<OpenTag>, result: Seq<ContainerNode>, id: u64) -> Doc {
    Doc { stack: stack_view(stack), result: containers_view(result), id: id as int }
}

proof fn lemma_containers_view_drop_last(s: Seq<ContainerNode>)
    requires
        s.len() > 0,
    ensures
        containers_view(s) == containers_view(s.drop_last()).push(container_view(s.last())),
        containers_view(s).len() == s.len(),
        containers_view(s).last() == container_view(s.last()),
        containers_view(s).drop_last() == containers_view(s.drop_last()),
{
    crate::ast::lemma_containers_view_index(s);
    crate::ast::lemma_containers_view_index(s.drop_last());
    assert(containers_view(s).drop_last() =~= containers_view(s.drop_last()));
}

/// A node joins the last root container when it is a text container, else
/// it gets a new text container.
fn merge_or_push_text(node: InlineNode, result: &mut Vec<ContainerNode>, id_gen: &mut NodeIdGen)
    requires
        old(id_gen).last() + 1 < u64::MAX,
    ensures
        containers_view(final(result)@) == merge_or_push_text_spec(
            inline_view(node),
            Doc { stack: Seq::empty(), result: containers_view(old(result)@), id: old(id_gen).last() as int },
        ).result,
        final(id_gen).last() == merge_or_push_text_spec(
            inline_view(node),
            Doc { stack: Seq::empty(), result: containers_view(old(result)@), id: old(id_gen).last() as int },
        ).id,
        final(id_gen).last() <= old(id_gen).last() + 1,
{
    let n = result.len();
    if n > 0 {
        proof {
            lemma_containers_view_drop_last(result@);
        }
        if matches!(result[n - 1].container_type, ContainerType::Text) {
            let mut last = result.pop().unwrap();
            proof {
                assert(result@ == old(result)@.drop_last());
                lemma_inlines_view_push(last.children@, node);
            }
            last.children.push(node);
            proof {
                lemma_containers_view_push(result@, last);
            }
            result.push(last);
            return;
        }
    }
    let id = id_gen.next_id();
    let c = ContainerNode {
        base: NodeBase::new(id, Span::new(0, 0)),
        container_type: ContainerType::Text,
        children: vec![node],
    };
    proof {
        lemma_containers_view_push(result@, c);
        assert(inlines_view(c.children@) =~= seq![inline_view(node)]) by {
            reveal_with_fuel(inlines_view, 2);
            assert(c.children@.drop_last() =~= Seq::<InlineNode>::empty());
        }
    }
    result.push(c);
}

/// A node goes into the innermost open tag, or to the root.
fn push_inline(
    node: InlineNode,
    stack: &mut Vec<OpenTag>,
    result: &mut Vec<ContainerNode>,
    id_gen: &mut NodeIdGen,
)
    requires
        old(id_gen).last() + 1 < u64::MAX,
    ensures
        doc_of(final(stack)@, final(result)@, final(id_gen).last()) == push_inline_spec(
            inline_view(node),
            doc_of(old(stack)@, old(result)@, old(id_gen).last()),
        ),
        final(id_gen).last() <= old(id_gen).last() + 1,
        final(stack)@.len() == old(stack)@.len(),
{
    if stack.len() > 0 {
        let mut top = stack.pop().unwrap();
        proof {
            lemma_inlines_view_push(top.children@, node);
        }
        top.children.push(node);
        stack.push(top);
        proof {
            assert(stack_view(stack@) =~= push_to_top(stack_view(old(stack)@), inline_view(node)));
        }
    } else {
        merge_or_push_text(node, result, id_gen);
        proof {
            assert(stack_view(stack@) =~= Seq::<OpenTagView>::empty());
        }
    }
}

/// Pushes a `"\n"` text node where the parse stands.
fn push_newline(stack: &mut Vec<OpenTag>, result: &mut Vec<ContainerNode>, id_gen: &mut NodeIdGen)
    requires
        old(id_gen).last() + 2 < u64::MAX,
    ensures
        doc_of(final(stack)@, final(result)@, final(id_gen).last()) == push_newline_spec(
            doc_of(old(stack)@, old(result)@, old(id_gen).last()),
        ),
        final(id_gen).last() <= old(id_gen).last() + 2,
        final(stack)@.len() == old(stack)@.len(),
{
    let mut text = String::new();
    push_char(&mut text, '\n');
    let id = id_gen.next_id();
    let node = InlineNode::Text(TextNode { base: NodeBase::new(id, Span::new(0, 0)), text });
    proof {
        assert(text@ =~= seq!['\n']);
    }
    push_inline(node, stack, result, id_gen);
}

/// Whether the root holds content: a list, or a container with a child
/// other than a `"\n"` text node.
fn result_has_content(result: &Vec<ContainerNode>) -> (r: bool)
    ensures
        r == result_has_content_spec(containers_view(result@)),
{
    proof {
        crate::ast::lemma_containers_view_index(result@);
    }
    let mut i: usize = 0;
    while i < result.len()
        invariant
            i <= result@.len(),
            containers_view(result@).len() == result@.len(),
            forall|j: int| 0 <= j < result@.len() ==> #[trigger] containers_view(result@)[j] == container_view(result@[j]),
            forall|j: int| 0 <= j < i ==> !is_content_root(#[trigger] containers_view(result@)[j]),
        decreases result@.len() - i,
    {
        let n = &result[i];
        proof {
            crate::ast::lemma_inlines_view_index(n.children@);
        }
        match n.container_type {
            ContainerType::List | ContainerType::OrderedList => {
                assert(is_content_root(containers_view(result@)[i as int]));
                return true;
            },
            _ => {
                let mut j: usize = 0;
                while j < n.children.len()
                    invariant
                        i < result@.len(),
                        *n == result@[i as int],
                        containers_view(result@).len() == result@.len(),
                        forall|j: int| 0 <= j < result@.len() ==> #[trigger] containers_view(result@)[j] == container_view(result@[j]),
                        j <= n.children@.len(),
                        inlines_view(n.children@).len() == n.children@.len(),
                        forall|q: int| 0 <= q < n.children@.len() ==> #[trigger] inlines_view(n.children@)[q] == inline_view(n.children@[q]),
                        forall|q: int| 0 <= q < j ==> !is_content_child(#[trigger] inlines_view(n.children@)[q]),
                    decreases n.children@.len() - j,
                {
                    let content = match &n.children[j] {
                        InlineNode::Text(t) => !text_is_newline(&t.text),
                        _ => true,
                    };
                    if content {
                        proof {
                            let ch = inlines_view(n.children@);
                            assert(is_content_child(ch[j as int]));
                            assert(containers_view(result@)[i as int] == container_view(*n));
                            assert(container_view(*n) == (NodeView::Container {
                                base: n.base,
                                kind: n.container_type,
                                children: ch,
                            }));
                            assert(j < ch.len());
                            assert(exists|q: int| 0 <= q < ch.len() && is_content_child(#[trigger] ch[q]));
                            let cn = NodeView::Container { base: n.base, kind: n.container_type, children: ch };
                            assert(cn matches NodeView::Container { kind, children, .. } && children == ch);
                            assert(is_content_root(cn));
                            assert(is_content_root(container_view(*n)));
                            assert(is_content_root(containers_view(result@)[i as int]));
                        }
                        return true;
                    }
                    j = j + 1;
                }
                assert(!is_content_root(containers_view(result@)[i as int]));
            },
        }
        i = i + 1;
    }
    false
}

/// Whether `t` is exactly `"\n"`.
fn text_is_newline(t: &String) -> (r: bool)
    ensures
        r == (t@ == seq!['\n']),
{
    let v = chars_of(t.as_str());
    if v.len() != 1 {
        return false;
    }
    let r = v[0] == '\n';
    assert(r == (v@ =~= seq!['\n']));
    r
}

} // verus!

verus! {

/// Pending text becomes a text node ending at byte `byte_end`; white space
/// alone directly inside a list is dropped.
fn flush_text(
    buf: &mut String,
    buf_bytes: usize,
    stack: &mut Vec<OpenTag>,
    result: &mut Vec<ContainerNode>,
    byte_end: usize,
    id_gen: &mut NodeIdGen,
)
    requires
        buf_bytes == utf8_len(old(buf)@),
        old(id_gen).last() + 2 < u64::MAX,
    ensures
        final(buf)@ == Seq::<char>::empty(),
        doc_of(final(stack)@, final(result)@, final(id_gen).last()) == flush_spec(
            old(buf)@,
            byte_end as int,
            doc_of(old(stack)@, old(result)@, old(id_gen).last()),
        ),
        final(id_gen).last() <= old(id_gen).last() + 2,
        final(stack)@.len() == old(stack)@.len(),
{
    if buf.as_str().is_empty() {
        return ;
    }
    let mut text = String::new();
    std::mem::swap(&mut text, buf);
    let n = stack.len();
    if all_whitespace_str(&text) && n > 0 && is_list_tag(stack[n - 1].kind) {
        return ;
    }
    let id = id_gen.next_id();
    let node = InlineNode::Text(
        TextNode {
            base: NodeBase::new(id, Span::new(byte_end.saturating_sub(buf_bytes), byte_end)),
            text,
        },
    );
    push_inline(node, stack, result, id_gen);
}

/// Whether every character of `t` is white space.
fn all_whitespace_str(t: &String) -> (r: bool)
    ensures
        r == all_white_space(t@),
{
    is_blank(&chars_of(t.as_str()))
}

fn is_list_tag(k: TagKind) -> (r: bool)
    ensures
        r == is_list_kind(k),
{
    matches!(k, TagKind::Container(ContainerType::List) | TagKind::Container(ContainerType::OrderedList))
}

/// The node that a closed tag becomes.
fn close_open_tag(open: OpenTag, id_gen: &mut NodeIdGen) -> (n: InlineNode)
    requires
        old(id_gen).last() + 1 < u64::MAX,
    ensures
        inline_view(n) == close_open_tag_spec(tag_view(open), old(id_gen).last() as int),
        final(id_gen).last() == old(id_gen).last() + 1,
{
    let id = id_gen.next_id();
    match open.kind {
        TagKind::ListItem => InlineNode::ListItem(
            ListItemNode { base: NodeBase::new(id, Span::new(0, 0)), children: open.children },
        ),
        TagKind::Container(ct) => InlineNode::Container(
            ContainerNode {
                base: NodeBase::new(id, Span::new(0, 0)),
                container_type: ct,
                children: open.children,
            },
        ),
    }
}

/// A closed container at the root: blocks stand alone, the rest joins text.
fn attach_container_to_root(c: ContainerNode, result: &mut Vec<ContainerNode>, id_gen: &mut NodeIdGen)
    requires
        old(id_gen).last() + 1 < u64::MAX,
    ensures
        doc_of(Seq::empty(), final(result)@, final(id_gen).last()) == attach_to_root_spec(
            container_view(c),
            doc_of(Seq::empty(), old(result)@, old(id_gen).last()),
        ),
        final(id_gen).last() <= old(id_gen).last() + 1,
{
    let is_block = matches!(
        c.container_type,
        ContainerType::List | ContainerType::OrderedList | ContainerType::Blockquote
    );
    proof {
        assert(stack_view(Seq::<OpenTag>::empty()) =~= Seq::<OpenTagView>::empty());
    }
    if is_block {
        proof {
            lemma_containers_view_push(result@, c);
        }
        result.push(c);
    } else {
        merge_or_push_text(InlineNode::Container(c), result, id_gen);
    }
}

/// A closed node attached at the root.
fn attach_to_root(node: InlineNode, result: &mut Vec<ContainerNode>, id_gen: &mut NodeIdGen)
    requires
        old(id_gen).last() + 1 < u64::MAX,
    ensures
        doc_of(Seq::empty(), final(result)@, final(id_gen).last()) == attach_to_root_spec(
            inline_view(node),
            doc_of(Seq::empty(), old(result)@, old(id_gen).last()),
        ),
        final(id_gen).last() <= old(id_gen).last() + 1,
{
    proof {
        assert(stack_view(Seq::<OpenTag>::empty()) =~= Seq::<OpenTagView>::empty());
    }
    match node {
        InlineNode::Container(c) => attach_container_to_root(c, result, id_gen),
        InlineNode::ListItem(li) => {
            let id = id_gen.next_id();
            let c = ContainerNode {
                base: NodeBase::new(id, Span::new(0, 0)),
                container_type: ContainerType::Text,
                children: vec![InlineNode::ListItem(li)],
            };
            proof {
                lemma_containers_view_push(result@, c);
                assert(inlines_view(c.children@) =~= seq![inline_view(c.children@[0])]) by {
                    reveal_with_fuel(inlines_view, 2);
                    assert(c.children@.drop_last() =~= Seq::<InlineNode>::empty());
                }
            }
            result.push(c);
        },
        InlineNode::Text(t) => merge_or_push_text(InlineNode::Text(t), result, id_gen),
    }
}

/// A closed node goes into the innermost open tag, or to the root.
fn attach_closed_node(
    node: InlineNode,
    stack: &mut Vec<OpenTag>,
    result: &mut Vec<ContainerNode>,
    id_gen: &mut NodeIdGen,
)
    requires
        old(id_gen).last() + 1 < u64::MAX,
    ensures
        doc_of(final(stack)@, final(result)@, final(id_gen).last()) == attach_closed_spec(
            inline_view(node),
            doc_of(old(stack)@, old(result)@, old(id_gen).last()),
        ),
        final(id_gen).last() <= old(id_gen).last() + 1,
        final(stack)@.len() == old(stack)@.len(),
{
    if stack.len() > 0 {
        let mut top = stack.pop().unwrap();
        proof {
            lemma_inlines_view_push(top.children@, node);
        }
        top.children.push(node);
        stack.push(top);
        proof {
            assert(stack_view(stack@) =~= push_to_top(stack_view(old(stack)@), inline_view(node)));
        }
    } else {
        proof {
            assert(stack@ =~= Seq::<OpenTag>::empty());
        }
        attach_to_root(node, result, id_gen);
    }
}


/// Closes the innermost open tag named `tag_name`; a closing tag that
/// matches no open tag is ignored.
fn pop_tag(
    tag_name: &String,
    stack: &mut Vec<OpenTag>,
    result: &mut Vec<ContainerNode>,
    id_gen: &mut NodeIdGen,
)
    requires
        old(id_gen).last() + 2 < u64::MAX,
    ensures
        doc_of(final(stack)@, final(result)@, final(id_gen).last()) == pop_tag_spec(
            tag_name@,
            doc_of(old(stack)@, old(result)@, old(id_gen).last()),
        ),
        final(id_gen).last() <= old(id_gen).last() + 2,
        final(stack)@.len() <= old(stack)@.len(),
{
    let ghost sv = stack_view(stack@);
    let mut i = stack.len();
    while i > 0 && !same_chars(stack[i - 1].tag_name.as_str(), tag_name.as_str())
        invariant
            i <= stack@.len(),
            sv == stack_view(stack@),
            rposition_from(sv, tag_name@, i as int) == rposition_from(
                sv,
                tag_name@,
                sv.len() as int,
            ),
        decreases i,
    {
        i = i - 1;
    }
    if i == 0 {
        return ;
    }
    let idx = i - 1;
    assert(rposition_from(sv, tag_name@, i as int) == Some(idx as int));
    let open = stack.remove(idx);
    proof {
        assert(stack_view(stack@) =~= sv.remove(idx as int));
    }
    let node = close_open_tag(open, id_gen);
    attach_closed_node(node, stack, result, id_gen);
}

/// `</tag_name>`: a `</p>` at the root ends the paragraph with a line
/// break when the root holds content; all else closes a tag.
fn process_close_tag(
    tag_name: &String,
    stack: &mut Vec<OpenTag>,
    result: &mut Vec<ContainerNode>,
    id_gen: &mut NodeIdGen,
)
    requires
        old(id_gen).last() + 2 < u64::MAX,
    ensures
        doc_of(final(stack)@, final(result)@, final(id_gen).last()) == process_close_spec(
            tag_name@,
            doc_of(old(stack)@, old(result)@, old(id_gen).last()),
        ),
        final(id_gen).last() <= old(id_gen).last() + 2,
        final(stack)@.len() <= old(stack)@.len(),
{
    if !same_chars(tag_name.as_str(), "p") || stack.len() > 0 {
        pop_tag(tag_name, stack, result, id_gen);
    } else if result_has_content(result) {
        push_newline(stack, result, id_gen);
    }
}

} // verus!

verus! {

/// What an open tag named `tag` becomes, if the tag is supported.
fn tag_to_kind(tag: &String) -> (r: Option<TagKind>)
    ensures
        r == tag_to_kind_spec(tag@),
{
    let t = tag.as_str();
    if same_chars(t, "strong") || same_chars(t, "b") {
        Some(TagKind::Container(ContainerType::Bold))
    } else if same_chars(t, "em") || same_chars(t, "i") {
        Some(TagKind::Container(ContainerType::Italic))
    } else if same_chars(t, "u") {
        Some(TagKind::Container(ContainerType::Underline))
    } else if same_chars(t, "mark") {
        Some(TagKind::Container(ContainerType::Surline))
    } else if same_chars(t, "s") || same_chars(t, "del") {
        Some(TagKind::Container(ContainerType::Strikethrough))
    } else if same_chars(t, "ul") {
        Some(TagKind::Container(ContainerType::List))
    } else if same_chars(t, "ol") {
        Some(TagKind::Container(ContainerType::OrderedList))
    } else if same_chars(t, "li") {
        Some(TagKind::ListItem)
    } else {
        None
    }
}

/// Opens a supported tag; a list opened at the root after content gets a
/// line break before it.
fn push_open_tag(
    kind: TagKind,
    tag_name: &String,
    pos: SourcePosition,
    stack: &mut Vec<OpenTag>,
    result: &mut Vec<ContainerNode>,
    id_gen: &mut NodeIdGen,
) -> (r: Result<(), ParseError>)
    requires
        old(id_gen).last() + 2 < u64::MAX,
        old(stack)@.len() < usize::MAX,
    ensures
        match push_open_tag_spec(kind, tag_name@, pos, doc_of(old(stack)@, old(result)@, old(id_gen).last())) {
            Ok(d) => r is Ok && doc_of(final(stack)@, final(result)@, final(id_gen).last()) == d,
            Err(e) => r matches Err(err) && err@ == e,
        },
        final(id_gen).last() <= old(id_gen).last() + 2,
        r is Ok ==> final(stack)@.len() <= MAX_DEPTH,
        old(stack)@.len() <= final(stack)@.len(),
        r is Err ==> final(stack)@ == old(stack)@ && final(result)@ == old(result)@
            && final(id_gen).last() == old(id_gen).last(),
{
    if stack.len() == 0 && result_has_content(result) && is_list_tag(kind) {
        push_newline(stack, result, id_gen);
    }
    let new_depth = stack.len() + 1;
    if new_depth > MAX_DEPTH {
        return Err(ParseError::NestingTooDeep { depth: new_depth, max: MAX_DEPTH });
    }
    let ghost before = stack@;
    stack.push(
        OpenTag {
            kind,
            tag_name: tag_name.clone(),
            children: Vec::new(),
            opened_at: pos,
        },
    );
    proof {
        assert(inlines_view(Seq::<InlineNode>::empty()) =~= Seq::<NodeView>::empty());
        assert(stack_view(stack@) =~= stack_view(before).push(
            OpenTagView { kind, name: tag_name@, children: Seq::empty(), opened_at: pos },
        ));
    }
    Ok(())
}

/// `<tag_name ...>`: `<br>` is a line break, `<p>` a line break after root
/// content, a self-closing tag nothing, a supported tag is opened and any
/// other tag is refused.
fn process_open_tag(
    tag_name: &String,
    is_self_closing: bool,
    pos: SourcePosition,
    stack: &mut Vec<OpenTag>,
    result: &mut Vec<ContainerNode>,
    id_gen: &mut NodeIdGen,
) -> (r: Result<(), ParseError>)
    requires
        old(id_gen).last() + 2 < u64::MAX,
        old(stack)@.len() <= MAX_DEPTH,
    ensures
        match process_open_spec(tag_name@, is_self_closing, pos, doc_of(old(stack)@, old(result)@, old(id_gen).last())) {
            Ok(d) => r is Ok && doc_of(final(stack)@, final(result)@, final(id_gen).last()) == d,
            Err(e) => r matches Err(err) && err@ == e,
        },
        final(id_gen).last() <= old(id_gen).last() + 2,
        final(stack)@.len() <= MAX_DEPTH,
{
    let t = tag_name.as_str();
    if same_chars(t, "br") {
        push_newline(stack, result, id_gen);
    } else if same_chars(t, "p") {
        if stack.len() == 0 && result_has_content(result) {
            push_newline(stack, result, id_gen);
        }
    } else if is_self_closing {
    } else {
        match tag_to_kind(tag_name) {
            Some(kind) => {
                return push_open_tag(kind, tag_name, pos, stack, result, id_gen);
            },
            None => {
                let mut symbol = String::new();
                push_char(&mut symbol, '<');
                crate::text::push_chars(&mut symbol, t);
                push_char(&mut symbol, '>');
                proof {
                    assert(symbol@ =~= seq!['<'] + tag_name@ + seq!['>']);
                }
                return Err(ParseError::UnsupportedSymbol { symbol, position: pos });
            },
        }
    }
    Ok(())
}

/// Where a comment (`<!-- ... -->`) or a `<!...>` declaration that starts
/// at `k` ends; `None` when neither starts there.
fn skip_comment_or_doctype(s: &Vec<char>, k: usize) -> (r: Option<usize>)
    requires
        k < s@.len(),
    ensures
        r is None <==> skip_comment_or_doctype_spec(s@, k as int) is None,
        r matches Some(e) ==> skip_comment_or_doctype_spec(s@, k as int) == Some(e as int) && k
            + 2 <= e <= s@.len(),
{
    let n = s.len();
    if n - k > 3 && s[k] == '<' && s[k + 1] == '!' && s[k + 2] == '-' && s[k + 3] == '-' {
        let mut p = k;
        while n - p > 2 && !(s[p] == '-' && s[p + 1] == '-' && s[p + 2] == '>')
            invariant
                k <= p <= n,
                n == s@.len(),
                find_comment_end(s@, p as int) == find_comment_end(s@, k as int),
                s@[k as int] == '<',
                s@[k + 1] == '!',
            decreases n - p,
        {
            p = p + 1;
        }
        if n - p > 2 {
            assert(find_comment_end(s@, p as int) == Some(p as int));
            assert(p >= k + 2) by {
                if p < k + 2 {
                    assert(s@[p as int] != '-' || s@[p + 1] != '-' || s@[p + 2] != '>');
                }
            }
            return Some(p + 3);
        }
        return Some(n);
    }
    if n - k > 1 && s[k] == '<' && s[k + 1] == '!' {
        let found = crate::inline::find_char(s, k, '>');
        match found {
            Some(p) => {
                assert(p > k + 1);
                return Some(p + 1);
            },
            None => {
                return Some(n);
            },
        }
    }
    None
}

proof fn lemma_name_run_bound(s: Seq<char>, k: int)
    requires
        0 <= k <= s.len(),
    ensures
        0 <= name_run(s, k) <= s.len() - k,
        forall|j: int| k <= j < k + name_run(s, k) ==> #[trigger] is_name_char(s[j]),
    decreases s.len() - k,
{
    if k < s.len() && is_name_char(s[k]) {
        lemma_name_run_bound(s, k + 1);
    }
}

/// The lowercase tag name at `from` and the offset, from `from`, just
/// after the next `>` (or to the end of the input).
fn extract_tag_name(s: &Vec<char>, from: usize) -> (r: (String, usize))
    requires
        from <= s@.len(),
    ensures
        r.0@ == tag_name_spec(s@, from as int),
        from + r.1 == tag_end_spec(s@, from as int),
        from + r.1 <= s@.len(),
{
    let n = s.len();
    let mut name = String::new();
    let mut k = from;
    proof {
        lemma_name_run_bound(s@, from as int);
    }
    while k < n && (crate::text::char_is_alphanumeric(s[k]) || s[k] == '-' || s[k] == '_')
        invariant
            from <= k <= n,
            n == s@.len(),
            name_run(s@, k as int) + k == name_run(s@, from as int) + from,
            name@ == s@.subrange(from as int, k as int).map_values(|c: char| ascii_lowercase(c)),
        decreases n - k,
    {
        push_char(&mut name, crate::text::char_to_ascii_lowercase(s[k]));
        assert(s@.subrange(from as int, k + 1).map_values(|c: char| ascii_lowercase(c))
            =~= s@.subrange(from as int, k as int).map_values(|c: char| ascii_lowercase(c)).push(
            ascii_lowercase(s@[k as int]),
        ));
        k = k + 1;
    }
    let close = match crate::inline::find_char(s, from, '>') {
        Some(p) => p + 1 - from,
        None => n - from,
    };
    (name, close)
}

proof fn lemma_ws_suffix_bound(t: Seq<char>, m: int)
    requires
        0 <= m <= t.len(),
    ensures
        0 <= ws_suffix(t, m) <= m,
    decreases m,
{
    if m > 0 && is_white_space(t[m - 1]) {
        lemma_ws_suffix_bound(t, m - 1);
    }
}

/// `s[from..to]`, with trailing white space removed, ends with `/`.
fn is_self_closing(s: &Vec<char>, from: usize, to: usize) -> (r: bool)
    requires
        from <= to <= s@.len(),
    ensures
        r == self_closing_spec(s@, from as int, to as int),
{
    let ghost t = s@.subrange(from as int, to as int);
    let mut e = to;
    proof {
        lemma_ws_suffix_bound(t, (to - from) as int);
    }
    while e > from && char_is_whitespace(s[e - 1])
        invariant
            from <= e <= to <= s@.len(),
            t == s@.subrange(from as int, to as int),
            ws_suffix(t, (e - from) as int) + (to - e) == ws_suffix(t, (to - from) as int),
        decreases e,
    {
        assert(t[(e - from) - 1] == s@[e - 1]);
        e = e - 1;
    }
    proof {
        if e > from {
            assert(t[(e - from) - 1] == s@[e - 1]);
        }
    }
    e > from && s[e - 1] == '/'
}

/// Line and column of the scan.
struct PositionTracker {
    line: usize,
    col: usize,
}

impl PositionTracker {
    fn new() -> (p: Self)
        ensures
            p.line == 1,
            p.col == 1,
    {
        PositionTracker { line: 1, col: 1 }
    }

    fn advance_char(&mut self, c: char)
        requires
            old(self).line < usize::MAX,
            old(self).col < usize::MAX,
        ensures
            (final(self).line as int, final(self).col as int) == advance_char_spec(
                (old(self).line as int, old(self).col as int),
                c,
            ),
    {
        if c == '\n' {
            self.line = self.line + 1;
            self.col = 1;
        } else {
            self.col = self.col + 1;
        }
    }

    /// Advances over `s[from..to]`.
    fn advance_str(&mut self, s: &Vec<char>, from: usize, to: usize)
        requires
            from <= to <= s@.len(),
            old(self).line + (to - from) < usize::MAX,
            old(self).col + (to - from) < usize::MAX,
        ensures
            (final(self).line as int, final(self).col as int) == advance_spec(
                (old(self).line as int, old(self).col as int),
                s@,
                from as int,
                to as int,
            ),
            final(self).line <= old(self).line + (to - from),
            final(self).col <= old(self).col + (to - from),
    {
        let mut k = from;
        while k < to
            invariant
                from <= k <= to <= s@.len(),
                (self.line as int, self.col as int) == advance_spec(
                    (old(self).line as int, old(self).col as int),
                    s@,
                    from as int,
                    k as int,
                ),
                self.line <= old(self).line + (k - from),
                self.col <= old(self).col + (k - from),
                old(self).line + (to - from) < usize::MAX,
                old(self).col + (to - from) < usize::MAX,
            decreases to - k,
        {
            self.advance_char(s[k]);
            k = k + 1;
        }
    }

    fn current(&self, byte_offset: usize) -> (p: SourcePosition)
        ensures
            p == (SourcePosition { line: self.line, column: self.col, byte_offset }),
    {
        SourcePosition { line: self.line, column: self.col, byte_offset }
    }
}

} // verus!

verus! {

spec fn state_of(
    stack: Seq<OpenTag>,
    result: Seq<ContainerNode>,
    id: u64,
    buf: Seq<char>,
    pos: PositionTracker,
    k: int,
) -> HtmlState {
    HtmlState {
        doc: doc_of(stack, result, id),
        buf,
        line: pos.line as int,
        col: pos.col as int,
        k,
    }
}

/// Reads the text character at `k` (not `<`): it joins the pending text,
/// except a line break at the root.
fn scan_text_char(
    s: &Vec<char>,
    k: usize,
    buf: &mut String,
    buf_bytes: &mut usize,
    stack: &Vec<OpenTag>,
    result: &Vec<ContainerNode>,
    id_gen: &NodeIdGen,
    pos: &mut PositionTracker,
)
    requires
        k < s@.len(),
        s@[k as int] != '<',
        *old(buf_bytes) == utf8_len(old(buf)@),
        *old(buf_bytes) <= utf8_len(s@.take(k as int)),
        utf8_len(s@) <= usize::MAX,
        old(pos).line < usize::MAX,
        old(pos).col < usize::MAX,
    ensures
        html_step(s@, state_of(stack@, result@, id_gen.last(), old(buf)@, *old(pos), k as int))
            == Ok::<HtmlState, ParseErrorView>(
            state_of(stack@, result@, id_gen.last(), final(buf)@, *final(pos), k + 1),
        ),
        *final(buf_bytes) == utf8_len(final(buf)@),
        *final(buf_bytes) <= utf8_len(s@.take(k + 1)),
        final(pos).line <= old(pos).line + 1,
        final(pos).col <= old(pos).col + 1,
{
    proof {
        reveal(html_step);
        crate::text::lemma_utf8_len_take_step(s@, k as int);
        crate::text::lemma_utf8_len_take_le(s@, k + 1);
    }
    let c = s[k];
    if stack.len() > 0 || (c != '\n' && c != '\r') {
        proof {
            crate::text::lemma_utf8_len_push(buf@, c);
        }
        push_char(buf, c);
        *buf_bytes = *buf_bytes + crate::text::char_len_utf8(c);
    }
    pos.advance_char(c);
}

/// Reads the tag, comment or declaration that starts at `k` (a `<`).
#[verifier::rlimit(40)]
fn scan_tag(
    s: &Vec<char>,
    k: usize,
    b: usize,
    buf: &mut String,
    buf_bytes: usize,
    stack: &mut Vec<OpenTag>,
    result: &mut Vec<ContainerNode>,
    pos: &mut PositionTracker,
    id_gen: &mut NodeIdGen,
) -> (r: Result<usize, ParseError>)
    requires
        k < s@.len(),
        s@[k as int] == '<',
        s@.len() < usize::MAX,
        b == utf8_len(s@.take(k as int)),
        buf_bytes == utf8_len(old(buf)@),
        old(stack)@.len() <= MAX_DEPTH,
        old(id_gen).last() + 4 < u64::MAX,
        old(pos).line + (s@.len() - k) < usize::MAX,
        old(pos).col + (s@.len() - k) < usize::MAX,
    ensures
        match html_step(s@, state_of(old(stack)@, old(result)@, old(id_gen).last(), old(buf)@, *old(pos), k as int)) {
            Ok(st2) => {
                &&& r matches Ok(e)
                &&& st2 == state_of(final(stack)@, final(result)@, final(id_gen).last(), final(buf)@, *final(pos), e as int)
                &&& k < e <= s@.len()
            },
            Err(err) => r matches Err(e2) && e2@ == err,
        },
        final(id_gen).last() <= old(id_gen).last() + 4,
        final(stack)@.len() <= MAX_DEPTH,
        r matches Ok(e) ==> final(pos).line <= old(pos).line + (e - k) && final(pos).col <= old(
            pos,
        ).col + (e - k) && final(buf)@ == Seq::<char>::empty(),
{
    proof {
        reveal(html_step);
    }
    let n = s.len();
    flush_text(buf, buf_bytes, stack, result, b, id_gen);
    let tag_pos = pos.current(b);
    if let Some(end) = skip_comment_or_doctype(s, k) {
        pos.advance_str(s, k, end);
        return Ok(end);
    }
    if n - k > 1 && s[k + 1] == '/' {
        let (tag_name, tag_end) = extract_tag_name(s, k + 2);
        let abs_end = k + 2 + tag_end;
        process_close_tag(&tag_name, stack, result, id_gen);
        pos.advance_str(s, k, abs_end);
        return Ok(abs_end);
    }
    let (tag_name, tag_end) = extract_tag_name(s, k + 1);
    let abs_tag_end = k + 1 + tag_end;
    let self_closing = is_self_closing(s, k + 1, abs_tag_end);
    match process_open_tag(&tag_name, self_closing, tag_pos, stack, result, id_gen) {
        Err(e) => {
            return Err(e);
        },
        Ok(()) => {},
    }
    pos.advance_str(s, k, abs_tag_end);
    Ok(abs_tag_end)
}

} // verus!

verus! {

/// The HTML parser.
#[derive(Debug, Clone, Copy)]
pub struct HtmlParser;

/// The symbols that the HTML parser supports.
pub open spec fn html_symbols() -> Seq<SymbolView> {
    seq![
        ("<strong>"@, "Bold"@, "<strong>text</strong>"@),
        ("<b>"@, "Bold (alias)"@, "<b>text</b>"@),
        ("<em>"@, "Italic"@, "<em>text</em>"@),
        ("<i>"@, "Italic (alias)"@, "<i>text</i>"@),
        ("<u>"@, "Underline"@, "<u>text</u>"@),
        ("<mark>"@, "Highlight"@, "<mark>text</mark>"@),
        ("<s>"@, "Strikethrough"@, "<s>text</s>"@),
        ("<del>"@, "Strikethrough (alias)"@, "<del>text</del>"@),
        ("<ul>"@, "Unordered list"@, "<ul><li>item</li></ul>"@),
        ("<ol>"@, "Ordered list"@, "<ol><li>item</li></ol>"@),
        ("<li>"@, "List item"@, "<li>content</li>"@),
        ("<br>"@, "Line break"@, "<br>"@),
    ]
}

impl Parser for HtmlParser {
    open spec fn parse_spec(&self, input: Seq<char>) -> Result<Seq<NodeView>, ParseErrorView> {
        parse_html_spec(input)
    }

    open spec fn symbols_spec(&self) -> Seq<SymbolView> {
        html_symbols()
    }

    #[verifier::rlimit(40)]
    fn parse(&self, input: &str) -> (r: Result<Vec<ContainerNode>, ParseError>) {
        if input.is_empty() {
            proof {
                assert(containers_view(Seq::<ContainerNode>::empty()) =~= Seq::<NodeView>::empty());
            }
            return Ok(Vec::new());
        }
        let s = chars_of(input);
        let total = crate::text::str_byte_len(input);
        let n = s.len();
        let mut stack: Vec<OpenTag> = Vec::new();
        let mut result: Vec<ContainerNode> = Vec::new();
        let mut text_buf = String::new();
        let mut buf_bytes: usize = 0;
        let mut id_gen = NodeIdGen::new();
        let mut pos = PositionTracker::new();
        let mut i: usize = 0;
        let mut b: usize = 0;
        let ghost target = parse_html_spec(s@);
        proof {
            assert(s@.take(0) =~= Seq::<char>::empty());
            assert(stack_view(stack@) =~= Seq::<OpenTagView>::empty());
            assert(containers_view(result@) =~= Seq::<NodeView>::empty());
        }
        while i < n
            invariant
                n == s@.len(),
                s@ == input@,
                input_fits(s@),
                utf8_len(s@) <= usize::MAX,
                total == utf8_len(s@),
                i <= n,
                b == utf8_len(s@.take(i as int)),
                buf_bytes == utf8_len(text_buf@),
                buf_bytes <= b,
                stack@.len() <= MAX_DEPTH,
                id_gen.last() <= 4 * i,
                pos.line <= i + 1,
                pos.col <= i + 1,
                target == parse_html_spec(input@),
                target == html_loop(
                    s@,
                    state_of(stack@, result@, id_gen.last(), text_buf@, pos, i as int),
                ),
            decreases n - i,
        {
            proof {
                crate::text::lemma_utf8_len_take_le(s@, i as int);
            }
            if s[i] != '<' {
                proof {
                    crate::text::lemma_utf8_len_take_step(s@, i as int);
                    crate::text::lemma_utf8_len_take_le(s@, i + 1);
                }
                scan_text_char(&s, i, &mut text_buf, &mut buf_bytes, &stack, &result, &id_gen, &mut pos);
                b = b + crate::text::char_len_utf8(s[i]);
                i = i + 1;
                continue;
            }
            let next = scan_tag(
                &s,
                i,
                b,
                &mut text_buf,
                buf_bytes,
                &mut stack,
                &mut result,
                &mut pos,
                &mut id_gen,
            );
            match next {
                Err(e) => {
                    return Err(e);
                },
                Ok(e) => {
                    b = crate::markdown::bytes_from(&s, i, e, b);
                    i = e;
                    buf_bytes = 0;
                },
            }
        }
        proof {
            assert(s@.take(n as int) =~= s@);
        }
        flush_text(&mut text_buf, buf_bytes, &mut stack, &mut result, total, &mut id_gen);
        let depth = stack.len();
        if depth > 0 {
            let unclosed = &stack[depth - 1];
            return Err(
                ParseError::UnclosedTag {
                    tag: unclosed.tag_name.clone(),
                    position: unclosed.opened_at,
                },
            );
        }
        Ok(result)
    }

    fn supported_symbols(&self) -> (r: Vec<SupportedSymbol>) {
        let v = vec![
            sym("<strong>", "Bold", "<strong>text</strong>"),
            sym("<b>", "Bold (alias)", "<b>text</b>"),
            sym("<em>", "Italic", "<em>text</em>"),
            sym("<i>", "Italic (alias)", "<i>text</i>"),
            sym("<u>", "Underline", "<u>text</u>"),
            sym("<mark>", "Highlight", "<mark>text</mark>"),
            sym("<s>", "Strikethrough", "<s>text</s>"),
            sym("<del>", "Strikethrough (alias)", "<del>text</del>"),
            sym("<ul>", "Unordered list", "<ul><li>item</li></ul>"),
            sym("<ol>", "Ordered list", "<ol><li>item</li></ol>"),
            sym("<li>", "List item", "<li>content</li>"),
            sym("<br>", "Line break", "<br>"),
        ];
        assert(symbols_view(v@) =~= html_symbols());
        v
    }
}

/// The roots that a one-line text without tags becomes: one text container
/// holding one text node with the whole text.
pub open spec fn plain_html_result(s: Seq<char>) -> Seq<NodeView> {
    seq![
        NodeView::Container {
            base: NodeBase { id: 2, span: Span { start: 0, end: 0 } },
            kind: ContainerType::Text,
            children: seq![
                NodeView::Text {
                    base: NodeBase { id: 1, span: Span { start: 0, end: utf8_len(s) as usize } },
                    text: s,
                },
            ],
        },
    ]
}

proof fn lemma_plain_html_loop(s: Seq<char>, k: int, line: int, col: int)
    requires
        0 <= k <= s.len(),
        s.len() > 0,
        forall|i: int| 0 <= i < s.len() ==> #[trigger] s[i] != '<' && s[i] != '\n' && s[i] != '\r',
    ensures
        html_loop(
            s,
            HtmlState {
                doc: Doc { stack: Seq::empty(), result: Seq::empty(), id: 0 },
                buf: s.take(k),
                line,
                col,
                k,
            },
        ) == Result::<Seq<NodeView>, ParseErrorView>::Ok(plain_html_result(s)),
    decreases s.len() - k,
{
    let st = HtmlState {
        doc: Doc { stack: Seq::empty(), result: Seq::empty(), id: 0 },
        buf: s.take(k),
        line,
        col,
        k,
    };
    if k < s.len() {
        reveal(html_step);
        assert(s[k] != '<' && s[k] != '\n' && s[k] != '\r');
        assert(s.take(k).push(s[k]) =~= s.take(k + 1));
        let lc = advance_char_spec((line, col), s[k]);
        lemma_plain_html_loop(s, k + 1, lc.0, lc.1);
    } else {
        assert(s.take(k) =~= s);
        assert(s.len() > 0 && s[0] != '<');
    }
}

/// A non-empty text with no tag and no line break is one text container
/// that holds one text node with the whole text.
pub proof fn lemma_plain_html_text(s: Seq<char>)
    requires
        s.len() > 0,
        forall|i: int| 0 <= i < s.len() ==> #[trigger] s[i] != '<' && s[i] != '\n' && s[i] != '\r',
    ensures
        parse_html_spec(s) == Result::<Seq<NodeView>, ParseErrorView>::Ok(plain_html_result(s)),
{
    assert(s.take(0) =~= Seq::<char>::empty());
    lemma_plain_html_loop(s, 0, 1, 1);
}

/// A document that opens with a tag that is not supported (neither a style,
/// a list tag, `<br>` nor `<p>`, and not self-closing) is refused, with the
/// tag as it was named, at line 1, column 1.
pub proof fn lemma_unsupported_first_tag_refused(s: Seq<char>)
    requires
        s.len() > 1,
        s[0] == '<',
        s[1] != '!',
        s[1] != '/',
        tag_to_kind_spec(tag_name_spec(s, 1)) is None,
        tag_name_spec(s, 1) != "br"@,
        tag_name_spec(s, 1) != "p"@,
        !self_closing_spec(s, 1, tag_end_spec(s, 1)),
    ensures
        parse_html_spec(s) == Result::<Seq<NodeView>, ParseErrorView>::Err(
            ParseErrorView::UnsupportedSymbol {
                symbol: seq!['<'] + tag_name_spec(s, 1) + seq!['>'],
                position: SourcePosition { line: 1, column: 1, byte_offset: 0 },
            },
        ),
{
    reveal(html_step);
    assert(s.take(0) =~= Seq::<char>::empty());
}

/// The characters of the tag name `strong`.
pub open spec fn strong_name() -> Seq<char> {
    seq!['s', 't', 'r', 'o', 'n', 'g']
}

/// `name` is a non-empty run of the letters `a`..`z`.
pub open spec fn is_lower_ascii_name(name: Seq<char>) -> bool {
    name.len() > 0 && forall|j: int| 0 <= j < name.len() ==> 'a' <= #[trigger] name[j] <= 'z'
}

/// The opening tag `<name>`.
pub open spec fn open_tag(name: Seq<char>) -> Seq<char> {
    seq!['<'] + name + seq!['>']
}

/// The closing tag `</name>`.
pub open spec fn close_tag(name: Seq<char>) -> Seq<char> {
    seq!['<', '/'] + name + seq!['>']
}

proof fn lemma_name_run_from(s: Seq<char>, a: int, name: Seq<char>, j: int)
    requires
        0 <= a,
        is_lower_ascii_name(name),
        a + name.len() + 1 <= s.len(),
        s.subrange(a, a + name.len()) == name,
        s[a + name.len()] == '>',
        0 <= j <= name.len(),
    ensures
        name_run(s, a + j) == name.len() - j,
        find_char_from(s, a + j, '>') == Some(a + name.len()),
    decreases name.len() - j,
{
    if j < name.len() {
        lemma_name_run_from(s, a, name, j + 1);
        assert(s.subrange(a, a + name.len())[j] == s[a + j]);
        assert('a' <= name[j] <= 'z');
    } else {
        assert(!is_name_char(s[a + j]));
    }
}

proof fn lemma_tag_name_at(s: Seq<char>, a: int, name: Seq<char>)
    requires
        0 <= a,
        is_lower_ascii_name(name),
        a + name.len() + 1 <= s.len(),
        s.subrange(a, a + name.len()) == name,
        s[a + name.len()] == '>',
    ensures
        tag_name_spec(s, a) == name,
        find_char_from(s, a, '>') == Some(a + name.len()),
{
    lemma_name_run_from(s, a, name, 0);
    assert(s.subrange(a, a + name.len()).map_values(|c: char| ascii_lowercase(c)) =~= name) by {
        assert forall|j: int| 0 <= j < name.len() implies 'a' <= #[trigger] name[j] <= 'z' by {}
    }
}

proof fn lemma_html_text_run(
    s: Seq<char>,
    doc: Doc,
    from: int,
    to: int,
    k: int,
    line: int,
    col: int,
    r: Result<Seq<NodeView>, ParseErrorView>,
)
    requires
        0 <= from <= k <= to < s.len(),
        doc.stack.len() > 0,
        forall|i: int| from <= i < to ==> #[trigger] s[i] != '<',
        forall|l: int, c: int|
            #![trigger html_loop(s, HtmlState { doc, buf: s.subrange(from, to), line: l, col: c, k: to })]
            html_loop(s, HtmlState { doc, buf: s.subrange(from, to), line: l, col: c, k: to }) == r,
    ensures
        html_loop(s, HtmlState { doc, buf: s.subrange(from, k), line, col, k }) == r,
    decreases to - k,
{
    if k < to {
        reveal(html_step);
        assert(s[k] != '<');
        assert(s.subrange(from, k).push(s[k]) =~= s.subrange(from, k + 1));
        let lc = advance_char_spec((line, col), s[k]);
        lemma_html_text_run(s, doc, from, to, k + 1, lc.0, lc.1, r);
    } else {
        assert(html_loop(s, HtmlState { doc, buf: s.subrange(from, to), line, col, k: to }) == r);
    }
}

proof fn lemma_style_tag_html(s: Seq<char>, name: Seq<char>, kind: ContainerType)
    requires
        is_lower_ascii_name(name),
        tag_to_kind_spec(name) == Some(TagKind::Container(kind)),
        kind != ContainerType::List,
        kind != ContainerType::OrderedList,
        name != "br"@,
        name != "p"@,
        s.len() >= 2 * name.len() + 6,
        s.subrange(0, name.len() + 2int) == open_tag(name),
        s.subrange(s.len() - (name.len() + 3), s.len() as int) == close_tag(name),
        forall|i: int| name.len() + 2 <= i < s.len() - (name.len() + 3) ==> #[trigger] s[i] != '<',
    ensures
        parse_html_spec(s) matches Ok(nodes) && nodes.len() == 1 && holds_styled_text(
            nodes[0],
            kind,
            s.subrange(name.len() + 2int, s.len() - (name.len() + 3)),
        ),
{
    reveal(html_step);
    reveal_strlit("p");
    let n = s.len() as int;
    let l = name.len() as int;
    let m = n - (l + 3);
    let w = s.subrange(l + 2, m);
    // The opening tag.
    assert(s.subrange(1, l + 1) =~= name) by {
        assert forall|j: int| 0 <= j < l implies s.subrange(1, l + 1)[j] == name[j] by {
            assert(s.subrange(0, l + 2)[j + 1] == s[j + 1]);
        }
    }
    assert(s[0] == s.subrange(0, l + 2)[0]);
    assert(s[1] == s.subrange(0, l + 2)[1]);
    assert(s[l + 1] == s.subrange(0, l + 2)[l + 1]);
    lemma_tag_name_at(s, 1, name);
    // The closing tag.
    assert(s.subrange(m + 2, m + 2 + l) =~= name) by {
        assert forall|j: int| 0 <= j < l implies s.subrange(m + 2, m + 2 + l)[j] == name[j] by {
            assert(s.subrange(m, n)[j + 2] == s[m + 2 + j]);
        }
    }
    assert(s[m] == s.subrange(m, n)[0]);
    assert(s[m + 1] == s.subrange(m, n)[1]);
    assert(s[m + 2 + l] == s.subrange(m, n)[l + 2]);
    lemma_tag_name_at(s, m + 2, name);
    assert(ws_suffix(s.subrange(1, l + 2), l + 1) == 0) by {
        assert(s.subrange(1, l + 2)[l] == s[l + 1]);
    }
    assert(!self_closing_spec(s, 1, l + 2));
    let pos = SourcePosition { line: 1, column: 1, byte_offset: utf8_len(s.take(0)) as usize };
    let open = OpenTagView {
        kind: TagKind::Container(kind),
        name: name,
        children: Seq::empty(),
        opened_at: pos,
    };
    let doc1 = Doc { stack: seq![open], result: Seq::empty(), id: 0 };
    let d0 = Doc { stack: Seq::empty(), result: Seq::empty(), id: 0 };
    assert(!result_has_content_spec(d0.result));
    assert(process_open_spec(name, false, pos, d0) == Result::<Doc, ParseErrorView>::Ok(doc1)) by {
        assert(Seq::<OpenTagView>::empty().push(open) =~= seq![open]);
    }
    // The text, then the closing tag.
    let byte_end = utf8_len(s.take(m)) as int;
    let text = NodeView::Text {
        base: NodeBase {
            id: 1,
            span: Span {
                start: (if byte_end >= utf8_len(w) {
                    byte_end - utf8_len(w)
                } else {
                    0
                }) as usize,
                end: byte_end as usize,
            },
        },
        text: w,
    };
    let styled_node = NodeView::Container {
        base: NodeBase { id: 2, span: Span { start: 0, end: 0 } },
        kind: kind,
        children: seq![text],
    };
    let root = NodeView::Container {
        base: NodeBase { id: 3, span: Span { start: 0, end: 0 } },
        kind: ContainerType::Text,
        children: seq![styled_node],
    };
    let r = Result::<Seq<NodeView>, ParseErrorView>::Ok(seq![root]);
    let filled = OpenTagView { children: seq![text], ..open };
    let d2 = Doc { stack: seq![filled], result: Seq::empty(), id: 1 };
    assert(flush_spec(w, byte_end, doc1) == d2) by {
        assert(!is_list_kind(open.kind));
        assert(Seq::<NodeView>::empty().push(text) =~= seq![text]);
        assert(seq![open].drop_last().push(filled) =~= seq![filled]);
    }
    assert(rposition_from(d2.stack, name, 1) == Some(0int));
    assert(close_open_tag_spec(filled, 1) == styled_node);
    assert(seq![filled].remove(0) =~= Seq::<OpenTagView>::empty());
    let d3 = Doc { stack: Seq::empty(), result: seq![root], id: 3 };
    assert(Seq::<NodeView>::empty().push(root) =~= seq![root]);
    assert(pop_tag_spec(name, d2) == d3);
    assert(process_close_spec(name, d2) == d3);
    assert forall|ln: int, c: int|
        #![trigger html_loop(s, HtmlState { doc: doc1, buf: s.subrange(l + 2, m), line: ln, col: c, k: m })]
        html_loop(s, HtmlState { doc: doc1, buf: s.subrange(l + 2, m), line: ln, col: c, k: m }) == r by {
        let st = HtmlState { doc: doc1, buf: w, line: ln, col: c, k: m };
        assert(skip_comment_or_doctype_spec(s, m) is None);
        assert(tag_end_spec(s, m + 2) == n);
        let lc = advance_spec((ln, c), s, m, n);
        let st2 = HtmlState { doc: d3, buf: Seq::empty(), line: lc.0, col: lc.1, k: n };
        assert(html_step(s, st) == Result::<HtmlState, ParseErrorView>::Ok(st2));
        assert(flush_spec(Seq::empty(), utf8_len(s) as int, d3) == d3);
        assert(html_loop(s, st2) == r);
    }
    assert forall|i: int| l + 2 <= i < m implies #[trigger] s[i] != '<' by {}
    let lc1 = advance_spec((1, 1), s, 0, l + 2);
    assert(s.subrange(l + 2, l + 2) =~= Seq::<char>::empty());
    lemma_html_text_run(s, doc1, l + 2, m, l + 2, lc1.0, lc1.1, r);
    let st0 = HtmlState { doc: d0, buf: Seq::empty(), line: 1, col: 1, k: 0 };
    let st1 = HtmlState { doc: doc1, buf: Seq::empty(), line: lc1.0, col: lc1.1, k: l + 2 };
    assert(skip_comment_or_doctype_spec(s, 0) is None);
    assert(tag_end_spec(s, 1) == l + 2);
    assert(html_pos(st0, s) == pos);
    assert(flush_spec(Seq::empty(), utf8_len(s.take(0)) as int, d0) == d0);
    assert(html_step(s, st0) == Result::<HtmlState, ParseErrorView>::Ok(st1));
    assert(parse_html_spec(s) == html_loop(s, st0));
}

/// `<strong>w</strong>`, `w` a non-empty text without tags, is one text
/// container that holds one bold container that holds only `w`.
pub proof fn lemma_strong_html(s: Seq<char>)
    requires
        s.len() >= 18,
        s.subrange(0, 8) == seq!['<'] + strong_name() + seq!['>'],
        s.subrange(s.len() - 9, s.len() as int) == seq!['<', '/'] + strong_name() + seq!['>'],
        forall|i: int| 8 <= i < s.len() - 9 ==> #[trigger] s[i] != '<',
    ensures
        parse_html_spec(s) matches Ok(nodes) && nodes.len() == 1 && holds_styled_text(
            nodes[0],
            ContainerType::Bold,
            s.subrange(8, s.len() - 9),
        ),
{
    reveal_strlit("strong");
    reveal_strlit("br");
    reveal_strlit("p");
    assert(strong_name() =~= "strong"@);
    assert(is_lower_ascii_name(strong_name()));
    lemma_style_tag_html(s, strong_name(), ContainerType::Bold);
}

/// `<name>w</name>` is one text container that holds one container of
/// style `kind` that holds only `w`.
#[verifier::opaque]
pub open spec fn tag_wraps_in(name: Seq<char>, w: Seq<char>, kind: ContainerType) -> bool {
    parse_html_spec(open_tag(name) + w + close_tag(name)) matches Ok(nodes) && nodes.len() == 1
        && holds_styled_text(nodes[0], kind, w)
}

proof fn lemma_tag_wraps(name: Seq<char>, w: Seq<char>, kind: ContainerType)
    requires
        is_lower_ascii_name(name),
        tag_to_kind_spec(name) == Some(TagKind::Container(kind)),
        kind != ContainerType::List,
        kind != ContainerType::OrderedList,
        name != "br"@,
        name != "p"@,
        w.len() > 0,
        forall|i: int| 0 <= i < w.len() ==> #[trigger] w[i] != '<',
    ensures
        tag_wraps_in(name, w, kind),
{
    let l = name.len() as int;
    let s = open_tag(name) + w + close_tag(name);
    let n = s.len() as int;
    assert(s.subrange(0, l + 2) =~= open_tag(name));
    assert(s.subrange(n - (l + 3), n) =~= close_tag(name));
    assert(s.subrange(l + 2, n - (l + 3)) =~= w);
    assert forall|i: int| l + 2 <= i < n - (l + 3) implies #[trigger] s[i] != '<' by {
        assert(s[i] == w[i - (l + 2)]);
    }
    lemma_style_tag_html(s, name, kind);
    reveal(tag_wraps_in);
}

/// Each style tag wraps a non-empty text without tags in the container of
/// its style: `<b>` and `<strong>` bold, `<i>` and `<em>` italic, `<u>`
/// underline, `<mark>` surline, `<s>` and `<del>` strikethrough.
pub proof fn lemma_html_style_tags(w: Seq<char>)
    requires
        w.len() > 0,
        forall|i: int| 0 <= i < w.len() ==> #[trigger] w[i] != '<',
    ensures
        tag_wraps_in("b"@, w, ContainerType::Bold),
        tag_wraps_in("strong"@, w, ContainerType::Bold),
        tag_wraps_in("i"@, w, ContainerType::Italic),
        tag_wraps_in("em"@, w, ContainerType::Italic),
        tag_wraps_in("u"@, w, ContainerType::Underline),
        tag_wraps_in("mark"@, w, ContainerType::Surline),
        tag_wraps_in("s"@, w, ContainerType::Strikethrough),
        tag_wraps_in("del"@, w, ContainerType::Strikethrough),
{
    reveal_strlit("b");
    reveal_strlit("strong");
    reveal_strlit("i");
    reveal_strlit("em");
    reveal_strlit("u");
    reveal_strlit("mark");
    reveal_strlit("s");
    reveal_strlit("del");
    reveal_strlit("ul");
    reveal_strlit("ol");
    reveal_strlit("li");
    reveal_strlit("br");
    reveal_strlit("p");
    // The tag names differ from one another in their length or first letter.
    assert("b"@ != "i"@) by {
        assert("b"@[0] != "i"@[0]);
    }
    assert("b"@ != "u"@) by {
        assert("b"@[0] != "u"@[0]);
    }
    assert("b"@ != "s"@) by {
        assert("b"@[0] != "s"@[0]);
    }
    assert("b"@ != "p"@) by {
        assert("b"@[0] != "p"@[0]);
    }
    assert("i"@ != "u"@) by {
        assert("i"@[0] != "u"@[0]);
    }
    assert("i"@ != "s"@) by {
        assert("i"@[0] != "s"@[0]);
    }
    assert("i"@ != "p"@) by {
        assert("i"@[0] != "p"@[0]);
    }
    assert("u"@ != "s"@) by {
        assert("u"@[0] != "s"@[0]);
    }
    assert("u"@ != "p"@) by {
        assert("u"@[0] != "p"@[0]);
    }
    assert("s"@ != "p"@) by {
        assert("s"@[0] != "p"@[0]);
    }
    assert("em"@ != "br"@) by {
        assert("em"@[0] != "br"@[0]);
    }
    assert("b"@.len() != "br"@.len());
    assert("strong"@.len() != "br"@.len());
    assert("strong"@.len() != "p"@.len());
    assert("i"@.len() != "br"@.len());
    assert("em"@.len() != "p"@.len());
    assert("u"@.len() != "br"@.len());
    assert("mark"@.len() != "br"@.len());
    assert("mark"@.len() != "p"@.len());
    assert("s"@.len() != "br"@.len());
    assert("del"@.len() != "br"@.len());
    assert("del"@.len() != "p"@.len());
    lemma_tag_wraps("b"@, w, ContainerType::Bold);
    lemma_tag_wraps("strong"@, w, ContainerType::Bold);
    lemma_tag_wraps("i"@, w, ContainerType::Italic);
    lemma_tag_wraps("em"@, w, ContainerType::Italic);
    lemma_tag_wraps("u"@, w, ContainerType::Underline);
    lemma_tag_wraps("mark"@, w, ContainerType::Surline);
    lemma_tag_wraps("s"@, w, ContainerType::Strikethrough);
    lemma_tag_wraps("del"@, w, ContainerType::Strikethrough);
}

} // verus!
