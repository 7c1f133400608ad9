//! Markdown parser: turns a Markdown string into a list of root containers.
//!
//! Supported: `**bold**` / `__underline__`, `*italic*` / `_italic_`,
//! `~~strikethrough~~`, `==highlight==`, unordered lists (`- item`, `* item`)
//! and ordered lists (`1. item`). Headings (`#`), blockquotes (`>`), code
//! spans and HTML tags produce `ParseError::UnsupportedSymbol`.

use vstd::prelude::*;
use crate::ast::{
    ContainerNode, ContainerType, InlineNode, ListItemNode, NodeBase, NodeView, Span, TextNode,
    containers_view, holds_styled_text, inline_view, inlines_view, lemma_containers_view_push, lemma_inlines_view_push,
};
use crate::error::{ParseError, ParseErrorView, SourcePosition};
use crate::id::NodeIdGen;
use crate::syntax::{Parser, SupportedSymbol, SymbolView, input_fits, sym, symbols_view};
use crate::inline::{
    InlineCtx, Marker, find_char_from, is_plain_char, lemma_marker_line,
    lemma_plain_line_is_one_text, marker_table, parse_inline_chars, parse_inline_spec,
};
use crate::text::{
    all_white_space, char_is_whitespace, chars_of, is_blank, is_ascii_digit, is_white_space, push_char,
    str_byte_len, utf8_len,
};

verus! {

/// One line of the input: characters `start..end` of the input (without
/// its `\n` or `\r\n`), the byte offsets of both ends, and its 1-based number.
#[derive(Debug, Clone, Copy, PartialEq, Eq, Structural)]
pub struct LineInfo {
    pub start: usize,
    pub end: usize,
    pub byte_start: usize,
    pub byte_end: usize,
    pub number: usize,
}

/// The lines of `s` from index `k` on, numbered from `number`, as
/// `str::split_inclusive('\n')` cuts them, each without its `\n` and then
/// without one trailing `\r`.
pub open spec fn lines_from(s: Seq<char>, k: int, number: int) -> Seq<LineInfo>
    decreases s.len() - k,
{
    if k < 0 || k >= s.len() {
        Seq::empty()
    } else {
        let nl = find_char_from(s, k, '\n');
        let piece_end = match nl {
            Some(j) => j + 1,
            None => s.len() as int,
        };
        let text_end0 = match nl {
            Some(j) => j,
            None => s.len() as int,
        };
        let text_end = if text_end0 > k && s[text_end0 - 1] == '\r' {
            text_end0 - 1
        } else {
            text_end0
        };
        let line = LineInfo {
            start: k as usize,
            end: text_end as usize,
            byte_start: utf8_len(s.take(k)) as usize,
            byte_end: utf8_len(s.take(text_end)) as usize,
            number: number as usize,
        };
        if piece_end <= k || piece_end > s.len() {
            seq![line]
        } else {
            seq![line] + lines_from(s, piece_end, number + 1)
        }
    }
}

pub open spec fn lines_of(s: Seq<char>) -> Seq<LineInfo> {
    lines_from(s, 0, 1)
}

pub open spec fn line_text(s: Seq<char>, line: LineInfo) -> Seq<char> {
    s.subrange(line.start as int, line.end as int)
}

/// Number of white-space characters that `t` starts with from index `k` on.
pub open spec fn ws_run(t: Seq<char>, k: int) -> int
    decreases t.len() - k,
{
    if k < 0 || k >= t.len() || !is_white_space(t[k]) {
        0
    } else {
        1 + ws_run(t, k + 1)
    }
}

/// Number of `c` characters that `t` starts with from index `k` on.
pub open spec fn char_run(t: Seq<char>, k: int, c: char) -> int
    decreases t.len() - k,
{
    if k < 0 || k >= t.len() || t[k] != c {
        0
    } else {
        1 + char_run(t, k + 1, c)
    }
}

/// `- ` or `* ` after the leading white space: the bullet and the index of
/// the item's content.
pub open spec fn unordered_prefix(t: Seq<char>) -> Option<(char, int)> {
    let ts = ws_run(t, 0);
    if ts + 1 < t.len() && t[ts] == '-' && t[ts + 1] == ' ' {
        Some(('-', ts + 2))
    } else if ts + 1 < t.len() && t[ts] == '*' && t[ts + 1] == ' ' {
        Some(('*', ts + 2))
    } else {
        None
    }
}

/// First index `j >= k` where `t[j..]` starts with `. `.
pub open spec fn find_dot_space(t: Seq<char>, k: int) -> Option<int>
    decreases t.len() - k,
{
    if k < 0 || k + 1 >= t.len() {
        None
    } else if t[k] == '.' && t[k + 1] == ' ' {
        Some(k)
    } else {
        find_dot_space(t, k + 1)
    }
}

/// Digits then `. ` after the leading white space, the digits running up to
/// the first `. ` of the line: the index of the item's content.
pub open spec fn ordered_prefix(t: Seq<char>) -> Option<int> {
    let ts = ws_run(t, 0);
    match find_dot_space(t, ts) {
        Some(d) => if d > ts && (forall|j: int| ts <= j < d ==> is_ascii_digit(#[trigger] t[j])) {
            Some(d + 2)
        } else {
            None
        },
        None => None,
    }
}

/// The kind of list being read: unordered with its bullet, or ordered.
#[derive(Debug, Clone, Copy, PartialEq, Eq, Structural)]
pub enum ListKind {
    Unordered(char),
    Ordered,
}

/// The index of an item's content when `t` continues a list of `kind`.
pub open spec fn list_item_content_spec(t: Seq<char>, kind: ListKind) -> Option<int> {
    match kind {
        ListKind::Unordered(b) => match unordered_prefix(t) {
            Some((bullet, off)) => if bullet == b {
                Some(off)
            } else {
                None
            },
            None => None,
        },
        ListKind::Ordered => ordered_prefix(t),
    }
}

/// The context in which the content of a line, from index `off` on, is parsed.
pub open spec fn content_ctx(s: Seq<char>, line: LineInfo, off: int) -> InlineCtx {
    InlineCtx {
        line: line.number,
        byte_start: (line.byte_start + utf8_len(line_text(s, line).take(off))) as usize,
        column_start: (off + 1) as usize,
    }
}

/// A list being read: its items so far, the byte offset where its last line
/// ends, the index of the next line and the last identifier handed out.
pub struct ListState {
    pub items: Seq<NodeView>,
    pub end: usize,
    pub next: int,
    pub id: int,
}

/// What one line does to a list being read.
pub enum ListStep {
    /// The line ends the list (blank, or not an item of this kind).
    Stop,
    /// The item's content is rejected.
    Fail(ParseErrorView),
    /// The line is the item `item`; identifiers up to `id` are now used.
    Item(NodeView, int),
}

/// Line `j` read as an item of a list of `kind`, identifiers after `id`.
#[verifier::opaque]
pub open spec fn list_step(s: Seq<char>, lines: Seq<LineInfo>, kind: ListKind, j: int, id: int) -> ListStep {
    let line = lines[j];
    let t = line_text(s, line);
    if all_white_space(t) {
        ListStep::Stop
    } else {
        match list_item_content_spec(t, kind) {
            None => ListStep::Stop,
            Some(off) => {
                let ctx = content_ctx(s, line, off);
                match parse_inline_spec(ctx, t.skip(off), id) {
                    Err(e) => ListStep::Fail(e),
                    Ok(o) => ListStep::Item(
                        NodeView::ListItem {
                            base: NodeBase {
                                id: (o.id + 1) as u64,
                                span: Span { start: ctx.byte_start, end: line.byte_end },
                            },
                            children: o.nodes,
                        },
                        o.id + 1,
                    ),
                }
            },
        }
    }
}

/// Reads list items from line `st.next` on while the lines continue the list.
pub open spec fn list_loop(s: Seq<char>, lines: Seq<LineInfo>, kind: ListKind, st: ListState) -> Result<
    ListState,
    ParseErrorView,
>
    decreases lines.len() - st.next,
{
    if st.next < 0 || st.next >= lines.len() {
        Ok(st)
    } else {
        match list_step(s, lines, kind, st.next, st.id) {
            ListStep::Stop => Ok(st),
            ListStep::Fail(e) => Err(e),
            ListStep::Item(item, id) => list_loop(
                s,
                lines,
                kind,
                ListState {
                    items: st.items.push(item),
                    end: lines[st.next].byte_end,
                    next: st.next + 1,
                    id,
                },
            ),
        }
    }
}

#[verifier::opaque]
/// The list that starts at line `i`, whose first item's content begins at
/// index `off` of that line: the list node, the index of the line after
/// it and the last identifier handed out.
pub open spec fn parse_list_spec(
    s: Seq<char>,
    lines: Seq<LineInfo>,
    i: int,
    off: int,
    kind: ListKind,
    id: int,
) -> Result<(NodeView, int, int), ParseErrorView> {
    let first = lines[i];
    match list_loop(s, lines, kind, ListState { items: Seq::empty(), end: first.byte_end, next: i, id }) {
        Err(e) => Err(e),
        Ok(st) => Ok(
            (
                NodeView::Container {
                    base: NodeBase {
                        id: (st.id + 1) as u64,
                        span: Span {
                            start: content_ctx(s, first, off).byte_start,
                            end: st.end,
                        },
                    },
                    kind: match kind {
                        ListKind::Unordered(_) => ContainerType::List,
                        ListKind::Ordered => ContainerType::OrderedList,
                    },
                    children: st.items,
                },
                st.next,
                st.id + 1,
            ),
        ),
    }
}

/// A root container holding a single `"\n"` text node.
pub open spec fn newline_node(id: int) -> NodeView {
    NodeView::Container {
        base: NodeBase { id: (id + 1) as u64, span: Span { start: 0, end: 0 } },
        kind: ContainerType::Text,
        children: seq![
            NodeView::Text {
                base: NodeBase { id: (id + 2) as u64, span: Span { start: 0, end: 0 } },
                text: seq!['\n'],
            },
        ],
    }
}

/// `count` line-break containers appended to `nodes`, identifiers after `id`.
pub open spec fn push_newlines_spec(nodes: Seq<NodeView>, count: int, id: int) -> Seq<NodeView>
    decreases count,
{
    if count <= 0 {
        nodes
    } else {
        push_newlines_spec(nodes.push(newline_node(id)), count - 1, id + 2)
    }
}

/// The document read so far: the root nodes, the last identifier handed
/// out, the line breaks owed before the next content line and whether a
/// content line has been met yet.
pub struct MdState {
    pub nodes: Seq<NodeView>,
    pub id: int,
    pub pending: int,
    pub first: bool,
}

/// The error for a heading or blockquote marker `symbol` at index `ts` of `line`.
pub open spec fn block_error(s: Seq<char>, line: LineInfo, ts: int, symbol: Seq<char>) -> ParseErrorView {
    ParseErrorView::UnsupportedSymbol {
        symbol,
        position: SourcePosition {
            line: line.number,
            column: (ts + 1) as usize,
            byte_offset: (line.byte_start + utf8_len(line_text(s, line).take(ts))) as usize,
        },
    }
}

/// The line starts (after white space) with `#` followed by a space or
/// nothing: a heading.
pub open spec fn is_heading(t: Seq<char>, ts: int) -> bool {
    let h = char_run(t, ts, '#');
    h >= 1 && (ts + h == t.len() || t[ts + h] == ' ')
}

/// The error for a line that starts (after white space) with a heading
/// marker or a blockquote marker, if it does.
#[verifier::opaque]
pub open spec fn line_start_error(s: Seq<char>, line: LineInfo) -> Option<ParseErrorView> {
    let t = line_text(s, line);
    let ts = ws_run(t, 0);
    if is_heading(t, ts) {
        Some(block_error(s, line, ts, t.subrange(ts, ts + char_run(t, ts, '#'))))
    } else if t[ts] == '>' {
        Some(block_error(s, line, ts, seq!['>']))
    } else {
        None
    }
}

/// The list that a line starts, if any: the index of its first item's
/// content and the kind of list.
pub open spec fn list_start(t: Seq<char>) -> Option<(int, ListKind)> {
    match unordered_prefix(t) {
        Some((bullet, off)) => Some((off, ListKind::Unordered(bullet))),
        None => match ordered_prefix(t) {
            Some(off) => Some((off, ListKind::Ordered)),
            None => None,
        },
    }
}

/// A content line that starts no list: a text container holding its inline
/// content, identifiers after `id`.
#[verifier::opaque]
pub open spec fn text_block_spec(s: Seq<char>, lines: Seq<LineInfo>, i: int, id: int) -> Result<
    (NodeView, int, int),
    ParseErrorView,
> {
    let line = lines[i];
    match parse_inline_spec(
        InlineCtx { line: line.number, byte_start: line.byte_start, column_start: 1 },
        line_text(s, line),
        id,
    ) {
        Err(e) => Err(e),
        Ok(o) => Ok(
            (
                NodeView::Container {
                    base: NodeBase {
                        id: (o.id + 1) as u64,
                        span: Span { start: line.byte_start, end: line.byte_end },
                    },
                    kind: ContainerType::Text,
                    children: o.nodes,
                },
                i + 1,
                o.id + 1,
            ),
        ),
    }
}

/// The block that starts at the content line `i`, identifiers after `id`:
/// a list (with the index of the line after it) or a text container, and
/// the last identifier used.
pub open spec fn block_spec(s: Seq<char>, lines: Seq<LineInfo>, i: int, id: int) -> Result<
    (NodeView, int, int),
    ParseErrorView,
> {
    match list_start(line_text(s, lines[i])) {
        Some((off, kind)) => parse_list_spec(s, lines, i, off, kind, id),
        None => text_block_spec(s, lines, i, id),
    }
}

/// Reads the document from line `i` on.
pub open spec fn md_loop(s: Seq<char>, lines: Seq<LineInfo>, i: int, st: MdState) -> Result<
    Seq<NodeView>,
    ParseErrorView,
>
    decreases lines.len() - i,
{
    if i < 0 || i >= lines.len() {
        Ok(st.nodes)
    } else if all_white_space(line_text(s, lines[i])) {
        md_loop(
            s,
            lines,
            i + 1,
            MdState {
                pending: if st.first {
                    st.pending
                } else {
                    st.pending + 1
                },
                ..st
            },
        )
    } else {
        match line_start_error(s, lines[i]) {
            Some(e) => Err(e),
            None => {
                let nodes1 = if st.first {
                    st.nodes
                } else {
                    push_newlines_spec(st.nodes, st.pending, st.id)
                };
                let id1 = if st.first {
                    st.id
                } else {
                    st.id + 2 * st.pending
                };
                match block_spec(s, lines, i, id1) {
                    Err(e) => Err(e),
                    Ok((node, next, id2)) => if next <= i || next > lines.len() {
                        Ok(st.nodes)
                    } else {
                        md_loop(
                            s,
                            lines,
                            next,
                            MdState { nodes: nodes1.push(node), id: id2, pending: 1, first: false },
                        )
                    },
                }
            },
        }
    }
}

/// What `MarkdownParser::parse` returns for the input characters `s`.
pub open spec fn parse_markdown_spec(s: Seq<char>) -> Result<Seq<NodeView>, ParseErrorView> {
    md_loop(s, lines_of(s), 0, MdState { nodes: Seq::empty(), id: 0, pending: 0, first: true })
}

} // verus!

verus! {

/// Where the line after `lines[j - 1]` starts: `lines[j].start`, or `n` after the last line.
pub open spec fn next_start(lines: Seq<LineInfo>, j: int, n: int) -> int {
    if 0 <= j < lines.len() {
        lines[j].start as int
    } else {
        n
    }
}

/// The lines cut so far cover `s[..n]` in order, each at least one character long.
pub open spec fn lines_wf_upto(s: Seq<char>, lines: Seq<LineInfo>, n: int) -> bool {
    &&& 0 <= n <= s.len()
    &&& forall|i: int|
        #![trigger lines[i]]
        0 <= i < lines.len() ==> {
            &&& lines[i].start <= lines[i].end <= next_start(lines, i + 1, n)
            &&& lines[i].start < next_start(lines, i + 1, n)
            &&& lines[i].number == i + 1
            &&& lines[i].byte_start == utf8_len(s.take(lines[i].start as int))
            &&& lines[i].byte_end == utf8_len(s.take(lines[i].end as int))
        }
}

pub open spec fn lines_wf(s: Seq<char>, lines: Seq<LineInfo>) -> bool {
    lines_wf_upto(s, lines, s.len() as int)
}

/// `b` plus the bytes of `s[from..to]`.
pub(crate) fn bytes_from(s: &Vec<char>, from: usize, to: usize, b: usize) -> (r: usize)
    requires
        from <= to <= s@.len(),
        b == utf8_len(s@.take(from as int)),
        utf8_len(s@) <= usize::MAX,
    ensures
        r == utf8_len(s@.take(to as int)),
{
    let mut k = from;
    let mut r = b;
    while k < to
        invariant
            from <= k <= to <= s@.len(),
            r == utf8_len(s@.take(k as int)),
            utf8_len(s@) <= usize::MAX,
        decreases to - k,
    {
        proof {
            crate::text::lemma_utf8_len_take_step(s@, k as int);
            crate::text::lemma_utf8_len_take_le(s@, k + 1);
        }
        r = r + crate::text::char_len_utf8(s[k]);
        k = k + 1;
    }
    r
}

/// Cuts `s` into lines as `str::split_inclusive('\n')` does, dropping the
/// `\n` and then one `\r` at the end of each.
fn collect_lines(s: &Vec<char>) -> (lines: Vec<LineInfo>)
    requires
        s@.len() < usize::MAX,
        utf8_len(s@) <= usize::MAX,
    ensures
        lines@ == lines_of(s@),
        lines_wf(s@, lines@),
{
    let n = s.len();
    let mut lines: Vec<LineInfo> = Vec::new();
    let mut k: usize = 0;
    let mut number: usize = 1;
    let mut b: usize = 0;
    proof {
        assert(s@.take(0) =~= Seq::<char>::empty());
        assert(lines@ + lines_of(s@) =~= lines_of(s@));
    }
    while k < n
        invariant
            n == s@.len(),
            n < usize::MAX,
            utf8_len(s@) <= usize::MAX,
            k <= n,
            number == lines@.len() + 1,
            number <= k + 1,
            b == utf8_len(s@.take(k as int)),
            lines@ + lines_from(s@, k as int, number as int) == lines_of(s@),
            lines_wf_upto(s@, lines@, k as int),
        decreases n - k,
    {
        let nl = crate::inline::find_char(s, k, '\n');
        let (piece_end, text_end0) = match nl {
            Some(j) => (j + 1, j),
            None => (n, n),
        };
        let text_end = if text_end0 > k && s[text_end0 - 1] == '\r' {
            text_end0 - 1
        } else {
            text_end0
        };
        let be = bytes_from(s, k, text_end, b);
        let line = LineInfo { start: k, end: text_end, byte_start: b, byte_end: be, number };
        let ghost old_lines = lines@;
        proof {
            assert(lines_from(s@, k as int, number as int) == seq![line] + lines_from(
                s@,
                piece_end as int,
                number + 1,
            ));
            assert(old_lines + (seq![line] + lines_from(s@, piece_end as int, number + 1))
                =~= old_lines.push(line) + lines_from(s@, piece_end as int, number + 1));
        }
        lines.push(line);
        let bp = bytes_from(s, text_end, piece_end, be);
        proof {
            assert forall|i: int| #![trigger lines@[i]] 0 <= i < lines@.len() implies {
                &&& lines@[i].start <= lines@[i].end <= next_start(lines@, i + 1, piece_end as int)
                &&& lines@[i].start < next_start(lines@, i + 1, piece_end as int)
                &&& lines@[i].number == i + 1
                &&& lines@[i].byte_start == utf8_len(s@.take(lines@[i].start as int))
                &&& lines@[i].byte_end == utf8_len(s@.take(lines@[i].end as int))
            } by {
                if i < old_lines.len() {
                    assert(lines@[i] == old_lines[i]);
                    assert(old_lines[i] == old_lines[i]);
                }
            }
        }
        k = piece_end;
        b = bp;
        number = number + 1;
    }
    proof {
        assert(lines@ + lines_from(s@, k as int, number as int) =~= lines@);
    }
    lines
}

} // verus!

verus! {

/// The characters `s[from..to]`.
fn slice_chars(s: &Vec<char>, from: usize, to: usize) -> (t: Vec<char>)
    requires
        from <= to <= s@.len(),
    ensures
        t@ == s@.subrange(from as int, to as int),
{
    let mut t: Vec<char> = Vec::new();
    let mut k = from;
    while k < to
        invariant
            from <= k <= to <= s@.len(),
            t@ == s@.subrange(from as int, k as int),
        decreases to - k,
    {
        t.push(s[k]);
        assert(t@ =~= s@.subrange(from as int, k + 1));
        k = k + 1;
    }
    t
}

proof fn lemma_ws_run_bound(t: Seq<char>, k: int)
    requires
        0 <= k <= t.len(),
    ensures
        0 <= ws_run(t, k) <= t.len() - k,
        forall|j: int| k <= j < k + ws_run(t, k) ==> #[trigger] is_white_space(t[j]),
        k + ws_run(t, k) < t.len() ==> !is_white_space(t[k + ws_run(t, k)]),
    decreases t.len() - k,
{
    if k < t.len() && is_white_space(t[k]) {
        lemma_ws_run_bound(t, k + 1);
    }
}

proof fn lemma_char_run_bound(t: Seq<char>, k: int, c: char)
    requires
        0 <= k <= t.len(),
    ensures
        0 <= char_run(t, k, c) <= t.len() - k,
        forall|j: int| k <= j < k + char_run(t, k, c) ==> #[trigger] t[j] == c,
        k + char_run(t, k, c) < t.len() ==> t[k + char_run(t, k, c)] != c,
    decreases t.len() - k,
{
    if k < t.len() && t[k] == c {
        lemma_char_run_bound(t, k + 1, c);
    }
}

/// Number of white-space characters that `t` starts with (`str::trim_start`).
fn trim_line_start(t: &Vec<char>) -> (ts: usize)
    ensures
        ts == ws_run(t@, 0),
        ts <= t@.len(),
{
    let mut k: usize = 0;
    proof {
        lemma_ws_run_bound(t@, 0);
    }
    while k < t.len() && char_is_whitespace(t[k])
        invariant
            k <= t@.len(),
            ws_run(t@, k as int) + k == ws_run(t@, 0),
        decreases t@.len() - k,
    {
        k = k + 1;
    }
    k
}

/// Number of `c` characters that `t` has from index `from` on.
fn count_run(t: &Vec<char>, from: usize, c: char) -> (n: usize)
    requires
        from <= t@.len(),
    ensures
        n == char_run(t@, from as int, c),
        from + n <= t@.len(),
{
    let mut k = from;
    proof {
        lemma_char_run_bound(t@, from as int, c);
    }
    while k < t.len() && t[k] == c
        invariant
            from <= k <= t@.len(),
            char_run(t@, k as int, c) + k == char_run(t@, from as int, c) + from,
        decreases t@.len() - k,
    {
        k = k + 1;
    }
    k - from
}

/// The 1-based column of the character at index `off` of a line.
fn column_at(off: usize) -> (c: usize)
    requires
        off < usize::MAX,
    ensures
        c == off + 1,
{
    off + 1
}

/// `- ` or `* ` after leading white space: the bullet and the index of the content.
fn try_strip_unordered_prefix(t: &Vec<char>) -> (r: Option<(char, usize)>)
    ensures
        r == (match unordered_prefix(t@) {
            Some((b, off)) => Some((b, off as usize)),
            None => None,
        }),
        r matches Some((b, off)) ==> off <= t@.len(),
{
    let ts = trim_line_start(t);
    let n = t.len();
    if n - ts >= 2 && t[ts] == '-' && t[ts + 1] == ' ' {
        return Some(('-', ts + 2));
    }
    if n - ts >= 2 && t[ts] == '*' && t[ts + 1] == ' ' {
        return Some(('*', ts + 2));
    }
    None
}

/// Digits followed by the first `. ` of the line, after leading white space:
/// the index of the content.
fn try_strip_ordered_prefix(t: &Vec<char>) -> (r: Option<usize>)
    ensures
        r == (match ordered_prefix(t@) {
            Some(off) => Some(off as usize),
            None => None,
        }),
        r matches Some(off) ==> off <= t@.len(),
{
    let ts = trim_line_start(t);
    let n = t.len();
    let mut d = ts;
    while n - d >= 2 && !(t[d] == '.' && t[d + 1] == ' ')
        invariant
            ts <= d <= n,
            n == t@.len(),
            find_dot_space(t@, d as int) == find_dot_space(t@, ts as int),
        decreases n - d,
    {
        d = d + 1;
    }
    if n - d < 2 {
        return None;
    }
    assert(find_dot_space(t@, d as int) == Some(d as int));
    if d == ts {
        return None;
    }
    let mut j = ts;
    while j < d
        invariant
            ts <= j <= d,
            d < n,
            n == t@.len(),
            ts == ws_run(t@, 0),
            find_dot_space(t@, ts as int) == Some(d as int),
            d > ts,
            forall|i: int| ts <= i < j ==> is_ascii_digit(#[trigger] t@[i]),
        decreases d - j,
    {
        if !('0' <= t[j] && t[j] <= '9') {
            proof {
                assert(!is_ascii_digit(t@[j as int]));
            }
            return None;
        }
        j = j + 1;
    }
    Some(d + 2)
}

/// The content index of `t` when it continues a list of `kind`.
fn list_item_content(t: &Vec<char>, kind: ListKind) -> (r: Option<usize>)
    ensures
        r == (match list_item_content_spec(t@, kind) {
            Some(off) => Some(off as usize),
            None => None,
        }),
        r matches Some(off) ==> off <= t@.len(),
{
    match kind {
        ListKind::Unordered(expected_bullet) => match try_strip_unordered_prefix(t) {
            Some((bullet, off)) => if bullet == expected_bullet {
                Some(off)
            } else {
                None
            },
            None => None,
        },
        ListKind::Ordered => try_strip_ordered_prefix(t),
    }
}

} // verus!

verus! {

/// The bytes of a line split at its character `off`.
proof fn lemma_line_bytes(s: Seq<char>, a: int, b: int, off: int)
    requires
        0 <= a <= b <= s.len(),
        0 <= off <= b - a,
    ensures
        utf8_len(s.take(a)) + utf8_len(s.subrange(a, b).take(off)) + utf8_len(
            s.subrange(a, b).skip(off),
        ) == utf8_len(s.take(b)),
        utf8_len(s.take(b)) <= utf8_len(s),
        utf8_len(s.subrange(a, b).take(off)) + utf8_len(s.subrange(a, b).skip(off)) == utf8_len(
            s.subrange(a, b),
        ),
{
    let t = s.subrange(a, b);
    assert(s.take(b) =~= s.take(a) + t);
    crate::text::lemma_utf8_len_append(s.take(a), t);
    assert(t =~= t.take(off) + t.skip(off));
    crate::text::lemma_utf8_len_append(t.take(off), t.skip(off));
    crate::text::lemma_utf8_len_take_le(s, b);
}

proof fn lemma_next_start_step(s: Seq<char>, lines: Seq<LineInfo>, j: int)
    requires
        lines_wf(s, lines),
        0 <= j < lines.len(),
    ensures
        next_start(lines, j, s.len() as int) < next_start(lines, j + 1, s.len() as int),
        lines[j].end <= next_start(lines, j + 1, s.len() as int),
{
    let l = lines[j];
}

proof fn lemma_next_start_mono(s: Seq<char>, lines: Seq<LineInfo>, a: int, b: int)
    requires
        lines_wf(s, lines),
        0 <= a <= b <= lines.len(),
    ensures
        next_start(lines, a, s.len() as int) + (b - a) <= next_start(lines, b, s.len() as int),
    decreases b - a,
{
    if a < b {
        lemma_next_start_mono(s, lines, a + 1, b);
        lemma_next_start_step(s, lines, a);
    }
}

proof fn lemma_next_start_le(s: Seq<char>, lines: Seq<LineInfo>, b: int)
    requires
        lines_wf(s, lines),
        0 <= b <= lines.len(),
    ensures
        next_start(lines, b, s.len() as int) <= s.len(),
{
    lemma_next_start_mono(s, lines, b, lines.len() as int);
}

/// Number of bytes of the UTF-8 encoding of `t`.
fn chars_byte_len(t: &Vec<char>, bound: usize) -> (n: usize)
    requires
        utf8_len(t@) <= bound,
    ensures
        n == utf8_len(t@),
{
    let mut k: usize = 0;
    let mut n: usize = 0;
    proof {
        assert(t@.take(0) =~= Seq::<char>::empty());
    }
    while k < t.len()
        invariant
            k <= t@.len(),
            n == utf8_len(t@.take(k as int)),
            utf8_len(t@) <= bound,
        decreases t@.len() - k,
    {
        proof {
            crate::text::lemma_utf8_len_take_step(t@, k as int);
            crate::text::lemma_utf8_len_take_le(t@, k + 1);
        }
        n = n + crate::text::char_len_utf8(t[k]);
        k = k + 1;
    }
    assert(t@.take(k as int) =~= t@);
    n
}

/// Parses the content of a list item, `text`, whose first character is at `ctx`.
fn build_list_item(text: &Vec<char>, ctx: InlineCtx, id_gen: &mut NodeIdGen) -> (r: Result<
    ListItemNode,
    ParseError,
>)
    requires
        crate::inline::inline_fits(ctx, text@, old(id_gen).last() as int),
    ensures
        match parse_inline_spec(ctx, text@, old(id_gen).last() as int) {
            Ok(o) => {
                &&& r matches Ok(item)
                &&& inline_view(InlineNode::ListItem(item)) == NodeView::ListItem {
                    base: NodeBase {
                        id: (o.id + 1) as u64,
                        span: Span {
                            start: ctx.byte_start,
                            end: (ctx.byte_start + utf8_len(text@)) as usize,
                        },
                    },
                    children: o.nodes,
                }
                &&& final(id_gen).last() == o.id + 1
                &&& old(id_gen).last() <= o.id <= old(id_gen).last() + text@.len()
            },
            Err(e) => {
                &&& r matches Err(err)
                &&& err@ == e
                &&& final(id_gen).last() >= old(id_gen).last()
            },
        },
{
    let children = parse_inline_chars(text, ctx, id_gen);
    match children {
        Err(e) => Err(e),
        Ok(children) => {
            let len = chars_byte_len(text, usize::MAX - ctx.byte_start);
            Ok(
                ListItemNode {
                    base: NodeBase::new(
                        id_gen.next_id(),
                        Span::new(ctx.byte_start, ctx.byte_start + len),
                    ),
                    children,
                },
            )
        },
    }
}

/// Appends `count` containers that each hold a `"\n"` text node.
fn push_newline_nodes(count: usize, nodes: &mut Vec<ContainerNode>, id_gen: &mut NodeIdGen)
    requires
        old(id_gen).last() + 2 * count < u64::MAX,
    ensures
        containers_view(final(nodes)@) == push_newlines_spec(
            containers_view(old(nodes)@),
            count as int,
            old(id_gen).last() as int,
        ),
        final(id_gen).last() == old(id_gen).last() + 2 * count,
{
    let mut c: usize = 0;
    while c < count
        invariant
            c <= count,
            id_gen.last() == old(id_gen).last() + 2 * c,
            old(id_gen).last() + 2 * count < u64::MAX,
            push_newlines_spec(containers_view(old(nodes)@), count as int, old(id_gen).last() as int)
                == push_newlines_spec(
                containers_view(nodes@),
                (count - c) as int,
                id_gen.last() as int,
            ),
        decreases count - c,
    {
        let ghost id = id_gen.last() as int;
        let mut text = String::new();
        push_char(&mut text, '\n');
        let cid = id_gen.next_id();
        let tid = id_gen.next_id();
        let node = ContainerNode {
            base: NodeBase::new(cid, Span::new(0, 0)),
            container_type: ContainerType::Text,
            children: vec![
                InlineNode::Text(TextNode { base: NodeBase::new(tid, Span::new(0, 0)), text }),
            ],
        };
        proof {
            lemma_containers_view_push(nodes@, node);
            assert(inlines_view(node.children@) =~= seq![inline_view(node.children@[0])]) by {
                reveal_with_fuel(inlines_view, 2);
                assert(node.children@.drop_last() =~= Seq::<InlineNode>::empty());
            }
            assert(crate::ast::container_view(node) == newline_node(id));
        }
        nodes.push(node);
        c = c + 1;
    }
}

} // verus!

verus! {

proof fn lemma_find_dot_space_bound(t: Seq<char>, k: int)
    ensures
        find_dot_space(t, k) matches Some(d) ==> k <= d && d + 1 < t.len(),
    decreases t.len() - k,
{
    if 0 <= k && k + 1 < t.len() && !(t[k] == '.' && t[k + 1] == ' ') {
        lemma_find_dot_space_bound(t, k + 1);
    }
}

proof fn lemma_list_item_content_bound(t: Seq<char>, kind: ListKind)
    ensures
        list_item_content_spec(t, kind) matches Some(off) ==> 2 <= off <= t.len(),
        unordered_prefix(t) matches Some((b, off)) ==> 0 <= off <= t.len(),
        ordered_prefix(t) matches Some(off) ==> 0 <= off <= t.len(),
{
    lemma_ws_run_bound(t, 0);
    lemma_find_dot_space_bound(t, ws_run(t, 0));
}

proof fn lemma_first_item(s: Seq<char>, lines: Seq<LineInfo>, kind: ListKind, j: int, id: int)
    requires
        0 <= j < lines.len(),
        !all_white_space(line_text(s, lines[j])),
        list_item_content_spec(line_text(s, lines[j]), kind) is Some,
    ensures
        !(list_step(s, lines, kind, j, id) is Stop),
{
    reveal(list_step);
}

/// Reads line `j` as an item of a list of `kind`: `None` when the line ends the list.
fn read_list_item(
    s: &Vec<char>,
    lines: &Vec<LineInfo>,
    j: usize,
    kind: ListKind,
    id_gen: &mut NodeIdGen,
) -> (r: Result<Option<ListItemNode>, ParseError>)
    requires
        lines_wf(s@, lines@),
        j < lines@.len(),
        utf8_len(s@) <= usize::MAX,
        s@.len() < usize::MAX,
        old(id_gen).last() + (next_start(lines@, j + 1, s@.len() as int) - lines@[j as int].start) + 1
            < u64::MAX,
    ensures
        match list_step(s@, lines@, kind, j as int, old(id_gen).last() as int) {
            ListStep::Stop => r matches Ok(None) && final(id_gen).last() == old(id_gen).last(),
            ListStep::Fail(e) => r matches Err(err) && err@ == e,
            ListStep::Item(item, id) => {
                &&& r matches Ok(Some(li))
                &&& inline_view(InlineNode::ListItem(li)) == item
                &&& final(id_gen).last() == id
                &&& old(id_gen).last() < id <= old(id_gen).last() + (next_start(
                    lines@,
                    j + 1,
                    s@.len() as int,
                ) - lines@[j as int].start)
            },
        },
{
    proof {
        reveal(list_step);
        lemma_next_start_step(s@, lines@, j as int);
        lemma_next_start_le(s@, lines@, j + 1);
    }
    let line = lines[j];
    let t = slice_chars(s, line.start, line.end);
    if is_blank(&t) {
        return Ok(None);
    }
    let off = match list_item_content(&t, kind) {
        None => {
            return Ok(None);
        },
        Some(off) => off,
    };
    proof {
        lemma_list_item_content_bound(t@, kind);
        lemma_line_bytes(s@, line.start as int, line.end as int, off as int);
    }
    let rest = slice_chars(&t, off, t.len());
    let byte_start = line.byte_start + bytes_from(&t, 0, off, 0);
    let ctx = InlineCtx { line: line.number, byte_start, column_start: column_at(off) };
    proof {
        assert(t@.take(0) =~= Seq::<char>::empty());
        assert(rest@ =~= t@.skip(off as int));
        assert(ctx == content_ctx(s@, line, off as int));
    }
    let ghost l = lines@[j as int];
    proof {
        assert(l.byte_end == utf8_len(s@.take(l.end as int)));
        assert(l.byte_start == utf8_len(s@.take(l.start as int)));
        assert(l.end <= next_start(lines@, j + 1, s@.len() as int));
    }
    match build_list_item(&rest, ctx, id_gen) {
        Err(e) => Err(e),
        Ok(item) => Ok(Some(item)),
    }
}

/// A list node and the index of the first line after it.
struct ParsedList {
    node: ContainerNode,
    next_line: usize,
}

/// Reads the list that starts at line `start_index`, whose first item's
/// content begins at `content_start_offset`.
#[verifier::rlimit(100)]
#[verifier::spinoff_prover]
fn parse_list(
    s: &Vec<char>,
    lines: &Vec<LineInfo>,
    start_index: usize,
    first_line: LineInfo,
    content_start_offset: usize,
    kind: ListKind,
    id_gen: &mut NodeIdGen,
) -> (r: Result<ParsedList, ParseError>)
    requires
        lines_wf(s@, lines@),
        start_index < lines@.len(),
        first_line == lines@[start_index as int],
        list_item_content_spec(line_text(s@, first_line), kind) == Some(content_start_offset as int),
        !all_white_space(line_text(s@, first_line)),
        utf8_len(s@) <= usize::MAX,
        s@.len() < usize::MAX,
        old(id_gen).last() + (s@.len() - first_line.start) + 2 < u64::MAX,
    ensures
        match parse_list_spec(
            s@,
            lines@,
            start_index as int,
            content_start_offset as int,
            kind,
            old(id_gen).last() as int,
        ) {
            Ok((node, next, id2)) => {
                &&& r matches Ok(p)
                &&& crate::ast::container_view(p.node) == node
                &&& p.next_line == next
                &&& final(id_gen).last() == id2
                &&& start_index < next <= lines@.len()
                &&& id2 <= old(id_gen).last() + (next_start(lines@, next, s@.len() as int)
                    - first_line.start) + 1
            },
            Err(e) => {
                &&& r matches Err(err)
                &&& err@ == e
            },
        },
{
    let ghost n = s@.len() as int;
    let ghost id0 = id_gen.last() as int;
    proof {
        lemma_next_start_step(s@, lines@, start_index as int);
        lemma_next_start_le(s@, lines@, start_index + 1);
        lemma_list_item_content_bound(line_text(s@, first_line), kind);
    }
    let first_t = slice_chars(s, first_line.start, first_line.end);
    proof {
        lemma_line_bytes(s@, first_line.start as int, first_line.end as int, content_start_offset as int);
    }
    let list_start = first_line.byte_start + bytes_from(&first_t, 0, content_start_offset, 0);
    let ghost target = list_loop(
        s@,
        lines@,
        kind,
        ListState { items: Seq::empty(), end: first_line.byte_end, next: start_index as int, id: id0 },
    );
    let mut items: Vec<InlineNode> = Vec::new();
    let mut list_end = first_line.byte_end;
    let mut next_line = start_index;
    proof {
        assert(first_t@.take(0) =~= Seq::<char>::empty());
        assert(inlines_view(items@) =~= Seq::<NodeView>::empty());
        lemma_next_start_le(s@, lines@, start_index as int);
    }
    loop
        invariant
            lines_wf(s@, lines@),
            n == s@.len(),
            start_index <= next_line <= lines@.len(),
            start_index < lines@.len(),
            id0 == old(id_gen).last(),
            first_line == lines@[start_index as int],
            list_item_content_spec(line_text(s@, first_line), kind) == Some(
                content_start_offset as int,
            ),
            !all_white_space(line_text(s@, first_line)),
            utf8_len(s@) <= usize::MAX,
            s@.len() < usize::MAX,
            id0 + (s@.len() - first_line.start) + 2 < u64::MAX,
            id0 <= id_gen.last() <= id0 + (next_start(lines@, next_line as int, n)
                - first_line.start),
            next_line == start_index ==> id_gen.last() == id0 && inlines_view(items@)
                == Seq::<NodeView>::empty() && list_end == first_line.byte_end,
            target == list_loop(
                s@,
                lines@,
                kind,
                ListState {
                    items: inlines_view(items@),
                    end: list_end,
                    next: next_line as int,
                    id: id_gen.last() as int,
                },
            ),
            target == list_loop(
                s@,
                lines@,
                kind,
                ListState { items: Seq::empty(), end: first_line.byte_end, next: start_index as int, id: id0 },
            ),
        ensures
            start_index < next_line <= lines@.len(),
            id0 <= id_gen.last() <= id0 + (next_start(lines@, next_line as int, n)
                - first_line.start),
            target == Ok::<ListState, ParseErrorView>(
                ListState {
                    items: inlines_view(items@),
                    end: list_end,
                    next: next_line as int,
                    id: id_gen.last() as int,
                },
            ),
        decreases lines@.len() - next_line,
    {
        let ghost st = ListState {
            items: inlines_view(items@),
            end: list_end,
            next: next_line as int,
            id: id_gen.last() as int,
        };
        if next_line >= lines.len() {
            break;
        }
        proof {
            lemma_next_start_step(s@, lines@, next_line as int);
            lemma_next_start_le(s@, lines@, next_line + 1);
            lemma_next_start_mono(s@, lines@, start_index as int, next_line as int);
        }
        proof {
            if next_line == start_index {
                lemma_first_item(s@, lines@, kind, next_line as int, id_gen.last() as int);
            }
        }
        match read_list_item(s, lines, next_line, kind, id_gen) {
            Err(e) => {
                proof {
                    assert(target == list_loop(s@, lines@, kind, st));
                    assert(target is Err);
                    assert(parse_list_spec(
                        s@,
                        lines@,
                        start_index as int,
                        content_start_offset as int,
                        kind,
                        id0,
                    ) == Err::<(NodeView, int, int), ParseErrorView>(e@)) by {
                        reveal(parse_list_spec);
                    }
                }
                return Err(e);
            },
            Ok(None) => {
                break;
            },
            Ok(Some(item)) => {
                let node = InlineNode::ListItem(item);
                proof {
                    lemma_inlines_view_push(items@, node);
                }
                items.push(node);
                list_end = lines[next_line].byte_end;
                next_line = next_line + 1;
            },
        }
    }
    proof {
        lemma_next_start_le(s@, lines@, next_line as int);
    }
    let id = id_gen.next_id();
    let container_type = match kind {
        ListKind::Unordered(_) => ContainerType::List,
        ListKind::Ordered => ContainerType::OrderedList,
    };
    proof {
        assert(list_start == content_ctx(s@, first_line, content_start_offset as int).byte_start);
        reveal(parse_list_spec);
    }
    Ok(
        ParsedList {
            node: ContainerNode {
                base: NodeBase::new(id, Span::new(list_start, list_end)),
                container_type,
                children: items,
            },
            next_line,
        },
    )
}

} // verus!

verus! {

/// Rejects a line that starts (after white space) with a heading marker
/// (`#` followed by a space or nothing) or a blockquote marker (`>`).
fn check_line_start(s: &Vec<char>, lines: &Vec<LineInfo>, i: usize, t: &Vec<char>) -> (r: Result<(), ParseError>)
    requires
        lines_wf(s@, lines@),
        i < lines@.len(),
        t@ == line_text(s@, lines@[i as int]),
        !all_white_space(t@),
        utf8_len(s@) <= usize::MAX,
        s@.len() < usize::MAX,
    ensures
        match line_start_error(s@, lines@[i as int]) {
            Some(e) => r matches Err(err) && err@ == e,
            None => r is Ok,
        },
{
    proof {
        reveal(line_start_error);
        lemma_next_start_step(s@, lines@, i as int);
        lemma_next_start_le(s@, lines@, i + 1);
        lemma_ws_run_bound(t@, 0);
    }
    let line = lines[i];
    let ts = trim_line_start(t);
    proof {
        lemma_line_bytes(s@, line.start as int, line.end as int, ts as int);
        assert(t@.take(0) =~= Seq::<char>::empty());
    }
    let position = SourcePosition {
        line: line.number,
        column: column_at(ts),
        byte_offset: line.byte_start + bytes_from(t, 0, ts, 0),
    };
    if t[ts] == '#' {
        let h = count_run(t, ts, '#');
        if ts + h == t.len() || t[ts + h] == ' ' {
            return Err(
                ParseError::UnsupportedSymbol {
                    symbol: crate::text::string_of(t, ts, ts + h),
                    position,
                },
            );
        }
    }
    if t[ts] == '>' {
        let mut symbol = String::new();
        push_char(&mut symbol, '>');
        proof {
            assert(symbol@ =~= seq!['>']);
        }
        return Err(ParseError::UnsupportedSymbol { symbol, position });
    }
    proof {
        lemma_char_run_bound(t@, ts as int, '#');
    }
    Ok(())
}

/// Reads a content line that starts no list into a text container.
fn parse_text_line(s: &Vec<char>, lines: &Vec<LineInfo>, i: usize, t: &Vec<char>, id_gen: &mut NodeIdGen) -> (r: Result<
    (ContainerNode, usize),
    ParseError,
>)
    requires
        lines_wf(s@, lines@),
        i < lines@.len(),
        t@ == line_text(s@, lines@[i as int]),
        utf8_len(s@) <= usize::MAX,
        s@.len() < usize::MAX,
        old(id_gen).last() + (s@.len() - lines@[i as int].start) + 2 < u64::MAX,
    ensures
        match text_block_spec(s@, lines@, i as int, old(id_gen).last() as int) {
            Ok((node, next, id2)) => {
                &&& r matches Ok((c, nx))
                &&& crate::ast::container_view(c) == node
                &&& nx == next
                &&& final(id_gen).last() == id2
                &&& next == i + 1
                &&& id2 <= old(id_gen).last() + (lines@[i as int].end - lines@[i as int].start) + 1
            },
            Err(e) => r matches Err(err) && err@ == e,
        },
{
    proof {
        reveal(text_block_spec);
        lemma_next_start_step(s@, lines@, i as int);
        lemma_next_start_le(s@, lines@, i + 1);
        lemma_line_bytes(s@, lines@[i as int].start as int, lines@[i as int].end as int, 0);
        assert(t@.take(0) =~= Seq::<char>::empty());
        assert(t@.skip(0) =~= t@);
    }
    let line = lines[i];
    let children = parse_inline_chars(
        t,
        InlineCtx { line: line.number, byte_start: line.byte_start, column_start: 1 },
        id_gen,
    );
    match children {
        Err(e) => Err(e),
        Ok(children) => {
            let id = id_gen.next_id();
            Ok(
                (
                    ContainerNode {
                        base: NodeBase::new(id, Span::new(line.byte_start, line.byte_end)),
                        container_type: ContainerType::Text,
                        children,
                    },
                    i + 1,
                ),
            )
        },
    }
}

/// Reads the block that starts at the content line `i`: a list, or a text container.
fn parse_block(s: &Vec<char>, lines: &Vec<LineInfo>, i: usize, t: &Vec<char>, id_gen: &mut NodeIdGen) -> (r: Result<
    (ContainerNode, usize),
    ParseError,
>)
    requires
        lines_wf(s@, lines@),
        i < lines@.len(),
        t@ == line_text(s@, lines@[i as int]),
        !all_white_space(t@),
        utf8_len(s@) <= usize::MAX,
        s@.len() < usize::MAX,
        old(id_gen).last() + (s@.len() - lines@[i as int].start) + 2 < u64::MAX,
    ensures
        match block_spec(s@, lines@, i as int, old(id_gen).last() as int) {
            Ok((node, next, id2)) => {
                &&& r matches Ok((c, nx))
                &&& crate::ast::container_view(c) == node
                &&& nx == next
                &&& final(id_gen).last() == id2
                &&& i < next <= lines@.len()
                &&& id2 <= old(id_gen).last() + (next_start(lines@, next, s@.len() as int)
                    - lines@[i as int].start) + 1
            },
            Err(e) => r matches Err(err) && err@ == e,
        },
{
    proof {
        lemma_next_start_step(s@, lines@, i as int);
        lemma_next_start_le(s@, lines@, i + 1);
        lemma_list_item_content_bound(t@, ListKind::Ordered);
    }
    let line = lines[i];
    if let Some((bullet, off)) = try_strip_unordered_prefix(t) {
        let parsed = parse_list(s, lines, i, line, off, ListKind::Unordered(bullet), id_gen);
        return match parsed {
            Ok(p) => Ok((p.node, p.next_line)),
            Err(e) => Err(e),
        };
    }
    if let Some(off) = try_strip_ordered_prefix(t) {
        let parsed = parse_list(s, lines, i, line, off, ListKind::Ordered, id_gen);
        return match parsed {
            Ok(p) => Ok((p.node, p.next_line)),
            Err(e) => Err(e),
        };
    }
    parse_text_line(s, lines, i, t, id_gen)
}

} // verus!

verus! {

/// The Markdown parser.
#[derive(Debug, Clone, Copy)]
pub struct MarkdownParser;

/// The symbols that the Markdown parser supports.
pub open spec fn markdown_symbols() -> Seq<SymbolView> {
    seq![
        ("**"@, "Bold"@, "**bold text**"@),
        ("*"@, "Italic"@, "*italic text*"@),
        ("_"@, "Italic (alternative)"@, "_italic text_"@),
        ("__"@, "Underline"@, "__underlined text__"@),
        ("~~"@, "Strikethrough"@, "~~strikethrough text~~"@),
        ("=="@, "Highlight"@, "==highlighted text=="@),
        ("- "@, "Unordered list"@, "- list item"@),
        ("1. "@, "Ordered list"@, "1. first item"@),
    ]
}

impl Parser for MarkdownParser {
    open spec fn parse_spec(&self, input: Seq<char>) -> Result<Seq<NodeView>, ParseErrorView> {
        parse_markdown_spec(input)
    }

    open spec fn symbols_spec(&self) -> Seq<SymbolView> {
        markdown_symbols()
    }

    #[verifier::rlimit(40)]
    fn parse(&self, input: &str) -> (r: Result<Vec<ContainerNode>, ParseError>) {
        let s = chars_of(input);
        // The length of the input in bytes bounds every byte offset below.
        let byte_len = str_byte_len(input);
        assert(utf8_len(input@) == byte_len);
        let lines = collect_lines(&s);
        let mut nodes: Vec<ContainerNode> = Vec::new();
        let mut id_gen = NodeIdGen::new();
        let mut i: usize = 0;
        let mut pending: usize = 0;
        let mut first_node = true;
        let ghost n = s@.len() as int;
        let ghost target = parse_markdown_spec(s@);
        proof {
            assert(containers_view(nodes@) =~= Seq::<NodeView>::empty());
        }
        while i < lines.len()
            invariant
                n == s@.len(),
                s@ == input@,
                input_fits(s@),
                utf8_len(s@) <= usize::MAX,
                lines@ == lines_of(s@),
                lines_wf(s@, lines@),
                i <= lines@.len(),
                pending <= i,
                first_node ==> pending == 0,
                id_gen.last() + 2 * pending <= 4 * next_start(lines@, i as int, n),
                target == parse_markdown_spec(input@),
                target == md_loop(
                    s@,
                    lines@,
                    i as int,
                    MdState {
                        nodes: containers_view(nodes@),
                        id: id_gen.last() as int,
                        pending: pending as int,
                        first: first_node,
                    },
                ),
            decreases lines@.len() - i,
        {
            proof {
                lemma_next_start_step(s@, lines@, i as int);
                lemma_next_start_le(s@, lines@, i as int);
                lemma_next_start_le(s@, lines@, i + 1);
            }
            let line = lines[i];
            let t = slice_chars(&s, line.start, line.end);
            if is_blank(&t) {
                if !first_node {
                    pending = pending + 1;
                }
                i = i + 1;
                continue;
            }
            match check_line_start(&s, &lines, i, &t) {
                Err(e) => {
                    return Err(e);
                },
                Ok(()) => {},
            }
            let ghost nodes1 = if first_node {
                containers_view(nodes@)
            } else {
                push_newlines_spec(containers_view(nodes@), pending as int, id_gen.last() as int)
            };
            if !first_node {
                push_newline_nodes(pending, &mut nodes, &mut id_gen);
            }
            match parse_block(&s, &lines, i, &t, &mut id_gen) {
                Err(e) => {
                    return Err(e);
                },
                Ok((node, next)) => {
                    proof {
                        lemma_containers_view_push(nodes@, node);
                        lemma_next_start_mono(s@, lines@, i as int, next as int);
                    }
                    nodes.push(node);
                    i = next;
                    pending = 1;
                    first_node = false;
                },
            }
        }
        Ok(nodes)
    }

    fn supported_symbols(&self) -> (r: Vec<SupportedSymbol>) {
        let v = vec![
            sym("**", "Bold", "**bold text**"),
            sym("*", "Italic", "*italic text*"),
            sym("_", "Italic (alternative)", "_italic text_"),
            sym("__", "Underline", "__underlined text__"),
            sym("~~", "Strikethrough", "~~strikethrough text~~"),
            sym("==", "Highlight", "==highlighted text=="),
            sym("- ", "Unordered list", "- list item"),
            sym("1. ", "Ordered list", "1. first item"),
        ];
        assert(symbols_view(v@) =~= markdown_symbols());
        v
    }
}

/// A character that opens no Markdown construct anywhere in a line: a plain
/// inline character that is neither `#` nor a line break or carriage return.
pub open spec fn is_plain_markdown_char(c: char) -> bool {
    is_plain_char(c) && c != '#' && c != '\n' && c != '\r'
}

proof fn lemma_no_newline_in(s: Seq<char>, k: int)
    requires
        0 <= k,
        forall|i: int| 0 <= i < s.len() ==> #[trigger] s[i] != '\n',
    ensures
        find_char_from(s, k, '\n') is None,
    decreases s.len() - k,
{
    if k < s.len() {
        lemma_no_newline_in(s, k + 1);
    }
}

/// A one-line input of plain characters that starts with neither white
/// space, a digit nor `-` is one text container that holds one text node
/// with the whole input, both spanning all of its bytes.
pub proof fn lemma_plain_markdown_line(s: Seq<char>)
    requires
        s.len() > 0,
        input_fits(s),
        utf8_len(s) <= usize::MAX,
        forall|i: int| 0 <= i < s.len() ==> #[trigger] is_plain_markdown_char(s[i]),
        !is_white_space(s[0]),
        !is_ascii_digit(s[0]),
        s[0] != '-',
    ensures
        parse_markdown_spec(s) == Result::<Seq<NodeView>, ParseErrorView>::Ok(
            seq![
                NodeView::Container {
                    base: NodeBase { id: 2, span: Span { start: 0, end: utf8_len(s) as usize } },
                    kind: ContainerType::Text,
                    children: seq![
                        NodeView::Text {
                            base: NodeBase {
                                id: 1,
                                span: Span { start: 0, end: utf8_len(s) as usize },
                            },
                            text: s,
                        },
                    ],
                },
            ],
        ),
{
    let n = s.len() as int;
    assert forall|i: int| 0 <= i < n implies #[trigger] s[i] != '\n' by {
        assert(is_plain_markdown_char(s[i]));
    }
    lemma_no_newline_in(s, 0);
    assert(is_plain_markdown_char(s[n - 1]));
    assert(is_plain_markdown_char(s[0]));
    assert(s.take(0) =~= Seq::<char>::empty());
    assert(s.take(n) =~= s);
    let line = LineInfo {
        start: 0,
        end: n as usize,
        byte_start: 0,
        byte_end: utf8_len(s) as usize,
        number: 1,
    };
    assert(lines_from(s, n, 2) =~= Seq::<LineInfo>::empty());
    assert(lines_of(s) =~= seq![line]);
    let lines = lines_of(s);
    assert(line_text(s, line) =~= s);
    assert(!all_white_space(s));
    assert(ws_run(s, 0) == 0);
    assert(char_run(s, 0, '#') == 0);
    reveal(line_start_error);
    assert(line_start_error(s, line) is None);
    assert(unordered_prefix(s) is None);
    assert(ordered_prefix(s) is None);
    assert(list_start(s) is None);
    let ctx = InlineCtx { line: 1, byte_start: 0, column_start: 1 };
    assert forall|i: int| 0 <= i < s.len() implies #[trigger] is_plain_char(s[i]) by {
        assert(is_plain_markdown_char(s[i]));
    }
    lemma_plain_line_is_one_text(ctx, s, 0);
    reveal(text_block_spec);
    let init = MdState { nodes: Seq::empty(), id: 0, pending: 0, first: true };
    let node = NodeView::Container {
        base: NodeBase { id: 2, span: Span { start: 0, end: utf8_len(s) as usize } },
        kind: ContainerType::Text,
        children: seq![
            NodeView::Text {
                base: NodeBase { id: 1, span: Span { start: 0, end: utf8_len(s) as usize } },
                text: s,
            },
        ],
    };
    assert(block_spec(s, lines, 0, 0) == Result::<(NodeView, int, int), ParseErrorView>::Ok(
        (node, 1, 2),
    ));
    assert(md_loop(s, lines, 1, MdState { nodes: seq![node], id: 2, pending: 1, first: false })
        == Result::<Seq<NodeView>, ParseErrorView>::Ok(seq![node]));
    assert(Seq::<NodeView>::empty().push(node) =~= seq![node]);
}

/// A hashtag is no heading: a one-line input that starts with `#` directly
/// followed by a plain character that is not white space, the rest plain
/// characters or `#`, is one text container that holds one text node with
/// the whole input, both spanning all of its bytes.
pub proof fn lemma_hashtag_markdown_line(s: Seq<char>)
    requires
        s.len() >= 2,
        input_fits(s),
        utf8_len(s) <= usize::MAX,
        s[0] == '#',
        is_plain_markdown_char(s[1]),
        !is_white_space(s[1]),
        forall|i: int| 0 <= i < s.len() ==> #[trigger] is_plain_markdown_char(s[i]) || s[i] == '#',
    ensures
        parse_markdown_spec(s) == Result::<Seq<NodeView>, ParseErrorView>::Ok(
            seq![
                NodeView::Container {
                    base: NodeBase { id: 2, span: Span { start: 0, end: utf8_len(s) as usize } },
                    kind: ContainerType::Text,
                    children: seq![
                        NodeView::Text {
                            base: NodeBase {
                                id: 1,
                                span: Span { start: 0, end: utf8_len(s) as usize },
                            },
                            text: s,
                        },
                    ],
                },
            ],
        ),
{
    let n = s.len() as int;
    assert forall|i: int| 0 <= i < n implies #[trigger] s[i] != '\n' by {
        assert(is_plain_markdown_char(s[i]) || s[i] == '#');
    }
    lemma_no_newline_in(s, 0);
    assert(is_plain_markdown_char(s[n - 1]) || s[n - 1] == '#');
    assert(s.take(0) =~= Seq::<char>::empty());
    assert(s.take(n) =~= s);
    let line = LineInfo {
        start: 0,
        end: n as usize,
        byte_start: 0,
        byte_end: utf8_len(s) as usize,
        number: 1,
    };
    assert(lines_from(s, n, 2) =~= Seq::<LineInfo>::empty());
    assert(lines_of(s) =~= seq![line]);
    let lines = lines_of(s);
    assert(line_text(s, line) =~= s);
    assert(!all_white_space(s));
    assert(ws_run(s, 0) == 0);
    assert(char_run(s, 1, '#') == 0);
    assert(char_run(s, 0, '#') == 1);
    assert(s[1] != ' ');
    reveal(line_start_error);
    assert(line_start_error(s, line) is None);
    assert(unordered_prefix(s) is None);
    assert(ordered_prefix(s) is None);
    assert(list_start(s) is None);
    let ctx = InlineCtx { line: 1, byte_start: 0, column_start: 1 };
    assert forall|i: int| 0 <= i < s.len() implies #[trigger] is_plain_char(s[i]) by {
        assert(is_plain_markdown_char(s[i]) || s[i] == '#');
    }
    lemma_plain_line_is_one_text(ctx, s, 0);
    reveal(text_block_spec);
    let init = MdState { nodes: Seq::empty(), id: 0, pending: 0, first: true };
    let node = NodeView::Container {
        base: NodeBase { id: 2, span: Span { start: 0, end: utf8_len(s) as usize } },
        kind: ContainerType::Text,
        children: seq![
            NodeView::Text {
                base: NodeBase { id: 1, span: Span { start: 0, end: utf8_len(s) as usize } },
                text: s,
            },
        ],
    };
    assert(block_spec(s, lines, 0, 0) == Result::<(NodeView, int, int), ParseErrorView>::Ok(
        (node, 1, 2),
    ));
    assert(md_loop(s, lines, 1, MdState { nodes: seq![node], id: 2, pending: 1, first: false })
        == Result::<Seq<NodeView>, ParseErrorView>::Ok(seq![node]));
    assert(Seq::<NodeView>::empty().push(node) =~= seq![node]);
}

proof fn lemma_find_char_from_ge(s: Seq<char>, k: int, c: char)
    requires
        0 <= k,
    ensures
        find_char_from(s, k, c) matches Some(j) ==> k <= j < s.len() && s[j] == c,
    decreases s.len() - k,
{
    if k < s.len() && s[k] != c {
        lemma_find_char_from_ge(s, k + 1, c);
    }
}

/// A document whose first line is a heading (`#` then a space) is refused
/// with the symbol `#` at line 1, column 1.
pub proof fn lemma_heading_first_line_refused(s: Seq<char>)
    requires
        s.len() >= 2,
        input_fits(s),
        s[0] == '#',
        s[1] == ' ',
    ensures
        parse_markdown_spec(s) == Result::<Seq<NodeView>, ParseErrorView>::Err(
            ParseErrorView::UnsupportedSymbol {
                symbol: seq!['#'],
                position: SourcePosition { line: 1, column: 1, byte_offset: 0 },
            },
        ),
{
    lemma_find_char_from_ge(s, 2, '\n');
    assert(find_char_from(s, 1, '\n') == find_char_from(s, 2, '\n'));
    assert(find_char_from(s, 0, '\n') == find_char_from(s, 2, '\n'));
    let text_end0 = match find_char_from(s, 0, '\n') {
        Some(j) => j,
        None => s.len() as int,
    };
    assert(text_end0 >= 2);
    assert(text_end0 == 2 ==> s[text_end0 - 1] != '\r');
    let lines = lines_of(s);
    let line = lines[0];
    assert(line.start == 0 && line.number == 1);
    assert(line.byte_start == 0) by {
        assert(s.take(0) =~= Seq::<char>::empty());
    }
    assert(line.end >= 2);
    let t = line_text(s, line);
    assert(t[0] == '#' && t[1] == ' ');
    assert(!all_white_space(t)) by {
        assert(!is_white_space(t[0]));
    }
    assert(ws_run(t, 0) == 0);
    assert(char_run(t, 1, '#') == 0);
    assert(char_run(t, 0, '#') == 1);
    assert(t.subrange(0, 1) =~= seq!['#']);
    assert(t.take(0) =~= Seq::<char>::empty());
    reveal(line_start_error);
}

proof fn lemma_char_run_prefix(t: Seq<char>, h: int, k: int)
    requires
        0 <= k <= h < t.len(),
        forall|i: int| 0 <= i < h ==> #[trigger] t[i] == '#',
        t[h] != '#',
    ensures
        char_run(t, k, '#') == h - k,
    decreases h - k,
{
    if k < h {
        lemma_char_run_prefix(t, h, k + 1);
    }
}

/// A document whose first line is a heading of any level (one or more `#`
/// then a space) is refused with its run of `#` as the symbol, at line 1,
/// column 1.
pub proof fn lemma_headings_refused(s: Seq<char>, h: int)
    requires
        1 <= h < s.len(),
        input_fits(s),
        forall|i: int| 0 <= i < h ==> #[trigger] s[i] == '#',
        s[h] == ' ',
    ensures
        parse_markdown_spec(s) == Result::<Seq<NodeView>, ParseErrorView>::Err(
            ParseErrorView::UnsupportedSymbol {
                symbol: Seq::new(h as nat, |i: int| '#'),
                position: SourcePosition { line: 1, column: 1, byte_offset: 0 },
            },
        ),
{
    lemma_find_char_from_ge(s, h + 1, '\n');
    lemma_no_newline_before(s, 0, h + 1);
    let text_end0 = match find_char_from(s, 0, '\n') {
        Some(j) => j,
        None => s.len() as int,
    };
    assert(text_end0 >= h + 1);
    assert(text_end0 == h + 1 ==> s[text_end0 - 1] != '\r');
    let lines = lines_of(s);
    let line = lines[0];
    assert(line.start == 0 && line.number == 1);
    assert(line.byte_start == 0) by {
        assert(s.take(0) =~= Seq::<char>::empty());
    }
    assert(line.end >= h + 1);
    let t = line_text(s, line);
    assert forall|i: int| 0 <= i < h implies #[trigger] t[i] == '#' by {
        assert(t[i] == s[i]);
    }
    assert(t[h] == ' ');
    assert(!all_white_space(t)) by {
        assert(!is_white_space(t[0]));
    }
    assert(ws_run(t, 0) == 0);
    lemma_char_run_prefix(t, h, 0);
    assert(t.subrange(0, h) =~= Seq::new(h as nat, |i: int| '#'));
    assert(t.take(0) =~= Seq::<char>::empty());
    reveal(line_start_error);
}

/// A document whose first line is a blockquote (it starts with `>`) is
/// refused with the symbol `>` at line 1, column 1.
pub proof fn lemma_blockquote_first_line_refused(s: Seq<char>)
    requires
        s.len() >= 1,
        input_fits(s),
        s[0] == '>',
    ensures
        parse_markdown_spec(s) == Result::<Seq<NodeView>, ParseErrorView>::Err(
            ParseErrorView::UnsupportedSymbol {
                symbol: seq!['>'],
                position: SourcePosition { line: 1, column: 1, byte_offset: 0 },
            },
        ),
{
    lemma_find_char_from_ge(s, 1, '\n');
    lemma_no_newline_before(s, 0, 1);
    let text_end0 = match find_char_from(s, 0, '\n') {
        Some(j) => j,
        None => s.len() as int,
    };
    assert(text_end0 >= 1);
    assert(text_end0 == 1 ==> s[text_end0 - 1] != '\r');
    let lines = lines_of(s);
    let line = lines[0];
    assert(line.start == 0 && line.number == 1);
    assert(line.byte_start == 0) by {
        assert(s.take(0) =~= Seq::<char>::empty());
    }
    assert(line.end >= 1);
    let t = line_text(s, line);
    assert(t[0] == '>');
    assert(!all_white_space(t)) by {
        assert(!is_white_space(t[0]));
    }
    assert(ws_run(t, 0) == 0);
    assert(char_run(t, 0, '#') == 0);
    assert(t.take(0) =~= Seq::<char>::empty());
    reveal(line_start_error);
}

proof fn lemma_no_newline_before(s: Seq<char>, k: int, e: int)
    requires
        0 <= k <= e,
        e <= s.len(),
        forall|i: int| k <= i < e ==> #[trigger] s[i] != '\n',
    ensures
        find_char_from(s, k, '\n') == find_char_from(s, e, '\n'),
    decreases e - k,
{
    if k < e {
        lemma_no_newline_before(s, k + 1, e);
    }
}

/// A one-line document that is a marker of the table, then plain
/// characters, then the same marker again (a single `*` not followed by a
/// space, which would open a list item), is one text container that holds
/// one container of the marker's kind that holds only those characters.
pub proof fn lemma_marker_markdown_line(s: Seq<char>, t: int)
    requires
        0 <= t < 6,
        s.len() >= 2 * marker_table()[t].0.len + 1,
        input_fits(s),
        utf8_len(s) <= usize::MAX,
        forall|i: int| 0 <= i < marker_table()[t].0.len ==> #[trigger] s[i] == marker_table()[t].0.ch,
        forall|i: int|
            s.len() - marker_table()[t].0.len <= i < s.len() ==> #[trigger] s[i]
                == marker_table()[t].0.ch,
        forall|i: int|
            marker_table()[t].0.len <= i < s.len() - marker_table()[t].0.len
                ==> #[trigger] is_plain_markdown_char(s[i]),
        marker_table()[t].0.ch == '*' ==> s[1] != ' ',
    ensures
        parse_markdown_spec(s) matches Ok(nodes) && nodes.len() == 1 && holds_styled_text(
            nodes[0],
            marker_table()[t].1,
            s.subrange(marker_table()[t].0.len as int, s.len() - marker_table()[t].0.len),
        ),
{
    let n = s.len() as int;
    let l = marker_table()[t].0.len as int;
    let ch = marker_table()[t].0.ch;
    assert(ch == '*' || ch == '~' || ch == '=' || ch == '_');
    assert forall|i: int| 0 <= i < n implies #[trigger] s[i] != '\n' by {
        if l <= i < n - l {
            assert(is_plain_markdown_char(s[i]));
        } else if i < l {
            assert(s[i] == ch);
        } else {
            assert(s[i] == ch);
        }
    }
    assert(s[0] == ch);
    assert(s[n - 1] == ch);
    lemma_no_newline_in(s, 0);
    assert(s.take(0) =~= Seq::<char>::empty());
    assert(s.take(n) =~= s);
    let line = LineInfo {
        start: 0,
        end: n as usize,
        byte_start: 0,
        byte_end: utf8_len(s) as usize,
        number: 1,
    };
    assert(lines_from(s, n, 2) =~= Seq::<LineInfo>::empty());
    assert(lines_of(s) =~= seq![line]);
    let lines = lines_of(s);
    assert(line_text(s, line) =~= s);
    assert(!all_white_space(s)) by {
        assert(!is_white_space(s[0]));
    }
    assert(ws_run(s, 0) == 0);
    assert(char_run(s, 0, '#') == 0);
    reveal(line_start_error);
    assert(line_start_error(s, line) is None);
    assert(unordered_prefix(s) is None);
    assert(find_dot_space(s, 0) is None || !is_ascii_digit(s[0]));
    assert(ordered_prefix(s) is None);
    assert(list_start(s) is None);
    let ctx = InlineCtx { line: 1, byte_start: 0, column_start: 1 };
    assert forall|i: int| l <= i < n - l implies #[trigger] is_plain_char(s[i]) by {
        assert(is_plain_markdown_char(s[i]));
    }
    lemma_marker_line(ctx, s, 0, t);
    reveal(text_block_spec);
    let o = parse_inline_spec(ctx, s, 0)->Ok_0;
    let node = NodeView::Container {
        base: NodeBase {
            id: (o.id + 1) as u64,
            span: Span { start: line.byte_start, end: line.byte_end },
        },
        kind: ContainerType::Text,
        children: o.nodes,
    };
    assert(block_spec(s, lines, 0, 0) == Result::<(NodeView, int, int), ParseErrorView>::Ok(
        (node, 1, o.id + 1),
    ));
    assert(md_loop(s, lines, 1, MdState { nodes: seq![node], id: o.id + 1, pending: 1, first: false })
        == Result::<Seq<NodeView>, ParseErrorView>::Ok(seq![node]));
    assert(Seq::<NodeView>::empty().push(node) =~= seq![node]);
}

/// A one-line document `**w**`, `w` made of plain characters, is one text
/// container that holds one bold container that holds only `w`.
pub proof fn lemma_bold_markdown_line(s: Seq<char>)
    requires
        s.len() >= 5,
        input_fits(s),
        utf8_len(s) <= usize::MAX,
        s[0] == '*',
        s[1] == '*',
        s[s.len() - 2] == '*',
        s[s.len() - 1] == '*',
        forall|i: int| 2 <= i < s.len() - 2 ==> #[trigger] is_plain_markdown_char(s[i]),
    ensures
        parse_markdown_spec(s) matches Ok(nodes) && nodes.len() == 1 && holds_styled_text(
            nodes[0],
            ContainerType::Bold,
            s.subrange(2, s.len() - 2),
        ),
{
    assert(marker_table()[0] == (Marker { ch: '*', len: 2 }, ContainerType::Bold));
    assert forall|i: int| 0 <= i < 2 implies #[trigger] s[i] == '*' by {}
    assert forall|i: int| s.len() - 2 <= i < s.len() implies #[trigger] s[i] == '*' by {}
    lemma_marker_markdown_line(s, 0);
}

} // verus!
