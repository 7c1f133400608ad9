//! Inline Markdown: one line of text with `**`, `~~`, `==`, `__`, `*`, `_`
//! style markers and backslash escapes.

use vstd::prelude::*;
use crate::ast::{
    ContainerNode, ContainerType, InlineNode, NodeBase, NodeView, Span, TextNode, holds_only_text,
    inline_view, inlines_view, lemma_inlines_view_push,
};
use crate::error::{ParseError, ParseErrorView, SourcePosition};
use crate::id::NodeIdGen;
use crate::text::{chars_of, char_len_utf8, push_char, string_of, utf8_len, utf8_width};

verus! {

/// Deepest accepted nesting of style markers.
pub const MAX_DEPTH: usize = 64;

/// A style marker: `len` copies of `ch` (`**` is `('*', 2)`).
#[derive(Debug, Clone, Copy, PartialEq, Eq, Structural)]
pub struct Marker {
    pub ch: char,
    pub len: usize,
}

/// Where a line sits in the whole input: its line number, the byte offset of
/// its first character and the column of its first character.
#[derive(Debug, Clone, Copy, PartialEq, Eq, Structural)]
pub struct InlineCtx {
    pub line: usize,
    pub byte_start: usize,
    pub column_start: usize,
}

/// `s[k..]` begins with the marker `m`.
pub open spec fn starts_with_marker(s: Seq<char>, k: int, m: Marker) -> bool {
    &&& 0 <= k
    &&& k + m.len <= s.len()
    &&& forall|j: int| 0 <= j < m.len ==> #[trigger] s[k + j] == m.ch
}

/// The markers, longest first: `**`, `~~`, `==`, `__`, `*`, `_`.
pub open spec fn marker_table() -> Seq<(Marker, ContainerType)> {
    seq![
        (Marker { ch: '*', len: 2 }, ContainerType::Bold),
        (Marker { ch: '~', len: 2 }, ContainerType::Strikethrough),
        (Marker { ch: '=', len: 2 }, ContainerType::Surline),
        (Marker { ch: '_', len: 2 }, ContainerType::Underline),
        (Marker { ch: '*', len: 1 }, ContainerType::Italic),
        (Marker { ch: '_', len: 1 }, ContainerType::Italic),
    ]
}

/// The first marker of the table that `s[k..]` starts with.
pub open spec fn detect_marker_spec(s: Seq<char>, k: int) -> Option<(Marker, ContainerType)> {
    first_marker_from(s, k, 0)
}

pub open spec fn first_marker_from(s: Seq<char>, k: int, t: int) -> Option<
    (Marker, ContainerType),
>
    decreases 6 - t,
{
    if t < 0 || t >= 6 {
        None
    } else if starts_with_marker(s, k, marker_table()[t].0) {
        Some(marker_table()[t])
    } else {
        first_marker_from(s, k, t + 1)
    }
}

/// The characters that no Markdown construct of this library accepts.
pub open spec fn is_unsupported_symbol_spec(c: char) -> bool {
    c == '`' || c == '[' || c == ']' || c == '<' || c == '>'
}

/// First index `j >= k` with `s[j] == c`.
pub open spec fn find_char_from(s: Seq<char>, k: int, c: char) -> Option<int>
    decreases s.len() - k,
{
    if k < 0 || k >= s.len() {
        None
    } else if s[k] == c {
        Some(k)
    } else {
        find_char_from(s, k + 1, c)
    }
}

/// The text reported for an unsupported symbol at `k`: a whole `<...>` tag
/// (up to the end of the line when it has no `>`), else the one character.
pub open spec fn extract_symbol_spec(s: Seq<char>, k: int) -> Seq<char> {
    if s[k] == '<' {
        match find_char_from(s, k, '>') {
            Some(j) => s.subrange(k, j + 1),
            None => s.subrange(k, s.len() as int),
        }
    } else {
        seq![s[k]]
    }
}

/// Byte offset (in the whole input) of the character at index `k` of the line.
pub open spec fn byte_at(ctx: InlineCtx, s: Seq<char>, k: int) -> int {
    ctx.byte_start + utf8_len(s.take(k))
}

pub open spec fn position_at(ctx: InlineCtx, s: Seq<char>, k: int) -> SourcePosition {
    SourcePosition {
        line: ctx.line,
        column: (ctx.column_start + k) as usize,
        byte_offset: byte_at(ctx, s, k) as usize,
    }
}

pub open spec fn marker_chars(m: Marker) -> Seq<char> {
    Seq::new(m.len as nat, |j: int| m.ch)
}

/// The state of the scan of one nesting level.
pub struct InlineState {
    pub nodes: Seq<NodeView>,
    pub text: Seq<char>,
    pub text_start: int,
    pub k: int,
    pub id: int,
}

/// What one nesting level produced: its nodes, the index just after what it
/// consumed, whether it met its closing marker, and the last identifier used.
pub struct InlineOutcome {
    pub nodes: Seq<NodeView>,
    pub end: int,
    pub closed: bool,
    pub id: int,
}

/// Pending text becomes a text node spanning `text_start..k`.
pub open spec fn flush_spec(ctx: InlineCtx, s: Seq<char>, st: InlineState) -> InlineState {
    if st.text.len() == 0 {
        st
    } else {
        InlineState {
            nodes: st.nodes.push(
                NodeView::Text {
                    base: NodeBase {
                        id: (st.id + 1) as u64,
                        span: Span {
                            start: byte_at(ctx, s, st.text_start) as usize,
                            end: byte_at(ctx, s, st.k) as usize,
                        },
                    },
                    text: st.text,
                },
            ),
            text: Seq::empty(),
            id: st.id + 1,
            ..st
        }
    }
}

/// The scan of one nesting level from the state `st` on.
pub open spec fn inline_loop(
    ctx: InlineCtx,
    s: Seq<char>,
    closing: Option<Marker>,
    depth: int,
    st: InlineState,
) -> Result<InlineOutcome, ParseErrorView>
    decreases s.len() - st.k, 0int,
{
    if st.k < 0 || st.k >= s.len() {
        let f = flush_spec(ctx, s, InlineState { k: s.len() as int, ..st });
        Ok(InlineOutcome { nodes: f.nodes, end: s.len() as int, closed: closing is None, id: f.id })
    } else if closing is Some && starts_with_marker(s, st.k, closing->0) {
        let f = flush_spec(ctx, s, st);
        Ok(InlineOutcome { nodes: f.nodes, end: st.k + closing->0.len, closed: true, id: f.id })
    } else if detect_marker_spec(s, st.k) is Some {
        let (m, ct) = detect_marker_spec(s, st.k)->0;
        let f = flush_spec(ctx, s, st);
        if m.len < 1 || st.k + m.len > s.len() {
            Err(ParseErrorView::InvalidHtml(Seq::empty()))
        } else {
            match inline_inner(ctx, s, st.k + m.len, Some(m), depth + 1, f.id) {
                Err(e) => Err(e),
                Ok(inner) => if !inner.closed {
                    Err(
                        ParseErrorView::UnsupportedSymbol {
                            symbol: marker_chars(m),
                            position: position_at(ctx, s, st.k),
                        },
                    )
                } else if inner.end <= st.k || inner.end > s.len() {
                    Err(ParseErrorView::InvalidHtml(Seq::empty()))
                } else {
                    let node = NodeView::Container {
                        base: NodeBase {
                            id: (inner.id + 1) as u64,
                            span: Span {
                                start: byte_at(ctx, s, st.k) as usize,
                                end: byte_at(ctx, s, inner.end) as usize,
                            },
                        },
                        kind: ct,
                        children: inner.nodes,
                    };
                    inline_loop(
                        ctx,
                        s,
                        closing,
                        depth,
                        InlineState {
                            nodes: f.nodes.push(node),
                            text: Seq::empty(),
                            text_start: inner.end,
                            k: inner.end,
                            id: inner.id + 1,
                        },
                    )
                },
            }
        }
    } else if s[st.k] == '\\' && st.k + 1 < s.len() {
        inline_loop(
            ctx,
            s,
            closing,
            depth,
            InlineState { text: st.text.push(s[st.k + 1]), k: st.k + 2, ..st },
        )
    } else if is_unsupported_symbol_spec(s[st.k]) {
        Err(
            ParseErrorView::UnsupportedSymbol {
                symbol: extract_symbol_spec(s, st.k),
                position: position_at(ctx, s, st.k),
            },
        )
    } else {
        inline_loop(
            ctx,
            s,
            closing,
            depth,
            InlineState { text: st.text.push(s[st.k]), k: st.k + 1, ..st },
        )
    }
}

/// One nesting level that starts at `pos`, with identifiers handed out after `id`.
pub open spec fn inline_inner(
    ctx: InlineCtx,
    s: Seq<char>,
    pos: int,
    closing: Option<Marker>,
    depth: int,
    id: int,
) -> Result<InlineOutcome, ParseErrorView>
    decreases s.len() - pos, 1int,
{
    if depth > MAX_DEPTH {
        Err(ParseErrorView::NestingTooDeep { depth: depth as usize, max: MAX_DEPTH })
    } else {
        inline_loop(
            ctx,
            s,
            closing,
            depth,
            InlineState { nodes: Seq::empty(), text: Seq::empty(), text_start: pos, k: pos, id },
        )
    }
}

/// The result of parsing the line `s` whose first character is at `ctx`,
/// with identifiers handed out after `id`.
#[verifier::opaque]
pub open spec fn parse_inline_spec(ctx: InlineCtx, s: Seq<char>, id: int) -> Result<
    InlineOutcome,
    ParseErrorView,
> {
    inline_inner(ctx, s, 0, None, 0, id)
}

/// The arithmetic on positions and identifiers of a parse of `s` cannot overflow.
pub open spec fn inline_fits(ctx: InlineCtx, s: Seq<char>, id: int) -> bool {
    &&& ctx.byte_start + utf8_len(s) <= usize::MAX
    &&& ctx.column_start + s.len() <= usize::MAX
    &&& id + s.len() < u64::MAX
}

} // verus!

verus! {

/// `byte_at` advances by the width of each character passed.
proof fn lemma_byte_at_step(ctx: InlineCtx, s: Seq<char>, k: int)
    requires
        0 <= k < s.len(),
    ensures
        byte_at(ctx, s, k + 1) == byte_at(ctx, s, k) + utf8_width(s[k]),
        byte_at(ctx, s, k + 1) <= ctx.byte_start + utf8_len(s),
{
    crate::text::lemma_utf8_len_take_step(s, k);
    crate::text::lemma_utf8_len_take_le(s, k + 1);
}

proof fn lemma_byte_at_mono(ctx: InlineCtx, s: Seq<char>, i: int, j: int)
    requires
        0 <= i <= j <= s.len(),
    ensures
        byte_at(ctx, s, i) <= byte_at(ctx, s, j),
{
    let t = s.take(j);
    assert(t.take(i) =~= s.take(i));
    crate::text::lemma_utf8_len_take_le(t, i);
}

proof fn lemma_byte_at_le(ctx: InlineCtx, s: Seq<char>, k: int)
    requires
        0 <= k <= s.len(),
    ensures
        ctx.byte_start <= byte_at(ctx, s, k) <= ctx.byte_start + utf8_len(s),
{
    crate::text::lemma_utf8_len_take_le(s, k);
}

fn starts_with_marker_at(s: &Vec<char>, k: usize, m: Marker) -> (r: bool)
    requires
        k <= s@.len(),
    ensures
        r == starts_with_marker(s@, k as int, m),
{
    let n = s.len();
    if m.len > n - k {
        return false;
    }
    let mut j: usize = 0;
    while j < m.len
        invariant
            j <= m.len,
            n == s@.len(),
            k <= s@.len(),
            k + m.len <= s@.len(),
            forall|i: int| 0 <= i < j ==> #[trigger] s@[k + i] == m.ch,
        decreases m.len - j,
    {
        if s[k + j] != m.ch {
            return false;
        }
        j = j + 1;
    }
    true
}

/// The first of `**`, `~~`, `==`, `__`, `*`, `_` that `s[k..]` starts with.
fn detect_marker(s: &Vec<char>, k: usize) -> (r: Option<(Marker, ContainerType)>)
    requires
        k <= s@.len(),
    ensures
        r == detect_marker_spec(s@, k as int),
        r matches Some(p) ==> 1 <= p.0.len <= 2 && (p.0.ch as u32) < 0x80 && starts_with_marker(
            s@,
            k as int,
            p.0,
        ),
{
    proof {
        reveal_with_fuel(first_marker_from, 7);
    }
    let table: [(Marker, ContainerType); 6] = [
        (Marker { ch: '*', len: 2 }, ContainerType::Bold),
        (Marker { ch: '~', len: 2 }, ContainerType::Strikethrough),
        (Marker { ch: '=', len: 2 }, ContainerType::Surline),
        (Marker { ch: '_', len: 2 }, ContainerType::Underline),
        (Marker { ch: '*', len: 1 }, ContainerType::Italic),
        (Marker { ch: '_', len: 1 }, ContainerType::Italic),
    ];
    assert(table@ == marker_table());
    let mut t: usize = 0;
    while t < 6
        invariant
            t <= 6,
            k <= s@.len(),
            table@ == marker_table(),
            first_marker_from(s@, k as int, t as int) == detect_marker_spec(s@, k as int),
        decreases 6 - t,
    {
        let entry = table[t];
        if starts_with_marker_at(s, k, entry.0) {
            return Some(entry);
        }
        t = t + 1;
    }
    None
}

fn is_unsupported_symbol(c: char) -> (r: bool)
    ensures
        r == is_unsupported_symbol_spec(c),
{
    c == '`' || c == '[' || c == ']' || c == '<' || c == '>'
}

/// First index `j >= k` with `s[j] == c`.
pub(crate) fn find_char(s: &Vec<char>, k: usize, c: char) -> (r: Option<usize>)
    requires
        k <= s@.len(),
    ensures
        r is None <==> find_char_from(s@, k as int, c) is None,
        r matches Some(j) ==> find_char_from(s@, k as int, c) == Some(j as int) && k <= j
            < s@.len() && s@[j as int] == c,
{
    let mut j = k;
    while j < s.len()
        invariant
            k <= j <= s@.len(),
            find_char_from(s@, j as int, c) == find_char_from(s@, k as int, c),
            forall|i: int| k <= i < j ==> s@[i] != c,
        decreases s@.len() - j,
    {
        if s[j] == c {
            return Some(j);
        }
        j = j + 1;
    }
    None
}

/// The text reported for an unsupported symbol at `from`.
fn extract_symbol(s: &Vec<char>, from: usize) -> (r: String)
    requires
        from < s@.len(),
    ensures
        r@ == extract_symbol_spec(s@, from as int),
{
    let n = s.len();
    if s[from] == '<' {
        let found = find_char(s, from, '>');
        match found {
            Some(j) => {
                assert(find_char_from(s@, from as int, '>') == Some(j as int));
                string_of(s, from, j + 1)
            },
            None => {
                assert(find_char_from(s@, from as int, '>') is None);
                string_of(s, from, s.len())
            },
        }
    } else {
        let mut r = String::new();
        push_char(&mut r, s[from]);
        assert(r@ =~= seq![s@[from as int]]);
        r
    }
}

fn marker_string(m: Marker) -> (r: String)
    ensures
        r@ == marker_chars(m),
{
    let mut r = String::new();
    let mut j: usize = 0;
    while j < m.len
        invariant
            j <= m.len,
            r@ =~= Seq::new(j as nat, |i: int| m.ch),
        decreases m.len - j,
    {
        push_char(&mut r, m.ch);
        j = j + 1;
    }
    r
}

fn make_text(text: String, start: usize, end: usize, id_gen: &mut NodeIdGen) -> (n: InlineNode)
    requires
        old(id_gen).last() < u64::MAX,
    ensures
        final(id_gen).last() == old(id_gen).last() + 1,
        inline_view(n) == (NodeView::Text {
            base: NodeBase { id: final(id_gen).last(), span: Span { start, end } },
            text: text@,
        }),
{
    InlineNode::Text(TextNode { base: NodeBase::new(id_gen.next_id(), Span::new(start, end)), text })
}

/// Pending text becomes a text node spanning `start..end`; nothing happens
/// when no text is pending.
fn flush_text(
    nodes: &mut Vec<InlineNode>,
    current_text: &mut String,
    start: usize,
    end: usize,
    id_gen: &mut NodeIdGen,
)
    requires
        old(id_gen).last() < u64::MAX,
    ensures
        final(current_text)@ == Seq::<char>::empty(),
        old(current_text)@.len() == 0 ==> final(nodes)@ == old(nodes)@ && final(id_gen).last()
            == old(id_gen).last(),
        old(current_text)@.len() > 0 ==> final(id_gen).last() == old(id_gen).last() + 1
            && inlines_view(final(nodes)@) == inlines_view(old(nodes)@).push(
            NodeView::Text {
                base: NodeBase { id: final(id_gen).last(), span: Span { start, end } },
                text: old(current_text)@,
            },
        ),
{
    if current_text.as_str().is_empty() {
        return ;
    }
    let mut text = String::new();
    std::mem::swap(&mut text, current_text);
    let node = make_text(text, start, end, id_gen);
    proof {
        lemma_inlines_view_push(nodes@, node);
    }
    nodes.push(node);
}

} // verus!

verus! {

/// Markers are ASCII, so passing one advances the byte offset by its length.
proof fn lemma_marker_bytes(ctx: InlineCtx, s: Seq<char>, k: int, m: Marker)
    requires
        starts_with_marker(s, k, m),
        1 <= m.len <= 2,
        (m.ch as u32) < 0x80,
    ensures
        byte_at(ctx, s, k + m.len) == byte_at(ctx, s, k) + m.len,
{
    assert(s[k + 0] == m.ch);
    lemma_byte_at_step(ctx, s, k);
    if m.len == 2 {
        assert(s[k + 1] == m.ch);
        lemma_byte_at_step(ctx, s, k + 1);
    }
}

/// What one nesting level consumed.
struct ParseOutcome {
    nodes: Vec<InlineNode>,
    consumed_bytes: usize,
    consumed_chars: usize,
    closed: bool,
}

spec fn outcome_matches(out: ParseOutcome, o: InlineOutcome, ctx: InlineCtx, s: Seq<char>, pos: int) -> bool {
    &&& inlines_view(out.nodes@) == o.nodes
    &&& out.closed == o.closed
    &&& out.consumed_chars == o.end - pos
    &&& out.consumed_bytes == byte_at(ctx, s, o.end) - byte_at(ctx, s, pos)
}

spec fn state_of(nodes: Seq<InlineNode>, text: Seq<char>, text_start: int, k: int, id: int) -> InlineState {
    InlineState { nodes: inlines_view(nodes), text, text_start, k, id }
}

#[verifier::rlimit(60)]
#[verifier::spinoff_prover]
fn parse_inline_inner(
    s: &Vec<char>,
    ctx: InlineCtx,
    pos: usize,
    bpos: usize,
    closing: Option<Marker>,
    depth: usize,
    id_gen: &mut NodeIdGen,
) -> (r: Result<ParseOutcome, ParseError>)
    requires
        pos <= s@.len(),
        bpos == byte_at(ctx, s@, pos as int),
        closing matches Some(m) ==> 1 <= m.len <= 2 && (m.ch as u32) < 0x80,
        ctx.byte_start + utf8_len(s@) <= usize::MAX,
        ctx.column_start + s@.len() <= usize::MAX,
        old(id_gen).last() + (s@.len() - pos) < u64::MAX,
    ensures
        match inline_inner(ctx, s@, pos as int, closing, depth as int, old(id_gen).last() as int) {
            Ok(o) => {
                &&& r matches Ok(out)
                &&& outcome_matches(out, o, ctx, s@, pos as int)
                &&& final(id_gen).last() == o.id
                &&& pos <= o.end <= s@.len()
                &&& o.id >= old(id_gen).last()
                &&& o.id + (if closing is Some && o.closed { 1int } else { 0int }) <= old(
                    id_gen,
                ).last() + (o.end - pos)
            },
            Err(e) => {
                &&& r matches Err(err)
                &&& err@ == e
                &&& final(id_gen).last() >= old(id_gen).last()
            },
        },
        depth > MAX_DEPTH ==> final(id_gen).last() == old(id_gen).last(),
    decreases s@.len() - pos,
{
    if depth > MAX_DEPTH {
        return Err(ParseError::NestingTooDeep { depth, max: MAX_DEPTH });
    }
    let ghost id0 = id_gen.last() as int;
    let ghost target = inline_inner(ctx, s@, pos as int, closing, depth as int, id0);
    let n = s.len();
    let mut nodes: Vec<InlineNode> = Vec::new();
    let mut current_text = String::new();
    let mut text_start_b = bpos;
    let ghost mut gk = pos as int;
    let mut k = pos;
    let mut b = bpos;
    proof {
        assert(inlines_view(nodes@) =~= Seq::<NodeView>::empty());
    }
    while k < n
        invariant
            n == s@.len(),
            pos <= gk <= k <= n,
            bpos == byte_at(ctx, s@, pos as int),
            closing matches Some(m) ==> 1 <= m.len <= 2 && (m.ch as u32) < 0x80,
            ctx.byte_start + utf8_len(s@) <= usize::MAX,
            ctx.column_start + s@.len() <= usize::MAX,
            depth <= MAX_DEPTH,
            b == byte_at(ctx, s@, k as int),
            text_start_b == byte_at(ctx, s@, gk),
            target == inline_loop(
                ctx,
                s@,
                closing,
                depth as int,
                state_of(nodes@, current_text@, gk, k as int, id_gen.last() as int),
            ),
            id_gen.last() >= id0,
            id0 == old(id_gen).last(),
            target == inline_inner(ctx, s@, pos as int, closing, depth as int, id0),
            id_gen.last() - id0 + (if current_text@.len() > 0 { 1int } else { 0int }) <= k - pos,
            id0 + (n - pos) < u64::MAX,
        decreases n - k,
    {
        let ghost st = state_of(nodes@, current_text@, gk, k as int, id_gen.last() as int);
        proof {
            lemma_byte_at_le(ctx, s@, k as int);
            lemma_byte_at_mono(ctx, s@, pos as int, k as int);
        }
        if let Some(m) = closing {
            if starts_with_marker_at(s, k, m) {
                flush_text(&mut nodes, &mut current_text, text_start_b, b, id_gen);
                proof {
                    lemma_marker_bytes(ctx, s@, k as int, m);
                    lemma_byte_at_le(ctx, s@, k + m.len);
                }
                return Ok(
                    ParseOutcome {
                        nodes,
                        consumed_bytes: b - bpos + m.len,
                        consumed_chars: k - pos + m.len,
                        closed: true,
                    },
                );
            }
        }
        if let Some((m, ct)) = detect_marker(s, k) {
            flush_text(&mut nodes, &mut current_text, text_start_b, b, id_gen);
            let ghost fid = id_gen.last() as int;
            let ghost fnodes = inlines_view(nodes@);
            proof {
                assert(flush_spec(ctx, s@, st).id == fid);
                assert(flush_spec(ctx, s@, st).nodes == fnodes);
                assert(detect_marker_spec(s@, k as int) == Some((m, ct)));
                lemma_marker_bytes(ctx, s@, k as int, m);
                lemma_byte_at_le(ctx, s@, k + m.len);
            }
            let inner_pos = k + m.len;
            let inner_b = b + m.len;
            let inner = parse_inline_inner(s, ctx, inner_pos, inner_b, Some(m), depth + 1, id_gen);
            match inner {
                Err(e) => {
                    proof {
                        assert(target == inline_loop(ctx, s@, closing, depth as int, st));
                        assert(closing is Some ==> !starts_with_marker(s@, k as int, closing->0));
                        assert(inline_inner(ctx, s@, inner_pos as int, Some(m), depth + 1, fid) is Err);
                        assert(target is Err);
                        assert(e@ == target->Err_0);
                        assert(id_gen.last() >= id0);
                        assert(target == inline_inner(ctx, s@, pos as int, closing, depth as int, id0));
                        assert(id0 == old(id_gen).last());
                    }
                    return Err(e);
                },
                Ok(inner) => {
                    if !inner.closed {
                        return Err(
                            ParseError::UnsupportedSymbol {
                                symbol: marker_string(m),
                                position: SourcePosition {
                                    line: ctx.line,
                                    column: ctx.column_start + k,
                                    byte_offset: b,
                                },
                            },
                        );
                    }
                    let ghost o = inline_inner(ctx, s@, inner_pos as int, Some(m), depth + 1, fid)->Ok_0;
                    proof {
                        lemma_byte_at_le(ctx, s@, o.end);
                    }
                    let consumed_bytes = m.len + inner.consumed_bytes;
                    let consumed_chars = m.len + inner.consumed_chars;
                    let id = id_gen.next_id();
                    let node = InlineNode::Container(
                        ContainerNode {
                            base: NodeBase::new(id, Span::new(b, b + consumed_bytes)),
                            container_type: ct,
                            children: inner.nodes,
                        },
                    );
                    proof {
                        lemma_inlines_view_push(nodes@, node);
                    }
                    nodes.push(node);
                    k = k + consumed_chars;
                    b = b + consumed_bytes;
                    text_start_b = b;
                    proof {
                        gk = k as int;
                        assert(current_text@ =~= Seq::<char>::empty());
                    }
                    continue;
                },
            }
        }
        let c = s[k];
        if c == '\\' && k + 1 < n {
            let next = s[k + 1];
            proof {
                lemma_byte_at_step(ctx, s@, k as int);
                lemma_byte_at_step(ctx, s@, k + 1);
            }
            push_char(&mut current_text, next);
            b = b + 1 + char_len_utf8(next);
            k = k + 2;
            continue;
        }
        if is_unsupported_symbol(c) {
            return Err(
                ParseError::UnsupportedSymbol {
                    symbol: extract_symbol(s, k),
                    position: SourcePosition {
                        line: ctx.line,
                        column: ctx.column_start + k,
                        byte_offset: b,
                    },
                },
            );
        }
        proof {
            lemma_byte_at_step(ctx, s@, k as int);
        }
        push_char(&mut current_text, c);
        b = b + char_len_utf8(c);
        k = k + 1;
    }
    let ghost st = state_of(nodes@, current_text@, gk, k as int, id_gen.last() as int);
    proof {
        lemma_byte_at_mono(ctx, s@, pos as int, k as int);
    }
    flush_text(&mut nodes, &mut current_text, text_start_b, b, id_gen);
    proof {
        assert(InlineState { k: s@.len() as int, ..st } == st);
    }
    let out = ParseOutcome { nodes, consumed_bytes: b - bpos, consumed_chars: k - pos, closed: closing.is_none() };
    Ok(out)
}

} // verus!

verus! {

/// `r` is what `parse_inline_spec` prescribes for the line `s`, and `id_after`
/// is the last identifier handed out (on success).
pub open spec fn inline_result_matches(
    r: Result<Vec<InlineNode>, ParseError>,
    ctx: InlineCtx,
    s: Seq<char>,
    id_before: int,
    id_after: int,
) -> bool {
    match parse_inline_spec(ctx, s, id_before) {
        Ok(o) => {
            &&& r matches Ok(v)
            &&& inlines_view(v@) == o.nodes
            &&& id_after == o.id
            &&& id_before <= o.id <= id_before + s.len()
        },
        Err(e) => {
            &&& r matches Err(err)
            &&& err@ == e
            &&& id_after >= id_before
        },
    }
}

/// Parses the line `s` (its characters), whose first character is at `ctx`.
pub(crate) fn parse_inline_chars(s: &Vec<char>, ctx: InlineCtx, id_gen: &mut NodeIdGen) -> (r: Result<
    Vec<InlineNode>,
    ParseError,
>)
    requires
        inline_fits(ctx, s@, old(id_gen).last() as int),
    ensures
        inline_result_matches(r, ctx, s@, old(id_gen).last() as int, final(id_gen).last() as int),
{
    proof {
        reveal(parse_inline_spec);
        assert(s@.take(0) =~= Seq::<char>::empty());
    }
    let outcome = parse_inline_inner(s, ctx, 0, ctx.byte_start, None, 0, id_gen);
    match outcome {
        Ok(o) => Ok(o.nodes),
        Err(e) => Err(e),
    }
}

/// Parses a single line of inline Markdown content into a list of nodes.
///
/// `line` is the line number reported in errors, `byte_start` and
/// `column_start` the byte offset and column of the line's first character.
pub fn parse_inline(
    input: &str,
    line: usize,
    byte_start: usize,
    column_start: usize,
    id_gen: &mut NodeIdGen,
) -> (r: Result<Vec<InlineNode>, ParseError>)
    requires
        inline_fits(InlineCtx { line, byte_start, column_start }, input@, old(id_gen).last() as int),
    ensures
        inline_result_matches(
            r,
            InlineCtx { line, byte_start, column_start },
            input@,
            old(id_gen).last() as int,
            final(id_gen).last() as int,
        ),
{
    let s = chars_of(input);
    parse_inline_chars(&s, InlineCtx { line, byte_start, column_start }, id_gen)
}

/// A character that inline Markdown reads as plain text: neither a marker
/// character, nor a backslash, nor an unsupported symbol.
pub open spec fn is_plain_char(c: char) -> bool {
    c != '*' && c != '_' && c != '~' && c != '=' && c != '\\' && !is_unsupported_symbol_spec(c)
}

proof fn lemma_no_marker_at(s: Seq<char>, k: int)
    requires
        0 <= k < s.len(),
        is_plain_char(s[k]),
    ensures
        detect_marker_spec(s, k) is None,
{
    reveal_with_fuel(first_marker_from, 7);
    assert(s[k + 0] == s[k]);
}

proof fn lemma_plain_loop(ctx: InlineCtx, s: Seq<char>, id: int, k: int)
    requires
        0 <= k <= s.len(),
        s.len() > 0,
        forall|i: int| 0 <= i < s.len() ==> #[trigger] is_plain_char(s[i]),
    ensures
        inline_loop(
            ctx,
            s,
            None,
            0,
            InlineState { nodes: Seq::empty(), text: s.take(k), text_start: 0, k, id },
        ) == Result::<InlineOutcome, ParseErrorView>::Ok(
            InlineOutcome {
                nodes: seq![
                    NodeView::Text {
                        base: NodeBase {
                            id: (id + 1) as u64,
                            span: Span {
                                start: byte_at(ctx, s, 0) as usize,
                                end: byte_at(ctx, s, s.len() as int) as usize,
                            },
                        },
                        text: s,
                    },
                ],
                end: s.len() as int,
                closed: true,
                id: id + 1,
            },
        ),
    decreases s.len() - k,
{
    if k < s.len() {
        lemma_no_marker_at(s, k);
        assert(is_plain_char(s[k]));
        assert(s.take(k).push(s[k]) =~= s.take(k + 1));
        lemma_plain_loop(ctx, s, id, k + 1);
    } else {
        assert(s.take(k) =~= s);
    }
}

/// A line made of plain characters only is one text node that holds the
/// whole line and spans all of its bytes.
pub proof fn lemma_plain_line_is_one_text(ctx: InlineCtx, s: Seq<char>, id: int)
    requires
        s.len() > 0,
        forall|i: int| 0 <= i < s.len() ==> #[trigger] is_plain_char(s[i]),
    ensures
        parse_inline_spec(ctx, s, id) == Result::<InlineOutcome, ParseErrorView>::Ok(
            InlineOutcome {
                nodes: seq![
                    NodeView::Text {
                        base: NodeBase {
                            id: (id + 1) as u64,
                            span: Span {
                                start: ctx.byte_start,
                                end: (ctx.byte_start + utf8_len(s)) as usize,
                            },
                        },
                        text: s,
                    },
                ],
                end: s.len() as int,
                closed: true,
                id: id + 1,
            },
        ),
{
    reveal(parse_inline_spec);
    assert(s.take(0) =~= Seq::<char>::empty());
    assert(s.take(s.len() as int) =~= s);
    lemma_plain_loop(ctx, s, id, 0);
}

proof fn lemma_plain_run_to_marker(
    ctx: InlineCtx,
    s: Seq<char>,
    m: Marker,
    depth: int,
    id: int,
    from: int,
    to: int,
    k: int,
)
    requires
        0 <= from <= k <= to,
        from < to,
        m.len >= 1,
        to + m.len <= s.len(),
        starts_with_marker(s, to, m),
        forall|i: int| from <= i < to ==> #[trigger] is_plain_char(s[i]) && s[i] != m.ch,
    ensures
        inline_loop(
            ctx,
            s,
            Some(m),
            depth,
            InlineState {
                nodes: Seq::empty(),
                text: s.subrange(from, k),
                text_start: from,
                k,
                id,
            },
        ) == Result::<InlineOutcome, ParseErrorView>::Ok(
            InlineOutcome {
                nodes: seq![
                    NodeView::Text {
                        base: NodeBase {
                            id: (id + 1) as u64,
                            span: Span {
                                start: byte_at(ctx, s, from) as usize,
                                end: byte_at(ctx, s, to) as usize,
                            },
                        },
                        text: s.subrange(from, to),
                    },
                ],
                end: to + m.len,
                closed: true,
                id: id + 1,
            },
        ),
    decreases to - k,
{
    if k < to {
        assert(is_plain_char(s[k]) && s[k] != m.ch);
        assert(!starts_with_marker(s, k, m)) by {
            assert(s[k + 0] == s[k]);
        }
        lemma_no_marker_at(s, k);
        assert(s.subrange(from, k).push(s[k]) =~= s.subrange(from, k + 1));
        lemma_plain_run_to_marker(ctx, s, m, depth, id, from, to, k + 1);
    }
}

/// A line that is a marker of the table, then plain characters, then the
/// same marker again, is one container of the marker's kind that holds one
/// text node with those characters.
#[verifier::spinoff_prover]
pub proof fn lemma_marker_line(ctx: InlineCtx, s: Seq<char>, id: int, t: int)
    requires
        0 <= t < 6,
        s.len() >= 2 * marker_table()[t].0.len + 1,
        forall|i: int| 0 <= i < marker_table()[t].0.len ==> #[trigger] s[i] == marker_table()[t].0.ch,
        forall|i: int|
            s.len() - marker_table()[t].0.len <= i < s.len() ==> #[trigger] s[i]
                == marker_table()[t].0.ch,
        forall|i: int|
            marker_table()[t].0.len <= i < s.len() - marker_table()[t].0.len ==> #[trigger] is_plain_char(s[i]),
    ensures
        parse_inline_spec(ctx, s, id) matches Ok(o) && o.nodes.len() == 1 && holds_only_text(
            o.nodes[0],
            marker_table()[t].1,
            s.subrange(marker_table()[t].0.len as int, s.len() - marker_table()[t].0.len),
        ),
{
    reveal(parse_inline_spec);
    reveal_with_fuel(first_marker_from, 7);
    let n = s.len() as int;
    let m = marker_table()[t].0;
    let kind = marker_table()[t].1;
    let l = m.len as int;
    assert(1 <= l <= 2);
    assert(s[l] != '*' && s[l] != '~' && s[l] != '=' && s[l] != '_') by {
        assert(is_plain_char(s[l]));
    }
    assert(starts_with_marker(s, 0, m)) by {
        assert forall|j: int| 0 <= j < l implies #[trigger] s[0 + j] == m.ch by {
            assert(s[0 + j] == s[j]);
        }
    }
    assert forall|u: int| 0 <= u < t implies !starts_with_marker(s, 0, #[trigger] marker_table()[u].0) by {
        let mu = marker_table()[u].0;
        if mu.ch == m.ch {
            assert(mu.len == 2 && l == 1);
            assert(s[0int + 1] == s[1]);
        } else {
            assert(s[0int + 0] == s[0]);
        }
    }
    assert(detect_marker_spec(s, 0) == Some((m, kind)));
    assert(starts_with_marker(s, n - l, m));
    assert(m.ch == '*' || m.ch == '~' || m.ch == '=' || m.ch == '_');
    assert forall|i: int| l <= i < n - l implies #[trigger] is_plain_char(s[i]) && s[i] != m.ch by {
        assert(is_plain_char(s[i]));
    }
    assert(s.subrange(l, l) =~= Seq::<char>::empty());
    lemma_plain_run_to_marker(ctx, s, m, 1, id, l, n - l, l);
    let st0 = InlineState { nodes: Seq::empty(), text: Seq::empty(), text_start: 0, k: 0, id };
    let inner = inline_inner(ctx, s, l, Some(m), 1, id);
    assert(inner == inline_loop(
        ctx,
        s,
        Some(m),
        1,
        InlineState { nodes: Seq::empty(), text: s.subrange(l, l), text_start: l, k: l, id },
    ));
    assert(inner is Ok);
    let o = inner->Ok_0;
    assert(o.closed && o.end == n);
    let node = NodeView::Container {
        base: NodeBase {
            id: (o.id + 1) as u64,
            span: Span { start: byte_at(ctx, s, 0) as usize, end: byte_at(ctx, s, n) as usize },
        },
        kind: kind,
        children: o.nodes,
    };
    let st1 = InlineState { nodes: seq![node], text: Seq::empty(), text_start: n, k: n, id: o.id + 1 };
    assert(Seq::<NodeView>::empty().push(node) =~= seq![node]);
    assert(inline_loop(ctx, s, None, 0, st0) == inline_loop(ctx, s, None, 0, st1));
}

/// A line that is `**`, then plain characters other than `*`, then `**`,
/// is one bold container that holds one text node with those characters.
pub proof fn lemma_bold_line(ctx: InlineCtx, s: Seq<char>, id: int)
    requires
        s.len() >= 5,
        s[0] == '*',
        s[1] == '*',
        s[s.len() - 2] == '*',
        s[s.len() - 1] == '*',
        forall|i: int| 2 <= i < s.len() - 2 ==> #[trigger] is_plain_char(s[i]),
    ensures
        parse_inline_spec(ctx, s, id) matches Ok(o) && o.nodes.len() == 1 && holds_only_text(
            o.nodes[0],
            ContainerType::Bold,
            s.subrange(2, s.len() - 2),
        ),
{
    assert(marker_table()[0] == (Marker { ch: '*', len: 2 }, ContainerType::Bold));
    assert forall|i: int| 0 <= i < 2 implies #[trigger] s[i] == '*' by {}
    assert forall|i: int| s.len() - 2 <= i < s.len() implies #[trigger] s[i] == '*' by {}
    lemma_marker_line(ctx, s, id, 0);
}

/// The kinds of container that inline Markdown produces: the five styles.
pub open spec fn is_style_kind(k: ContainerType) -> bool {
    k == ContainerType::Bold || k == ContainerType::Italic || k == ContainerType::Underline
        || k == ContainerType::Strikethrough || k == ContainerType::Surline
}

/// A node of inline output: a non-empty text, or a style container whose
/// children are themselves inline output.
pub open spec fn inline_node_ok(n: NodeView) -> bool
    decreases n, 1int,
{
    match n {
        NodeView::Text { text, .. } => text.len() > 0,
        NodeView::Container { kind, children, .. } => is_style_kind(kind) && inline_nodes_ok(
            children,
        ),
        NodeView::ListItem { .. } => false,
    }
}

/// Inline output: every node is `inline_node_ok` and no two text nodes
/// stand side by side.
pub open spec fn inline_nodes_ok(s: Seq<NodeView>) -> bool
    decreases s, 0int,
{
    if s.len() == 0 {
        true
    } else {
        &&& inline_nodes_ok(s.drop_last())
        &&& inline_node_ok(s.last())
        &&& !(s.len() >= 2 && s.last() is Text && s.drop_last().last() is Text)
    }
}

/// The identifiers of a node's tree, children before their container.
pub open spec fn node_ids(n: NodeView) -> Seq<u64>
    decreases n, 1int,
{
    match n {
        NodeView::Text { base, .. } => seq![base.id],
        NodeView::Container { base, children, .. } => nodes_ids(children).push(base.id),
        NodeView::ListItem { base, children } => nodes_ids(children).push(base.id),
    }
}

/// The identifiers of the trees of `s`, in order.
pub open spec fn nodes_ids(s: Seq<NodeView>) -> Seq<u64>
    decreases s, 0int,
{
    if s.len() == 0 {
        Seq::empty()
    } else {
        nodes_ids(s.drop_last()) + node_ids(s.last())
    }
}

/// The identifiers handed out after `from`, up to `to`.
pub open spec fn id_range(from: int, to: int) -> Seq<u64> {
    Seq::new((to - from) as nat, |i: int| (from + 1 + i) as u64)
}

proof fn lemma_id_range_push(from: int, to: int)
    requires
        from <= to,
    ensures
        id_range(from, to).push((to + 1) as u64) == id_range(from, to + 1),
{
    assert(id_range(from, to).push((to + 1) as u64) =~= id_range(from, to + 1));
}

proof fn lemma_id_range_append(a: int, b: int, c: int)
    requires
        a <= b <= c,
    ensures
        id_range(a, b) + id_range(b, c) == id_range(a, c),
{
    assert(id_range(a, b) + id_range(b, c) =~= id_range(a, c));
}

proof fn lemma_first_marker_kind(s: Seq<char>, k: int, t: int)
    ensures
        first_marker_from(s, k, t) matches Some((m, ct)) ==> is_style_kind(ct) && m.len >= 1,
    decreases 6 - t,
{
    if 0 <= t < 6 && !starts_with_marker(s, k, marker_table()[t].0) {
        lemma_first_marker_kind(s, k, t + 1);
    }
}

/// What holds of every state of one nesting level: the nodes so far are
/// inline output that does not end with a text node, and their identifiers
/// are those handed out since `id0`.
pub open spec fn loop_state_ok(st: InlineState, id0: int) -> bool {
    &&& inline_nodes_ok(st.nodes)
    &&& (st.nodes.len() > 0 ==> !(st.nodes.last() is Text))
    &&& id0 <= st.id
    &&& nodes_ids(st.nodes) == id_range(id0, st.id)
}

proof fn lemma_flush_ok(ctx: InlineCtx, s: Seq<char>, st: InlineState, id0: int)
    requires
        loop_state_ok(st, id0),
    ensures
        ({
            let f = flush_spec(ctx, s, st);
            &&& inline_nodes_ok(f.nodes)
            &&& id0 <= f.id
            &&& nodes_ids(f.nodes) == id_range(id0, f.id)
            &&& f.k == st.k
            &&& f.text.len() == 0
        }),
{
    if st.text.len() > 0 {
        let f = flush_spec(ctx, s, st);
        assert(f.nodes.drop_last() =~= st.nodes);
        assert(inline_node_ok(f.nodes.last()));
        assert(inline_nodes_ok(f.nodes));
        assert(node_ids(f.nodes.last()) == seq![(st.id + 1) as u64]);
        lemma_id_range_push(id0, st.id);
        assert(nodes_ids(f.nodes) =~= id_range(id0, f.id));
    }
}

proof fn lemma_loop_ok(
    ctx: InlineCtx,
    s: Seq<char>,
    closing: Option<Marker>,
    depth: int,
    st: InlineState,
    id0: int,
)
    requires
        loop_state_ok(st, id0),
    ensures
        inline_loop(ctx, s, closing, depth, st) matches Ok(o) ==> inline_nodes_ok(o.nodes) && id0
            <= o.id && nodes_ids(o.nodes) == id_range(id0, o.id),
    decreases s.len() - st.k, 0int,
{
    if st.k < 0 || st.k >= s.len() {
        lemma_flush_ok(ctx, s, InlineState { k: s.len() as int, ..st }, id0);
    } else if closing is Some && starts_with_marker(s, st.k, closing->0) {
        lemma_flush_ok(ctx, s, st, id0);
    } else if detect_marker_spec(s, st.k) is Some {
        let (m, ct) = detect_marker_spec(s, st.k)->0;
        lemma_first_marker_kind(s, st.k, 0);
        let f = flush_spec(ctx, s, st);
        lemma_flush_ok(ctx, s, st, id0);
        if !(m.len < 1 || st.k + m.len > s.len()) {
            lemma_inner_ok(ctx, s, st.k + m.len, Some(m), depth + 1, f.id);
            match inline_inner(ctx, s, st.k + m.len, Some(m), depth + 1, f.id) {
                Ok(inner) => {
                    if inner.closed && !(inner.end <= st.k || inner.end > s.len()) {
                        let node = NodeView::Container {
                            base: NodeBase {
                                id: (inner.id + 1) as u64,
                                span: Span {
                                    start: byte_at(ctx, s, st.k) as usize,
                                    end: byte_at(ctx, s, inner.end) as usize,
                                },
                            },
                            kind: ct,
                            children: inner.nodes,
                        };
                        let st2 = InlineState {
                            nodes: f.nodes.push(node),
                            text: Seq::empty(),
                            text_start: inner.end,
                            k: inner.end,
                            id: inner.id + 1,
                        };
                        assert(st2.nodes.drop_last() =~= f.nodes);
                        assert(st2.nodes.last() == node);
                        assert(inline_node_ok(node));
                        assert(inline_nodes_ok(st2.nodes));
                        assert(node_ids(node) == nodes_ids(inner.nodes).push((inner.id + 1) as u64));
                        lemma_id_range_append(id0, f.id, inner.id);
                        lemma_id_range_push(id0, inner.id);
                        assert(nodes_ids(st2.nodes) =~= id_range(id0, inner.id + 1));
                        lemma_loop_ok(ctx, s, closing, depth, st2, id0);
                    }
                },
                Err(_) => {},
            }
        }
    } else if s[st.k] == '\\' && st.k + 1 < s.len() {
        lemma_loop_ok(
            ctx,
            s,
            closing,
            depth,
            InlineState { text: st.text.push(s[st.k + 1]), k: st.k + 2, ..st },
            id0,
        );
    } else if is_unsupported_symbol_spec(s[st.k]) {
    } else {
        lemma_loop_ok(
            ctx,
            s,
            closing,
            depth,
            InlineState { text: st.text.push(s[st.k]), k: st.k + 1, ..st },
            id0,
        );
    }
}

proof fn lemma_inner_ok(
    ctx: InlineCtx,
    s: Seq<char>,
    pos: int,
    closing: Option<Marker>,
    depth: int,
    id: int,
)
    ensures
        inline_inner(ctx, s, pos, closing, depth, id) matches Ok(o) ==> inline_nodes_ok(o.nodes)
            && id <= o.id && nodes_ids(o.nodes) == id_range(id, o.id),
    decreases s.len() - pos, 1int,
{
    if depth <= MAX_DEPTH {
        let st = InlineState { nodes: Seq::empty(), text: Seq::empty(), text_start: pos, k: pos, id };
        assert(id_range(id, id) =~= Seq::<u64>::empty());
        lemma_loop_ok(ctx, s, closing, depth, st, id);
    }
}

/// What a line of inline Markdown becomes is inline output — non-empty
/// text nodes, never two side by side, and containers of the five styles
/// only, never a list item — and its node identifiers, children before
/// their container, are exactly those handed out after `id`, one each.
pub proof fn lemma_inline_output_shape_and_ids(ctx: InlineCtx, s: Seq<char>, id: int)
    ensures
        parse_inline_spec(ctx, s, id) matches Ok(o) ==> inline_nodes_ok(o.nodes) && id <= o.id
            && nodes_ids(o.nodes) == id_range(id, o.id),
{
    reveal(parse_inline_spec);
    lemma_inner_ok(ctx, s, 0, None, 0, id);
}

/// The same laws stated over what `parse_inline` returns: `r`, a result that
/// it may give for the line `s` with the counter going from `before` to
/// `after`, is on success inline output whose identifiers are exactly
/// `before + 1 ..= after`, pairwise distinct; on failure the counter did
/// not go down.
pub proof fn lemma_parse_inline_result(
    r: Result<Vec<InlineNode>, ParseError>,
    ctx: InlineCtx,
    s: Seq<char>,
    before: int,
    after: int,
)
    requires
        0 <= before,
        inline_fits(ctx, s, before),
        inline_result_matches(r, ctx, s, before, after),
    ensures
        match r {
            Ok(v) => {
                &&& inline_nodes_ok(inlines_view(v@))
                &&& nodes_ids(inlines_view(v@)) == id_range(before, after)
                &&& forall|i: int, j: int|
                    0 <= i < j < nodes_ids(inlines_view(v@)).len() ==> nodes_ids(
                        inlines_view(v@),
                    )[i] != nodes_ids(inlines_view(v@))[j]
            },
            Err(_) => after >= before,
        },
{
    lemma_inline_output_shape_and_ids(ctx, s, before);
    if r is Ok {
        let ids = id_range(before, after);
        assert forall|i: int, j: int| 0 <= i < j < ids.len() implies ids[i] != ids[j] by {
            assert(before + 1 + j < u64::MAX);
        }
    }
}

} // verus!
