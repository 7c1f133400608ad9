//! The conversion service: picks the parser that a syntax name designates,
//! parses the content and renders it as Unicode-styled text.

use vstd::prelude::*;
use crate::ast::{ContainerNode, ContainerType, NodeBase, NodeView, Span, containers_view};
use crate::inline::{
    InlineCtx, is_plain_char, lemma_plain_line_is_one_text, marker_table, parse_inline_spec,
};
use crate::converter::{convert, lemma_render_styled_text, node_unicode, nodes_unicode, styled};
use crate::handlers::bold::bold_table;
use crate::handlers::shared::{grapheme_clusters, table_all};
use crate::error::{ParseError, ParseErrorView};
use crate::html::{
    HtmlParser, close_tag, html_symbols, is_lower_ascii_name, lemma_html_style_tags,
    lemma_plain_html_text, lemma_strong_html, open_tag, parse_html_spec, strong_name,
    tag_wraps_in,
};
use crate::markdown::{
    LineInfo, MdState, block_spec, char_run, line_start_error, line_text, lines_of, list_start,
    md_loop, newline_node, ordered_prefix, push_newlines_spec, text_block_spec, unordered_prefix,
    ws_run,
    MarkdownParser, is_plain_markdown_char, lemma_bold_markdown_line, lemma_marker_markdown_line, lemma_hashtag_markdown_line, lemma_plain_markdown_line,
    markdown_symbols, parse_markdown_spec,
};
use crate::syntax::{
    Parser, SupportedSymbol, SymbolView, input_fits, parse_result_matches, symbols_view,
};
use crate::text::{
    all_white_space, chars_of, decimal, is_ascii_digit, is_blank, is_white_space,
    lemma_chars_le_bytes, lemma_utf8_len_append, push_chars, same_chars, str_byte_len, str_to_lowercase, to_lowercase,
    usize_to_decimal, utf8_len,
};

verus! {

/// Largest content, in bytes, that the service converts (10 MiB).
pub const MAX_SIZE: usize = 10485760;

/// Why the service could not convert a content.
#[derive(Debug, Clone)]
pub enum ServiceError {
    Parse(ParseError),
    UnsupportedSyntax(String),
    InputTooLarge { found: usize, max: usize },
}

/// The model of a `ServiceError`, with its strings as character sequences.
pub enum ServiceErrorView {
    Parse(ParseErrorView),
    UnsupportedSyntax(Seq<char>),
    InputTooLarge { found: usize, max: usize },
}

impl View for ServiceError {
    type V = ServiceErrorView;

    open spec fn view(&self) -> ServiceErrorView {
        match self {
            ServiceError::Parse(e) => ServiceErrorView::Parse(e@),
            ServiceError::UnsupportedSyntax(s) => ServiceErrorView::UnsupportedSyntax(s@),
            ServiceError::InputTooLarge { found, max } => ServiceErrorView::InputTooLarge {
                found: *found,
                max: *max,
            },
        }
    }
}

impl ServiceErrorView {
    /// The French message shown to users.
    pub open spec fn message(&self) -> Seq<char> {
        match self {
            ServiceErrorView::Parse(e) => "Erreur de parsing : "@ + e.message(),
            ServiceErrorView::UnsupportedSyntax(s) => "Syntaxe non supportée : '"@ + *s
                + "'. Syntaxes disponibles : markdown, html"@,
            ServiceErrorView::InputTooLarge { found, max } => "Contenu trop volumineux : "@
                + decimal(*found as nat) + " octets (maximum : "@ + decimal(*max as nat) + ")"@,
        }
    }
}

impl ServiceError {
    /// The French message shown to users.
    pub fn to_string(&self) -> (s: String)
        ensures
            s@ == self@.message(),
    {
        let mut s = String::new();
        match self {
            ServiceError::Parse(e) => {
                push_chars(&mut s, "Erreur de parsing : ");
                push_chars(&mut s, e.to_string().as_str());
            },
            ServiceError::UnsupportedSyntax(name) => {
                push_chars(&mut s, "Syntaxe non supportée : '");
                push_chars(&mut s, name.as_str());
                push_chars(&mut s, "'. Syntaxes disponibles : markdown, html");
            },
            ServiceError::InputTooLarge { found, max } => {
                push_chars(&mut s, "Contenu trop volumineux : ");
                push_chars(&mut s, usize_to_decimal(*found).as_str());
                push_chars(&mut s, " octets (maximum : ");
                push_chars(&mut s, usize_to_decimal(*max).as_str());
                push_chars(&mut s, ")");
            },
        }
        s
    }
}

impl From<ParseError> for ServiceError {
    fn from(e: ParseError) -> (r: Self) {
        ServiceError::Parse(e)
    }
}

impl vstd::std_specs::convert::FromSpecImpl<ParseError> for ServiceError {
    open spec fn obeys_from_spec() -> bool {
        true
    }

    open spec fn from_spec(e: ParseError) -> Self {
        ServiceError::Parse(e)
    }
}

/// The syntaxes that the service converts.
#[derive(Debug, Clone, Copy, PartialEq, Eq, Structural)]
pub enum Syntax {
    Markdown,
    Html,
}

/// The syntax that a lower-case name designates: `markdown` or `md`, or
/// `html`.
pub open spec fn syntax_named(lowered: Seq<char>) -> Option<Syntax> {
    if lowered == "markdown"@ || lowered == "md"@ {
        Some(Syntax::Markdown)
    } else if lowered == "html"@ {
        Some(Syntax::Html)
    } else {
        None
    }
}

/// The syntax that the lower-case name `lowered` designates.
pub fn syntax_from_lowercase(lowered: &str) -> (r: Option<Syntax>)
    ensures
        r == syntax_named(lowered@),
{
    if same_chars(lowered, "markdown") || same_chars(lowered, "md") {
        Some(Syntax::Markdown)
    } else if same_chars(lowered, "html") {
        Some(Syntax::Html)
    } else {
        None
    }
}

/// What `list_syntaxes` answers for the lower-cased syntax name `lowered`.
pub open spec fn list_spec(lowered: Seq<char>) -> Result<Seq<SymbolView>, ServiceErrorView> {
    match syntax_named(lowered) {
        Some(Syntax::Markdown) => Ok(markdown_symbols()),
        Some(Syntax::Html) => Ok(html_symbols()),
        None => Err(ServiceErrorView::UnsupportedSyntax(lowered)),
    }
}

/// What `convert` answers for the lower-cased syntax name `lowered` and the
/// content `content`: an error for a content of more than `MAX_SIZE` bytes;
/// an empty text for a content made of white space only; an error for an
/// unknown syntax; else the parser's error, or the rendering of its nodes.
pub open spec fn convert_spec(lowered: Seq<char>, content: Seq<char>) -> Result<
    Seq<char>,
    ServiceErrorView,
> {
    if utf8_len(content) > MAX_SIZE {
        Err(ServiceErrorView::InputTooLarge { found: utf8_len(content) as usize, max: MAX_SIZE })
    } else if all_white_space(content) {
        Ok(Seq::empty())
    } else {
        let parsed = match syntax_named(lowered) {
            Some(Syntax::Markdown) => Some(parse_markdown_spec(content)),
            Some(Syntax::Html) => Some(parse_html_spec(content)),
            None => None,
        };
        match parsed {
            Some(Ok(nodes)) => Ok(nodes_unicode(nodes)),
            Some(Err(e)) => Err(ServiceErrorView::Parse(e)),
            None => Err(ServiceErrorView::UnsupportedSyntax(lowered)),
        }
    }
}

/// `r` is the answer that `spec` prescribes.
pub open spec fn service_result_matches<T, V>(
    r: Result<T, ServiceError>,
    spec: Result<V, ServiceErrorView>,
    view: spec_fn(T) -> V,
) -> bool {
    match spec {
        Ok(v) => r matches Ok(t) && view(t) == v,
        Err(e) => r matches Err(err) && err@ == e,
    }
}

/// Converts Markdown or HTML content into Unicode-styled text.
#[derive(Clone)]
pub struct ContentService {
    markdown_parser: MarkdownParser,
    html_parser: HtmlParser,
}

impl ContentService {
    pub fn new() -> (s: Self) {
        ContentService { markdown_parser: MarkdownParser, html_parser: HtmlParser }
    }

    /// The supported symbols of the syntax whose lower-case name is
    /// `lowered`.
    pub fn list_syntaxes_lowercase(&self, lowered: &str) -> (r: Result<
        Vec<SupportedSymbol>,
        ServiceError,
    >)
        ensures
            service_result_matches(
                r,
                list_spec(lowered@),
                |v: Vec<SupportedSymbol>| symbols_view(v@),
            ),
    {
        match syntax_from_lowercase(lowered) {
            Some(Syntax::Markdown) => Ok(self.markdown_parser.supported_symbols()),
            Some(Syntax::Html) => Ok(self.html_parser.supported_symbols()),
            None => Err(ServiceError::UnsupportedSyntax(lowered.to_owned())),
        }
    }

    /// Returns the supported symbols of the syntax named `syntax`, in any
    /// case.
    pub fn list_syntaxes(&self, syntax: &str) -> (r: Result<Vec<SupportedSymbol>, ServiceError>)
        ensures
            service_result_matches(
                r,
                list_spec(to_lowercase(syntax@)),
                |v: Vec<SupportedSymbol>| symbols_view(v@),
            ),
    {
        let lowered = str_to_lowercase(syntax);
        self.list_syntaxes_lowercase(lowered.as_str())
    }

    /// Parses `content` with the parser of the syntax whose lower-case name
    /// is `lowered`, then renders it.
    pub fn convert_lowercase(&self, lowered: &str, content: &str) -> (r: Result<
        String,
        ServiceError,
    >)
        ensures
            service_result_matches(r, convert_spec(lowered@, content@), |s: String| s@),
    {
        let size = str_byte_len(content);
        if size > MAX_SIZE {
            return Err(ServiceError::InputTooLarge { found: size, max: MAX_SIZE });
        }
        if is_blank(&chars_of(content)) {
            return Ok(String::new());
        }
        assert(input_fits(content@));
        let parsed = match syntax_from_lowercase(lowered) {
            Some(Syntax::Markdown) => self.markdown_parser.parse(content),
            Some(Syntax::Html) => self.html_parser.parse(content),
            None => {
                return Err(ServiceError::UnsupportedSyntax(lowered.to_owned()));
            },
        };
        match parsed {
            Ok(nodes) => Ok(convert(nodes.as_slice())),
            Err(e) => Err(ServiceError::from(e)),
        }
    }

    /// Parses `content` with the parser of the syntax named `syntax`, in
    /// any case, then renders it.
    pub fn convert(&self, syntax: &str, content: &str) -> (r: Result<String, ServiceError>)
        ensures
            service_result_matches(
                r,
                convert_spec(to_lowercase(syntax@), content@),
                |s: String| s@,
            ),
    {
        let lowered = str_to_lowercase(syntax);
        self.convert_lowercase(lowered.as_str(), content)
    }
}

impl Default for ContentService {
    fn default() -> (s: Self) {
        Self::new()
    }
}

/// Content made of white space only (within the size limit) converts to
/// the empty text, whatever the syntax name, known or not.
pub proof fn lemma_blank_content_converts_to_empty(lowered: Seq<char>, content: Seq<char>)
    requires
        utf8_len(content) <= MAX_SIZE,
        all_white_space(content),
    ensures
        convert_spec(lowered, content) == Result::<Seq<char>, ServiceErrorView>::Ok(Seq::empty()),
{
}

/// Content of more than `MAX_SIZE` bytes is refused before anything else,
/// whatever the syntax name.
pub proof fn lemma_oversized_content_refused(lowered: Seq<char>, content: Seq<char>)
    requires
        utf8_len(content) > MAX_SIZE,
    ensures
        convert_spec(lowered, content) == Result::<Seq<char>, ServiceErrorView>::Err(
            ServiceErrorView::InputTooLarge { found: utf8_len(content) as usize, max: MAX_SIZE },
        ),
{
}

/// A syntax name that is neither `markdown`, `md` nor `html` is refused,
/// with the name, for any content that is neither blank nor too large.
pub proof fn lemma_unknown_syntax_refused(lowered: Seq<char>, content: Seq<char>)
    requires
        syntax_named(lowered) is None,
        utf8_len(content) <= MAX_SIZE,
        !all_white_space(content),
    ensures
        convert_spec(lowered, content) == Result::<Seq<char>, ServiceErrorView>::Err(
            ServiceErrorView::UnsupportedSyntax(lowered),
        ),
        list_spec(lowered) == Result::<Seq<SymbolView>, ServiceErrorView>::Err(
            ServiceErrorView::UnsupportedSyntax(lowered),
        ),
{
}

/// `md` is another name of Markdown: every content converts and lists
/// symbols under `md` as it does under `markdown`.
pub proof fn lemma_md_names_markdown(content: Seq<char>)
    ensures
        convert_spec("md"@, content) == convert_spec("markdown"@, content),
        list_spec("md"@) == list_spec("markdown"@),
{
    reveal_strlit("markdown");
    reveal_strlit("md");
    reveal_strlit("html");
    assert("md"@ != "html"@) by {
        assert("md"@.len() != "html"@.len());
    }
    assert("markdown"@ != "html"@) by {
        assert("markdown"@.len() != "html"@.len());
    }
}

/// Plain text passes through unchanged: a one-line text of plain characters
/// (see `is_plain_markdown_char`) that starts with neither white space, a
/// digit nor `-` converts to itself, from Markdown and from HTML.
pub proof fn lemma_plain_text_passes_through(content: Seq<char>)
    requires
        content.len() > 0,
        utf8_len(content) <= MAX_SIZE,
        forall|i: int| 0 <= i < content.len() ==> #[trigger] is_plain_markdown_char(content[i]),
        !is_white_space(content[0]),
        !is_ascii_digit(content[0]),
        content[0] != '-',
    ensures
        convert_spec("markdown"@, content) == Result::<Seq<char>, ServiceErrorView>::Ok(content),
        convert_spec("html"@, content) == Result::<Seq<char>, ServiceErrorView>::Ok(content),
{
    lemma_chars_le_bytes(content);
    assert(!all_white_space(content)) by {
        assert(!is_white_space(content[0]));
    }
    lemma_plain_markdown_line(content);
    assert forall|i: int| 0 <= i < content.len() implies #[trigger] content[i] != '<'
        && content[i] != '\n' && content[i] != '\r' by {
        assert(is_plain_markdown_char(content[i]));
    }
    lemma_plain_html_text(content);
    reveal_strlit("markdown");
    reveal_strlit("md");
    reveal_strlit("html");
    assert("html"@ != "markdown"@) by {
        assert("html"@.len() != "markdown"@.len());
    }
    assert("html"@ != "md"@) by {
        assert("html"@.len() != "md"@.len());
    }
    let text = seq![NodeView::Text { base: NodeBase { id: 1, span: Span { start: 0, end: utf8_len(content) as usize } }, text: content }];
    assert(nodes_unicode(Seq::<NodeView>::empty()) =~= Seq::<char>::empty());
    assert(nodes_unicode(text) =~= content) by {
        assert(text.drop_last() =~= Seq::<NodeView>::empty());
        assert(node_unicode(text.last()) == content);
        assert(nodes_unicode(text) == nodes_unicode(text.drop_last()) + node_unicode(text.last()));
    }
    let md = parse_markdown_spec(content)->Ok_0;
    assert(md.drop_last() =~= Seq::<NodeView>::empty());
    assert(node_unicode(md.last()) == nodes_unicode(text));
    assert(nodes_unicode(md) =~= content);
    let html = parse_html_spec(content)->Ok_0;
    assert(html.drop_last() =~= Seq::<NodeView>::empty());
    assert(node_unicode(html.last()) == nodes_unicode(text));
    assert(nodes_unicode(html) =~= content);
}

/// A hashtag passes through unchanged: a one-line text that starts with
/// `#` directly followed by a plain character (see `is_plain_markdown_char`)
/// that is not white space, the rest plain characters or `#`, converts to
/// itself, from Markdown and from HTML.
pub proof fn lemma_hashtag_passes_through(content: Seq<char>)
    requires
        content.len() >= 2,
        utf8_len(content) <= MAX_SIZE,
        content[0] == '#',
        is_plain_markdown_char(content[1]),
        !is_white_space(content[1]),
        forall|i: int| 0 <= i < content.len() ==> #[trigger] is_plain_markdown_char(content[i])
            || content[i] == '#',
    ensures
        convert_spec("markdown"@, content) == Result::<Seq<char>, ServiceErrorView>::Ok(content),
        convert_spec("html"@, content) == Result::<Seq<char>, ServiceErrorView>::Ok(content),
{
    lemma_chars_le_bytes(content);
    assert(!all_white_space(content)) by {
        assert(!is_white_space(content[0]));
    }
    lemma_hashtag_markdown_line(content);
    assert forall|i: int| 0 <= i < content.len() implies #[trigger] content[i] != '<'
        && content[i] != '\n' && content[i] != '\r' by {
        assert(is_plain_markdown_char(content[i]) || content[i] == '#');
    }
    lemma_plain_html_text(content);
    reveal_strlit("markdown");
    reveal_strlit("md");
    reveal_strlit("html");
    assert("html"@ != "markdown"@) by {
        assert("html"@.len() != "markdown"@.len());
    }
    assert("html"@ != "md"@) by {
        assert("html"@.len() != "md"@.len());
    }
    let text = seq![NodeView::Text { base: NodeBase { id: 1, span: Span { start: 0, end: utf8_len(content) as usize } }, text: content }];
    assert(nodes_unicode(Seq::<NodeView>::empty()) =~= Seq::<char>::empty());
    assert(nodes_unicode(text) =~= content) by {
        assert(text.drop_last() =~= Seq::<NodeView>::empty());
        assert(node_unicode(text.last()) == content);
        assert(nodes_unicode(text) == nodes_unicode(text.drop_last()) + node_unicode(text.last()));
    }
    let md = parse_markdown_spec(content)->Ok_0;
    assert(md.drop_last() =~= Seq::<NodeView>::empty());
    assert(node_unicode(md.last()) == nodes_unicode(text));
    assert(nodes_unicode(md) =~= content);
    let html = parse_html_spec(content)->Ok_0;
    assert(html.drop_last() =~= Seq::<NodeView>::empty());
    assert(node_unicode(html.last()) == nodes_unicode(text));
    assert(nodes_unicode(html) =~= content);
}

proof fn lemma_markdown_bold_converts(w: Seq<char>)
    requires
        w.len() > 0,
        utf8_len(w) + 17 <= MAX_SIZE,
        forall|i: int| 0 <= i < w.len() ==> #[trigger] is_plain_markdown_char(w[i]),
    ensures
        convert_spec("markdown"@, seq!['*', '*'] + w + seq!['*', '*']) == Result::<
            Seq<char>,
            ServiceErrorView,
        >::Ok(table_all(grapheme_clusters(w), bold_table())),
{
    let stars = seq!['*', '*'];
    let md = stars + w + stars;
    let n = md.len() as int;
    lemma_utf8_len_append(stars, w);
    lemma_utf8_len_append(stars + w, stars);
    assert(utf8_len(stars) == 2) by {
        reveal_with_fuel(utf8_len, 3);
        assert(stars.drop_last() =~= seq!['*']);
        assert(seq!['*'].drop_last() =~= Seq::<char>::empty());
    }
    lemma_chars_le_bytes(md);
    assert(md.subrange(2, n - 2) =~= w);
    assert forall|i: int| 2 <= i < n - 2 implies #[trigger] is_plain_markdown_char(md[i]) by {
        assert(md[i] == w[i - 2]);
    }
    lemma_bold_markdown_line(md);
    assert(!all_white_space(md)) by {
        assert(!is_white_space(md[0]));
    }
    let nodes = parse_markdown_spec(md)->Ok_0;
    assert(nodes =~= seq![nodes[0]]);
    lemma_render_styled_text(nodes[0], ContainerType::Bold, w);
}

proof fn lemma_html_bold_converts(w: Seq<char>)
    requires
        w.len() > 0,
        utf8_len(w) + 17 <= MAX_SIZE,
        forall|i: int| 0 <= i < w.len() ==> #[trigger] is_plain_markdown_char(w[i]),
    ensures
        convert_spec("html"@, "<strong>"@ + w + "</strong>"@) == Result::<
            Seq<char>,
            ServiceErrorView,
        >::Ok(table_all(grapheme_clusters(w), bold_table())),
{
    reveal_strlit("markdown");
    reveal_strlit("md");
    reveal_strlit("html");
    reveal_strlit("<strong>");
    reveal_strlit("</strong>");
    assert("html"@ != "markdown"@) by {
        assert("html"@.len() != "markdown"@.len());
    }
    assert("html"@ != "md"@) by {
        assert("html"@.len() != "md"@.len());
    }
    let open = "<strong>"@;
    let close = "</strong>"@;
    let html = open + w + close;
    let k = html.len() as int;
    lemma_utf8_len_append(open, w);
    lemma_utf8_len_append(open + w, close);
    lemma_ascii_utf8_len(open);
    lemma_ascii_utf8_len(close);
    lemma_chars_le_bytes(html);
    assert(html.subrange(0, 8) =~= seq!['<'] + strong_name() + seq!['>']);
    assert(html.subrange(k - 9, k) =~= seq!['<', '/'] + strong_name() + seq!['>']);
    assert(html.subrange(8, k - 9) =~= w);
    assert forall|i: int| 8 <= i < k - 9 implies #[trigger] html[i] != '<' by {
        assert(html[i] == w[i - 8]);
        assert(is_plain_markdown_char(w[i - 8]));
    }
    lemma_strong_html(html);
    assert(!all_white_space(html)) by {
        assert(!is_white_space(html[0]));
    }
    let nodes = parse_html_spec(html)->Ok_0;
    assert(nodes =~= seq![nodes[0]]);
    lemma_render_styled_text(nodes[0], ContainerType::Bold, w);
}

/// Each character of an ASCII text is one byte.
proof fn lemma_ascii_utf8_len(t: Seq<char>)
    requires
        forall|i: int| 0 <= i < t.len() ==> (#[trigger] t[i] as u32) < 0x80,
    ensures
        utf8_len(t) == t.len(),
    decreases t.len(),
{
    if t.len() > 0 {
        lemma_ascii_utf8_len(t.drop_last());
        assert((t[t.len() - 1] as u32) < 0x80);
    }
}

/// Bold reads the same from both syntaxes: `**w**` in Markdown and
/// `<strong>w</strong>` in HTML, `w` a non-empty run of plain characters
/// (see `is_plain_markdown_char`), convert to the same text, the bold form
/// of `w`.
pub proof fn lemma_markdown_and_html_bold_agree(w: Seq<char>)
    requires
        w.len() > 0,
        utf8_len(w) + 17 <= MAX_SIZE,
        forall|i: int| 0 <= i < w.len() ==> #[trigger] is_plain_markdown_char(w[i]),
    ensures
        convert_spec("markdown"@, seq!['*', '*'] + w + seq!['*', '*']) == Result::<
            Seq<char>,
            ServiceErrorView,
        >::Ok(table_all(grapheme_clusters(w), bold_table())),
        convert_spec("html"@, "<strong>"@ + w + "</strong>"@) == Result::<
            Seq<char>,
            ServiceErrorView,
        >::Ok(table_all(grapheme_clusters(w), bold_table())),
{
    lemma_markdown_bold_converts(w);
    lemma_html_bold_converts(w);
}

proof fn lemma_html_tag_converts(name: Seq<char>, w: Seq<char>, kind: ContainerType)
    requires
        is_lower_ascii_name(name),
        name.len() <= 6,
        tag_wraps_in(name, w, kind),
        kind != ContainerType::List,
        kind != ContainerType::OrderedList,
        utf8_len(w) + 17 <= MAX_SIZE,
    ensures
        convert_spec("html"@, open_tag(name) + w + close_tag(name)) == Result::<
            Seq<char>,
            ServiceErrorView,
        >::Ok(styled(kind, w)),
{
    reveal_strlit("markdown");
    reveal_strlit("md");
    reveal_strlit("html");
    assert("html"@ != "markdown"@) by {
        assert("html"@.len() != "markdown"@.len());
    }
    assert("html"@ != "md"@) by {
        assert("html"@.len() != "md"@.len());
    }
    let open = open_tag(name);
    let close = close_tag(name);
    let html = open + w + close;
    lemma_utf8_len_append(open, w);
    lemma_utf8_len_append(open + w, close);
    assert forall|i: int| 0 <= i < open.len() implies (#[trigger] open[i] as u32) < 0x80 by {
        if 0 < i < open.len() - 1 {
            assert(open[i] == name[i - 1]);
            assert('a' <= name[i - 1] <= 'z');
        }
    }
    assert forall|i: int| 0 <= i < close.len() implies (#[trigger] close[i] as u32) < 0x80 by {
        if 1 < i < close.len() - 1 {
            assert(close[i] == name[i - 2]);
            assert('a' <= name[i - 2] <= 'z');
        }
    }
    lemma_ascii_utf8_len(open);
    lemma_ascii_utf8_len(close);
    assert(!all_white_space(html)) by {
        assert(html[0] == '<');
        assert(!is_white_space(html[0]));
    }
    reveal(tag_wraps_in);
    let nodes = parse_html_spec(html)->Ok_0;
    assert(nodes =~= seq![nodes[0]]);
    lemma_render_styled_text(nodes[0], kind, w);
}

/// Each HTML style tag converts a non-empty text without tags to the
/// style it names: `<b>` and `<strong>` to bold, `<i>` and `<em>` to
/// italic, `<u>` to underline, `<mark>` to surline, `<s>` and `<del>` to
/// strikethrough.
#[verifier::spinoff_prover]
#[verifier::rlimit(30)]
pub proof fn lemma_html_style_tags_convert(w: Seq<char>)
    requires
        w.len() > 0,
        utf8_len(w) + 17 <= MAX_SIZE,
        forall|i: int| 0 <= i < w.len() ==> #[trigger] w[i] != '<',
    ensures
        convert_spec("html"@, open_tag("b"@) + w + close_tag("b"@)) == Result::<Seq<char>, ServiceErrorView>::Ok(styled(ContainerType::Bold, w)),
        convert_spec("html"@, open_tag("strong"@) + w + close_tag("strong"@)) == Result::<Seq<char>, ServiceErrorView>::Ok(styled(ContainerType::Bold, w)),
        convert_spec("html"@, open_tag("i"@) + w + close_tag("i"@)) == Result::<Seq<char>, ServiceErrorView>::Ok(styled(ContainerType::Italic, w)),
        convert_spec("html"@, open_tag("em"@) + w + close_tag("em"@)) == Result::<Seq<char>, ServiceErrorView>::Ok(styled(ContainerType::Italic, w)),
        convert_spec("html"@, open_tag("u"@) + w + close_tag("u"@)) == Result::<Seq<char>, ServiceErrorView>::Ok(styled(ContainerType::Underline, w)),
        convert_spec("html"@, open_tag("mark"@) + w + close_tag("mark"@)) == Result::<Seq<char>, ServiceErrorView>::Ok(styled(ContainerType::Surline, w)),
        convert_spec("html"@, open_tag("s"@) + w + close_tag("s"@)) == Result::<Seq<char>, ServiceErrorView>::Ok(styled(ContainerType::Strikethrough, w)),
        convert_spec("html"@, open_tag("del"@) + w + close_tag("del"@)) == Result::<Seq<char>, ServiceErrorView>::Ok(styled(ContainerType::Strikethrough, w)),
{
    assert(convert_spec("html"@, open_tag("b"@) + w + close_tag("b"@)) == Result::<Seq<char>, ServiceErrorView>::Ok(styled(ContainerType::Bold, w))) by {
        lemma_html_style_tags(w);
        reveal_strlit("b");
        assert(is_lower_ascii_name("b"@));
        lemma_html_tag_converts("b"@, w, ContainerType::Bold);
    }
    assert(convert_spec("html"@, open_tag("strong"@) + w + close_tag("strong"@)) == Result::<Seq<char>, ServiceErrorView>::Ok(styled(ContainerType::Bold, w))) by {
        lemma_html_style_tags(w);
        reveal_strlit("strong");
        assert(is_lower_ascii_name("strong"@));
        lemma_html_tag_converts("strong"@, w, ContainerType::Bold);
    }
    assert(convert_spec("html"@, open_tag("i"@) + w + close_tag("i"@)) == Result::<Seq<char>, ServiceErrorView>::Ok(styled(ContainerType::Italic, w))) by {
        lemma_html_style_tags(w);
        reveal_strlit("i");
        assert(is_lower_ascii_name("i"@));
        lemma_html_tag_converts("i"@, w, ContainerType::Italic);
    }
    assert(convert_spec("html"@, open_tag("em"@) + w + close_tag("em"@)) == Result::<Seq<char>, ServiceErrorView>::Ok(styled(ContainerType::Italic, w))) by {
        lemma_html_style_tags(w);
        reveal_strlit("em");
        assert(is_lower_ascii_name("em"@));
        lemma_html_tag_converts("em"@, w, ContainerType::Italic);
    }
    assert(convert_spec("html"@, open_tag("u"@) + w + close_tag("u"@)) == Result::<Seq<char>, ServiceErrorView>::Ok(styled(ContainerType::Underline, w))) by {
        lemma_html_style_tags(w);
        reveal_strlit("u");
        assert(is_lower_ascii_name("u"@));
        lemma_html_tag_converts("u"@, w, ContainerType::Underline);
    }
    assert(convert_spec("html"@, open_tag("mark"@) + w + close_tag("mark"@)) == Result::<Seq<char>, ServiceErrorView>::Ok(styled(ContainerType::Surline, w))) by {
        lemma_html_style_tags(w);
        reveal_strlit("mark");
        assert(is_lower_ascii_name("mark"@));
        lemma_html_tag_converts("mark"@, w, ContainerType::Surline);
    }
    assert(convert_spec("html"@, open_tag("s"@) + w + close_tag("s"@)) == Result::<Seq<char>, ServiceErrorView>::Ok(styled(ContainerType::Strikethrough, w))) by {
        lemma_html_style_tags(w);
        reveal_strlit("s");
        assert(is_lower_ascii_name("s"@));
        lemma_html_tag_converts("s"@, w, ContainerType::Strikethrough);
    }
    assert(convert_spec("html"@, open_tag("del"@) + w + close_tag("del"@)) == Result::<Seq<char>, ServiceErrorView>::Ok(styled(ContainerType::Strikethrough, w))) by {
        lemma_html_style_tags(w);
        reveal_strlit("del");
        assert(is_lower_ascii_name("del"@));
        lemma_html_tag_converts("del"@, w, ContainerType::Strikethrough);
    }
}

/// `n` copies of `c`.
pub open spec fn repeat_char(c: char, n: nat) -> Seq<char> {
    Seq::new(n, |i: int| c)
}

proof fn lemma_markdown_marker_converts(w: Seq<char>, t: int)
    requires
        0 <= t < 6,
        w.len() > 0,
        utf8_len(w) + 4 <= MAX_SIZE,
        forall|i: int| 0 <= i < w.len() ==> #[trigger] is_plain_markdown_char(w[i]),
        marker_table()[t].0.ch == '*' && marker_table()[t].0.len == 1 ==> w[0] != ' ',
    ensures
        ({
            let mk = repeat_char(marker_table()[t].0.ch, marker_table()[t].0.len as nat);
            convert_spec("markdown"@, mk + w + mk) == Result::<Seq<char>, ServiceErrorView>::Ok(
                styled(marker_table()[t].1, w),
            )
        }),
{
    let m = marker_table()[t].0;
    let kind = marker_table()[t].1;
    let l = m.len as int;
    let mk = repeat_char(m.ch, m.len as nat);
    let md = mk + w + mk;
    let n = md.len() as int;
    assert(1 <= l <= 2);
    assert((m.ch as u32) < 0x80);
    assert forall|i: int| 0 <= i < mk.len() implies (#[trigger] mk[i] as u32) < 0x80 by {}
    lemma_ascii_utf8_len(mk);
    lemma_utf8_len_append(mk, w);
    lemma_utf8_len_append(mk + w, mk);
    lemma_chars_le_bytes(md);
    assert(md.subrange(l, n - l) =~= w);
    assert forall|i: int| 0 <= i < l implies #[trigger] md[i] == m.ch by {}
    assert forall|i: int| n - l <= i < n implies #[trigger] md[i] == m.ch by {}
    assert forall|i: int| l <= i < n - l implies #[trigger] is_plain_markdown_char(md[i]) by {
        assert(md[i] == w[i - l]);
    }
    assert(m.ch == '*' ==> md[1] != ' ') by {
        if l == 1 {
            assert(md[1] == w[0]);
        }
    }
    lemma_marker_markdown_line(md, t);
    assert(!all_white_space(md)) by {
        assert(!is_white_space(md[0]));
    }
    reveal_strlit("markdown");
    let nodes = parse_markdown_spec(md)->Ok_0;
    assert(nodes =~= seq![nodes[0]]);
    assert(kind != ContainerType::List && kind != ContainerType::OrderedList);
    lemma_render_styled_text(nodes[0], kind, w);
}

/// Each Markdown style marker converts a non-empty run of plain characters
/// (see `is_plain_markdown_char`) that it encloses to the style it names:
/// `**` to bold, `*` and `_` to italic, `__` to underline, `~~` to
/// strikethrough and `==` to surline (the highlight). A single `*` followed
/// by a space opens a list item instead.
pub proof fn lemma_markdown_style_markers_convert(w: Seq<char>)
    requires
        w.len() > 0,
        utf8_len(w) + 4 <= MAX_SIZE,
        forall|i: int| 0 <= i < w.len() ==> #[trigger] is_plain_markdown_char(w[i]),
    ensures
        convert_spec("markdown"@, seq!['*', '*'] + w + seq!['*', '*']) == Result::<Seq<char>, ServiceErrorView>::Ok(styled(ContainerType::Bold, w)),
        w[0] != ' ' ==> convert_spec("markdown"@, seq!['*'] + w + seq!['*']) == Result::<Seq<char>, ServiceErrorView>::Ok(styled(ContainerType::Italic, w)),
        convert_spec("markdown"@, seq!['_'] + w + seq!['_']) == Result::<Seq<char>, ServiceErrorView>::Ok(styled(ContainerType::Italic, w)),
        convert_spec("markdown"@, seq!['_', '_'] + w + seq!['_', '_']) == Result::<Seq<char>, ServiceErrorView>::Ok(styled(ContainerType::Underline, w)),
        convert_spec("markdown"@, seq!['~', '~'] + w + seq!['~', '~']) == Result::<Seq<char>, ServiceErrorView>::Ok(styled(ContainerType::Strikethrough, w)),
        convert_spec("markdown"@, seq!['=', '='] + w + seq!['=', '=']) == Result::<Seq<char>, ServiceErrorView>::Ok(styled(ContainerType::Surline, w)),
{
    assert(repeat_char('*', 2) =~= seq!['*', '*']);
    assert(repeat_char('~', 2) =~= seq!['~', '~']);
    assert(repeat_char('=', 2) =~= seq!['=', '=']);
    assert(repeat_char('_', 2) =~= seq!['_', '_']);
    assert(repeat_char('*', 1) =~= seq!['*']);
    assert(repeat_char('_', 1) =~= seq!['_']);
    lemma_markdown_marker_converts(w, 0);
    lemma_markdown_marker_converts(w, 1);
    lemma_markdown_marker_converts(w, 2);
    lemma_markdown_marker_converts(w, 3);
    if w[0] != ' ' {
        lemma_markdown_marker_converts(w, 4);
    }
    lemma_markdown_marker_converts(w, 5);
}

/// A line that Markdown reads as plain text: non-empty, made of plain
/// characters (see `is_plain_markdown_char`), starting with neither white
/// space, a digit nor `-`.
pub open spec fn is_plain_markdown_line(t: Seq<char>) -> bool {
    &&& t.len() > 0
    &&& forall|i: int| 0 <= i < t.len() ==> #[trigger] is_plain_markdown_char(t[i])
    &&& !is_white_space(t[0])
    &&& !is_ascii_digit(t[0])
    &&& t[0] != '-'
}

/// `n` line breaks.
pub open spec fn line_breaks(n: nat) -> Seq<char> {
    Seq::new(n, |i: int| '\n')
}

/// The texts of `ts` joined by line breaks.
pub open spec fn join_lines(ts: Seq<Seq<char>>) -> Seq<char>
    decreases ts.len(),
{
    if ts.len() == 0 {
        Seq::empty()
    } else if ts.len() == 1 {
        ts[0]
    } else {
        join_lines(ts.drop_last()) + seq!['\n'] + ts.last()
    }
}

/// `t` as it reads in a joined text: empty when it is white space only.
pub open spec fn blank_to_empty(t: Seq<char>) -> Seq<char> {
    if all_white_space(t) {
        Seq::empty()
    } else {
        t
    }
}

/// Index of the first line of `ts` from `i` on that is not white space
/// only (`ts.len()` when there is none).
pub open spec fn first_content(ts: Seq<Seq<char>>, i: int) -> int
    decreases ts.len() - i,
{
    if i < 0 || i >= ts.len() {
        ts.len() as int
    } else if !all_white_space(ts[i]) {
        i
    } else {
        first_content(ts, i + 1)
    }
}

/// One past the last line of `ts[..n]` that is not white space only (0
/// when there is none).
pub open spec fn end_of_content(ts: Seq<Seq<char>>, n: int) -> int
    decreases n,
{
    if n <= 0 || n > ts.len() {
        0
    } else if !all_white_space(ts[n - 1]) {
        n
    } else {
        end_of_content(ts, n - 1)
    }
}

/// The lines of `ts` from the first that holds content to the last that
/// does, blank ones emptied, joined by line breaks.
pub open spec fn plain_lines_text(ts: Seq<Seq<char>>) -> Seq<char> {
    let a = first_content(ts, 0);
    let b = end_of_content(ts, ts.len() as int);
    if a < b {
        join_lines(ts.subrange(a, b).map_values(|t: Seq<char>| blank_to_empty(t)))
    } else {
        Seq::empty()
    }
}

/// The text of each line of `s`.
pub open spec fn line_texts(s: Seq<char>) -> Seq<Seq<char>> {
    lines_of(s).map_values(|l: LineInfo| line_text(s, l))
}

proof fn lemma_join_push(x: Seq<Seq<char>>, y: Seq<char>)
    requires
        x.len() > 0,
    ensures
        join_lines(x.push(y)) == join_lines(x) + seq!['\n'] + y,
{
    assert(x.push(y).drop_last() =~= x);
}

proof fn lemma_join_blanks(x: Seq<Seq<char>>, k: nat)
    requires
        x.len() > 0,
    ensures
        join_lines(x + Seq::new(k, |j: int| Seq::<char>::empty())) == join_lines(x) + line_breaks(k),
    decreases k,
{
    if k == 0 {
        assert(x + Seq::new(k, |j: int| Seq::<char>::empty()) =~= x);
        assert(join_lines(x) + line_breaks(k) =~= join_lines(x));
    } else {
        let k1 = (k - 1) as nat;
        lemma_join_blanks(x, k1);
        let y = x + Seq::new(k1, |j: int| Seq::<char>::empty());
        assert(x + Seq::new(k, |j: int| Seq::<char>::empty()) =~= y.push(Seq::<char>::empty()));
        lemma_join_push(y, Seq::<char>::empty());
        assert(join_lines(x) + line_breaks(k1) + seq!['\n'] + Seq::<char>::empty() =~= join_lines(x)
            + line_breaks(k));
    }
}

proof fn lemma_blank_before(ts: Seq<Seq<char>>, n: int)
    requires
        0 <= n <= ts.len(),
        end_of_content(ts, n) == 0,
    ensures
        forall|j: int| 0 <= j < n ==> all_white_space(#[trigger] ts[j]),
    decreases n,
{
    if n > 0 {
        lemma_blank_before(ts, n - 1);
    }
}

proof fn lemma_first_content_le(ts: Seq<Seq<char>>, j: int, c: int)
    requires
        0 <= j <= c < ts.len(),
        !all_white_space(ts[c]),
    ensures
        j <= first_content(ts, j) <= c,
        !all_white_space(ts[first_content(ts, j)]),
    decreases c - j,
{
    if all_white_space(ts[j]) {
        lemma_first_content_le(ts, j + 1, c);
    }
}

proof fn lemma_first_content_after_blanks(ts: Seq<Seq<char>>, j: int, c: int)
    requires
        0 <= j <= c < ts.len(),
        !all_white_space(ts[c]),
        forall|q: int| j <= q < c ==> all_white_space(#[trigger] ts[q]),
    ensures
        first_content(ts, j) == c,
    decreases c - j,
{
    if j < c {
        assert(all_white_space(ts[j]));
        lemma_first_content_after_blanks(ts, j + 1, c);
    }
}

proof fn lemma_end_of_content(ts: Seq<Seq<char>>, n: int)
    requires
        0 <= n <= ts.len(),
    ensures
        0 <= end_of_content(ts, n) <= n,
        end_of_content(ts, n) > 0 ==> !all_white_space(ts[end_of_content(ts, n) - 1]),
        forall|q: int| end_of_content(ts, n) <= q < n ==> all_white_space(#[trigger] ts[q]),
    decreases n,
{
    if n > 0 && all_white_space(ts[n - 1]) {
        lemma_end_of_content(ts, n - 1);
    }
}

/// The text of the lines `ts[..n]` as the plain-line law gives it.
spec fn plain_upto(ts: Seq<Seq<char>>, n: int) -> Seq<char> {
    let a = first_content(ts, 0);
    let b = end_of_content(ts, n);
    if a < b {
        join_lines(ts.subrange(a, b).map_values(|t: Seq<char>| blank_to_empty(t)))
    } else {
        Seq::empty()
    }
}

proof fn lemma_plain_upto_content(ts: Seq<Seq<char>>, i: int)
    requires
        0 <= i < ts.len(),
        !all_white_space(ts[i]),
    ensures
        end_of_content(ts, i) == 0 ==> plain_upto(ts, i + 1) == ts[i],
        end_of_content(ts, i) > 0 ==> plain_upto(ts, i + 1) == plain_upto(ts, i) + line_breaks(
            (i - end_of_content(ts, i) + 1) as nat,
        ) + ts[i],
{
    let e = end_of_content(ts, i);
    lemma_end_of_content(ts, i);
    assert(end_of_content(ts, i + 1) == i + 1);
    if e == 0 {
        lemma_blank_before(ts, i);
        lemma_first_content_after_blanks(ts, 0, i);
        assert(ts.subrange(i, i + 1).map_values(|t: Seq<char>| blank_to_empty(t)) =~= seq![ts[i]]);
    } else {
        let a = first_content(ts, 0);
        lemma_first_content_le(ts, 0, e - 1);
        let x = ts.subrange(a, e).map_values(|t: Seq<char>| blank_to_empty(t));
        let k = (i - e) as nat;
        let blanks = Seq::new(k, |j: int| Seq::<char>::empty());
        assert(ts.subrange(a, i + 1).map_values(|t: Seq<char>| blank_to_empty(t)) =~= (x + blanks).push(
            ts[i],
        )) by {
            assert forall|q: int| e <= q < i implies blank_to_empty(#[trigger] ts[q]) == Seq::<
                char,
            >::empty() by {
                assert(all_white_space(ts[q]));
            }
        }
        lemma_join_blanks(x, k);
        lemma_join_push(x + blanks, ts[i]);
        assert(line_breaks(k) + seq!['\n'] =~= line_breaks((i - e + 1) as nat));
        assert(plain_upto(ts, i + 1) =~= plain_upto(ts, i) + line_breaks((i - e + 1) as nat)
            + ts[i]);
    }
}

proof fn lemma_render_push(nodes: Seq<NodeView>, x: NodeView)
    ensures
        nodes_unicode(nodes.push(x)) == nodes_unicode(nodes) + node_unicode(x),
{
    assert(nodes.push(x).drop_last() =~= nodes);
}

proof fn lemma_render_newlines(nodes: Seq<NodeView>, p: int, id: int)
    requires
        p >= 0,
    ensures
        nodes_unicode(push_newlines_spec(nodes, p, id)) == nodes_unicode(nodes) + line_breaks(
            p as nat,
        ),
    decreases p,
{
    if p == 0 {
        assert(nodes_unicode(nodes) + line_breaks(0) =~= nodes_unicode(nodes));
    } else {
        let nl = newline_node(id);
        lemma_render_newlines(nodes.push(nl), p - 1, id + 2);
        lemma_render_push(nodes, nl);
        let ch = nl->Container_children;
        assert(ch.drop_last() =~= Seq::<NodeView>::empty());
        assert(nodes_unicode(Seq::<NodeView>::empty()) =~= Seq::<char>::empty());
        assert(ch.last() == ch[0]);
        assert(node_unicode(ch[0]) == seq!['\n']);
        assert(nodes_unicode(ch) == nodes_unicode(ch.drop_last()) + node_unicode(ch.last()));
        assert(nodes_unicode(ch) =~= seq!['\n']);
        assert(node_unicode(nl) == nodes_unicode(ch));
        assert(nodes_unicode(nodes) + seq!['\n'] + line_breaks((p - 1) as nat) =~= nodes_unicode(
            nodes,
        ) + line_breaks(p as nat));
    }
}

proof fn lemma_first_content_ge(ts: Seq<Seq<char>>, j: int)
    requires
        0 <= j,
    ensures
        first_content(ts, j) >= j || first_content(ts, j) == ts.len(),
        first_content(ts, j) >= 0,
    decreases ts.len() - j,
{
    if j < ts.len() && all_white_space(ts[j]) {
        lemma_first_content_ge(ts, j + 1);
    }
}

proof fn lemma_md_plain_loop(s: Seq<char>, i: int, st: MdState)
    requires
        0 <= i <= lines_of(s).len(),
        forall|j: int|
            0 <= j < lines_of(s).len() ==> all_white_space(#[trigger] line_texts(s)[j])
                || is_plain_markdown_line(line_texts(s)[j]),
        st.first == (end_of_content(line_texts(s), i) == 0),
        st.first ==> st.pending == 0,
        !st.first ==> st.pending == i - end_of_content(line_texts(s), i) + 1,
        nodes_unicode(st.nodes) == plain_upto(line_texts(s), i),
    ensures
        md_loop(s, lines_of(s), i, st) matches Ok(nodes) && nodes_unicode(nodes) == plain_upto(
            line_texts(s),
            lines_of(s).len() as int,
        ),
    decreases lines_of(s).len() - i,
{
    let lines = lines_of(s);
    let ts = line_texts(s);
    if i < lines.len() {
        let t = ts[i];
        assert(t == line_text(s, lines[i]));
        lemma_end_of_content(ts, i);
        if all_white_space(t) {
            assert(end_of_content(ts, i + 1) == end_of_content(ts, i));
            let st2 = MdState {
                pending: if st.first {
                    st.pending
                } else {
                    st.pending + 1
                },
                ..st
            };
            lemma_md_plain_loop(s, i + 1, st2);
        } else {
            assert(is_plain_markdown_line(t));
            assert(is_plain_markdown_char(t[0]));
            assert(ws_run(t, 0) == 0);
            assert(char_run(t, 0, '#') == 0);
            reveal(line_start_error);
            assert(line_start_error(s, lines[i]) is None);
            assert(unordered_prefix(t) is None);
            assert(ordered_prefix(t) is None);
            assert(list_start(t) is None);
            let nodes1 = if st.first {
                st.nodes
            } else {
                push_newlines_spec(st.nodes, st.pending, st.id)
            };
            let id1 = if st.first {
                st.id
            } else {
                st.id + 2 * st.pending
            };
            let line = lines[i];
            let ctx = InlineCtx { line: line.number, byte_start: line.byte_start, column_start: 1 };
            assert forall|q: int| 0 <= q < t.len() implies #[trigger] is_plain_char(t[q]) by {
                assert(is_plain_markdown_char(t[q]));
            }
            lemma_plain_line_is_one_text(ctx, t, id1);
            reveal(text_block_spec);
            let o = parse_inline_spec(ctx, t, id1)->Ok_0;
            let node = NodeView::Container {
                base: NodeBase {
                    id: (o.id + 1) as u64,
                    span: Span { start: line.byte_start, end: line.byte_end },
                },
                kind: ContainerType::Text,
                children: o.nodes,
            };
            assert(block_spec(s, lines, i, id1) == Result::<(NodeView, int, int), ParseErrorView>::Ok(
                (node, i + 1, o.id + 1),
            ));
            let st2 = MdState { nodes: nodes1.push(node), id: o.id + 1, pending: 1, first: false };
            assert(md_loop(s, lines, i, st) == md_loop(s, lines, i + 1, st2));
            let ch = o.nodes;
            assert(ch.drop_last() =~= Seq::<NodeView>::empty());
            assert(nodes_unicode(Seq::<NodeView>::empty()) =~= Seq::<char>::empty());
            assert(ch.last() == ch[0]);
            assert(node_unicode(ch[0]) == t);
            assert(nodes_unicode(ch) == nodes_unicode(ch.drop_last()) + node_unicode(ch.last()));
            assert(nodes_unicode(ch) =~= t);
            assert(node_unicode(node) == t);
            lemma_render_push(nodes1, node);
            lemma_plain_upto_content(ts, i);
            lemma_first_content_ge(ts, 0);
            if !st.first {
                lemma_render_newlines(st.nodes, st.pending, st.id);
                assert(nodes_unicode(st2.nodes) == plain_upto(ts, i) + line_breaks(
                    st.pending as nat,
                ) + t);
            } else {
                assert(plain_upto(ts, i) =~= Seq::<char>::empty());
                assert(nodes_unicode(st2.nodes) =~= t);
            }
            assert(nodes_unicode(st2.nodes) == plain_upto(ts, i + 1));
            assert(end_of_content(ts, i + 1) == i + 1);
            lemma_md_plain_loop(s, i + 1, st2);
        }
    }
}

/// Plain Markdown text parses into what renders as its lines joined by line
/// breaks: when each line of `content` is either white space only or a
/// plain line (see `is_plain_markdown_line`), the Markdown parse succeeds,
/// and its rendering is the lines from the first one with content to the
/// last one, blank lines emptied, joined by line breaks — so `k` blank lines
/// between two lines give `k + 1` line breaks.
pub proof fn lemma_plain_lines_parse(content: Seq<char>)
    requires
        forall|j: int|
            0 <= j < line_texts(content).len() ==> all_white_space(#[trigger] line_texts(content)[j])
                || is_plain_markdown_line(line_texts(content)[j]),
    ensures
        parse_markdown_spec(content) matches Ok(nodes) && nodes_unicode(nodes) == plain_lines_text(
            line_texts(content),
        ),
{
    let ts = line_texts(content);
    let st0 = MdState { nodes: Seq::empty(), id: 0, pending: 0, first: true };
    assert(nodes_unicode(Seq::<NodeView>::empty()) =~= Seq::<char>::empty());
    lemma_first_content_ge(ts, 0);
    assert(plain_upto(ts, 0) =~= Seq::<char>::empty());
    lemma_md_plain_loop(content, 0, st0);
}

/// The same law stated over what `MarkdownParser::parse` returns and what
/// `convert` renders of it: `r`, a result that the parse may give for
/// `content`, is `Ok`, and its nodes render as the lines joined by line
/// breaks.
pub proof fn lemma_plain_lines_parse_and_convert(
    content: Seq<char>,
    r: Result<Vec<ContainerNode>, ParseError>,
)
    requires
        parse_result_matches(r, parse_markdown_spec(content)),
        forall|j: int|
            0 <= j < line_texts(content).len() ==> all_white_space(#[trigger] line_texts(content)[j])
                || is_plain_markdown_line(line_texts(content)[j]),
    ensures
        r matches Ok(v) && nodes_unicode(containers_view(v@)) == plain_lines_text(
            line_texts(content),
        ),
{
    lemma_plain_lines_parse(content);
}

/// Through the service, within the size limit and for content that is not
/// blank (blank content gives the empty text whatever the syntax): plain
/// Markdown lines convert to themselves joined by line breaks.
pub proof fn lemma_plain_lines_convert(content: Seq<char>)
    requires
        utf8_len(content) <= MAX_SIZE,
        !all_white_space(content),
        forall|j: int|
            0 <= j < line_texts(content).len() ==> all_white_space(#[trigger] line_texts(content)[j])
                || is_plain_markdown_line(line_texts(content)[j]),
    ensures
        convert_spec("markdown"@, content) == Result::<Seq<char>, ServiceErrorView>::Ok(
            plain_lines_text(line_texts(content)),
        ),
{
    lemma_chars_le_bytes(content);
    lemma_plain_lines_parse(content);
}

} // verus!
