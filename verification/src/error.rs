//! Errors of the parsers and of the service, with their French messages.

use vstd::prelude::*;
use crate::text::{decimal, push_chars, usize_to_decimal};

verus! {

pub const SYNTAXES_HTTP_ENDPOINT: &'static str = "GET /syntaxes";

pub const SYNTAXES_MCP_COMMAND: &'static str = "mcp list";

/// A place in the source: 1-based line and column (in characters), and the
/// offset in bytes from the start of the input.
#[derive(Debug, Clone, Copy, PartialEq, Eq, Structural)]
pub struct SourcePosition {
    pub line: usize,
    pub column: usize,
    pub byte_offset: usize,
}

impl SourcePosition {
    pub open spec fn message(&self) -> Seq<char> {
        "ligne "@ + decimal(self.line as nat) + ", colonne "@ + decimal(self.column as nat)
            + " (offset "@ + decimal(self.byte_offset as nat) + ")"@
    }

    /// `ligne L, colonne C (offset B)`.
    pub fn to_string(&self) -> (s: String)
        ensures
            s@ == self.message(),
    {
        let mut s = String::new();
        push_chars(&mut s, "ligne ");
        push_chars(&mut s, usize_to_decimal(self.line).as_str());
        push_chars(&mut s, ", colonne ");
        push_chars(&mut s, usize_to_decimal(self.column).as_str());
        push_chars(&mut s, " (offset ");
        push_chars(&mut s, usize_to_decimal(self.byte_offset).as_str());
        push_chars(&mut s, ")");
        s
    }
}

#[derive(Debug, Clone)]
pub enum ParseError {
    UnsupportedSymbol { symbol: String, position: SourcePosition },
    InvalidHtml(String),
    InputTooLarge { found: usize, max: usize },
    UnclosedTag { tag: String, position: SourcePosition },
    NestingTooDeep { depth: usize, max: usize },
}

/// The model of a `ParseError`, with its strings as character sequences.
pub enum ParseErrorView {
    UnsupportedSymbol { symbol: Seq<char>, position: SourcePosition },
    InvalidHtml(Seq<char>),
    InputTooLarge { found: usize, max: usize },
    UnclosedTag { tag: Seq<char>, position: SourcePosition },
    NestingTooDeep { depth: usize, max: usize },
}

impl View for ParseError {
    type V = ParseErrorView;

    open spec fn view(&self) -> ParseErrorView {
        match self {
            ParseError::UnsupportedSymbol { symbol, position } => ParseErrorView::UnsupportedSymbol {
                symbol: symbol@,
                position: *position,
            },
            ParseError::InvalidHtml(s) => ParseErrorView::InvalidHtml(s@),
            ParseError::InputTooLarge { found, max } => ParseErrorView::InputTooLarge {
                found: *found,
                max: *max,
            },
            ParseError::UnclosedTag { tag, position } => ParseErrorView::UnclosedTag {
                tag: tag@,
                position: *position,
            },
            ParseError::NestingTooDeep { depth, max } => ParseErrorView::NestingTooDeep {
                depth: *depth,
                max: *max,
            },
        }
    }
}

impl ParseErrorView {
    pub open spec fn message(&self) -> Seq<char> {
        match self {
            ParseErrorView::UnsupportedSymbol { symbol, position } => "Symbole non supporté : `"@
                + *symbol + "` à la position "@ + position.message()
                + ".\nConsultez la liste des syntaxes supportées via :\n- API HTTP : "@
                + SYNTAXES_HTTP_ENDPOINT@ + "\n- MCP CLI  : "@ + SYNTAXES_MCP_COMMAND@,
            ParseErrorView::InvalidHtml(s) => "Document HTML invalide : "@ + *s,
            ParseErrorView::InputTooLarge { found, max } => "Entrée trop volumineuse : "@
                + decimal(*found as nat) + " octets (maximum : "@ + decimal(*max as nat) + ")"@,
            ParseErrorView::UnclosedTag { tag, position } => "Balise HTML non fermée : `"@ + *tag
                + "` ouverte à "@ + position.message(),
            ParseErrorView::NestingTooDeep { depth, max } => "Imbrication trop profonde : profondeur "@
                + decimal(*depth as nat) + " (maximum : "@ + decimal(*max as nat) + ")"@,
        }
    }
}

impl ParseError {
    /// The French message shown to users.
    pub fn to_string(&self) -> (s: String)
        ensures
            s@ == self@.message(),
    {
        let mut s = String::new();
        match self {
            ParseError::UnsupportedSymbol { symbol, position } => {
                push_chars(&mut s, "Symbole non supporté : `");
                push_chars(&mut s, symbol.as_str());
                push_chars(&mut s, "` à la position ");
                push_chars(&mut s, position.to_string().as_str());
                push_chars(&mut s, ".\nConsultez la liste des syntaxes supportées via :\n- API HTTP : ");
                push_chars(&mut s, SYNTAXES_HTTP_ENDPOINT);
                push_chars(&mut s, "\n- MCP CLI  : ");
                push_chars(&mut s, SYNTAXES_MCP_COMMAND);
            },
            ParseError::InvalidHtml(m) => {
                push_chars(&mut s, "Document HTML invalide : ");
                push_chars(&mut s, m.as_str());
            },
            ParseError::InputTooLarge { found, max } => {
                push_chars(&mut s, "Entrée trop volumineuse : ");
                push_chars(&mut s, usize_to_decimal(*found).as_str());
                push_chars(&mut s, " octets (maximum : ");
                push_chars(&mut s, usize_to_decimal(*max).as_str());
                push_chars(&mut s, ")");
            },
            ParseError::UnclosedTag { tag, position } => {
                push_chars(&mut s, "Balise HTML non fermée : `");
                push_chars(&mut s, tag.as_str());
                push_chars(&mut s, "` ouverte à ");
                push_chars(&mut s, position.to_string().as_str());
            },
            ParseError::NestingTooDeep { depth, max } => {
                push_chars(&mut s, "Imbrication trop profonde : profondeur ");
                push_chars(&mut s, usize_to_decimal(*depth).as_str());
                push_chars(&mut s, " (maximum : ");
                push_chars(&mut s, usize_to_decimal(*max).as_str());
                push_chars(&mut s, ")");
            },
        }
        s
    }
}

} // verus!
