//! The parser interface and the description of supported symbols.

use vstd::prelude::*;
use crate::ast::{ContainerNode, NodeView, containers_view};
use crate::error::{ParseError, ParseErrorView};

verus! {

/// One supported construct of a syntax, with a description and an example.
#[derive(Debug, Clone)]
pub struct SupportedSymbol {
    pub symbol: String,
    pub description: String,
    pub example: String,
}

/// The model of a `SupportedSymbol`: symbol, description, example.
pub type SymbolView = (Seq<char>, Seq<char>, Seq<char>);

pub open spec fn symbol_view(s: SupportedSymbol) -> SymbolView {
    (s.symbol@, s.description@, s.example@)
}

pub open spec fn symbols_view(v: Seq<SupportedSymbol>) -> Seq<SymbolView> {
    v.map_values(|s: SupportedSymbol| symbol_view(s))
}

/// `r` is the outcome that `spec` prescribes.
pub open spec fn parse_result_matches(
    r: Result<Vec<ContainerNode>, ParseError>,
    spec: Result<Seq<NodeView>, ParseErrorView>,
) -> bool {
    match spec {
        Ok(nodes) => r matches Ok(v) && containers_view(v@) == nodes,
        Err(e) => r matches Err(err) && err@ == e,
    }
}

/// The input is short enough that positions (`usize`) and node identifiers
/// (`u64`) cannot overflow while it is parsed.
pub open spec fn input_fits(s: Seq<char>) -> bool {
    &&& s.len() + 2 < usize::MAX
    &&& 8 * s.len() + 16 < u64::MAX
}

pub fn sym(symbol: &str, description: &str, example: &str) -> (r: SupportedSymbol)
    ensures
        symbol_view(r) == (symbol@, description@, example@),
{
    SupportedSymbol {
        symbol: symbol.to_owned(),
        description: description.to_owned(),
        example: example.to_owned(),
    }
}

/// A parser of one input syntax into root containers.
pub trait Parser {
    /// What `parse` returns for the input characters. Each parser of this
    /// library states it; a parser that does not is left unspecified.
    open spec fn parse_spec(&self, input: Seq<char>) -> Result<Seq<NodeView>, ParseErrorView> {
        arbitrary()
    }

    /// The symbols that `supported_symbols` lists; unspecified for a parser
    /// that does not state them.
    open spec fn symbols_spec(&self) -> Seq<SymbolView> {
        arbitrary()
    }

    /// Parses `input` into root containers, or the first error met.
    fn parse(&self, input: &str) -> (r: Result<Vec<ContainerNode>, ParseError>)
        requires
            input_fits(input@),
        ensures
            parse_result_matches(r, self.parse_spec(input@)),
    ;

    /// The constructs that `parse` accepts, with a description and an example.
    fn supported_symbols(&self) -> (r: Vec<SupportedSymbol>)
        ensures
            symbols_view(r@) == self.symbols_spec(),
    ;
}

} // verus!
