//! Underline: a combining low line (U+0332) after every grapheme.

use vstd::prelude::*;
use crate::handlers::handler::FontHandler;
use crate::handlers::shared::{apply_combining_mark, grapheme_clusters, mark_all};

verus! {

pub struct UnderlineHandler;

pub fn underline_handler() -> (h: UnderlineHandler) {
    UnderlineHandler
}

impl FontHandler for UnderlineHandler {
    open spec fn style_spec(&self, text: Seq<char>) -> Seq<char> {
        mark_all(grapheme_clusters(text), "\u{0332}"@)
    }

    fn apply(&self, text: &str) -> (r: String) {
        apply_combining_mark(text, "\u{0332}")
    }
}

} // verus!
