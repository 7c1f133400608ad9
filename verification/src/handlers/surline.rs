//! Surline: a combining overline (U+0305) after every grapheme.

use vstd::prelude::*;
use crate::handlers::handler::FontHandler;
use crate::handlers::shared::{apply_combining_mark, grapheme_clusters, mark_all};

verus! {

pub struct SurlineHandler;

pub fn surline_handler() -> (h: SurlineHandler) {
    SurlineHandler
}

impl FontHandler for SurlineHandler {
    open spec fn style_spec(&self, text: Seq<char>) -> Seq<char> {
        mark_all(grapheme_clusters(text), "\u{0305}"@)
    }

    fn apply(&self, text: &str) -> (r: String) {
        apply_combining_mark(text, "\u{0305}")
    }
}

} // verus!
