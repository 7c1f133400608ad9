//! Strikethrough: a combining long stroke overlay (U+0336) after every grapheme.

use vstd::prelude::*;
use crate::handlers::handler::FontHandler;
use crate::handlers::shared::{apply_combining_mark, grapheme_clusters, mark_all};

verus! {

pub struct StrikethroughHandler;

pub fn strikethrough_handler() -> (h: StrikethroughHandler) {
    StrikethroughHandler
}

impl FontHandler for StrikethroughHandler {
    open spec fn style_spec(&self, text: Seq<char>) -> Seq<char> {
        mark_all(grapheme_clusters(text), "\u{0336}"@)
    }

    fn apply(&self, text: &str) -> (r: String) {
        apply_combining_mark(text, "\u{0336}")
    }
}

} // verus!
