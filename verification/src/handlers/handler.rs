//! The interface of a style.

use vstd::prelude::*;

verus! {

/// A Unicode text style.
pub trait FontHandler: Send + Sync {
    /// What `apply` makes of a text.
    spec fn style_spec(&self, text: Seq<char>) -> Seq<char>;

    /// Converts plain text to the target Unicode style. Spaces and line
    /// breaks (`\n`) are kept as they are.
    fn apply(&self, text: &str) -> (r: String)
        ensures
            r@ == self.style_spec(text@),
    ;
}

} // verus!
