//! Bold: mathematical sans-serif bold letters and digits (U+1D5D4 on).

use vstd::prelude::*;
use std::collections::HashMap;
use crate::handlers::accents::{decompose_accent_spec, latin1_decomposition, lemma_latin1_decompositions};
use crate::handlers::handler::FontHandler;
use crate::handlers::letters::{insert_accented, insert_range, lemma_decomposed_letters_listed, letter_style};
use crate::handlers::shared::{
    apply_table_to, grapheme_clusters, graphemes_of, join_all, lemma_table_all_unchanged, table_all,
    table_grapheme, views_of,
};

verus! {

broadcast use vstd::std_specs::hash::group_hash_axioms;

/// Code point of the bold capital A.
pub const BASE_UPPER: u32 = 0x1D5D4;

/// Code point of the bold small a.
pub const BASE_LOWER: u32 = 0x1D5EE;

/// Code point of the bold digit zero.
pub const BASE_DIGIT: u32 = 0x1D7EC;

/// The bold form of a plain ASCII letter or digit.
pub open spec fn bold_letter(c: char) -> Option<char> {
    let u = c as u32;
    if 65 <= u <= 90 {
        Some((BASE_UPPER + (u - 65)) as char)
    } else if 97 <= u <= 122 {
        Some((BASE_LOWER + (u - 97)) as char)
    } else if 48 <= u <= 57 {
        Some((BASE_DIGIT + (u - 48)) as char)
    } else {
        None
    }
}

/// `bold_letter` as a function value.
pub open spec fn bold_letters() -> spec_fn(char) -> Option<char> {
    |c: char| bold_letter(c)
}

/// What the bold style makes of one character, if it has an entry.
pub open spec fn bold_style(c: char) -> Option<Seq<char>> {
    letter_style(bold_letters(), c)
}

/// `bold_style` as a function value: the table of the bold style.
pub open spec fn bold_table() -> spec_fn(char) -> Option<Seq<char>> {
    |c: char| bold_style(c)
}

/// The bold style, with its table of styled characters.
pub struct BoldHandler {
    map: HashMap<u32, String>,
}

impl BoldHandler {
    /// The map holds exactly the entries of `bold_table`.
    #[verifier::type_invariant]
    spec fn holds_table(self) -> bool {
        crate::handlers::shared::table_wf(self.map@, bold_table())
    }

    /// The handler holds, under the code point of each character that
    /// `bold_table` styles, its styled form, and nothing for any other
    /// character.
    pub closed spec fn holds_bold_table(&self) -> bool {
        crate::handlers::shared::table_wf(self.map@, bold_table())
    }

    fn new() -> (h: Self)
        ensures
            h.holds_bold_table(),
    {
        let mut map: HashMap<u32, String> = HashMap::new();
        insert_range(
            &mut map,
            65,
            BASE_UPPER,
            26,
            Ghost(bold_table()),
            Ghost(|c: char| false),
            Ghost(|c: char| 65 <= (c as u32) < 91),
        );
        insert_range(
            &mut map,
            97,
            BASE_LOWER,
            26,
            Ghost(bold_table()),
            Ghost(|c: char| 65 <= (c as u32) < 91),
            Ghost(|c: char| 65 <= (c as u32) < 91 || 97 <= (c as u32) < 123),
        );
        insert_range(
            &mut map,
            48,
            BASE_DIGIT,
            10,
            Ghost(bold_table()),
            Ghost(|c: char| 65 <= (c as u32) < 91 || 97 <= (c as u32) < 123),
            Ghost(|c: char| 65 <= (c as u32) < 91 || 97 <= (c as u32) < 123 || 48 <= (c as u32) < 58),
        );
        insert_accented(&mut map, Ghost(bold_table()), Ghost(bold_letters()), Ghost(|c: char| 65 <= (c as u32) < 91 || 97 <= (c as u32) < 123 || 48 <= (c as u32) < 58));
        BoldHandler { map }
    }

    /// Styles each grapheme of `graphemes`: a grapheme of one character
    /// that has an entry becomes that entry, any other stays as it is.
    pub fn apply_to_graphemes(&self, graphemes: &Vec<&str>) -> (r: String)
        ensures
            r@ == table_all(views_of(graphemes@), bold_table()),
    {
        proof {
            use_type_invariant(self);
        }
        apply_table_to(&self.map, graphemes, Ghost(bold_table()))
    }
}

/// The bold style.
pub fn bold_handler() -> (h: BoldHandler)
    ensures
        h.holds_bold_table(),
{
    BoldHandler::new()
}

impl FontHandler for BoldHandler {
    open spec fn style_spec(&self, text: Seq<char>) -> Seq<char> {
        table_all(grapheme_clusters(text), bold_table())
    }

    fn apply(&self, text: &str) -> (r: String) {
        let graphemes = graphemes_of(text);
        self.apply_to_graphemes(&graphemes)
    }
}

/// The bold style leaves spaces and line breaks as they are: a text made
/// of them only comes out unchanged.
pub proof fn lemma_bold_keeps_blanks(gs: Seq<Seq<char>>)
    requires
        forall|i: int| 0 <= i < gs.len() ==> #[trigger] gs[i] == seq![' '] || gs[i] == seq!['\n'],
    ensures
        table_all(gs, bold_table()) == join_all(gs),
{
    assert forall|i: int| 0 <= i < gs.len() implies #[trigger] table_grapheme(gs[i], bold_table())
        == gs[i] by {
        assert(gs[i] == seq![' '] || gs[i] == seq!['\n']);
    }
    lemma_table_all_unchanged(gs, bold_table());
}

/// The bold style gives every ASCII letter its mathematical sans-serif
/// bold form at the same place of the alphabet: capitals from U+1D5D4,
/// small letters from U+1D5EE; ASCII digits to the digits from U+1D7EC on.
pub proof fn lemma_bold_ascii_forms(c: char)
    ensures
        'A' <= c <= 'Z' ==> table_grapheme(seq![c], bold_table()) == seq![
            (0x1D5D4int + (c as u32 - 0x41)) as char
        ],
        'a' <= c <= 'z' ==> table_grapheme(seq![c], bold_table()) == seq![
            (0x1D5EEint + (c as u32 - 0x61)) as char
        ],
        '0' <= c <= '9' ==> table_grapheme(seq![c], bold_table()) == seq![
            (0x1D7ECint + (c as u32 - 0x30)) as char
        ],
{
    if (c as u32) < 0x80 {
        assert(decompose_accent_spec(c) is None);
    }
}

/// An accented letter comes out as the bold form of its base letter
/// followed by its combining mark; for a letter of the Latin-1 block, that
/// is the mark of its canonical decomposition.
pub proof fn lemma_bold_accented_forms(c: char)
    ensures
        decompose_accent_spec(c) matches Some((b, m)) ==> table_grapheme(seq![c], bold_table())
            == table_grapheme(seq![b], bold_table()) + m,
        latin1_decomposition(c) matches Some((b, m)) ==> table_grapheme(seq![c], bold_table())
            == table_grapheme(seq![b], bold_table()).push(m),
{
    lemma_decomposed_letters_listed(c);
    lemma_latin1_decompositions(c);
    if decompose_accent_spec(c) is Some {
        let (b, _) = decompose_accent_spec(c)->0;
        assert(('A' <= b <= 'Z') || ('a' <= b <= 'z'));
        assert(decompose_accent_spec(b) is None);
    }
}

} // verus!
