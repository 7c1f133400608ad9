//! Italic: mathematical sans-serif italic letters (U+1D608 on); digits have
//! no italic form and stay as they are.

use vstd::prelude::*;
use std::collections::HashMap;
use crate::handlers::accents::{decompose_accent_spec, latin1_decomposition, lemma_latin1_decompositions};
use crate::handlers::handler::FontHandler;
use crate::handlers::letters::{insert_accented, insert_range, lemma_decomposed_letters_listed, letter_style};
use crate::handlers::shared::{
    apply_table_to, grapheme_clusters, graphemes_of, join_all, lemma_table_all_unchanged, table_all,
    table_grapheme, views_of,
};

verus! {

broadcast use vstd::std_specs::hash::group_hash_axioms;

/// Code point of the italic capital A.
pub const BASE_UPPER: u32 = 0x1D608;

/// Code point of the italic small a.
pub const BASE_LOWER: u32 = 0x1D622;

/// The italic form of a plain ASCII letter.
pub open spec fn italic_letter(c: char) -> Option<char> {
    let u = c as u32;
    if 65 <= u <= 90 {
        Some((BASE_UPPER + (u - 65)) as char)
    } else if 97 <= u <= 122 {
        Some((BASE_LOWER + (u - 97)) as char)
    } else {
        None
    }
}

/// `italic_letter` as a function value.
pub open spec fn italic_letters() -> spec_fn(char) -> Option<char> {
    |c: char| italic_letter(c)
}

/// What the italic style makes of one character, if it has an entry.
pub open spec fn italic_style(c: char) -> Option<Seq<char>> {
    letter_style(italic_letters(), c)
}

/// `italic_style` as a function value: the table of the italic style.
pub open spec fn italic_table() -> spec_fn(char) -> Option<Seq<char>> {
    |c: char| italic_style(c)
}

/// The italic style, with its table of styled characters.
pub struct ItalicHandler {
    map: HashMap<u32, String>,
}

impl ItalicHandler {
    /// The map holds exactly the entries of `italic_table`.
    #[verifier::type_invariant]
    spec fn holds_table(self) -> bool {
        crate::handlers::shared::table_wf(self.map@, italic_table())
    }

    /// The handler holds, under the code point of each character that
    /// `italic_table` styles, its styled form, and nothing for any other
    /// character.
    pub closed spec fn holds_italic_table(&self) -> bool {
        crate::handlers::shared::table_wf(self.map@, italic_table())
    }

    fn new() -> (h: Self)
        ensures
            h.holds_italic_table(),
    {
        let mut map: HashMap<u32, String> = HashMap::new();
        insert_range(
            &mut map,
            65,
            BASE_UPPER,
            26,
            Ghost(italic_table()),
            Ghost(|c: char| false),
            Ghost(|c: char| 65 <= (c as u32) < 91),
        );
        insert_range(
            &mut map,
            97,
            BASE_LOWER,
            26,
            Ghost(italic_table()),
            Ghost(|c: char| 65 <= (c as u32) < 91),
            Ghost(|c: char| 65 <= (c as u32) < 91 || 97 <= (c as u32) < 123),
        );
        insert_accented(&mut map, Ghost(italic_table()), Ghost(italic_letters()), Ghost(|c: char| 65 <= (c as u32) < 91 || 97 <= (c as u32) < 123));
        ItalicHandler { map }
    }

    /// Styles each grapheme of `graphemes`: a grapheme of one character
    /// that has an entry becomes that entry, any other stays as it is.
    pub fn apply_to_graphemes(&self, graphemes: &Vec<&str>) -> (r: String)
        ensures
            r@ == table_all(views_of(graphemes@), italic_table()),
    {
        proof {
            use_type_invariant(self);
        }
        apply_table_to(&self.map, graphemes, Ghost(italic_table()))
    }
}

/// The italic style.
pub fn italic_handler() -> (h: ItalicHandler)
    ensures
        h.holds_italic_table(),
{
    ItalicHandler::new()
}

impl FontHandler for ItalicHandler {
    open spec fn style_spec(&self, text: Seq<char>) -> Seq<char> {
        table_all(grapheme_clusters(text), italic_table())
    }

    fn apply(&self, text: &str) -> (r: String) {
        let graphemes = graphemes_of(text);
        self.apply_to_graphemes(&graphemes)
    }
}

/// The italic style leaves spaces and line breaks as they are: a text made
/// of them only comes out unchanged.
pub proof fn lemma_italic_keeps_blanks(gs: Seq<Seq<char>>)
    requires
        forall|i: int| 0 <= i < gs.len() ==> #[trigger] gs[i] == seq![' '] || gs[i] == seq!['\n'],
    ensures
        table_all(gs, italic_table()) == join_all(gs),
{
    assert forall|i: int| 0 <= i < gs.len() implies #[trigger] table_grapheme(gs[i], italic_table())
        == gs[i] by {
        assert(gs[i] == seq![' '] || gs[i] == seq!['\n']);
    }
    lemma_table_all_unchanged(gs, italic_table());
}

/// Digits have no italic form: the italic style leaves them as they are.
pub proof fn lemma_italic_keeps_digits(c: char)
    requires
        '0' <= c <= '9',
    ensures
        table_grapheme(seq![c], italic_table()) == seq![c],
{
}

/// Bold and italic render every plain ASCII letter differently.
pub proof fn lemma_bold_differs_from_italic(c: char)
    requires
        ('A' <= c <= 'Z') || ('a' <= c <= 'z'),
    ensures
        table_grapheme(seq![c], crate::handlers::bold::bold_table()) != table_grapheme(
            seq![c],
            italic_table(),
        ),
{
    let bold = crate::handlers::bold::bold_table();
    let b = table_grapheme(seq![c], bold);
    let i = table_grapheme(seq![c], italic_table());
    assert(decompose_accent_spec(c) is None);
    assert(b[0] as u32 != i[0] as u32);
}

/// The italic style gives every ASCII letter its mathematical sans-serif
/// italic form at the same place of the alphabet: capitals from U+1D608,
/// small letters from U+1D622; ASCII digits stay as they are.
pub proof fn lemma_italic_ascii_forms(c: char)
    ensures
        'A' <= c <= 'Z' ==> table_grapheme(seq![c], italic_table()) == seq![
            (0x1D608int + (c as u32 - 0x41)) as char
        ],
        'a' <= c <= 'z' ==> table_grapheme(seq![c], italic_table()) == seq![
            (0x1D622int + (c as u32 - 0x61)) as char
        ],
        '0' <= c <= '9' ==> table_grapheme(seq![c], italic_table()) == seq![c],
{
    if (c as u32) < 0x80 {
        assert(decompose_accent_spec(c) is None);
    }
}

/// An accented letter comes out as the italic form of its base letter
/// followed by its combining mark; for a letter of the Latin-1 block, that
/// is the mark of its canonical decomposition.
pub proof fn lemma_italic_accented_forms(c: char)
    ensures
        decompose_accent_spec(c) matches Some((b, m)) ==> table_grapheme(seq![c], italic_table())
            == table_grapheme(seq![b], italic_table()) + m,
        latin1_decomposition(c) matches Some((b, m)) ==> table_grapheme(seq![c], italic_table())
            == table_grapheme(seq![b], italic_table()).push(m),
{
    lemma_decomposed_letters_listed(c);
    lemma_latin1_decompositions(c);
    if decompose_accent_spec(c) is Some {
        let (b, _) = decompose_accent_spec(c)->0;
        assert(('A' <= b <= 'Z') || ('a' <= b <= 'z'));
        assert(decompose_accent_spec(b) is None);
    }
}

} // verus!
