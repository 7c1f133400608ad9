//! Accented letters as a base letter and a combining mark.

use vstd::prelude::*;

verus! {

/// The base letter and combining mark of the accented Latin letters that
/// the styles know — those of French, German, Spanish, Portuguese, Italian,
/// the Nordic languages, Polish, Czech, Slovak, Romanian, Turkish and
/// Hungarian, a hundred in all, each the canonical decomposition of the
/// letter; `None` for every other character, `œ` and `æ` among them.
pub open spec fn decompose_accent_spec(c: char) -> Option<(char, Seq<char>)> {
    match c {
        'é' => Some(('e', "\u{0301}"@)),
        'è' => Some(('e', "\u{0300}"@)),
        'ê' => Some(('e', "\u{0302}"@)),
        'ë' => Some(('e', "\u{0308}"@)),
        'à' => Some(('a', "\u{0300}"@)),
        'á' => Some(('a', "\u{0301}"@)),
        'â' => Some(('a', "\u{0302}"@)),
        'ä' => Some(('a', "\u{0308}"@)),
        'ù' => Some(('u', "\u{0300}"@)),
        'ú' => Some(('u', "\u{0301}"@)),
        'û' => Some(('u', "\u{0302}"@)),
        'ü' => Some(('u', "\u{0308}"@)),
        'ô' => Some(('o', "\u{0302}"@)),
        'ö' => Some(('o', "\u{0308}"@)),
        'î' => Some(('i', "\u{0302}"@)),
        'ï' => Some(('i', "\u{0308}"@)),
        'ç' => Some(('c', "\u{0327}"@)),
        'É' => Some(('E', "\u{0301}"@)),
        'È' => Some(('E', "\u{0300}"@)),
        'Ê' => Some(('E', "\u{0302}"@)),
        'Ë' => Some(('E', "\u{0308}"@)),
        'À' => Some(('A', "\u{0300}"@)),
        'Á' => Some(('A', "\u{0301}"@)),
        'Â' => Some(('A', "\u{0302}"@)),
        'Ä' => Some(('A', "\u{0308}"@)),
        'Ù' => Some(('U', "\u{0300}"@)),
        'Ú' => Some(('U', "\u{0301}"@)),
        'Û' => Some(('U', "\u{0302}"@)),
        'Ü' => Some(('U', "\u{0308}"@)),
        'Ô' => Some(('O', "\u{0302}"@)),
        'Ö' => Some(('O', "\u{0308}"@)),
        'Î' => Some(('I', "\u{0302}"@)),
        'Ï' => Some(('I', "\u{0308}"@)),
        'Ç' => Some(('C', "\u{0327}"@)),
        'ì' => Some(('i', "\u{0300}"@)),
        'í' => Some(('i', "\u{0301}"@)),
        'ò' => Some(('o', "\u{0300}"@)),
        'ó' => Some(('o', "\u{0301}"@)),
        'ñ' => Some(('n', "\u{0303}"@)),
        'ã' => Some(('a', "\u{0303}"@)),
        'õ' => Some(('o', "\u{0303}"@)),
        'å' => Some(('a', "\u{030A}"@)),
        'ý' => Some(('y', "\u{0301}"@)),
        'ÿ' => Some(('y', "\u{0308}"@)),
        'ą' => Some(('a', "\u{0328}"@)),
        'ę' => Some(('e', "\u{0328}"@)),
        'ć' => Some(('c', "\u{0301}"@)),
        'ń' => Some(('n', "\u{0301}"@)),
        'ś' => Some(('s', "\u{0301}"@)),
        'ź' => Some(('z', "\u{0301}"@)),
        'ż' => Some(('z', "\u{0307}"@)),
        'č' => Some(('c', "\u{030C}"@)),
        'ď' => Some(('d', "\u{030C}"@)),
        'ě' => Some(('e', "\u{030C}"@)),
        'ň' => Some(('n', "\u{030C}"@)),
        'ř' => Some(('r', "\u{030C}"@)),
        'š' => Some(('s', "\u{030C}"@)),
        'ť' => Some(('t', "\u{030C}"@)),
        'ů' => Some(('u', "\u{030A}"@)),
        'ž' => Some(('z', "\u{030C}"@)),
        'ă' => Some(('a', "\u{0306}"@)),
        'ğ' => Some(('g', "\u{0306}"@)),
        'ş' => Some(('s', "\u{0327}"@)),
        'ő' => Some(('o', "\u{030B}"@)),
        'ű' => Some(('u', "\u{030B}"@)),
        'ș' => Some(('s', "\u{0326}"@)),
        'ț' => Some(('t', "\u{0326}"@)),
        'Ì' => Some(('I', "\u{0300}"@)),
        'Í' => Some(('I', "\u{0301}"@)),
        'Ò' => Some(('O', "\u{0300}"@)),
        'Ó' => Some(('O', "\u{0301}"@)),
        'Ñ' => Some(('N', "\u{0303}"@)),
        'Ã' => Some(('A', "\u{0303}"@)),
        'Õ' => Some(('O', "\u{0303}"@)),
        'Å' => Some(('A', "\u{030A}"@)),
        'Ý' => Some(('Y', "\u{0301}"@)),
        'Ÿ' => Some(('Y', "\u{0308}"@)),
        'Ą' => Some(('A', "\u{0328}"@)),
        'Ę' => Some(('E', "\u{0328}"@)),
        'Ć' => Some(('C', "\u{0301}"@)),
        'Ń' => Some(('N', "\u{0301}"@)),
        'Ś' => Some(('S', "\u{0301}"@)),
        'Ź' => Some(('Z', "\u{0301}"@)),
        'Ż' => Some(('Z', "\u{0307}"@)),
        'Č' => Some(('C', "\u{030C}"@)),
        'Ď' => Some(('D', "\u{030C}"@)),
        'Ě' => Some(('E', "\u{030C}"@)),
        'Ň' => Some(('N', "\u{030C}"@)),
        'Ř' => Some(('R', "\u{030C}"@)),
        'Š' => Some(('S', "\u{030C}"@)),
        'Ť' => Some(('T', "\u{030C}"@)),
        'Ů' => Some(('U', "\u{030A}"@)),
        'Ž' => Some(('Z', "\u{030C}"@)),
        'Ă' => Some(('A', "\u{0306}"@)),
        'Ğ' => Some(('G', "\u{0306}"@)),
        'Ş' => Some(('S', "\u{0327}"@)),
        'Ő' => Some(('O', "\u{030B}"@)),
        'Ű' => Some(('U', "\u{030B}"@)),
        'Ș' => Some(('S', "\u{0326}"@)),
        'Ț' => Some(('T', "\u{0326}"@)),
        _ => None,
    }
}

/// Splits an accented letter into its base letter and combining mark.
pub fn decompose_accent(c: char) -> (r: Option<(char, &'static str)>)
    ensures
        match r {
            Some((b, m)) => decompose_accent_spec(c) == Some((b, m@)),
            None => decompose_accent_spec(c) is None,
        },
{
    match c {
        'é' => Some(('e', "\u{0301}")),
        'è' => Some(('e', "\u{0300}")),
        'ê' => Some(('e', "\u{0302}")),
        'ë' => Some(('e', "\u{0308}")),
        'à' => Some(('a', "\u{0300}")),
        'á' => Some(('a', "\u{0301}")),
        'â' => Some(('a', "\u{0302}")),
        'ä' => Some(('a', "\u{0308}")),
        'ù' => Some(('u', "\u{0300}")),
        'ú' => Some(('u', "\u{0301}")),
        'û' => Some(('u', "\u{0302}")),
        'ü' => Some(('u', "\u{0308}")),
        'ô' => Some(('o', "\u{0302}")),
        'ö' => Some(('o', "\u{0308}")),
        'î' => Some(('i', "\u{0302}")),
        'ï' => Some(('i', "\u{0308}")),
        'ç' => Some(('c', "\u{0327}")),
        'É' => Some(('E', "\u{0301}")),
        'È' => Some(('E', "\u{0300}")),
        'Ê' => Some(('E', "\u{0302}")),
        'Ë' => Some(('E', "\u{0308}")),
        'À' => Some(('A', "\u{0300}")),
        'Á' => Some(('A', "\u{0301}")),
        'Â' => Some(('A', "\u{0302}")),
        'Ä' => Some(('A', "\u{0308}")),
        'Ù' => Some(('U', "\u{0300}")),
        'Ú' => Some(('U', "\u{0301}")),
        'Û' => Some(('U', "\u{0302}")),
        'Ü' => Some(('U', "\u{0308}")),
        'Ô' => Some(('O', "\u{0302}")),
        'Ö' => Some(('O', "\u{0308}")),
        'Î' => Some(('I', "\u{0302}")),
        'Ï' => Some(('I', "\u{0308}")),
        'Ç' => Some(('C', "\u{0327}")),
        'ì' => Some(('i', "\u{0300}")),
        'í' => Some(('i', "\u{0301}")),
        'ò' => Some(('o', "\u{0300}")),
        'ó' => Some(('o', "\u{0301}")),
        'ñ' => Some(('n', "\u{0303}")),
        'ã' => Some(('a', "\u{0303}")),
        'õ' => Some(('o', "\u{0303}")),
        'å' => Some(('a', "\u{030A}")),
        'ý' => Some(('y', "\u{0301}")),
        'ÿ' => Some(('y', "\u{0308}")),
        'ą' => Some(('a', "\u{0328}")),
        'ę' => Some(('e', "\u{0328}")),
        'ć' => Some(('c', "\u{0301}")),
        'ń' => Some(('n', "\u{0301}")),
        'ś' => Some(('s', "\u{0301}")),
        'ź' => Some(('z', "\u{0301}")),
        'ż' => Some(('z', "\u{0307}")),
        'č' => Some(('c', "\u{030C}")),
        'ď' => Some(('d', "\u{030C}")),
        'ě' => Some(('e', "\u{030C}")),
        'ň' => Some(('n', "\u{030C}")),
        'ř' => Some(('r', "\u{030C}")),
        'š' => Some(('s', "\u{030C}")),
        'ť' => Some(('t', "\u{030C}")),
        'ů' => Some(('u', "\u{030A}")),
        'ž' => Some(('z', "\u{030C}")),
        'ă' => Some(('a', "\u{0306}")),
        'ğ' => Some(('g', "\u{0306}")),
        'ş' => Some(('s', "\u{0327}")),
        'ő' => Some(('o', "\u{030B}")),
        'ű' => Some(('u', "\u{030B}")),
        'ș' => Some(('s', "\u{0326}")),
        'ț' => Some(('t', "\u{0326}")),
        'Ì' => Some(('I', "\u{0300}")),
        'Í' => Some(('I', "\u{0301}")),
        'Ò' => Some(('O', "\u{0300}")),
        'Ó' => Some(('O', "\u{0301}")),
        'Ñ' => Some(('N', "\u{0303}")),
        'Ã' => Some(('A', "\u{0303}")),
        'Õ' => Some(('O', "\u{0303}")),
        'Å' => Some(('A', "\u{030A}")),
        'Ý' => Some(('Y', "\u{0301}")),
        'Ÿ' => Some(('Y', "\u{0308}")),
        'Ą' => Some(('A', "\u{0328}")),
        'Ę' => Some(('E', "\u{0328}")),
        'Ć' => Some(('C', "\u{0301}")),
        'Ń' => Some(('N', "\u{0301}")),
        'Ś' => Some(('S', "\u{0301}")),
        'Ź' => Some(('Z', "\u{0301}")),
        'Ż' => Some(('Z', "\u{0307}")),
        'Č' => Some(('C', "\u{030C}")),
        'Ď' => Some(('D', "\u{030C}")),
        'Ě' => Some(('E', "\u{030C}")),
        'Ň' => Some(('N', "\u{030C}")),
        'Ř' => Some(('R', "\u{030C}")),
        'Š' => Some(('S', "\u{030C}")),
        'Ť' => Some(('T', "\u{030C}")),
        'Ů' => Some(('U', "\u{030A}")),
        'Ž' => Some(('Z', "\u{030C}")),
        'Ă' => Some(('A', "\u{0306}")),
        'Ğ' => Some(('G', "\u{0306}")),
        'Ş' => Some(('S', "\u{0327}")),
        'Ő' => Some(('O', "\u{030B}")),
        'Ű' => Some(('U', "\u{030B}")),
        'Ș' => Some(('S', "\u{0326}")),
        'Ț' => Some(('T', "\u{0326}")),
        _ => None,
    }
}

/// The combining mark of the letter at place `j` of a vowel's row in the
/// Latin-1 block: grave, acute, circumflex, then tilde where the row has
/// one, then diaeresis.
pub open spec fn latin1_row_mark(j: int, with_tilde: bool) -> char {
    if j == 0 {
        '\u{0300}'
    } else if j == 1 {
        '\u{0301}'
    } else if j == 2 {
        '\u{0302}'
    } else if j == 3 && with_tilde {
        '\u{0303}'
    } else {
        '\u{0308}'
    }
}

/// The canonical decomposition of the Latin-1 capital at code point `u`,
/// read off the layout of the block: the rows of A (U+00C0, with tilde),
/// E (U+00C8), I (U+00CC), O (U+00D2, with tilde) and U (U+00D9), and the
/// single letters Å, Ç, Ñ and Ý.
pub open spec fn latin1_capital_decomposition(u: int) -> Option<(char, char)> {
    if 0xC0 <= u <= 0xC4 {
        Some(('A', latin1_row_mark(u - 0xC0, true)))
    } else if u == 0xC5 {
        Some(('A', '\u{030A}'))
    } else if u == 0xC7 {
        Some(('C', '\u{0327}'))
    } else if 0xC8 <= u <= 0xCB {
        Some(('E', latin1_row_mark(u - 0xC8, false)))
    } else if 0xCC <= u <= 0xCF {
        Some(('I', latin1_row_mark(u - 0xCC, false)))
    } else if u == 0xD1 {
        Some(('N', '\u{0303}'))
    } else if 0xD2 <= u <= 0xD6 {
        Some(('O', latin1_row_mark(u - 0xD2, true)))
    } else if 0xD9 <= u <= 0xDC {
        Some(('U', latin1_row_mark(u - 0xD9, false)))
    } else if u == 0xDD {
        Some(('Y', '\u{0301}'))
    } else {
        None
    }
}

/// The canonical decomposition (base letter and combining mark) of an
/// accented letter of the Latin-1 block: a capital as its row gives it; a
/// small letter, which stands 0x20 above its capital, as its capital with
/// the small base letter; `ÿ`, whose capital lies outside the block, `y`
/// and a diaeresis. `None` for every other character.
pub open spec fn latin1_decomposition(c: char) -> Option<(char, char)> {
    let u = c as u32 as int;
    if u == 0xFF {
        Some(('y', '\u{0308}'))
    } else if 0xE0 <= u <= 0xFE {
        match latin1_capital_decomposition(u - 0x20) {
            Some((b, m)) => Some((((b as u32) + 0x20) as char, m)),
            None => None,
        }
    } else if 0xC0 <= u <= 0xDF {
        latin1_capital_decomposition(u)
    } else {
        None
    }
}

/// Every accented letter of the Latin-1 block splits into its canonical
/// decomposition: its base letter and the one combining mark of that
/// decomposition.
pub proof fn lemma_latin1_decompositions(c: char)
    ensures
        latin1_decomposition(c) matches Some((b, m)) ==> decompose_accent_spec(c) == Some(
            (b, seq![m]),
        ),
{
    reveal_strlit("\u{0300}");
    reveal_strlit("\u{0301}");
    reveal_strlit("\u{0302}");
    reveal_strlit("\u{0303}");
    reveal_strlit("\u{0308}");
    reveal_strlit("\u{030A}");
    reveal_strlit("\u{0327}");
    assert("\u{0300}"@ =~= seq!['\u{0300}']);
    assert("\u{0301}"@ =~= seq!['\u{0301}']);
    assert("\u{0302}"@ =~= seq!['\u{0302}']);
    assert("\u{0303}"@ =~= seq!['\u{0303}']);
    assert("\u{0308}"@ =~= seq!['\u{0308}']);
    assert("\u{030A}"@ =~= seq!['\u{030A}']);
    assert("\u{0327}"@ =~= seq!['\u{0327}']);
}

/// Capitals and small letters beyond the Latin-1 block decompose alike:
/// for each capital from U+0100 to U+021B that splits into a capital base
/// letter and a mark, `Ÿ` aside, the character just after it splits into the
/// small base letter and the same mark; `Ÿ` and `ÿ` both carry a diaeresis.
pub proof fn lemma_accent_case_pairs(c: char)
    ensures
        0x100 <= (c as u32) <= 0x21B && c != 'Ÿ' ==> (decompose_accent_spec(c) matches Some((b, m))
            ==> ('A' <= b <= 'Z' ==> decompose_accent_spec(((c as u32) + 1) as char) == Some(
            ((((b as u32) + 0x20) as char), m),
        ))),
        decompose_accent_spec('Ÿ') == Some(('Y', seq!['\u{0308}'])),
        decompose_accent_spec('ÿ') == Some(('y', seq!['\u{0308}'])),
{
    reveal_strlit("\u{0308}");
    assert("\u{0308}"@ =~= seq!['\u{0308}']);
}

} // verus!
