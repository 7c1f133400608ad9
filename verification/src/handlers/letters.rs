//! Letter styles built from a table: plain letters (and digits) become
//! mathematical alphanumeric symbols, and the accented letters of
//! `ACCENTED_LETTERS` become a styled base letter followed by their
//! combining mark.

use vstd::prelude::*;
use std::collections::HashMap;
use crate::handlers::accents::{decompose_accent, decompose_accent_spec};
use crate::handlers::shared::{char_from_u32, table_wf};
use crate::text::{char_from_ascii, chars_of, push_char, push_chars};

verus! {

broadcast use vstd::std_specs::hash::group_hash_axioms;

/// The accented letters for which a letter style builds an entry.
pub const ACCENTED_LETTERS: &'static str =
    "éèêëàáâäùúûüôöîïçœæÉÈÊËÀÁÂÄÙÚÛÜÔÖÎÏÇŒÆìíòóñãõåýÿąęćńśźżčďěňřšťůžăğşőűșțÌÍÒÓÑÃÕÅÝŸĄĘĆŃŚŹŻČĎĚŇŘŠŤŮŽĂĞŞŐŰȘȚ";

/// What a letter style makes of `c`, given the styled form `plain` of the
/// plain letters: an accented letter of `ACCENTED_LETTERS` whose base letter
/// is styled becomes that styled letter followed by its combining mark; a
/// styled plain letter becomes its styled form; any other character has no
/// entry.
pub open spec fn letter_style(plain: spec_fn(char) -> Option<char>, c: char) -> Option<Seq<char>> {
    match decompose_accent_spec(c) {
        Some((base, mark)) if ACCENTED_LETTERS@.contains(c) && plain(base) is Some => Some(
            seq![plain(base)->0] + mark,
        ),
        _ => match plain(c) {
            Some(s) => Some(seq![s]),
            None => None,
        },
    }
}

/// `map` holds the entry of `f` for each character that `done` admits and
/// `f` styles, and nothing for any other character.
pub open spec fn map_holds(
    map: Map<u32, String>,
    f: spec_fn(char) -> Option<Seq<char>>,
    done: spec_fn(char) -> bool,
) -> bool {
    forall|c: char|
        #![trigger f(c)]
        map.contains_key(c as u32) == (done(c) && f(c) is Some) && (map.contains_key(c as u32)
            ==> map[c as u32]@ == f(c)->0)
}

/// Enters the `count` consecutive ASCII characters from code point `from`,
/// styled as the characters from code point `to` on.
pub(crate) fn insert_range(
    map: &mut HashMap<u32, String>,
    from: u32,
    to: u32,
    count: u32,
    Ghost(f): Ghost<spec_fn(char) -> Option<Seq<char>>>,
    Ghost(done): Ghost<spec_fn(char) -> bool>,
    Ghost(next): Ghost<spec_fn(char) -> bool>,
)
    requires
        map_holds(old(map)@, f, done),
        forall|c: char| #[trigger] next(c) == (done(c) || from <= (c as u32) < from + count),
        from + count <= 0x80,
        0x10000 <= to,
        to + count <= 0x10FFFF,
        forall|c: char|
            #![trigger f(c)]
            from <= (c as u32) < from + count ==> f(c) == Some(
                seq![(to + (c as u32 - from)) as char],
            ),
    ensures
        map_holds(final(map)@, f, next),
{
    let mut i: u32 = 0;
    while i < count
        invariant
            i <= count,
            from + count <= 0x80,
            0x10000 <= to,
            to + count <= 0x10FFFF,
            forall|c: char|
                #![trigger f(c)]
                from <= (c as u32) < from + count ==> f(c) == Some(
                    seq![(to + (c as u32 - from)) as char],
                ),
            map_holds(map@, f, |c: char| done(c) || from <= (c as u32) < from + i),
        decreases count - i,
    {
        let plain = char_from_ascii(from + i);
        let styled = match char_from_u32(to + i) {
            Some(s) => s,
            None => {
                proof {
                    assert(vstd::utf8::is_scalar((to + i) as u32));
                }
                plain
            },
        };
        let mut s = String::new();
        push_char(&mut s, styled);
        let ghost old_map = map@;
        map.insert(from + i, s);
        proof {
            vstd::utf8::char_u32_cast(styled, (to + i) as u32);
            assert(f(plain) == Some(seq![styled]));
            assert forall|c: char|
                #![trigger f(c)]
                map@.contains_key(c as u32) == ((done(c) || from <= (c as u32) < from + i + 1) && f(
                    c,
                ) is Some) && (map@.contains_key(c as u32) ==> map@[c as u32]@ == f(c)->0) by {
                if c as u32 == from + i {
                    vstd::utf8::char_u32_cast(c, c as u32);
                    vstd::utf8::char_u32_cast(plain, plain as u32);
                    assert(c == plain);
                }
            }
        }
        i = i + 1;
    }
    proof {
        assert forall|c: char|
            #![trigger f(c)]
            map@.contains_key(c as u32) == (next(c) && f(c) is Some) && (map@.contains_key(c as u32)
                ==> map@[c as u32]@ == f(c)->0) by {
            assert(next(c) == (done(c) || from <= (c as u32) < from + count));
        }
    }
}

proof fn lemma_take_contains(letters: Seq<char>, j: int, d: char)
    requires
        0 <= j < letters.len(),
    ensures
        letters.take(j + 1).contains(d) == (letters.take(j).contains(d) || d == letters[j]),
{
    if letters.take(j).contains(d) {
        let i = choose|i: int| 0 <= i < j && #[trigger] letters.take(j)[i] == d;
        assert(letters.take(j + 1)[i] == d);
    }
    if d == letters[j] {
        assert(letters.take(j + 1)[j] == d);
    }
    if letters.take(j + 1).contains(d) {
        let i = choose|i: int| 0 <= i < j + 1 && #[trigger] letters.take(j + 1)[i] == d;
        if i < j {
            assert(letters.take(j)[i] == d);
        }
    }
}

proof fn lemma_keep_step(
    m: Map<u32, String>,
    f: spec_fn(char) -> Option<Seq<char>>,
    plain: spec_fn(char) -> Option<char>,
    letters: Seq<char>,
    j: int,
)
    requires
        0 <= j < letters.len(),
        map_holds(m, f, |d: char| plain(d) is Some || letters.take(j).contains(d)),
        f(letters[j]) is Some ==> plain(letters[j]) is Some,
    ensures
        map_holds(m, f, |d: char| plain(d) is Some || letters.take(j + 1).contains(d)),
{
    assert(letters.take(j + 1) =~= letters.take(j).push(letters[j]));
    assert forall|d: char|
        #![trigger f(d)]
        m.contains_key(d as u32) == ((plain(d) is Some || letters.take(j + 1).contains(d)) && f(
            d,
        ) is Some) && (m.contains_key(d as u32) ==> m[d as u32]@ == f(d)->0) by {
        lemma_take_contains(letters, j, d);
    }
}

proof fn lemma_insert_step(
    m: Map<u32, String>,
    f: spec_fn(char) -> Option<Seq<char>>,
    plain: spec_fn(char) -> Option<char>,
    letters: Seq<char>,
    j: int,
    s: String,
)
    requires
        0 <= j < letters.len(),
        map_holds(m, f, |d: char| plain(d) is Some || letters.take(j).contains(d)),
        f(letters[j]) == Some(s@),
    ensures
        map_holds(
            m.insert(letters[j] as u32, s),
            f,
            |d: char| plain(d) is Some || letters.take(j + 1).contains(d),
        ),
{
    let c = letters[j];
    assert(letters.take(j + 1) =~= letters.take(j).push(c));
    assert forall|d: char|
        #![trigger f(d)]
        m.insert(c as u32, s).contains_key(d as u32) == ((plain(d) is Some || letters.take(
            j + 1,
        ).contains(d)) && f(d) is Some) && (m.insert(c as u32, s).contains_key(d as u32) ==> m.insert(
            c as u32,
            s,
        )[d as u32]@ == f(d)->0) by {
        lemma_take_contains(letters, j, d);
        if d as u32 == c as u32 {
            vstd::utf8::char_u32_cast(d, d as u32);
            vstd::utf8::char_u32_cast(c, c as u32);
        }
    }
}

/// Enters every letter of `ACCENTED_LETTERS` that decomposes into a base
/// letter and a combining mark and whose base letter the map holds: the
/// base letter's entry followed by the mark.
pub(crate) fn insert_accented(
    map: &mut HashMap<u32, String>,
    Ghost(f): Ghost<spec_fn(char) -> Option<Seq<char>>>,
    Ghost(plain): Ghost<spec_fn(char) -> Option<char>>,
    Ghost(done): Ghost<spec_fn(char) -> bool>,
)
    requires
        forall|c: char| #[trigger] f(c) == letter_style(plain, c),
        forall|c: char| #[trigger] done(c) == (plain(c) is Some),
        map_holds(old(map)@, f, done),
    ensures
        table_wf(final(map)@, f),
{
    let letters = chars_of(ACCENTED_LETTERS);
    proof {
        assert forall|c: char|
            #![trigger f(c)]
            map@.contains_key(c as u32) == ((plain(c) is Some || letters@.take(0).contains(c)) && f(
                c,
            ) is Some) && (map@.contains_key(c as u32) ==> map@[c as u32]@ == f(c)->0) by {
            assert(done(c) == (plain(c) is Some));
        }
    }
    let mut j: usize = 0;
    while j < letters.len()
        invariant
            j <= letters@.len(),
            letters@ == ACCENTED_LETTERS@,
            forall|c: char| #[trigger] f(c) == letter_style(plain, c),
            map_holds(map@, f, |c: char| plain(c) is Some || letters@.take(j as int).contains(c)),
        decreases letters@.len() - j,
    {
        let c = letters[j];
        proof {
            assert(letters@.take(j + 1) =~= letters@.take(j as int).push(c));
            assert(ACCENTED_LETTERS@.contains(c)) by {
                assert(letters@[j as int] == c);
            }
        }
        match decompose_accent(c) {
            Some((base, mark)) => {
                let entry = match map.get(&(base as u32)) {
                    Some(b) => Some(b.clone()),
                    None => None,
                };
                proof {
                    assert(f(base) == letter_style(plain, base));
                    assert(decompose_accent_spec(base) is None) by {
                        assert((base as u32) < 0x80);
                    }
                }
                match entry {
                    Some(mut s) => {
                        push_chars(&mut s, mark);
                        proof {
                            assert(f(c) == Some(s@));
                            lemma_insert_step(map@, f, plain, letters@, j as int, s);
                        }
                        map.insert(c as u32, s);
                    },
                    None => {
                        proof {
                            lemma_keep_step(map@, f, plain, letters@, j as int);
                        }
                    },
                }
            },
            None => {
                proof {
                    lemma_keep_step(map@, f, plain, letters@, j as int);
                }
            },
        }
        j = j + 1;
    }
    proof {
        assert(letters@.take(letters@.len() as int) =~= letters@);
        assert forall|c: char|
            #![trigger f(c)]
            map@.contains_key(c as u32) == (f(c) is Some) && (map@.contains_key(c as u32)
                ==> map@[c as u32]@ == f(c)->0) by {
            if f(c) is Some && plain(c) is None {
                assert(ACCENTED_LETTERS@.contains(c));
            }
        }
    }
}

/// Every letter that splits into a base letter and a combining mark is one
/// of `ACCENTED_LETTERS`.
pub proof fn lemma_decomposed_letters_listed(c: char)
    ensures
        decompose_accent_spec(c) is Some ==> ACCENTED_LETTERS@.contains(c),
{
    reveal_strlit("éèêëàáâäùúûüôöîïçœæÉÈÊËÀÁÂÄÙÚÛÜÔÖÎÏÇŒÆìíòóñãõåýÿąęćńśźżčďěňřšťůžăğşőűșțÌÍÒÓÑÃÕÅÝŸĄĘĆŃŚŹŻČĎĚŇŘŠŤŮŽĂĞŞŐŰȘȚ");
    if c == 'é' {
        assert(ACCENTED_LETTERS@[0] == c);
    } else if c == 'è' {
        assert(ACCENTED_LETTERS@[1] == c);
    } else if c == 'ê' {
        assert(ACCENTED_LETTERS@[2] == c);
    } else if c == 'ë' {
        assert(ACCENTED_LETTERS@[3] == c);
    } else if c == 'à' {
        assert(ACCENTED_LETTERS@[4] == c);
    } else if c == 'á' {
        assert(ACCENTED_LETTERS@[5] == c);
    } else if c == 'â' {
        assert(ACCENTED_LETTERS@[6] == c);
    } else if c == 'ä' {
        assert(ACCENTED_LETTERS@[7] == c);
    } else if c == 'ù' {
        assert(ACCENTED_LETTERS@[8] == c);
    } else if c == 'ú' {
        assert(ACCENTED_LETTERS@[9] == c);
    } else if c == 'û' {
        assert(ACCENTED_LETTERS@[10] == c);
    } else if c == 'ü' {
        assert(ACCENTED_LETTERS@[11] == c);
    } else if c == 'ô' {
        assert(ACCENTED_LETTERS@[12] == c);
    } else if c == 'ö' {
        assert(ACCENTED_LETTERS@[13] == c);
    } else if c == 'î' {
        assert(ACCENTED_LETTERS@[14] == c);
    } else if c == 'ï' {
        assert(ACCENTED_LETTERS@[15] == c);
    } else if c == 'ç' {
        assert(ACCENTED_LETTERS@[16] == c);
    } else if c == 'É' {
        assert(ACCENTED_LETTERS@[19] == c);
    } else if c == 'È' {
        assert(ACCENTED_LETTERS@[20] == c);
    } else if c == 'Ê' {
        assert(ACCENTED_LETTERS@[21] == c);
    } else if c == 'Ë' {
        assert(ACCENTED_LETTERS@[22] == c);
    } else if c == 'À' {
        assert(ACCENTED_LETTERS@[23] == c);
    } else if c == 'Á' {
        assert(ACCENTED_LETTERS@[24] == c);
    } else if c == 'Â' {
        assert(ACCENTED_LETTERS@[25] == c);
    } else if c == 'Ä' {
        assert(ACCENTED_LETTERS@[26] == c);
    } else if c == 'Ù' {
        assert(ACCENTED_LETTERS@[27] == c);
    } else if c == 'Ú' {
        assert(ACCENTED_LETTERS@[28] == c);
    } else if c == 'Û' {
        assert(ACCENTED_LETTERS@[29] == c);
    } else if c == 'Ü' {
        assert(ACCENTED_LETTERS@[30] == c);
    } else if c == 'Ô' {
        assert(ACCENTED_LETTERS@[31] == c);
    } else if c == 'Ö' {
        assert(ACCENTED_LETTERS@[32] == c);
    } else if c == 'Î' {
        assert(ACCENTED_LETTERS@[33] == c);
    } else if c == 'Ï' {
        assert(ACCENTED_LETTERS@[34] == c);
    } else if c == 'Ç' {
        assert(ACCENTED_LETTERS@[35] == c);
    } else if c == 'ì' {
        assert(ACCENTED_LETTERS@[38] == c);
    } else if c == 'í' {
        assert(ACCENTED_LETTERS@[39] == c);
    } else if c == 'ò' {
        assert(ACCENTED_LETTERS@[40] == c);
    } else if c == 'ó' {
        assert(ACCENTED_LETTERS@[41] == c);
    } else if c == 'ñ' {
        assert(ACCENTED_LETTERS@[42] == c);
    } else if c == 'ã' {
        assert(ACCENTED_LETTERS@[43] == c);
    } else if c == 'õ' {
        assert(ACCENTED_LETTERS@[44] == c);
    } else if c == 'å' {
        assert(ACCENTED_LETTERS@[45] == c);
    } else if c == 'ý' {
        assert(ACCENTED_LETTERS@[46] == c);
    } else if c == 'ÿ' {
        assert(ACCENTED_LETTERS@[47] == c);
    } else if c == 'ą' {
        assert(ACCENTED_LETTERS@[48] == c);
    } else if c == 'ę' {
        assert(ACCENTED_LETTERS@[49] == c);
    } else if c == 'ć' {
        assert(ACCENTED_LETTERS@[50] == c);
    } else if c == 'ń' {
        assert(ACCENTED_LETTERS@[51] == c);
    } else if c == 'ś' {
        assert(ACCENTED_LETTERS@[52] == c);
    } else if c == 'ź' {
        assert(ACCENTED_LETTERS@[53] == c);
    } else if c == 'ż' {
        assert(ACCENTED_LETTERS@[54] == c);
    } else if c == 'č' {
        assert(ACCENTED_LETTERS@[55] == c);
    } else if c == 'ď' {
        assert(ACCENTED_LETTERS@[56] == c);
    } else if c == 'ě' {
        assert(ACCENTED_LETTERS@[57] == c);
    } else if c == 'ň' {
        assert(ACCENTED_LETTERS@[58] == c);
    } else if c == 'ř' {
        assert(ACCENTED_LETTERS@[59] == c);
    } else if c == 'š' {
        assert(ACCENTED_LETTERS@[60] == c);
    } else if c == 'ť' {
        assert(ACCENTED_LETTERS@[61] == c);
    } else if c == 'ů' {
        assert(ACCENTED_LETTERS@[62] == c);
    } else if c == 'ž' {
        assert(ACCENTED_LETTERS@[63] == c);
    } else if c == 'ă' {
        assert(ACCENTED_LETTERS@[64] == c);
    } else if c == 'ğ' {
        assert(ACCENTED_LETTERS@[65] == c);
    } else if c == 'ş' {
        assert(ACCENTED_LETTERS@[66] == c);
    } else if c == 'ő' {
        assert(ACCENTED_LETTERS@[67] == c);
    } else if c == 'ű' {
        assert(ACCENTED_LETTERS@[68] == c);
    } else if c == 'ș' {
        assert(ACCENTED_LETTERS@[69] == c);
    } else if c == 'ț' {
        assert(ACCENTED_LETTERS@[70] == c);
    } else if c == 'Ì' {
        assert(ACCENTED_LETTERS@[71] == c);
    } else if c == 'Í' {
        assert(ACCENTED_LETTERS@[72] == c);
    } else if c == 'Ò' {
        assert(ACCENTED_LETTERS@[73] == c);
    } else if c == 'Ó' {
        assert(ACCENTED_LETTERS@[74] == c);
    } else if c == 'Ñ' {
        assert(ACCENTED_LETTERS@[75] == c);
    } else if c == 'Ã' {
        assert(ACCENTED_LETTERS@[76] == c);
    } else if c == 'Õ' {
        assert(ACCENTED_LETTERS@[77] == c);
    } else if c == 'Å' {
        assert(ACCENTED_LETTERS@[78] == c);
    } else if c == 'Ý' {
        assert(ACCENTED_LETTERS@[79] == c);
    } else if c == 'Ÿ' {
        assert(ACCENTED_LETTERS@[80] == c);
    } else if c == 'Ą' {
        assert(ACCENTED_LETTERS@[81] == c);
    } else if c == 'Ę' {
        assert(ACCENTED_LETTERS@[82] == c);
    } else if c == 'Ć' {
        assert(ACCENTED_LETTERS@[83] == c);
    } else if c == 'Ń' {
        assert(ACCENTED_LETTERS@[84] == c);
    } else if c == 'Ś' {
        assert(ACCENTED_LETTERS@[85] == c);
    } else if c == 'Ź' {
        assert(ACCENTED_LETTERS@[86] == c);
    } else if c == 'Ż' {
        assert(ACCENTED_LETTERS@[87] == c);
    } else if c == 'Č' {
        assert(ACCENTED_LETTERS@[88] == c);
    } else if c == 'Ď' {
        assert(ACCENTED_LETTERS@[89] == c);
    } else if c == 'Ě' {
        assert(ACCENTED_LETTERS@[90] == c);
    } else if c == 'Ň' {
        assert(ACCENTED_LETTERS@[91] == c);
    } else if c == 'Ř' {
        assert(ACCENTED_LETTERS@[92] == c);
    } else if c == 'Š' {
        assert(ACCENTED_LETTERS@[93] == c);
    } else if c == 'Ť' {
        assert(ACCENTED_LETTERS@[94] == c);
    } else if c == 'Ů' {
        assert(ACCENTED_LETTERS@[95] == c);
    } else if c == 'Ž' {
        assert(ACCENTED_LETTERS@[96] == c);
    } else if c == 'Ă' {
        assert(ACCENTED_LETTERS@[97] == c);
    } else if c == 'Ğ' {
        assert(ACCENTED_LETTERS@[98] == c);
    } else if c == 'Ş' {
        assert(ACCENTED_LETTERS@[99] == c);
    } else if c == 'Ő' {
        assert(ACCENTED_LETTERS@[100] == c);
    } else if c == 'Ű' {
        assert(ACCENTED_LETTERS@[101] == c);
    } else if c == 'Ș' {
        assert(ACCENTED_LETTERS@[102] == c);
    } else if c == 'Ț' {
        assert(ACCENTED_LETTERS@[103] == c);
    }
}

} // verus!
