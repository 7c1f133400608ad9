//! Grapheme segmentation and the combining-mark styles built on it.

use vstd::prelude::*;
use unicode_segmentation::UnicodeSegmentation;
use crate::text::{chars_of, push_chars};

verus! {

/// The extended grapheme clusters of a text, in order, as the crate
/// `unicode-segmentation` cuts them (`UnicodeSegmentation::graphemes(_, true)`).
pub uninterp spec fn grapheme_clusters(s: Seq<char>) -> Seq<Seq<char>>;

/// The concatenation of `parts`.
pub open spec fn join_all(parts: Seq<Seq<char>>) -> Seq<char>
    decreases parts.len(),
{
    if parts.len() == 0 {
        Seq::empty()
    } else {
        join_all(parts.drop_last()) + parts.last()
    }
}

pub proof fn lemma_join_all_push(parts: Seq<Seq<char>>, p: Seq<char>)
    ensures
        join_all(parts.push(p)) == join_all(parts) + p,
{
    assert(parts.push(p).drop_last() =~= parts);
}

pub open spec fn views_of(v: Seq<&str>) -> Seq<Seq<char>> {
    v.map_values(|g: &str| g@)
}

/// Calls `UnicodeSegmentation::graphemes(text, true)` and collects the
/// clusters. The clusters are named `grapheme_clusters`; the crate's
/// iterator hands out consecutive, non-empty slices of `text` that cover
/// it, which is what the last two clauses say. Where the boundaries fall
/// (the Unicode segmentation rules) is left to the name.
#[verifier::external_body]
pub(crate) fn graphemes_of(text: &str) -> (r: Vec<&str>)
    ensures
        views_of(r@) == grapheme_clusters(text@),
        join_all(views_of(r@)) == text@,
        forall|i: int| 0 <= i < r@.len() ==> (#[trigger] r@[i])@.len() > 0,
{
    text.graphemes(true).collect()
}

/// A grapheme with the combining `mark` after it; a space or a line break
/// stays as it is.
pub open spec fn mark_grapheme(g: Seq<char>, mark: Seq<char>) -> Seq<char> {
    if g == seq![' '] || g == seq!['\n'] {
        g
    } else {
        g + mark
    }
}

/// Every grapheme of `gs` marked, concatenated.
pub open spec fn mark_all(gs: Seq<Seq<char>>, mark: Seq<char>) -> Seq<char> {
    join_all(gs.map_values(|g: Seq<char>| mark_grapheme(g, mark)))
}

/// Whether `g` is exactly the one character `c`.
pub(crate) fn is_single(g: &Vec<char>, c: char) -> (r: bool)
    ensures
        r == (g@ == seq![c]),
{
    let r = g.len() == 1 && g[0] == c;
    proof {
        if g@.len() == 1 {
            assert(r == (g@ =~= seq![c]));
        }
    }
    r
}

/// Adds `mark` after every grapheme of `graphemes` but spaces and line breaks.
pub fn apply_combining_mark_to(graphemes: &Vec<&str>, mark: &str) -> (r: String)
    ensures
        r@ == mark_all(views_of(graphemes@), mark@),
{
    let ghost gs = views_of(graphemes@);
    let mut out = String::new();
    let mut i: usize = 0;
    proof {
        assert(gs.take(0).map_values(|g: Seq<char>| mark_grapheme(g, mark@)) =~= Seq::<Seq<char>>::empty());
    }
    while i < graphemes.len()
        invariant
            i <= graphemes@.len(),
            gs == views_of(graphemes@),
            out@ == join_all(gs.take(i as int).map_values(|g: Seq<char>| mark_grapheme(g, mark@))),
        decreases graphemes@.len() - i,
    {
        let g = graphemes[i];
        let cs = chars_of(g);
        let ghost before = out@;
        push_chars(&mut out, g);
        if !(is_single(&cs, ' ') || is_single(&cs, '\n')) {
            push_chars(&mut out, mark);
        }
        proof {
            assert(gs[i as int] == g@);
            assert(gs.take(i + 1).map_values(|g: Seq<char>| mark_grapheme(g, mark@)) =~= gs.take(
                i as int,
            ).map_values(|g: Seq<char>| mark_grapheme(g, mark@)).push(mark_grapheme(g@, mark@)));
            lemma_join_all_push(
                gs.take(i as int).map_values(|g: Seq<char>| mark_grapheme(g, mark@)),
                mark_grapheme(g@, mark@),
            );
            assert(out@ =~= before + mark_grapheme(g@, mark@));
        }
        i = i + 1;
    }
    proof {
        assert(gs.take(i as int) =~= gs);
    }
    out
}

/// Adds `mark` after every grapheme of `text` but spaces and line breaks.
pub fn apply_combining_mark(text: &str, mark: &str) -> (r: String)
    ensures
        r@ == mark_all(grapheme_clusters(text@), mark@),
{
    let graphemes = graphemes_of(text);
    apply_combining_mark_to(&graphemes, mark)
}

} // verus!

verus! {

/// A grapheme looked up in a style table `f`: a grapheme of one character
/// that the table knows becomes its styled form, any other stays.
pub open spec fn table_grapheme(g: Seq<char>, f: spec_fn(char) -> Option<Seq<char>>) -> Seq<char> {
    if g.len() == 1 && f(g[0]) is Some {
        f(g[0])->0
    } else {
        g
    }
}

/// Every grapheme of `gs` looked up in `f`, concatenated.
pub open spec fn table_all(gs: Seq<Seq<char>>, f: spec_fn(char) -> Option<Seq<char>>) -> Seq<char> {
    join_all(gs.map_values(|g: Seq<char>| table_grapheme(g, f)))
}

/// The map holds, under the code point of each character that `f` styles,
/// its styled form, and nothing under the code point of any other character.
pub open spec fn table_wf(map: Map<u32, String>, f: spec_fn(char) -> Option<Seq<char>>) -> bool {
    forall|c: char|
        #![trigger f(c)]
        map.contains_key(c as u32) == (f(c) is Some) && (map.contains_key(c as u32)
            ==> map[c as u32]@ == f(c)->0)
}

/// Calls `char::from_u32`: the `char` with code point `u`, or `None` when
/// `u` is not a Unicode scalar value.
#[verifier::external_body]
pub(crate) fn char_from_u32(u: u32) -> (r: Option<char>)
    ensures
        r is Some <==> vstd::utf8::is_scalar(u),
        r matches Some(c) ==> c as u32 == u,
{
    char::from_u32(u)
}

/// Styles every grapheme of `graphemes` with the table `map`, which holds `f`.
pub(crate) fn apply_table_to(
    map: &std::collections::HashMap<u32, String>,
    graphemes: &Vec<&str>,
    Ghost(f): Ghost<spec_fn(char) -> Option<Seq<char>>>,
) -> (r: String)
    requires
        table_wf(map@, f),
    ensures
        r@ == table_all(views_of(graphemes@), f),
{
    broadcast use vstd::std_specs::hash::group_hash_axioms;
    let ghost gs = views_of(graphemes@);
    let mut out = String::new();
    let mut i: usize = 0;
    proof {
        assert(gs.take(0).map_values(|g: Seq<char>| table_grapheme(g, f)) =~= Seq::<Seq<char>>::empty());
    }
    while i < graphemes.len()
        invariant
            i <= graphemes@.len(),
            gs == views_of(graphemes@),
            table_wf(map@, f),
            out@ == join_all(gs.take(i as int).map_values(|g: Seq<char>| table_grapheme(g, f))),
        decreases graphemes@.len() - i,
    {
        let g = graphemes[i];
        let cs = chars_of(g);
        let ghost before = out@;
        let mut styled = false;
        if cs.len() == 1 {
            let key = cs[0] as u32;
            match map.get(&key) {
                Some(s) => {
                    push_chars(&mut out, s.as_str());
                    styled = true;
                },
                None => {},
            }
            proof {
                let c = cs@[0];
                assert(map@.contains_key(c as u32) == (f(c) is Some));
                assert(g@ == seq![c]);
            }
        }
        if !styled {
            push_chars(&mut out, g);
        }
        proof {
            assert(gs[i as int] == g@);
            assert(out@ =~= before + table_grapheme(g@, f));
            assert(gs.take(i + 1).map_values(|g: Seq<char>| table_grapheme(g, f)) =~= gs.take(
                i as int,
            ).map_values(|g: Seq<char>| table_grapheme(g, f)).push(table_grapheme(g@, f)));
            lemma_join_all_push(
                gs.take(i as int).map_values(|g: Seq<char>| table_grapheme(g, f)),
                table_grapheme(g@, f),
            );
        }
        i = i + 1;
    }
    proof {
        assert(gs.take(i as int) =~= gs);
    }
    out
}


/// Graphemes that the table `f` leaves as they are: rendering them is
/// concatenating them.
pub proof fn lemma_table_all_unchanged(gs: Seq<Seq<char>>, f: spec_fn(char) -> Option<Seq<char>>)
    requires
        forall|i: int| 0 <= i < gs.len() ==> #[trigger] table_grapheme(gs[i], f) == gs[i],
    ensures
        table_all(gs, f) == join_all(gs),
    decreases gs.len(),
{
    if gs.len() > 0 {
        let init = gs.drop_last();
        lemma_table_all_unchanged(init, f);
        assert(gs.map_values(|g: Seq<char>| table_grapheme(g, f)) =~= init.map_values(
            |g: Seq<char>| table_grapheme(g, f),
        ).push(table_grapheme(gs.last(), f)));
        assert(gs =~= init.push(gs.last()));
        lemma_join_all_push(init.map_values(|g: Seq<char>| table_grapheme(g, f)), gs.last());
        lemma_join_all_push(init, gs.last());
    }
}

/// A combining-mark style leaves spaces and line breaks as they are: a
/// text made of them only comes out unchanged.
pub proof fn lemma_mark_all_keeps_blanks(gs: Seq<Seq<char>>, mark: Seq<char>)
    requires
        forall|i: int| 0 <= i < gs.len() ==> #[trigger] gs[i] == seq![' '] || gs[i] == seq!['\n'],
    ensures
        mark_all(gs, mark) == join_all(gs),
    decreases gs.len(),
{
    if gs.len() > 0 {
        let init = gs.drop_last();
        lemma_mark_all_keeps_blanks(init, mark);
        assert(gs.map_values(|g: Seq<char>| mark_grapheme(g, mark)) =~= init.map_values(
            |g: Seq<char>| mark_grapheme(g, mark),
        ).push(mark_grapheme(gs.last(), mark)));
        assert(gs =~= init.push(gs.last()));
        assert(gs[gs.len() - 1] == seq![' '] || gs[gs.len() - 1] == seq!['\n']);
        lemma_join_all_push(init.map_values(|g: Seq<char>| mark_grapheme(g, mark)), gs.last());
        lemma_join_all_push(init, gs.last());
    }
}

} // verus!
