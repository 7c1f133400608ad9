use boldify::handlers::{
    FontHandler, StrikethroughHandler, SurlineHandler, UnderlineHandler, bold_handler,
    italic_handler,
};

fn code_points(s: &str) -> Vec<u32> {
    s.chars().map(|c| c as u32).collect()
}

#[test]
fn bold_maps_each_range_to_its_block() {
    let h = bold_handler();
    assert_eq!(code_points(&h.apply("A")), vec![0x1D5D4]);
    assert_eq!(code_points(&h.apply("Z")), vec![0x1D5ED]);
    assert_eq!(code_points(&h.apply("a")), vec![0x1D5EE]);
    assert_eq!(code_points(&h.apply("z")), vec![0x1D607]);
    assert_eq!(code_points(&h.apply("0")), vec![0x1D7EC]);
    assert_eq!(code_points(&h.apply("9")), vec![0x1D7F5]);
}

#[test]
fn italic_maps_letters_and_keeps_digits() {
    let h = italic_handler();
    assert_eq!(code_points(&h.apply("A")), vec![0x1D608]);
    assert_eq!(code_points(&h.apply("z")), vec![0x1D63B]);
    assert_eq!(h.apply("0123456789"), "0123456789");
}

#[test]
fn accented_letters_become_styled_base_and_mark() {
    assert_eq!(code_points(&bold_handler().apply("é")), vec![0x1D5F2, 0x0301]);
    assert_eq!(code_points(&bold_handler().apply("Ç")), vec![0x1D5D6, 0x0327]);
    assert_eq!(code_points(&italic_handler().apply("ü")), vec![0x1D636, 0x0308]);
}

#[test]
fn ligatures_have_no_styled_form() {
    assert_eq!(bold_handler().apply("œæŒÆ"), "œæŒÆ");
    assert_eq!(italic_handler().apply("œ"), "œ");
}

#[test]
fn every_style_keeps_spaces_and_line_breaks() {
    let blank = " \n  \n\n ";
    assert_eq!(bold_handler().apply(blank), blank);
    assert_eq!(italic_handler().apply(blank), blank);
    assert_eq!(UnderlineHandler.apply(blank), blank);
    assert_eq!(StrikethroughHandler.apply(blank), blank);
    assert_eq!(SurlineHandler.apply(blank), blank);
}

#[test]
fn bold_and_italic_differ_on_every_ascii_letter() {
    for c in ('A'..='Z').chain('a'..='z') {
        let s = c.to_string();
        assert_ne!(bold_handler().apply(&s), italic_handler().apply(&s));
    }
}

#[test]
fn a_grapheme_of_several_characters_stays_whole() {
    let decomposed = "e\u{0301}";
    assert_eq!(bold_handler().apply(decomposed), decomposed);
    assert_eq!(UnderlineHandler.apply(decomposed), "e\u{0301}\u{0332}");
    assert_eq!(StrikethroughHandler.apply("👨‍💻"), "👨‍💻\u{0336}");
}

#[test]
fn combining_marks_follow_each_grapheme() {
    assert_eq!(SurlineHandler.apply("ab c"), "a\u{0305}b\u{0305} c\u{0305}");
    assert_eq!(UnderlineHandler.apply("x\ny"), "x\u{0332}\ny\u{0332}");
}

#[test]
fn letters_of_many_languages_are_styled() {
    assert_eq!(code_points(&bold_handler().apply("ñ")), vec![0x1D5FB, 0x0303]);
    assert_eq!(code_points(&italic_handler().apply("Ž")), vec![0x1D621, 0x030C]);
    for c in "åøąčőșğ".chars().filter(|c| *c != 'ø') {
        let s = c.to_string();
        assert_ne!(bold_handler().apply(&s), s);
    }
}
