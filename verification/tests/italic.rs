use boldify::handlers::{FontHandler, bold_handler, italic_handler};

#[test]
fn uppercase_a_converted_to_italic() {
    let result = italic_handler().apply("A");
    assert_ne!(result, "A");
    assert_eq!(result.chars().next().unwrap() as u32, 0x1D608);
}

#[test]
fn lowercase_a_converted_to_italic() {
    let result = italic_handler().apply("a");
    assert_eq!(result.chars().next().unwrap() as u32, 0x1D622);
}

#[test]
fn digit_preserved_as_ascii() {
    assert_eq!(italic_handler().apply("5"), "5");
}

#[test]
fn italic_space_is_preserved() {
    assert_eq!(italic_handler().apply(" "), " ");
}

#[test]
fn italic_accented_e_acute_is_converted() {
    let result = italic_handler().apply("é");
    assert!(result.contains('\u{0301}'));
    assert!(!result.contains('é'));
}

#[test]
fn italic_differs_from_bold() {
    let bold_result = bold_handler().apply("Hello");
    let italic_result = italic_handler().apply("Hello");
    assert_ne!(bold_result, italic_result);
}

#[test]
fn italic_accented_word() {
    let result = italic_handler().apply("élégance");
    assert!(!result.contains('é'));
    assert!(!result.contains('e'));
}

#[test]
fn italic_emoji_is_preserved() {
    assert_eq!(italic_handler().apply("✨"), "✨");
}

#[test]
fn italic_digits_have_no_unicode_variant() {
    assert_eq!(italic_handler().apply("123"), "123");
}
