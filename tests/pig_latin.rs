use mylib::pig_latin::{pig_latin_word, to_pig_latin};

#[test]
fn consonant_and_vowel_words() {
    assert_eq!(to_pig_latin("first apple"), " irst-fay apple-hay");
}

#[test]
fn capital_vowel_and_extra_space() {
    assert_eq!(to_pig_latin("  Eat   now\n"), " Eat-hay ow-nay");
}

#[test]
fn graphemes_move_whole() {
    assert_eq!(to_pig_latin("e\u{301}te\u{301}"), " te\u{301}-e\u{301}ay");
}

#[test]
fn empty_text() {
    assert_eq!(to_pig_latin(""), "");
}

#[test]
fn word_from_graphemes() {
    assert_eq!(pig_latin_word(&vec!["c", "a", "t"]), "at-cay");
    assert_eq!(pig_latin_word(&vec!["o", "x"]), "ox-hay");
}
