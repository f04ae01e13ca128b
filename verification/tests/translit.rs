use lipi::phonetic::{convert_word, vani_to_devanagari};
use lipi::roman::{roman_to_devanagari, translate_one_line};

#[test]
fn roman_keywords_become_devanagari() {
    assert_eq!(roman_to_devanagari("batao 5\n"), "बताओ 5\n");
    assert_eq!(roman_to_devanagari("batao 5"), "बताओ 5");
    assert_eq!(roman_to_devanagari("x hai 5"), "x है 5");
}

#[test]
fn roman_keeps_strings_and_comments() {
    assert_eq!(roman_to_devanagari("batao \"batao\""), "बताओ \"batao\"");
    assert_eq!(roman_to_devanagari("# batao"), "# batao");
}

#[test]
fn roman_longer_phrase_first() {
    assert_eq!(roman_to_devanagari("anyatha yadi"), "अन्यथा यदि");
}

#[test]
fn phonetic_words() {
    assert_eq!(convert_word("kamal"), "कमल");
    assert_eq!(convert_word("aam"), "आम");
    assert_eq!(convert_word("a1b"), "अ1ब");
}

#[test]
fn vani_source() {
    assert_eq!(vani_to_devanagari("kamal hai 5"), "कमल है 5");
}

#[test]
fn roman_one_line() {
    assert_eq!(translate_one_line("yadi x"), "यदि x");
    assert_eq!(translate_one_line("x = 1"), "x = 1");
}

#[test]
fn roman_text_without_letters_is_unchanged() {
    assert_eq!(roman_to_devanagari("\n"), "\n");
    assert_eq!(roman_to_devanagari("1 + 2\n\n# x\n"), "1 + 2\n\n# x\n");
    assert_eq!(roman_to_devanagari(""), "");
}
