use truth_table::normalize::{canonicalize, is_space_char, normalize, replace_all, strip_spaces};

fn chars(s: &str) -> Vec<char> {
    s.chars().collect()
}

#[test]
fn normalize_folds_case_and_strips_spaces() {
    assert_eq!(normalize("A and B"), "a&&b");
}

#[test]
fn normalize_lowers_upper_case_keywords() {
    assert_eq!(normalize("xANDyOR(zANDx)"), "x&&y||(z&&x)");
}

#[test]
fn normalize_lowers_a_single_letter() {
    assert_eq!(normalize("X"), "x");
}

#[test]
fn normalize_knows_the_english_words() {
    assert_eq!(normalize("p and q"), "p&&q");
    assert_eq!(normalize("p or q"), "p||q");
    assert_eq!(normalize("not p"), "!p");
}

#[test]
fn normalize_knows_the_french_words() {
    assert_eq!(normalize("p et q"), "p&&q");
    assert_eq!(normalize("p ou q"), "p||q");
    assert_eq!(normalize("non p"), "!p");
}

#[test]
fn normalize_keeps_symbols_and_literals() {
    assert_eq!(normalize("(x && !y) || 1"), "(x&&!y)||1");
    assert_eq!(normalize("TRUE or False"), "true||false");
}

#[test]
fn normalize_strips_every_kind_of_whitespace() {
    assert_eq!(normalize("x\tand\ny\r\n or\u{a0}z\u{3000}"), "x&&y||z");
}

#[test]
fn normalize_of_nothing_is_nothing() {
    assert_eq!(normalize(""), "");
    assert_eq!(normalize("   "), "");
}

#[test]
fn normalize_reads_letters_that_spell_a_word_as_the_word() {
    // The words are replaced in the order and, or, not, et, ou, non.
    assert_eq!(normalize("n o t"), "!");
    assert_eq!(normalize("nonot"), "no!");
    assert_eq!(normalize("band"), "b&&");
}

#[test]
fn canonicalize_takes_lower_case_text() {
    assert_eq!(canonicalize("a and b"), "a&&b");
    assert_eq!(canonicalize("x et y ou non z"), "x&&y||!z");
}

#[test]
fn canonicalize_leaves_upper_case_alone() {
    assert_eq!(canonicalize("A AND B"), "AANDB");
}

#[test]
fn replace_all_goes_from_the_left_without_overlap() {
    assert_eq!(replace_all(&chars("aaa"), &chars("aa"), &chars("b")), chars("ba"));
    assert_eq!(replace_all(&chars("xandyand"), &chars("and"), &chars("&&")), chars("x&&y&&"));
    assert_eq!(replace_all(&chars("abc"), &chars("z"), &chars("y")), chars("abc"));
}

#[test]
fn replace_all_with_an_empty_pattern_changes_nothing() {
    assert_eq!(replace_all(&chars("abc"), &chars(""), &chars("y")), chars("abc"));
}

#[test]
fn replace_all_can_delete() {
    assert_eq!(replace_all(&chars("a-b-c"), &chars("-"), &chars("")), chars("abc"));
}

#[test]
fn strip_spaces_keeps_the_rest_in_order() {
    assert_eq!(strip_spaces(&chars(" a  b\tc ")), chars("abc"));
}

#[test]
fn is_space_char_agrees_with_the_standard_library() {
    let mut code: u32 = 0;
    while code <= 0x10FFFF {
        if let Some(c) = char::from_u32(code) {
            assert_eq!(is_space_char(c), c.is_whitespace(), "at {:x}", code);
        }
        code += 1;
    }
}

#[test]
fn normalize_lowers_letters_beyond_ascii() {
    // The Kelvin sign is an upper-case letter whose lower case is `k`.
    assert_eq!(normalize("\u{212A} AND x"), "k&&x");
    assert_eq!(normalize("\u{c9}"), "\u{e9}");
}
