use quranic_analyzer::quran::report::word_less;
use quranic_analyzer::remove_diacritics;
use quranic_analyzer::text::{
    chars_of, contains_chars, decimal, is_whitespace, signed_decimal, split_words, string_of,
};
use quranic_analyzer::util::{
    is_removed, is_tashkeel, is_vocalized, normalized_chars, replace_character, strip_tashkeel,
};

#[test]
fn test_strip_tashkeel() {
    // Test case with mixed text and tashkeel marks
    let text = "الْعَرَبِيّةُ";
    let stripped = strip_tashkeel(text);
    assert_eq!(stripped, "العربية");

    // Test case with only tashkeel marks
    let text = "َُِّ";
    let stripped = strip_tashkeel(text);
    assert_eq!(stripped, "");

    // Test case with no tashkeel marks
    let text = "Hello World!";
    let stripped = strip_tashkeel(text);
    assert_eq!(stripped, "Hello World!");

    let text = "بِسۡمِ ٱللَّهِ ٱلرَّحۡمَٰنِ ٱلرَّحِيمِ";
    let stripped = strip_tashkeel(text);
    println!("{}", stripped);
}

#[test]
fn test_is_vocalized() {
    // Test case with vocalized word
    let word = "مَرْحَبًا";
    let vocalized = is_vocalized(word);
    assert_eq!(vocalized, true);

    // Test case with non-vocalized word
    let word = "سلام";
    let vocalized = is_vocalized(word);
    assert_eq!(vocalized, false);
}

#[test]
fn test_is_tashkeel() {
    // Test case with tashkeel mark
    let tashkeel = 'َ';
    assert_eq!(is_tashkeel(tashkeel), true);

    // Test case with non-tashkeel character
    let non_tashkeel = 'م';
    assert_eq!(is_tashkeel(non_tashkeel), false);
}

#[test]
fn strip_tashkeel_keeps_the_other_marks() {
    // The superscript alef and the small high signs are no tashkeel.
    let text = "بِسۡمِ ٱللَّهِ ٱلرَّحۡمَٰنِ ٱلرَّحِيمِ";
    let stripped = strip_tashkeel(text);
    assert_eq!(stripped, "\u{0628}\u{0633}\u{06E1}\u{0645} \u{0671}\u{0644}\u{0644}\u{0647} \u{0671}\u{0644}\u{0631}\u{062D}\u{06E1}\u{0645}\u{0670}\u{0646} \u{0671}\u{0644}\u{0631}\u{062D}\u{064A}\u{0645}");
    assert_eq!(strip_tashkeel(""), "");
}

#[test]
fn exactly_eight_characters_are_tashkeel() {
    let mut found: Vec<char> = Vec::new();
    for code in 0u32..=0x10FFFF {
        if let Some(c) = char::from_u32(code) {
            if is_tashkeel(c) {
                found.push(c);
            }
        }
    }
    assert_eq!(
        found,
        vec!['\u{064B}', '\u{064C}', '\u{064D}', '\u{064E}', '\u{064F}', '\u{0650}', '\u{0651}', '\u{0652}']
    );
}

#[test]
fn is_vocalized_on_edge_cases() {
    assert_eq!(is_vocalized(""), false);
    assert_eq!(is_vocalized("abc"), false);
    assert_eq!(is_vocalized("abc\u{0652}"), true);
    assert_eq!(is_vocalized("\u{064B}abc"), true);
    // The superscript alef is a diacritic, but not one of the eight.
    assert_eq!(is_vocalized("\u{0670}"), false);
}

#[test]
fn replace_character_replaces_every_occurrence() {
    assert_eq!(replace_character("banana", 'a', 'o'), "bonono");
    assert_eq!(replace_character("banana", 'x', 'o'), "banana");
    assert_eq!(replace_character("", 'a', 'o'), "");
    assert_eq!(replace_character("aaa", 'a', 'a'), "aaa");
    assert_eq!(
        replace_character("\u{0671}\u{0644}\u{0644}\u{0647}", '\u{0671}', '\u{0627}'),
        "\u{0627}\u{0644}\u{0644}\u{0647}"
    );
}

#[test]
fn remove_diacritics_gives_the_bare_letters() {
    assert_eq!(remove_diacritics("بِسۡمِ ٱللَّهِ ٱلرَّحۡمَٰنِ ٱلرَّحِيمِ"), "بسم الله الرحمن الرحيم");
    assert_eq!(remove_diacritics("الْعَرَبِيّةُ"), "العربية");
    assert_eq!(remove_diacritics("َُِّ"), "");
}

#[test]
fn remove_diacritics_of_empty_text_is_empty() {
    assert_eq!(remove_diacritics(""), "");
}

#[test]
fn remove_diacritics_leaves_other_scripts_alone() {
    assert_eq!(remove_diacritics("Hello World! 0123456789 ?,;"), "Hello World! 0123456789 ?,;");
}

#[test]
fn remove_diacritics_drops_digits_and_punctuation() {
    // Arabic-Indic digits in both forms, and comma, semicolon, question mark.
    assert_eq!(remove_diacritics("\u{0627}\u{0660}\u{0669}\u{06F0}\u{06F9}\u{0628}"), "\u{0627}\u{0628}");
    assert_eq!(remove_diacritics("\u{0627}\u{060C} \u{0628}\u{061B} \u{062A}\u{061F}"), "\u{0627} \u{0628} \u{062A}");
}

#[test]
fn remove_diacritics_turns_alef_wasla_into_alef() {
    assert_eq!(remove_diacritics("\u{0671}"), "\u{0627}");
    assert_eq!(remove_diacritics("\u{0671}\u{0644}\u{0644}\u{0651}\u{064E}\u{0647}\u{0650}"), "\u{0627}\u{0644}\u{0644}\u{0647}");
}

#[test]
fn remove_diacritics_is_idempotent() {
    let samples = [
        "",
        "Hello World!",
        "الْعَرَبِيّةُ",
        "َُِّ",
        "بِسۡمِ ٱللَّهِ ٱلرَّحۡمَٰنِ ٱلرَّحِيمِ",
        "\u{0671}\u{0671}\u{0670}\u{0627}\u{06DF} \u{0660}x\u{061F}",
    ];
    for sample in samples {
        let once = remove_diacritics(sample);
        let twice = remove_diacritics(&once);
        assert_eq!(twice, once);
    }
}

#[test]
fn normalization_removes_exactly_the_listed_characters() {
    let listed = ['\u{060C}', '\u{061B}', '\u{061F}', '\u{064B}', '\u{064C}', '\u{064D}', '\u{064E}', '\u{064F}', '\u{0650}', '\u{0651}', '\u{0652}', '\u{0653}', '\u{0654}', '\u{0655}', '\u{0656}', '\u{0657}', '\u{0658}', '\u{0659}', '\u{065A}', '\u{065B}', '\u{0660}', '\u{0661}', '\u{0662}', '\u{0663}', '\u{0664}', '\u{0665}', '\u{0666}', '\u{0667}', '\u{0668}', '\u{0669}', '\u{0670}', '\u{06D6}', '\u{06D7}', '\u{06D8}', '\u{06D9}', '\u{06DA}', '\u{06DB}', '\u{06DC}', '\u{06DF}', '\u{06E0}', '\u{06E1}', '\u{06E2}', '\u{06E3}', '\u{06E4}', '\u{06E5}', '\u{06E6}', '\u{06E7}', '\u{06E8}', '\u{06EA}', '\u{06EB}', '\u{06EC}', '\u{06ED}', '\u{06EE}', '\u{06EF}', '\u{06F0}', '\u{06F1}', '\u{06F2}', '\u{06F3}', '\u{06F4}', '\u{06F5}', '\u{06F6}', '\u{06F7}', '\u{06F8}', '\u{06F9}'];
    assert_eq!(listed.len(), 64);
    for code in 0u32..=0x10FFFF {
        if let Some(c) = char::from_u32(code) {
            assert_eq!(is_removed(c), listed.contains(&c), "U+{:04X}", code);
        }
    }
}

#[test]
fn normalized_chars_are_the_characters_of_the_normal_form() {
    let text = "بِسۡمِ ٱللَّهِ ٱلرَّحۡمَٰنِ ٱلرَّحِيمِ";
    let chars = normalized_chars(text);
    let expected: Vec<char> = remove_diacritics(text).chars().collect();
    assert_eq!(chars, expected);
}

#[test]
fn whitespace_is_what_the_standard_library_calls_whitespace() {
    for code in 0u32..=0x10FFFF {
        if let Some(c) = char::from_u32(code) {
            assert_eq!(is_whitespace(c), c.is_whitespace(), "U+{:04X}", code);
        }
    }
}

#[test]
fn split_words_splits_at_whitespace() {
    let samples = [
        "",
        " ",
        "one",
        " one",
        "one ",
        "one two",
        "  one \t two\n\nthree  ",
        "a\u{00A0}b\u{3000}c\u{2003}d",
        "بِسۡمِ ٱللَّهِ ٱلرَّحۡمَٰنِ ٱلرَّحِيمِ",
        "\u{0627}\u{0644}\u{0644}\u{0647} \u{0627}\u{0644}\u{0644}\u{0647} \u{0627}\u{0644}\u{0631}\u{062D}\u{0645}\u{0646}",
    ];
    for sample in samples {
        let expected: Vec<&str> = sample.split_whitespace().collect();
        assert_eq!(split_words(sample), expected, "{:?}", sample);
    }
}

#[test]
fn split_words_gives_exact_words() {
    assert_eq!(split_words("  one \t two\n\nthree  "), vec!["one", "two", "three"]);
    assert_eq!(split_words(" \t\n").len(), 0);
}

#[test]
fn contains_chars_finds_contiguous_parts() {
    let cases = [
        ("", "", true),
        ("abc", "", true),
        ("", "a", false),
        ("abc", "abc", true),
        ("abc", "abcd", false),
        ("abcabd", "abd", true),
        ("abcabd", "cab", true),
        ("abcabd", "acb", false),
        ("aaab", "aab", true),
        ("abc", "c", true),
        ("abc", "ABC", false),
    ];
    for (hay, needle, expected) in cases {
        let found = contains_chars(&hay.chars().collect(), &needle.chars().collect());
        assert_eq!(found, expected, "{:?} in {:?}", needle, hay);
        assert_eq!(found, hay.contains(needle));
    }
}

#[test]
fn chars_and_strings_convert_both_ways() {
    let text = "a\u{0627}\u{064E}\u{1F600}z";
    let chars = chars_of(text);
    assert_eq!(chars, vec!['a', '\u{0627}', '\u{064E}', '\u{1F600}', 'z']);
    assert_eq!(string_of(&chars), text);
    assert_eq!(chars_of(""), Vec::<char>::new());
    assert_eq!(string_of(&Vec::new()), "");
}

#[test]
fn decimal_renders_numerals() {
    assert_eq!(decimal(0), "0");
    assert_eq!(decimal(7), "7");
    assert_eq!(decimal(10), "10");
    assert_eq!(decimal(6236), "6236");
    assert_eq!(decimal(u128::MAX), u128::MAX.to_string());
    for n in [1u128, 9, 11, 99, 100, 101, 12345678901234567890] {
        assert_eq!(decimal(n), n.to_string());
    }
}

#[test]
fn signed_decimal_renders_the_sign() {
    assert_eq!(signed_decimal(0), "0");
    assert_eq!(signed_decimal(42), "42");
    assert_eq!(signed_decimal(-42), "-42");
    assert_eq!(signed_decimal(i32::MAX), i32::MAX.to_string());
    assert_eq!(signed_decimal(i32::MIN), i32::MIN.to_string());
}

#[test]
fn word_less_is_the_order_of_strings() {
    let words = ["", "a", "ab", "abc", "b", "B", "\u{0627}", "\u{0627}\u{0644}", "\u{0628}", "z\u{1F600}", "\u{10000}", "\u{FFFF}"];
    for a in words {
        for b in words {
            let less = word_less(&a.chars().collect(), &b.chars().collect());
            assert_eq!(less, a < b, "{:?} < {:?}", a, b);
        }
    }
}
