use indexer::chars::{chars_of, is_punctuation, is_whitespace, string_of};
use indexer::normalize::{
    clean_corpus, clean_with, collapse_punctuation, normalize, normalize_with,
    split_tokens, strip_stop_words, StopWords,
};

fn strings(words: &[&str]) -> Vec<String> {
    words.iter().map(|w| w.to_string()).collect()
}

#[test]
fn body_of_the_guide_loses_its_stop_word() {
    assert_eq!(
        normalize("rust is great rust rocks"),
        strings(&["rust", "great", "rust", "rocks"])
    );
}

#[test]
fn title_and_description_are_made_small() {
    assert_eq!(normalize("Rust Guide"), strings(&["rust", "guide"]));
    assert_eq!(
        normalize("Learn systems programming"),
        strings(&["learn", "systems", "programming"])
    );
}

#[test]
fn empty_text_has_no_tokens() {
    assert_eq!(normalize(""), Vec::<String>::new());
    assert_eq!(normalize("  \t\n "), Vec::<String>::new());
    assert_eq!(clean_corpus(String::new()), "");
}

#[test]
fn every_capital_is_made_small() {
    assert_eq!(normalize("\u{c9}COLE Ab"), strings(&["\u{e9}cole", "ab"]));
    assert_eq!(normalize("\u{39b}\u{3cc}\u{393}\u{39f}\u{3a3} Rust"), strings(&["\u{3bb}\u{3cc}\u{3b3}\u{3bf}\u{3c2}", "rust"]));
    assert_eq!(clean_corpus("AbC-\u{d6}".to_string()), "abc \u{f6}");
}

#[test]
fn a_run_of_punctuation_becomes_one_space() {
    assert_eq!(
        collapse_punctuation(&chars_of("hello,,, world!!")),
        chars_of("hello  world ")
    );
    assert_eq!(collapse_punctuation(&chars_of("...")), chars_of(" "));
    assert_eq!(collapse_punctuation(&chars_of("a.b")), chars_of("a b"));
    assert_eq!(collapse_punctuation(&chars_of("x\u{2014}y")), chars_of("x\u{2014}y"));
    assert_eq!(normalize("hello,,, world!!"), strings(&["hello", "world"]));
    assert_eq!(normalize("snake_case"), strings(&["snake", "case"]));
}

#[test]
fn every_ascii_punctuation_mark_counts() {
    for c in "!\"#$%&'()*+,-./:;<=>?@[\\]^_`{|}~".chars() {
        assert!(is_punctuation(c), "{c}");
    }
    for c in "aZ09 \t\u{e9}\u{2014}".chars() {
        assert!(!is_punctuation(c), "{c}");
    }
}

#[test]
fn white_space_is_what_unicode_says() {
    for code in 0u32..0x11000 {
        if let Some(c) = char::from_u32(code) {
            assert_eq!(is_whitespace(c), c.is_whitespace(), "{code:x}");
        }
    }
}


#[test]
fn a_stop_word_goes_wherever_it_stands() {
    assert_eq!(normalize("rust is"), strings(&["rust"]));
    assert_eq!(normalize("cat the"), strings(&["cat"]));
    assert_eq!(normalize("rust is "), strings(&["rust"]));
    assert_eq!(normalize("the"), Vec::<String>::new());
    assert_eq!(normalize("is is"), Vec::<String>::new());
    assert_eq!(normalize("The cat. The End"), strings(&["cat", "end"]));
    assert_eq!(clean_corpus("cat the".to_string()), "cat ");
}

#[test]
fn a_stop_word_goes_with_all_the_white_space_behind_it() {
    assert_eq!(clean_with("the \t\n cat", &StopWords::for_language("en")), "cat");
    assert_eq!(clean_corpus("Rust is great!".to_string()), "rust great ");
    assert_eq!(clean_corpus("a\u{a0}b".to_string()), "b");
    assert_eq!(normalize("the\tcat"), strings(&["cat"]));
}

#[test]
fn a_stop_word_inside_a_word_stays() {
    assert_eq!(normalize("this island"), strings(&["island"]));
    assert_eq!(normalize("island is here"), strings(&["island"]));
    assert_eq!(normalize("island is near"), strings(&["island", "near"]));
    assert_eq!(normalize("theory anthem"), strings(&["theory", "anthem"]));
    assert_eq!(normalize("caf\u{e9}a b"), strings(&["caf\u{e9}a", "b"]));
}

#[test]
fn a_stop_word_joined_to_another_sign_is_another_word() {
    assert_eq!(normalize("\u{2014}is x"), strings(&["\u{2014}is", "x"]));
    assert_eq!(clean_corpus("x \u{2014}the z".to_string()), "x \u{2014}the z");
    assert_eq!(normalize("the\u{2014} the"), strings(&["the\u{2014}"]));
}

#[test]
fn apostrophes_split_contractions() {
    assert_eq!(normalize("don't stop"), strings(&["stop"]));
    assert_eq!(normalize("rust's borrow rules"), strings(&["rust", "borrow", "rules"]));
}

#[test]
fn cleaning_twice_is_cleaning_once() {
    let stops = StopWords::for_language("en");
    for text in [
        "rust is great rust rocks",
        "The quick, brown fox -- jumps over the lazy dog!",
        "\u{2014}is x",
        "  a  the   of ",
        "is",
        "x\tis  y\n",
        "don't you (ever) stop?",
        "a.b.c the.end",
        "",
    ] {
        let once = clean_with(text, &stops);
        let twice = clean_with(&once, &stops);
        assert_eq!(twice, once, "{text:?}");
        assert_eq!(normalize_with(&once, &stops), normalize_with(text, &stops));
    }
}

#[test]
fn tokens_joined_and_normalized_again_are_the_same_tokens() {
    for text in [
        "rust is great rust rocks",
        "The quick, brown fox -- jumps over the lazy dog!",
        "\u{2014}is x",
        "x \u{2014}the y is",
        "  a  the   of ",
        "one\ttwo\u{3000}three is",
        "don't you (ever) stop?",
        "",
    ] {
        let tokens = normalize(text);
        assert_eq!(normalize(&tokens.join(" ")), tokens, "{text:?}");
    }
}

#[test]
fn a_list_of_ones_own_can_be_given() {
    let stops = StopWords::from_list(&strings(&["foo", "bar"]));
    assert_eq!(normalize_with("foo is bar baz", &stops), strings(&["is", "baz"]));
    assert_eq!(
        strip_stop_words(&chars_of("foo foo x"), &stops),
        chars_of("x")
    );
    assert!(stops.contains_range(&chars_of("a bar"), 2, 5));
    assert!(!stops.contains_range(&chars_of("a bar"), 2, 4));
    assert!(!stops.contains_range(&chars_of("a bar"), 2, 2));
}

#[test]
fn an_unknown_language_has_no_stop_words() {
    let stops = StopWords::for_language("not-a-language");
    assert_eq!(normalize_with("the cat is here", &stops), strings(&["the", "cat", "is", "here"]));
}

#[test]
fn the_english_list_is_the_one_of_the_stop_word_crate() {
    let stops = StopWords::for_language("en");
    for word in ["a", "is", "the", "yourselves", "don"] {
        let chars = chars_of(word);
        assert!(stops.contains_range(&chars, 0, chars.len()), "{word}");
    }
    for word in ["great", "rust", "en", ""] {
        let chars = chars_of(word);
        assert!(!stops.contains_range(&chars, 0, chars.len()), "{word}");
    }
}

#[test]
fn tokens_are_split_at_any_white_space() {
    assert_eq!(split_tokens(&chars_of(" a\tb\u{3000}c \n")), strings(&["a", "b", "c"]));
    assert_eq!(split_tokens(&chars_of("one")), strings(&["one"]));
    assert_eq!(split_tokens(&chars_of("")), Vec::<String>::new());
}

#[test]
fn strings_and_characters_convert_both_ways() {
    assert_eq!(chars_of("a\u{e9}\u{1f600}"), vec!['a', '\u{e9}', '\u{1f600}']);
    assert_eq!(string_of(&vec!['a', '\u{e9}', '\u{1f600}']), "a\u{e9}\u{1f600}");
    assert_eq!(string_of(&Vec::new()), "");
}

#[test]
fn the_tokens_are_the_words_that_are_no_stop_words() {
    let stops = StopWords::for_language("en");
    for text in [
        "rust is great rust rocks",
        "The quick, brown fox -- jumps over the lazy dog!",
        "cat the",
        "the the a of",
        "IT'S A TEST; it is the end",
        "x\tis  y\n the",
    ] {
        let lowered = text.to_lowercase();
        let spaced = string_of(&collapse_punctuation(&chars_of(&lowered)));
        let kept: Vec<String> = spaced
            .split_whitespace()
            .filter(|word| {
                let chars = chars_of(word);
                !stops.contains_range(&chars, 0, chars.len())
            })
            .map(|word| word.to_string())
            .collect();
        let tokens = normalize(text);
        assert_eq!(tokens, kept, "{text:?}");
        for token in &tokens {
            let chars = chars_of(token);
            assert!(!stops.contains_range(&chars, 0, chars.len()), "{token}");
            assert!(!token.is_empty());
            assert!(token.chars().all(|c| !c.is_whitespace() && !c.is_ascii_punctuation()));
            assert_eq!(&token.to_lowercase(), token);
        }
    }
}
