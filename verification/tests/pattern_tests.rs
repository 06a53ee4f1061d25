//! The text functions held against regular expressions that write the same
//! patterns down, on texts whose words are made of word characters, and
//! against the standard library.

use human_regex::{
    any, exactly, one_or_more, or, punctuation, text as literal, whitespace, word_boundary,
    zero_or_more,
};
use indexer::chars::{chars_of, string_of};
use indexer::normalize::{clean_corpus, split_tokens};
use indexer::text::{join_first, strip_brackets, trim};

const PIECES: [&str; 40] = [
    "the", "is", "a", "rust", "island", "THE", "Is", "don't", "it's", "x", " ", " ", "  ", "\t",
    "\n", "\r\n", "\u{a0}", "\u{3000}", ".", ",", "!", "--", "_", "'", "(", ")", "[", "]",
    "\u{2014}", "\u{e9}", "\u{301}", "\u{1}", "7", "42", "of", "and", "caf\u{e9}", "\u{201c}",
    "\u{200d}", "\u{37e}",
];

/// The pieces that hold letters, digits, marks, white space and ASCII
/// punctuation only: between white space they make words of word characters.
const PLAIN: [&str; 34] = [
    "the", "is", "a", "rust", "island", "THE", "Is", "don't", "it's", "x", " ", " ", "  ", "\t",
    "\n", "\r\n", "\u{a0}", "\u{3000}", ".", ",", "!", "--", "_", "'", "(", ")", "[", "]",
    "\u{e9}", "\u{301}", "7", "42", "of", "caf\u{e9}",
];

/// A text made of `length` plain pieces.
fn plain_sample(seed: u64, length: usize) -> String {
    let mut state = seed.wrapping_mul(6364136223846793005).wrapping_add(1442695040888963407);
    let mut text = String::new();
    for _ in 0..length {
        state = state.wrapping_mul(6364136223846793005).wrapping_add(1442695040888963407);
        text.push_str(PLAIN[((state >> 33) % PLAIN.len() as u64) as usize]);
    }
    text
}

/// A text made of `length` pieces, chosen by a generator that `seed` starts.
fn sample(seed: u64, length: usize) -> String {
    let mut state = seed.wrapping_mul(6364136223846793005).wrapping_add(1442695040888963407);
    let mut text = String::new();
    for _ in 0..length {
        state = state.wrapping_mul(6364136223846793005).wrapping_add(1442695040888963407);
        text.push_str(PIECES[((state >> 33) % PIECES.len() as u64) as usize]);
    }
    text
}

fn cleaned_by_patterns(stop: &[&str], document: &str) -> String {
    let lowercase_doc = document.to_lowercase();
    let without_punctuation = one_or_more(punctuation())
        .to_regex()
        .replace_all(&lowercase_doc, " ")
        .to_string();
    let stop_words =
        word_boundary() + exactly(1, or(stop)) + word_boundary() + zero_or_more(whitespace());
    stop_words.to_regex().replace_all(&without_punctuation, "").to_string()
}

#[test]
fn cleaning_agrees_with_the_patterns_on_chosen_texts() {
    let stop = stop_words::get("en");
    for text in [
        "rust is great rust rocks",
        "The quick, brown fox -- jumps over the lazy dog!",
        "cat the",
        "is",
        "is ",
        " is",
        "a\u{a0}b",
        "the\u{3000}end",
        "caf\u{e9}a b",
        "\u{e9}a b",
        "a\u{301} b",
        "x_the y",
        "the_the the",
        "don't stop",
        "IT'S A TEST",
        "",
    ] {
        assert_eq!(clean_corpus(text.to_string()), cleaned_by_patterns(stop, text), "{text:?}");
    }
}

#[test]
fn cleaning_agrees_with_the_patterns_on_many_texts() {
    let stop = stop_words::get("en");
    let pattern =
        word_boundary() + exactly(1, or(stop)) + word_boundary() + zero_or_more(whitespace());
    let stop_words = pattern.to_regex();
    let marks = one_or_more(punctuation()).to_regex();
    for seed in 0..3000u64 {
        let text = plain_sample(seed, 1 + (seed % 24) as usize);
        let lowercase_doc = text.to_lowercase();
        let spaced = marks.replace_all(&lowercase_doc, " ").to_string();
        let want = stop_words.replace_all(&spaced, "").to_string();
        assert_eq!(clean_corpus(text.clone()), want, "{text:?}");
    }
}

#[test]
fn bracketed_spans_agree_with_the_pattern() {
    let pattern = (literal("[") + zero_or_more(any()).lazy() + literal("]")).to_regex();
    let mut texts: Vec<String> = [
        "Hello [1] world",
        "a[b[c]d]e",
        "a [b\nc] d",
        "[a\n[b]",
        "[]",
        "][",
        "[[[[",
        "[[[[]",
        "[a\rb]",
        "x[\u{e9}]y[z",
        "",
    ]
    .iter()
    .map(|t| t.to_string())
    .collect();
    for seed in 0..2000u64 {
        texts.push(sample(seed + 10_000, 1 + (seed % 16) as usize));
    }
    for text in texts {
        let want = pattern.replace_all(&text, " ").to_string();
        assert_eq!(string_of(&strip_brackets(&chars_of(&text))), want, "{text:?}");
    }
}

#[test]
fn the_small_helpers_agree_with_the_standard_library() {
    for seed in 0..2000u64 {
        let text = sample(seed + 50_000, (seed % 20) as usize);
        let chars = chars_of(&text);
        assert_eq!(string_of(&chars), text);
        assert_eq!(string_of(&trim(&chars)), text.trim(), "{text:?}");
        let tokens: Vec<String> = text.split_whitespace().map(|t| t.to_string()).collect();
        assert_eq!(split_tokens(&chars), tokens, "{text:?}");
        for count in 0..=tokens.len().min(3) {
            assert_eq!(string_of(&join_first(&tokens, count)), tokens[..count].join(" "));
        }
    }
}
