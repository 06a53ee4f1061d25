use indexer::frequency::{create_frequency, score_tokens, try_create_frequency, TOP_WORDS};
use indexer::models::Document;

fn strings(words: &[&str]) -> Vec<String> {
    words.iter().map(|w| w.to_string()).collect()
}

fn pairs(list: &[(&str, i32)]) -> Vec<(String, i32)> {
    list.iter().map(|(w, c)| (w.to_string(), *c)).collect()
}

#[test]
fn a_word_of_the_title_is_boosted_by_fifty() {
    let kept = score_tokens(&strings(&["a", "a", "b"]), &strings(&["a"]), &strings(&[]));
    assert_eq!(kept, pairs(&[("a", 52), ("b", 1)]));
}

#[test]
fn a_word_of_the_description_is_boosted_by_ten() {
    let kept = score_tokens(&strings(&["a", "b", "b"]), &strings(&[]), &strings(&["a", "c"]));
    assert_eq!(kept, pairs(&[("a", 11), ("b", 2)]));
}

#[test]
fn each_occurrence_in_title_and_description_counts() {
    let kept = score_tokens(
        &strings(&["x", "y"]),
        &strings(&["y", "y"]),
        &strings(&["y", "x", "x", "x"]),
    );
    assert_eq!(kept, pairs(&[("y", 111), ("x", 31)]));
}

#[test]
fn a_word_that_is_not_in_the_text_is_never_kept() {
    let kept = score_tokens(&strings(&["b"]), &strings(&["a", "a"]), &strings(&["a", "c"]));
    assert_eq!(kept, pairs(&[("b", 1)]));
    let none = score_tokens(&strings(&[]), &strings(&["a"]), &strings(&["b"]));
    assert_eq!(none, pairs(&[]));
}

#[test]
fn equal_counts_keep_the_order_of_the_text() {
    let kept = score_tokens(
        &strings(&["d", "c", "b", "a", "c", "a"]),
        &strings(&[]),
        &strings(&[]),
    );
    assert_eq!(kept, pairs(&[("c", 2), ("a", 2), ("d", 1), ("b", 1)]));
}

#[test]
fn fifteen_hundred_distinct_words_give_a_thousand_records() {
    let text: Vec<String> = (0..1500).map(|i| format!("w{i}")).collect();
    let kept = score_tokens(&text, &strings(&[]), &strings(&[]));
    assert_eq!(kept.len(), 1000);
    assert_eq!(TOP_WORDS, 1000);
    for (i, (word, count)) in kept.iter().enumerate() {
        assert_eq!(word, &format!("w{i}"));
        assert_eq!(*count, 1);
    }
}

#[test]
fn the_highest_counts_are_the_ones_kept() {
    let mut text: Vec<String> = (0..1200).map(|i| format!("w{i}")).collect();
    text.push("w1199".to_string());
    text.push("w1100".to_string());
    text.push("w1100".to_string());
    let kept = score_tokens(&text, &strings(&["w1150"]), &strings(&[]));
    assert_eq!(kept.len(), 1000);
    assert_eq!(kept[0], ("w1150".to_string(), 51));
    assert_eq!(kept[1], ("w1100".to_string(), 3));
    assert_eq!(kept[2], ("w1199".to_string(), 2));
    for i in 3..1000 {
        assert_eq!(kept[i], (format!("w{}", i - 3), 1));
    }
}

#[test]
fn fewer_words_than_the_limit_are_all_kept() {
    let text: Vec<String> = (0..999).map(|i| format!("w{}", i % 333)).collect();
    let kept = score_tokens(&text, &strings(&[]), &strings(&[]));
    assert_eq!(kept.len(), 333);
    assert!(kept.iter().all(|(_, count)| *count == 3));
}

#[test]
fn the_guide_counts_rust_twice_and_boosts_it() {
    let document = Document::new(
        "https://example.com/guide".to_string(),
        "Rust Guide".to_string(),
        "Learn systems programming".to_string(),
        String::new(),
        "rust is great rust rocks".to_string(),
        strings(&["rust", "great", "rust", "rocks"]),
    );
    let records = create_frequency(&document);
    let counts: Vec<(String, i32)> = records.iter().map(|r| (r.word.clone(), r.count)).collect();
    assert_eq!(counts, pairs(&[("rust", 52), ("great", 1), ("rocks", 1)]));
    assert!(records.iter().all(|r| r.document.bytes == document.get_id().bytes));
    assert!(records.iter().all(|r| r.word != "guide"));
}

#[test]
fn title_and_description_are_normalized_before_they_boost() {
    let document = Document::new(
        "u".to_string(),
        "The RUST, the Rust!".to_string(),
        "Is rust (rocks) great?".to_string(),
        String::new(),
        String::new(),
        strings(&["rust", "rocks", "the"]),
    );
    let counts: Vec<(String, i32)> =
        create_frequency(&document).iter().map(|r| (r.word.clone(), r.count)).collect();
    assert_eq!(counts, pairs(&[("rust", 111), ("rocks", 11), ("the", 1)]));
}

#[test]
fn records_get_identifiers_of_their_own() {
    let document = Document::new(
        "u".to_string(),
        String::new(),
        String::new(),
        String::new(),
        String::new(),
        strings(&["a", "b"]),
    );
    let records = create_frequency(&document);
    assert_eq!(records.len(), 2);
    assert_ne!(records[0]._id.bytes, records[1]._id.bytes);
    assert_ne!(records[0]._id.bytes, document.get_id().bytes);
}

#[test]
fn a_long_text_is_counted() {
    let text: Vec<String> = (0..200_000u32).map(|i| format!("w{}", (i * i) % 30_011)).collect();
    let kept = score_tokens(&text, &strings(&["w0", "w1"]), &strings(&["w4"]));
    assert_eq!(kept.len(), 1000);
    let mut counts = std::collections::HashMap::new();
    for word in &text {
        *counts.entry(word.as_str()).or_insert(0) += 1;
    }
    *counts.get_mut("w0").unwrap() += 50;
    *counts.get_mut("w1").unwrap() += 50;
    *counts.get_mut("w4").unwrap() += 10;
    for (word, count) in &kept {
        assert_eq!(counts[word.as_str()], *count, "{word}");
    }
    for pair in kept.windows(2) {
        assert!(pair[0].1 >= pair[1].1);
    }
    let least = kept[999].1;
    let kept_words: std::collections::HashSet<&str> = kept.iter().map(|(w, _)| w.as_str()).collect();
    for (word, count) in &counts {
        assert!(kept_words.contains(word) || *count <= least, "{word}");
    }
}

#[test]
fn a_document_whose_counts_fit_has_its_records() {
    let document = Document::new(
        "u".to_string(),
        "Rust Guide".to_string(),
        "About rust".to_string(),
        String::new(),
        String::new(),
        strings(&["rust", "guide", "rust"]),
    );
    let records = try_create_frequency(&document).unwrap();
    let counts: Vec<(String, i32)> = records.iter().map(|r| (r.word.clone(), r.count)).collect();
    assert_eq!(counts, pairs(&[("rust", 62), ("guide", 51)]));
    assert!(records.iter().all(|r| r.document.bytes == document.get_id().bytes));
}
