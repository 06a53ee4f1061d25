use indexer::chains::{key_of_bytes, key_of_text, mix, Chains};

#[test]
fn the_chain_of_a_key_leads_through_its_places() {
    let mut chains = Chains::new();
    for key in [5u64, 7, 5, 9, 5] {
        chains.push(key);
    }
    assert_eq!(chains.head(5), Some(4));
    assert_eq!(chains.link(4), Some(2));
    assert_eq!(chains.link(2), Some(0));
    assert_eq!(chains.link(0), None);
    assert_eq!(chains.head(7), Some(1));
    assert_eq!(chains.link(1), None);
    assert_eq!(chains.head(9), Some(3));
    assert_eq!(chains.link(3), None);
    assert_eq!(chains.head(1), None);
}

#[test]
fn an_empty_list_has_no_heads() {
    let chains = Chains::new();
    assert_eq!(chains.head(0), None);
    assert_eq!(chains.head(u64::MAX), None);
}

#[test]
fn equal_texts_have_equal_keys() {
    let word: Vec<char> = "rust".chars().collect();
    let same: Vec<char> = "rust".chars().collect();
    let other: Vec<char> = "rusty".chars().collect();
    assert_eq!(key_of_text(&word), key_of_text(&same));
    assert_ne!(key_of_text(&word), key_of_text(&other));
    assert_eq!(key_of_text(&Vec::new()), 14695981039346656037);
    assert_eq!(key_of_text(&vec!['a']), mix(14695981039346656037, 97));
}

#[test]
fn keys_are_mixed_without_overflow() {
    assert_eq!(mix(0, 0), 0);
    assert_eq!(mix(1, 2), 1099511628213);
    assert_eq!(
        mix(u64::MAX, u64::MAX),
        u64::MAX.wrapping_mul(1099511628211).wrapping_add(u64::MAX)
    );
    assert_eq!(key_of_bytes(&[0; 12]), key_of_bytes(&[0; 12]));
    assert_ne!(key_of_bytes(&[0; 12]), key_of_bytes(&[1; 12]));
}
