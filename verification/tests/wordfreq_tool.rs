use streamchat::wordfreq::{count_frequencies, normalize_word, sort_by_count};

fn strings(words: &[&str]) -> Vec<String> {
    words.iter().map(|w| w.to_string()).collect()
}

#[test]
fn count_frequencies_tallies_each_word() {
    let words = strings(&["a", "b", "a", "c", "a", "b"]);
    let (keys, counts) = count_frequencies(&words);
    assert_eq!(keys, strings(&["a", "b", "c"]));
    assert_eq!(counts, vec![3, 2, 1]);
}

#[test]
fn count_frequencies_of_nothing_is_empty() {
    let (keys, counts) = count_frequencies(&Vec::new());
    assert!(keys.is_empty());
    assert!(counts.is_empty());
}

#[test]
fn sort_by_count_orders_descending() {
    let (keys, counts) = sort_by_count(strings(&["x", "y", "z"]), vec![1, 3, 2]);
    assert_eq!(keys, strings(&["y", "z", "x"]));
    assert_eq!(counts, vec![3, 2, 1]);
}

#[test]
fn sort_by_count_keeps_tied_order() {
    let (keys, counts) = sort_by_count(strings(&["b", "a"]), vec![2, 2]);
    assert_eq!(keys, strings(&["b", "a"]));
    assert_eq!(counts, vec![2, 2]);
}

#[test]
fn normalize_word_strips_punctuation_and_folds_case() {
    assert_eq!(normalize_word("Hello,", 1, true), Some("hello".to_string()));
    assert_eq!(normalize_word("Don't", 1, false), Some("Dont".to_string()));
    assert_eq!(normalize_word("it!", 3, false), None);
    assert_eq!(normalize_word("--", 1, false), None);
    assert_eq!(normalize_word("Rust", 1, false), Some("Rust".to_string()));
}

#[test]
fn word_frequency_pipeline() {
    let text = "The cat and the dog and the bird";
    let words: Vec<String> = text
        .split_whitespace()
        .filter_map(|w| normalize_word(w, 1, true))
        .collect();
    let (keys, counts) = count_frequencies(&words);
    let (keys, counts) = sort_by_count(keys, counts);
    assert_eq!(keys[0], "the");
    assert_eq!(counts[0], 3);
    assert_eq!(keys[1], "and");
    assert_eq!(counts[1], 2);
    assert_eq!(counts[2..], [1, 1, 1]);
}
