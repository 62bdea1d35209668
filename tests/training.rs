use bpe_train::merge::{bpe, max_pair, merge_pair, pair_frequency, train, LookupError};
use bpe_train::vocabulary::Vocabulary;

fn symbols(text: &str) -> Vec<String> {
    text.chars().map(|c| c.to_string()).collect()
}

fn token_strings(v: &Vocabulary) -> Vec<String> {
    v.tokens().clone()
}

#[test]
fn scenario_aaab() {
    let (vocab, seq) = train(&symbols("aaab"), 10, 8).unwrap();
    assert_eq!(seq, vec![2, 0, 1]);
    assert_eq!(token_strings(&vocab), vec!["a", "b", "aa"]);
    assert_eq!(vocab.get(&"a".to_string()), Some(0));
    assert_eq!(vocab.get(&"b".to_string()), Some(1));
    assert_eq!(vocab.get(&"aa".to_string()), Some(2));
    assert_eq!(vocab.len(), 3);
}

#[test]
fn scenario_capacity_equals_alphabet() {
    let (vocab, seq) = train(&symbols("ab"), 2, 8).unwrap();
    assert_eq!(seq, vec![0, 1]);
    assert_eq!(vocab.len(), 2);
    assert_eq!(vocab.capacity(), 2);
}

#[test]
fn repeated_passes_merge_merged_symbols() {
    let (vocab, seq) = train(&symbols("abababab"), 10, 8).unwrap();
    assert_eq!(seq, vec![3, 3]);
    assert_eq!(token_strings(&vocab), vec!["a", "b", "ab", "abab"]);
}

#[test]
fn capacity_stops_training() {
    let (vocab, seq) = train(&symbols("abababab"), 3, 8).unwrap();
    assert_eq!(seq, vec![2, 2, 2, 2]);
    assert_eq!(vocab.len(), 3);
}

#[test]
fn too_long_token_is_not_merged() {
    let (vocab, seq) = train(&symbols("aaaa"), 10, 2).unwrap();
    assert_eq!(seq, vec![0, 0, 0, 0]);
    assert_eq!(vocab.len(), 1);
}

#[test]
fn token_length_counts_characters() {
    let (vocab, seq) = train(&symbols("ééé"), 10, 3).unwrap();
    assert_eq!(seq, vec![1, 0]);
    assert_eq!(vocab.get(&"éé".to_string()), Some(1));
}

#[test]
fn small_capacity_is_lookup_error() {
    assert_eq!(train(&symbols("abc"), 2, 8).err(), Some(LookupError::SymbolMissing));
}

#[test]
fn empty_and_single_inputs() {
    let (vocab, seq) = train(&symbols(""), 10, 8).unwrap();
    assert!(seq.is_empty());
    assert_eq!(vocab.len(), 0);
    let (vocab, seq) = train(&symbols("x"), 10, 8).unwrap();
    assert_eq!(seq, vec![0]);
    assert_eq!(vocab.len(), 1);
}

#[test]
fn no_repeated_pair_stops() {
    let (vocab, seq) = train(&symbols("abcd"), 10, 8).unwrap();
    assert_eq!(seq, vec![0, 1, 2, 3]);
    assert_eq!(vocab.len(), 4);
}

#[test]
fn pass_shortens_sequence() {
    let mut vocab = Vocabulary::new(10, 8);
    vocab.insert("a".to_string());
    let before = vec![0, 0, 0, 0, 0];
    let after = bpe(&before, &mut vocab);
    assert!(after.len() < before.len());
    assert_eq!(after, vec![1, 1, 0]);
}

#[test]
fn bpe_on_full_vocabulary_returns_input() {
    let mut vocab = Vocabulary::new(1, 8);
    vocab.insert("a".to_string());
    assert_eq!(bpe(&vec![0, 0, 0], &mut vocab), vec![0, 0, 0]);
    assert_eq!(vocab.len(), 1);
}

#[test]
fn max_pair_frequencies_and_ties() {
    assert_eq!(max_pair(&vec![]), None);
    assert_eq!(max_pair(&vec![4]), None);
    assert_eq!(max_pair(&vec![0, 0, 0, 1]), Some(((0, 0), 2)));
    assert_eq!(max_pair(&vec![0, 1, 2, 3]), Some(((0, 1), 1)));
    assert_eq!(max_pair(&vec![3, 2, 0, 0, 3, 2, 0, 0]), Some(((3, 2), 2)));
    assert_eq!(max_pair(&vec![1, 0, 0, 1, 0, 0, 0]), Some(((0, 0), 3)));
}

#[test]
fn pair_frequency_counts_overlaps() {
    assert_eq!(pair_frequency(&vec![0, 0, 0], 0, 0), 2);
    assert_eq!(pair_frequency(&vec![0, 1, 0, 1], 1, 0), 1);
    assert_eq!(pair_frequency(&vec![0], 0, 0), 0);
}

#[test]
fn merge_pair_keeps_trailing_symbol() {
    assert_eq!(merge_pair(&vec![0, 0, 1], 0, 0, 5), vec![5, 1]);
    assert_eq!(merge_pair(&vec![0, 0, 0], 0, 0, 5), vec![5, 0]);
    assert_eq!(merge_pair(&vec![0, 1, 0, 1, 2], 0, 1, 7), vec![7, 7, 2]);
    assert_eq!(merge_pair(&vec![], 0, 1, 7), Vec::<usize>::new());
}
