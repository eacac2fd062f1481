//! Lexicon behaviour: per-length indexing, normalization, lookup, and the
//! lexicographic enumeration order.

use radix_trie::TrieCommon;
use xrosslexiord::lexicon::{compile_n_prefix_tree, Lexicon};

fn sample_words() -> Vec<String> {
    [
        "Aachen", "abacus", "abased", "abases", "abated", "zebra", "Abe", "ace", "act", "Ada",
        "add", "cat", "dog", "isn't", "at", "be",
    ]
    .iter()
    .map(|w| w.to_string())
    .collect()
}

#[test]
fn concerning_compiling_prefix_trees() {
    let tree = compile_n_prefix_tree(&sample_words(), 6);
    assert_eq!(
        vec!["AACHEN", "ABACUS", "ABASED", "ABASES", "ABATED"],
        tree.keys().take(5).map(|k| k.as_str()).collect::<Vec<&str>>()
    );
}

#[test]
fn concerning_lexicon_lookup() {
    let lexicon = Lexicon::build(&sample_words(), 3);
    assert!(lexicon.contains(&['C', 'A', 'T']));
}

#[test]
fn concerning_n_dictionaries() {
    let lexicon = Lexicon::build(&sample_words(), 3);
    assert_eq!(
        vec!["ABE", "ACE", "ACT", "ADA", "ADD"],
        lexicon
            .n_dictionary(3)
            .iter()
            .take(5)
            .map(|k| k.as_str())
            .collect::<Vec<&str>>()
    );
}

#[test]
fn lookup_uppercases_the_query() {
    let lexicon = Lexicon::build(&sample_words(), 3);
    assert!(lexicon.contains(&['c', 'a', 't']));
    assert!(lexicon.contains(&['c', 'A', 't']));
    assert!(!lexicon.contains(&['c', 'o', 'w']));
}

#[test]
fn words_with_apostrophes_are_rejected() {
    let lexicon = Lexicon::build(&sample_words(), 5);
    assert!(!lexicon.contains(&['I', 'S', 'N', '\'', 'T']));
    assert!(lexicon.contains(&['Z', 'E', 'B', 'R', 'A']));
}

#[test]
fn words_longer_than_the_maximum_are_ignored() {
    let lexicon = Lexicon::build(&sample_words(), 3);
    assert!(lexicon.n_dictionary(0).is_empty());
    assert!(lexicon.n_dictionary(1).is_empty());
    assert_eq!(vec!["AT", "BE"], lexicon.n_dictionary(2));
    assert!(!lexicon.contains(&['X']));
}

#[test]
fn the_enumeration_is_strictly_ascending() {
    let lexicon = Lexicon::build(&sample_words(), 6);
    for n in 0..=6usize {
        let words = lexicon.n_dictionary(n);
        for pair in words.windows(2) {
            assert!(pair[0] < pair[1]);
        }
        for word in &words {
            assert_eq!(n, word.chars().count());
        }
    }
}

#[test]
fn an_empty_word_list_yields_an_empty_lexicon() {
    let lexicon = Lexicon::build(&Vec::new(), 4);
    for n in 0..=4usize {
        assert!(lexicon.n_dictionary(n).is_empty());
    }
    assert!(!lexicon.contains(&['C', 'A', 'T']));
}
