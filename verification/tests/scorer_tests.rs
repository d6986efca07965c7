use dashmap::DashMap;
use std::collections::HashMap;
use subcipher::load_data::FrequencyData;
use subcipher::scorer::{abs_diff, deviation_from, score_shifter, Score};
use subcipher::sub_cipher::ConfigurationError;

const IDENTITY: &str = "abcdefghijklmnopqrstuvwxyz";

fn chars(s: &str) -> Vec<char> {
    s.chars().collect()
}

fn reference(bigrams: &[(&str, usize)], trigrams: &[(&str, usize)]) -> FrequencyData {
    FrequencyData {
        character_frequencies: HashMap::new(),
        bigram_frequencies: bigrams.iter().map(|(g, n)| (g.to_string(), *n)).collect(),
        trigram_frequencies: trigrams.iter().map(|(g, n)| (g.to_string(), *n)).collect(),
    }
}

#[test]
fn abs_diff_is_symmetric() {
    assert_eq!(abs_diff(7, 3), 4);
    assert_eq!(abs_diff(3, 7), 4);
    assert_eq!(abs_diff(5, 5), 0);
    assert_eq!(abs_diff(0, usize::MAX), usize::MAX);
    assert_eq!(abs_diff(usize::MAX, 0), usize::MAX);
}

#[test]
fn deviation_sums_distances_over_the_reference() {
    let table: DashMap<String, usize> = DashMap::new();
    table.insert("th".to_string(), 5);
    table.insert("he".to_string(), 1);
    table.insert("xx".to_string(), 100);
    let listed = vec![("th".to_string(), 3), ("he".to_string(), 4), ("an".to_string(), 6)];
    // |3 - 5| + |4 - 1| + |6 - 0|
    assert_eq!(deviation_from(&listed, &table), 11);
    assert_eq!(deviation_from(&Vec::new(), &table), 0);
}

#[test]
fn deviation_does_not_overflow() {
    let table: DashMap<String, usize> = DashMap::new();
    let listed = vec![("aa".to_string(), usize::MAX), ("bb".to_string(), usize::MAX)];
    assert_eq!(deviation_from(&listed, &table), 2 * (usize::MAX as u128));
}

#[test]
fn score_of_the_identity_key() {
    let data = reference(&[("ab", 3), ("zz", 1), ("ba", 1)], &[("aba", 2), ("the", 4)]);
    // bigrams of "abab ab": ab 3, ba 1; trigrams: aba 1, bab 1
    let score = score_shifter(&data, &chars("abab ab"), IDENTITY).unwrap();
    assert_eq!(score, Score { bigram_deviation: 1, trigram_deviation: 5 });
}

#[test]
fn score_decrypts_before_counting() {
    let data = reference(&[("ab", 3), ("zz", 1), ("ba", 1)], &[("aba", 2), ("the", 4)]);
    // under the reversed alphabet "zyzy zy" decrypts to "abab ab"
    let score = score_shifter(&data, &chars("zyzy zy"), "zyxwvutsrqponmlkjihgfedcba").unwrap();
    assert_eq!(score, Score { bigram_deviation: 1, trigram_deviation: 5 });
    let score = score_shifter(&data, &chars("zyzy zy"), IDENTITY).unwrap();
    assert_eq!(score, Score { bigram_deviation: 5, trigram_deviation: 6 });
}

#[test]
fn score_refuses_bad_keys() {
    let data = reference(&[("ab", 3)], &[]);
    assert_eq!(score_shifter(&data, &chars("ab"), "abc"), Err(ConfigurationError::WrongLength));
    assert_eq!(
        score_shifter(&data, &chars("ab"), "abcdefghijklmnopqrstuvwxyy"),
        Err(ConfigurationError::RepeatedLetter)
    );
    assert_eq!(
        score_shifter(&data, &chars("ab"), "abcdefghijklmnopqrstuvwxy-"),
        Err(ConfigurationError::InvalidLetter)
    );
}

#[test]
fn lower_weighted_sum_is_better() {
    let low = Score { bigram_deviation: 4, trigram_deviation: 1 }; // 17 tenths
    let high = Score { bigram_deviation: 0, trigram_deviation: 2 }; // 18 tenths
    assert!(low.is_better_than(&high));
    assert!(!high.is_better_than(&low));
    assert!(!low.is_better_than(&low));
    let same = Score { bigram_deviation: 9, trigram_deviation: 0 }; // 18 tenths
    assert!(!same.is_better_than(&high));
    assert!(!high.is_better_than(&same));
}

#[test]
fn scores_compare_beyond_the_machine_word() {
    let huge = Score { bigram_deviation: u128::MAX, trigram_deviation: u128::MAX };
    let less = Score { bigram_deviation: u128::MAX, trigram_deviation: u128::MAX - 1 };
    let other = Score { bigram_deviation: u128::MAX - 4, trigram_deviation: u128::MAX };
    assert!(less.is_better_than(&huge));
    assert!(!huge.is_better_than(&less));
    // nine less in the trigrams outweighs eight less in the bigrams
    assert!(less.is_better_than(&other));
    assert!(!other.is_better_than(&less));
    let carry = Score { bigram_deviation: 1u128 << 64, trigram_deviation: 0 };
    let below = Score { bigram_deviation: (1u128 << 64) - 1, trigram_deviation: 0 };
    assert!(below.is_better_than(&carry));
    assert!(!carry.is_better_than(&below));
}
