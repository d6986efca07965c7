use dashmap::DashMap;
use std::collections::HashMap;
use subcipher::estimator::{covers_all_letter_codes, generate_likely_shifter};
use subcipher::sub_cipher::ConfigurationError;

/// Letter counts of English text, `a` to `z`.
const ENGLISH: [usize; 26] = [
    14810, 2715, 4943, 7874, 21912, 4200, 3819, 10977, 13318, 205, 1257, 7253, 4761,
    12666, 14003, 3316, 188, 10795, 11450, 16587, 5246, 2019, 3853, 315, 3693, 128,
];

fn english_letter_counts() -> HashMap<u32, usize> {
    let mut table = HashMap::new();
    for (c, count) in ('a'..='z').zip(ENGLISH.iter()) {
        table.insert(c as u32, *count);
    }
    table
}

#[test]
fn test_gen_likely_shifter_matching_maps() {
    let expected = english_letter_counts();
    let char_frequencies: DashMap<char, usize> = DashMap::new();
    expected.iter().for_each(|(k, v)| {
        char_frequencies.insert(char::from_u32(*k).unwrap(), *v);
    });

    let curr_shifter = generate_likely_shifter(&expected, &char_frequencies).unwrap();

    assert_eq!(curr_shifter, "abcdefghijklmnopqrstuvwxyz".to_string());
}

#[test]
fn test_gen_likely_shifter_rev_abc_ordered_freq() {
    let expected = english_letter_counts();
    let char_frequencies: DashMap<char, usize> = DashMap::new();
    ('a'..='z').zip(1..=26).for_each(|(c, f)| {
        char_frequencies.insert(c, f);
    });

    let curr_shifter = generate_likely_shifter(&expected, &char_frequencies).unwrap();

    assert_eq!(curr_shifter, "xgnqzljsvcepmuwhbrtyofkdia".to_string());
}

#[test]
fn test_gen_likely_shifter_abc_ordered_freq() {
    let expected = english_letter_counts();
    let char_frequencies: DashMap<char, usize> = DashMap::new();
    ('a'..='z').zip((1..=26).rev()).for_each(|(c, f)| {
        char_frequencies.insert(c, f);
    });

    let curr_shifter = generate_likely_shifter(&expected, &char_frequencies).unwrap();

    assert_eq!(curr_shifter, "ctmjaoqhexvknfdsyigblupwrz".to_string());
}

#[test]
fn likely_shifter_breaks_ties_by_letter() {
    let expected: HashMap<u32, usize> = ('a'..='z').map(|c| (c as u32, 7)).collect();
    let observed: DashMap<char, usize> = DashMap::new();
    for c in 'a'..='z' {
        observed.insert(c, 0);
    }
    let key = generate_likely_shifter(&expected, &observed).unwrap();
    assert_eq!(key, "abcdefghijklmnopqrstuvwxyz");

    // one letter stands out in the text: it is paired with the last letter of the reference
    observed.insert('c', 5);
    let key = generate_likely_shifter(&expected, &observed).unwrap();
    assert_eq!(key, "abdefghijklmnopqrstuvwxyzc");
}

#[test]
fn likely_shifter_is_a_permutation() {
    let expected = english_letter_counts();
    let observed: DashMap<char, usize> = DashMap::new();
    for (i, c) in ('a'..='z').enumerate() {
        observed.insert(c, (i * 37) % 11);
    }
    let key = generate_likely_shifter(&expected, &observed).unwrap();
    let mut letters: Vec<char> = key.chars().collect();
    letters.sort();
    assert_eq!(letters, ('a'..='z').collect::<Vec<char>>());
}

#[test]
fn likely_shifter_refuses_missing_letter() {
    let mut expected = english_letter_counts();
    let observed: DashMap<char, usize> = DashMap::new();
    for c in 'a'..='z' {
        observed.insert(c, 1);
    }
    observed.remove(&'q');
    assert_eq!(
        generate_likely_shifter(&expected, &observed),
        Err(ConfigurationError::IncompleteTable)
    );
    observed.insert('q', 1);
    assert!(generate_likely_shifter(&expected, &observed).is_ok());
    expected.remove(&('e' as u32));
    assert_eq!(
        generate_likely_shifter(&expected, &observed),
        Err(ConfigurationError::IncompleteTable)
    );
}

#[test]
fn likely_shifter_refuses_extra_key() {
    let mut expected = english_letter_counts();
    let observed: DashMap<char, usize> = DashMap::new();
    for c in 'a'..='z' {
        observed.insert(c, 1);
    }
    observed.insert('!', 4);
    assert_eq!(
        generate_likely_shifter(&expected, &observed),
        Err(ConfigurationError::IncompleteTable)
    );
    observed.remove(&'!');
    expected.insert('A' as u32, 3);
    assert_eq!(
        generate_likely_shifter(&expected, &observed),
        Err(ConfigurationError::IncompleteTable)
    );
    // 26 keys, one of them no letter
    expected.remove(&('z' as u32));
    assert_eq!(
        generate_likely_shifter(&expected, &observed),
        Err(ConfigurationError::IncompleteTable)
    );
}

#[test]
fn letter_codes_must_be_the_alphabet() {
    let mut table = english_letter_counts();
    assert!(covers_all_letter_codes(&table));
    table.remove(&('m' as u32));
    assert!(!covers_all_letter_codes(&table));
    table.insert('M' as u32, 1);
    assert!(!covers_all_letter_codes(&table));
    table.insert('m' as u32, 1);
    assert!(!covers_all_letter_codes(&table));
    assert!(!covers_all_letter_codes(&HashMap::new()));
}

#[test]
fn likely_shifter_recovers_the_key_when_counts_differ() {
    let expected = english_letter_counts();
    for key in ["qwertyuiopasdfghjklzxcvbnm", "zyxwvutsrqponmlkjihgfedcba", "bcdefghijklmnopqrstuvwxyza"]
    {
        let observed: DashMap<char, usize> = DashMap::new();
        for (plain, cipher) in ('a'..='z').zip(key.chars()) {
            observed.insert(cipher, expected[&(plain as u32)]);
        }
        assert_eq!(generate_likely_shifter(&expected, &observed).unwrap(), key);
    }
}
