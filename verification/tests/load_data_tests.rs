use subcipher::estimator::covers_all_letter_codes;
use subcipher::load_data::{
    has_distinct_keys, has_only_ngrams, is_ngram_key, load_frequency_data, parse_count,
    parse_letter_line, parse_ngram_line, split_chars, upsert_entry, DataUnavailableError,
};

fn chars(s: &str) -> Vec<char> {
    s.chars().collect()
}

fn strings(pieces: &[Vec<char>]) -> Vec<String> {
    pieces.iter().map(|p| p.iter().collect()).collect()
}

fn pairs(list: &[(&str, usize)]) -> Vec<(String, usize)> {
    list.iter().map(|(g, n)| (g.to_string(), *n)).collect()
}

const LETTERS: &str = "Letter counts\n\
1 e  21912 (12.02)\n\
2 t  16587 (9.10)\n\
3 a  14810 (8.12)\n\
a line without its bracket 7 7 7\n";

const NGRAMS: &str = "#\n\
Bigrams\n\
1 th  92535489 (3.88)\n\
2 he  87741289 (3.68)\n\
#\n\
Trigrams\n\
1 the  59623899 (3.50)\n\
2 and  27088636 (1.59)\n\
3 ing  19494469 (1.14)\n";

/// One line for each letter but `e`, `t` and `a`, each with the count 5.
fn other_letters() -> String {
    ('a'..='z')
        .filter(|c| !"eta".contains(*c))
        .map(|c| format!("9 {}  5 (0.1)\n", c))
        .collect()
}

fn sample() -> String {
    format!("{}{}{}", LETTERS, other_letters(), NGRAMS)
}

/// A complete first section, every letter with the count 5.
fn all_letters() -> String {
    ('a'..='z').map(|c| format!("9 {}  5 (0.1)\n", c)).collect()
}

#[test]
fn split_keeps_empty_pieces() {
    assert_eq!(strings(&split_chars(&chars("a,b c"), &chars(", "))), vec!["a", "b", "c"]);
    assert_eq!(strings(&split_chars(&chars(""), &chars("#"))), vec![""]);
    assert_eq!(strings(&split_chars(&chars("#"), &chars("#"))), vec!["", ""]);
    assert_eq!(strings(&split_chars(&chars("a##b#"), &chars("#"))), vec!["a", "", "b", ""]);
    assert_eq!(
        strings(&split_chars(&chars("1 th  92 (3.88)"), &chars(" (,"))),
        vec!["1", "th", "", "92", "", "3.88)"]
    );
    assert_eq!(strings(&split_chars(&chars("a#b"), &Vec::new())), vec!["a#b"]);
}

#[test]
fn counts_are_decimal_numbers() {
    assert_eq!(parse_count(&chars("0")), Some(0));
    assert_eq!(parse_count(&chars("21912")), Some(21912));
    assert_eq!(parse_count(&chars("+17")), Some(17));
    assert_eq!(parse_count(&chars("007")), Some(7));
    assert_eq!(parse_count(&chars("")), None);
    assert_eq!(parse_count(&chars("+")), None);
    assert_eq!(parse_count(&chars("-3")), None);
    assert_eq!(parse_count(&chars("++3")), None);
    assert_eq!(parse_count(&chars("12a")), None);
    assert_eq!(parse_count(&chars("1 2")), None);
    assert_eq!(parse_count(&chars("3.88")), None);
    assert_eq!(parse_count(&chars("\u{664}")), None);
}

#[test]
fn counts_must_fit_the_machine_word() {
    let max = usize::MAX.to_string();
    assert_eq!(parse_count(&chars(&max)), Some(usize::MAX));
    assert_eq!(parse_count(&chars(&format!("{}0", max))), None);
    let above = (usize::MAX as u128 + 1).to_string();
    assert_eq!(parse_count(&chars(&above)), None);
    assert_eq!(parse_count(&chars("99999999999999999999999999999999999999999")), None);
    for token in ["0", "9", "10", "18446744073709551615", "18446744073709551616", "x1", "+0"] {
        assert_eq!(parse_count(&chars(token)), token.parse::<usize>().ok());
    }
}

#[test]
fn ngram_lines_hold_gram_and_count() {
    assert_eq!(
        parse_ngram_line(&chars("1 th  92535489 (3.88)")),
        Some(("th".to_string(), 92535489))
    );
    assert_eq!(parse_ngram_line(&chars("x,the(,12 )")), Some(("the".to_string(), 12)));
    assert_eq!(parse_ngram_line(&chars("1 th 92535489 (3.88)")), None);
    assert_eq!(parse_ngram_line(&chars("th 5)")), None);
    assert_eq!(parse_ngram_line(&chars("1 th  many (3.88)")), None);
    assert_eq!(parse_ngram_line(&chars("")), None);
}

#[test]
fn letter_lines_hold_letter_and_count() {
    assert_eq!(parse_letter_line(&chars("1 e  21912 (12.02)")), Some(('e' as u32, 21912)));
    assert_eq!(parse_letter_line(&chars("1. Q, 40 (x)")), Some(('Q' as u32, 40)));
    assert_eq!(parse_letter_line(&chars("1 2  21912 (12.02)")), None);
    assert_eq!(parse_letter_line(&chars("1 e 21912 (12.02)")), None);
    assert_eq!(parse_letter_line(&chars("e")), None);
}

#[test]
fn upsert_replaces_or_appends() {
    let mut table = pairs(&[("th", 1), ("he", 2)]);
    upsert_entry(&mut table, "an".to_string(), 3);
    assert_eq!(table, pairs(&[("th", 1), ("he", 2), ("an", 3)]));
    upsert_entry(&mut table, "he".to_string(), 9);
    assert_eq!(table, pairs(&[("th", 1), ("he", 9), ("an", 3)]));
    let mut empty: Vec<(String, usize)> = Vec::new();
    upsert_entry(&mut empty, "zz".to_string(), 0);
    assert_eq!(empty, pairs(&[("zz", 0)]));
}

#[test]
fn sample_loads() {
    let data = load_frequency_data(&chars(&sample())).unwrap();
    assert_eq!(data.character_frequencies.len(), 26);
    assert_eq!(data.character_frequencies.get(&('e' as u32)), Some(&21912));
    assert_eq!(data.character_frequencies.get(&('t' as u32)), Some(&16587));
    assert_eq!(data.character_frequencies.get(&('a' as u32)), Some(&14810));
    assert_eq!(data.character_frequencies.get(&('z' as u32)), Some(&5));
    assert_eq!(data.bigram_frequencies, pairs(&[("th", 92535489), ("he", 87741289)]));
    assert_eq!(
        data.trigram_frequencies,
        pairs(&[("the", 59623899), ("and", 27088636), ("ing", 19494469)])
    );
    assert!(covers_all_letter_codes(&data.character_frequencies));
    assert!(has_distinct_keys(&data.bigram_frequencies));
    assert!(has_only_ngrams(&data.trigram_frequencies, 3));
}

#[test]
fn carriage_returns_before_newlines_are_dropped() {
    let windows = sample().replace('\n', "\r\n");
    let data = load_frequency_data(&chars(&windows)).unwrap();
    assert_eq!(data.character_frequencies.len(), 26);
    assert_eq!(data.bigram_frequencies, pairs(&[("th", 92535489), ("he", 87741289)]));
    assert_eq!(data.trigram_frequencies.len(), 3);
    // at the very end of the text a carriage return stays, so the line does not count
    let text = format!("{}##1 the  5 (1)\n2 and  6 (1)\r", all_letters());
    let data = load_frequency_data(&chars(&text)).unwrap();
    assert_eq!(data.trigram_frequencies, pairs(&[("the", 5)]));
    let text = format!("{}##1 the  5 (1)\n2 and  6 (1)", all_letters());
    let data = load_frequency_data(&chars(&text)).unwrap();
    assert_eq!(data.trigram_frequencies, pairs(&[("the", 5), ("and", 6)]));
}

#[test]
fn later_lines_replace_earlier_counts() {
    let text =
        format!("{}2 e  2 (x)\n#1 th  1 ()\n2 he  2 ()\n3 th  3 ()\n#", all_letters());
    let data = load_frequency_data(&chars(&text)).unwrap();
    assert_eq!(data.character_frequencies.len(), 26);
    assert_eq!(data.character_frequencies.get(&('e' as u32)), Some(&2));
    assert_eq!(data.character_frequencies.get(&('f' as u32)), Some(&5));
    assert_eq!(data.bigram_frequencies, pairs(&[("th", 3), ("he", 2)]));
    assert!(data.trigram_frequencies.is_empty());
}

#[test]
fn text_after_the_third_section_is_ignored() {
    let text = format!("{}##1 the  5 (1)#broken line)", all_letters());
    let data = load_frequency_data(&chars(&text)).unwrap();
    assert_eq!(data.character_frequencies.len(), 26);
    assert!(data.bigram_frequencies.is_empty());
    assert_eq!(data.trigram_frequencies, pairs(&[("the", 5)]));
}

#[test]
fn missing_sections_are_refused() {
    assert_eq!(load_frequency_data(&chars("")).err(), Some(DataUnavailableError::MissingSection));
    assert_eq!(
        load_frequency_data(&chars("1 e  21912 (12.02)\n#1 th  5 (1)\n")).err(),
        Some(DataUnavailableError::MissingSection)
    );
    // a malformed line in a text that is too short anyway
    assert_eq!(
        load_frequency_data(&chars("broken)\n#")).err(),
        Some(DataUnavailableError::MissingSection)
    );
}

#[test]
fn malformed_lines_are_refused() {
    assert_eq!(
        load_frequency_data(&chars("1 e  many (12.02)\n##")).err(),
        Some(DataUnavailableError::MalformedLine)
    );
    assert_eq!(
        load_frequency_data(&chars(&format!("{}#1 th (3.88)\n#", all_letters()))).err(),
        Some(DataUnavailableError::MalformedLine)
    );
    assert_eq!(
        load_frequency_data(&chars("##1 the  99999999999999999999999 (3.88)\n")).err(),
        Some(DataUnavailableError::MalformedLine)
    );
    assert_eq!(
        load_frequency_data(&chars("1 2  3 (4)\n##")).err(),
        Some(DataUnavailableError::MalformedLine)
    );
    // without its bracket the line does not count, and nothing else is there
    assert_eq!(
        load_frequency_data(&chars("1 e  many (12.02\n##")).err(),
        Some(DataUnavailableError::IncompleteLetters)
    );
}

#[test]
fn incomplete_letters_are_refused() {
    assert_eq!(
        load_frequency_data(&chars("##")).err(),
        Some(DataUnavailableError::IncompleteLetters)
    );
    let text = format!("{}{}", LETTERS, NGRAMS);
    assert_eq!(
        load_frequency_data(&chars(&text)).err(),
        Some(DataUnavailableError::IncompleteLetters)
    );
    // all letters but one
    let text = format!("{}##", all_letters().replace("9 q  5 (0.1)\n", ""));
    assert_eq!(
        load_frequency_data(&chars(&text)).err(),
        Some(DataUnavailableError::IncompleteLetters)
    );
    // a capital beside the 26 letters
    let text = format!("{}9 E  5 (0.1)\n##", all_letters());
    assert_eq!(
        load_frequency_data(&chars(&text)).err(),
        Some(DataUnavailableError::IncompleteLetters)
    );
    // a capital in place of its letter
    let text = format!("{}##", all_letters().replace("9 e ", "9 E "));
    assert_eq!(
        load_frequency_data(&chars(&text)).err(),
        Some(DataUnavailableError::IncompleteLetters)
    );
    assert!(load_frequency_data(&chars(&format!("{}##", all_letters()))).is_ok());
}

#[test]
fn ngrams_of_the_wrong_shape_are_refused() {
    for tail in [
        "#1 the  5 (1)\n#",
        "#1 t  5 (1)\n#",
        "#1 Th  5 (1)\n#",
        "#1 t'  5 (1)\n#",
        "#1   5 (1)\n#",
        "##1 th  5 (1)\n",
        "##1 then  5 (1)\n",
        "##1 th3  5 (1)\n",
        "#1 th  5 (1)\n#1 the  5 (1)\n2 \u{e9}t\u{e9}  5 (1)\n",
    ] {
        let text = format!("{}{}", all_letters(), tail);
        assert_eq!(
            load_frequency_data(&chars(&text)).err(),
            Some(DataUnavailableError::InvalidNgram),
            "{}",
            tail
        );
    }
    // incomplete letters are named first
    assert_eq!(
        load_frequency_data(&chars("#1 the  5 (1)\n#")).err(),
        Some(DataUnavailableError::IncompleteLetters)
    );
}

#[test]
fn ngram_keys_are_lowercase_letters() {
    assert!(is_ngram_key("th", 2));
    assert!(is_ngram_key("the", 3));
    assert!(is_ngram_key("", 0));
    assert!(!is_ngram_key("th", 3));
    assert!(!is_ngram_key("the", 2));
    assert!(!is_ngram_key("tH", 2));
    assert!(!is_ngram_key("t ", 2));
    assert!(!is_ngram_key("\u{e9}", 2));
    assert!(!is_ngram_key("\u{e9}a", 2));
    assert!(has_only_ngrams(&pairs(&[("th", 1), ("he", 2)]), 2));
    assert!(!has_only_ngrams(&pairs(&[("th", 1), ("the", 2)]), 2));
    assert!(has_only_ngrams(&Vec::new(), 3));
}

#[test]
fn distinct_keys_are_told_from_repeated_ones() {
    assert!(has_distinct_keys(&Vec::new()));
    assert!(has_distinct_keys(&pairs(&[("th", 1)])));
    assert!(has_distinct_keys(&pairs(&[("th", 1), ("he", 1), ("an", 1)])));
    assert!(!has_distinct_keys(&pairs(&[("th", 1), ("he", 1), ("th", 2)])));
    assert!(!has_distinct_keys(&pairs(&[("he", 1), ("he", 1)])));
}
