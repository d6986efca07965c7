use subcipher::alphabet::{index_of_letter, is_lowercase_letter, letter_of_index, to_folded};
use subcipher::sub_cipher::{ConfigurationError, SubCipher};

fn chars(s: &str) -> Vec<char> {
    s.chars().collect()
}

fn text(v: &[char]) -> String {
    v.iter().collect()
}

#[test]
fn new_accepts_permutations() {
    assert!(SubCipher::new("abcdefghijklmnopqrstuvwxyz").is_ok());
    assert!(SubCipher::new("zyxwvutsrqponmlkjihgfedcba").is_ok());
    assert!(SubCipher::new("qwertyuiopasdfghjklzxcvbnm").is_ok());
}

#[test]
fn new_rejects_wrong_length() {
    assert_eq!(SubCipher::new("").err(), Some(ConfigurationError::WrongLength));
    assert_eq!(
        SubCipher::new("abcdefghijklmnopqrstuvwxy").err(),
        Some(ConfigurationError::WrongLength)
    );
    assert_eq!(
        SubCipher::new("abcdefghijklmnopqrstuvwxyza").err(),
        Some(ConfigurationError::WrongLength)
    );
}

#[test]
fn new_rejects_repeated_letter() {
    assert_eq!(
        SubCipher::new("abcdefghijklmnopqrstuvwxya").err(),
        Some(ConfigurationError::RepeatedLetter)
    );
    assert_eq!(
        SubCipher::new("aaaaaaaaaaaaaaaaaaaaaaaaaa").err(),
        Some(ConfigurationError::RepeatedLetter)
    );
}

#[test]
fn new_rejects_characters_outside_the_alphabet() {
    assert_eq!(
        SubCipher::new("Abcdefghijklmnopqrstuvwxyz").err(),
        Some(ConfigurationError::InvalidLetter)
    );
    assert_eq!(
        SubCipher::new("abcdefghijklm nopqrstuvwxy").err(),
        Some(ConfigurationError::InvalidLetter)
    );
    assert_eq!(
        SubCipher::new("abcdefghijklmnopqrstuvwx1z").err(),
        Some(ConfigurationError::InvalidLetter)
    );
    // a repeated letter before the bad character: the bad character is named
    assert_eq!(
        SubCipher::new("aacdefghijklmnopqrstuvwxy\u{e9}").err(),
        Some(ConfigurationError::InvalidLetter)
    );
    // 26 characters need not be 26 bytes
    assert_eq!(
        SubCipher::new("abcdefghijklmnopqrstuvwx\u{e9}").err(),
        Some(ConfigurationError::WrongLength)
    );
}

#[test]
fn encrypt_replaces_lowercase_letters_only() {
    let cipher = SubCipher::new("zyxwvutsrqponmlkjihgfedcba").unwrap();
    assert_eq!(text(&cipher.encrypt(&chars("hello, World 42!"))), "svool, Wliow 42!");
    assert_eq!(text(&cipher.decrypt(&chars("svool, Wliow 42!"))), "hello, World 42!");
    assert_eq!(cipher.encrypt(&[]), Vec::<char>::new());
}

#[test]
fn encrypt_and_decrypt_use_opposite_directions() {
    let cipher = SubCipher::new("bcdefghijklmnopqrstuvwxyza").unwrap();
    assert_eq!(text(&cipher.encrypt(&chars("abc xyz"))), "bcd yza");
    assert_eq!(text(&cipher.decrypt(&chars("abc xyz"))), "zab wxy");
}

#[test]
fn decrypt_undoes_encrypt() {
    let sample = "The quick brown fox\njumps over the lazy dog; \u{e9}t\u{e9} 1999, OK?";
    for key in [
        "abcdefghijklmnopqrstuvwxyz",
        "zyxwvutsrqponmlkjihgfedcba",
        "qwertyuiopasdfghjklzxcvbnm",
        "xgnqzljsvcepmuwhbrtyofkdia",
    ] {
        let cipher = SubCipher::new(key).unwrap();
        let there = cipher.encrypt(&chars(sample));
        assert_eq!(there.len(), sample.chars().count());
        assert_eq!(text(&cipher.decrypt(&there)), sample);
        let back = cipher.decrypt(&chars(sample));
        assert_eq!(text(&cipher.encrypt(&back)), sample);
    }
}

#[test]
fn alphabet_positions() {
    assert_eq!(index_of_letter('a'), 0);
    assert_eq!(index_of_letter('z'), 25);
    assert_eq!(letter_of_index(0), 'a');
    assert_eq!(letter_of_index(12), 'm');
    assert_eq!(letter_of_index(25), 'z');
    assert!(is_lowercase_letter('q'));
    assert!(!is_lowercase_letter('Q'));
    assert!(!is_lowercase_letter('{'));
    assert!(!is_lowercase_letter('`'));
    assert_eq!(to_folded('Q'), 'q');
    assert_eq!(to_folded('A'), 'a');
    assert_eq!(to_folded('Z'), 'z');
    assert_eq!(to_folded('q'), 'q');
    assert_eq!(to_folded('['), '[');
    assert_eq!(to_folded('@'), '@');
    assert_eq!(to_folded('\u{c9}'), '\u{c9}');
}
