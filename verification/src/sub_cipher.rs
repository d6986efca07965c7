//! The substitution cipher: a permutation of the alphabet applied letter by letter.

use crate::alphabet::{
    index_of_letter, is_letter, is_lowercase_letter, lemma_letter_at_index, letter_at,
    letter_index, letter_of_index,
};
use vstd::prelude::*;

verus! {

/// Why a key or a table of letter counts was refused.
#[derive(Debug, Clone, Copy, PartialEq, Eq, Structural)]
pub enum ConfigurationError {
    /// The key does not have 26 characters.
    WrongLength,
    /// The key has 26 characters, one of them not a lowercase letter.
    InvalidLetter,
    /// The key has 26 lowercase letters, one of them twice.
    RepeatedLetter,
    /// A table of letter counts does not have exactly the 26 letters as its keys.
    IncompleteTable,
}

/// Every character of `key` is a lowercase letter.
pub open spec fn all_letters(key: Seq<char>) -> bool {
    forall|i: int| 0 <= i < key.len() ==> is_letter(#[trigger] key[i])
}

/// `key` is a permutation of the alphabet: 26 lowercase letters, none twice.
/// The letter at position `i` is the ciphertext letter of the `i`-th plaintext letter.
pub open spec fn is_valid_key(key: Seq<char>) -> bool {
    key.len() == 26 && all_letters(key) && key.no_duplicates()
}

/// The first defect of a string that is no valid key.
pub open spec fn key_defect(key: Seq<char>) -> ConfigurationError {
    if key.len() != 26 {
        ConfigurationError::WrongLength
    } else if !all_letters(key) {
        ConfigurationError::InvalidLetter
    } else {
        ConfigurationError::RepeatedLetter
    }
}

/// Image of one character under the key: a lowercase letter is replaced, anything else stays.
pub open spec fn encrypt_char(key: Seq<char>, c: char) -> char {
    if is_letter(c) {
        key[letter_index(c)]
    } else {
        c
    }
}

/// A position at which `c` stands in `key`.
pub open spec fn key_position(key: Seq<char>, c: char) -> int {
    choose|i: int| 0 <= i < key.len() && key[i] == c
}

/// Image of one character under the inverse of the key.
pub open spec fn decrypt_char(key: Seq<char>, c: char) -> char {
    if is_letter(c) {
        letter_at(key_position(key, c))
    } else {
        c
    }
}

/// The text with every character encrypted.
pub open spec fn encrypt_text(key: Seq<char>, text: Seq<char>) -> Seq<char> {
    Seq::new(text.len(), |i: int| encrypt_char(key, text[i]))
}

/// The text with every character decrypted.
pub open spec fn decrypt_text(key: Seq<char>, text: Seq<char>) -> Seq<char> {
    Seq::new(text.len(), |i: int| decrypt_char(key, text[i]))
}

/// Number of positions below `n` that hold something other than a blank.
pub open spec fn filled(s: Seq<char>, n: int) -> int
    decreases n,
{
    if n <= 0 {
        0
    } else {
        filled(s, n - 1) + if s[n - 1] != ' ' { 1int } else { 0int }
    }
}

proof fn lemma_filled_blank(s: Seq<char>, n: int)
    requires
        0 <= n <= s.len(),
        forall|j: int| 0 <= j < n ==> s[j] == ' ',
    ensures
        filled(s, n) == 0,
    decreases n,
{
    if n > 0 {
        lemma_filled_blank(s, n - 1);
    }
}

proof fn lemma_filled_update(s: Seq<char>, k: int, c: char, n: int)
    requires
        0 <= k < s.len(),
        0 <= n <= s.len(),
        s[k] == ' ',
        c != ' ',
    ensures
        filled(s.update(k, c), n) == filled(s, n) + if k < n { 1int } else { 0int },
    decreases n,
{
    if n > 0 {
        lemma_filled_update(s, k, c, n - 1);
    }
}

proof fn lemma_filled_all(s: Seq<char>, n: int)
    requires
        0 <= n <= s.len(),
    ensures
        filled(s, n) <= n,
        filled(s, n) == n ==> forall|j: int| 0 <= j < n ==> s[j] != ' ',
    decreases n,
{
    if n > 0 {
        lemma_filled_all(s, n - 1);
    }
}

/// In a valid key a letter stands at one position only.
pub proof fn lemma_key_position(key: Seq<char>, i: int)
    requires
        is_valid_key(key),
        0 <= i < 26,
    ensures
        key_position(key, key[i]) == i,
{
    let p = key_position(key, key[i]);
    assert(0 <= p < key.len() && key[p] == key[i]);
}

/// Decrypting what was encrypted with the same key gives the text back, whatever
/// the text holds: letters return to themselves and all other characters were
/// never changed.
pub proof fn lemma_decrypt_encrypt(key: Seq<char>, text: Seq<char>)
    requires
        is_valid_key(key),
    ensures
        decrypt_text(key, encrypt_text(key, text)) == text,
{
    let enc = encrypt_text(key, text);
    let dec = decrypt_text(key, enc);
    assert forall|i: int| 0 <= i < text.len() implies dec[i] == text[i] by {
        let c = text[i];
        if is_letter(c) {
            let k = letter_index(c);
            assert(is_letter(key[k]));
            lemma_key_position(key, k);
        }
    }
    assert(dec =~= text);
}

/// A substitution cipher with its key in both directions.
pub struct SubCipher {
    to_cipher_text: Vec<char>,
    to_plain_text: Vec<char>,
}

impl SubCipher {
    /// The key: the ciphertext letter of each plaintext letter, `a` to `z`.
    /// The cipher's second table holds nothing more: in a well-formed cipher
    /// it is the inverse of the key.
    pub closed spec fn key(&self) -> Seq<char> {
        self.to_cipher_text@
    }

    /// The key is a permutation and the second table is its inverse.
    pub closed spec fn wf(&self) -> bool {
        &&& is_valid_key(self.to_cipher_text@)
        &&& self.to_plain_text@.len() == 26
        &&& forall|j: int|
            0 <= j < 26 ==> is_letter(#[trigger] self.to_plain_text@[j])
                && self.to_cipher_text@[letter_index(self.to_plain_text@[j])] == letter_at(j)
    }

    /// A well-formed cipher has a valid key.
    pub proof fn lemma_wf_key(&self)
        requires
            self.wf(),
        ensures
            is_valid_key(self.key()),
    {
    }

    /// Encrypting what was decrypted with the same cipher gives the text back.
    pub proof fn lemma_encrypt_decrypt(&self, text: Seq<char>)
        requires
            self.wf(),
        ensures
            encrypt_text(self.key(), decrypt_text(self.key(), text)) == text,
    {
        let key = self.key();
        let dec = decrypt_text(key, text);
        let enc = encrypt_text(key, dec);
        assert forall|i: int| 0 <= i < text.len() implies enc[i] == text[i] by {
            let c = text[i];
            if is_letter(c) {
                let p = self.to_plain_text@[letter_index(c)];
                lemma_letter_at_index(c);
                lemma_key_position(key, letter_index(p));
                lemma_letter_at_index(p);
            }
        }
        assert(enc =~= text);
    }

    /// Builds the cipher from its key, or says what is wrong with the key.
    pub fn new(shifter: &str) -> (r: Result<SubCipher, ConfigurationError>)
        ensures
            r is Ok <==> is_valid_key(shifter@),
            r matches Ok(c) ==> c.wf() && c.key() == shifter@,
            r matches Err(e) ==> e == key_defect(shifter@),
    {
        let n: usize = shifter.unicode_len();
        if n != 26 {
            return Err(ConfigurationError::WrongLength);
        }
        let mut to_cipher_text: Vec<char> = Vec::new();
        let mut to_plain_text: Vec<char> = Vec::new();
        let mut i: usize = 0;
        while i < 26
            invariant
                i <= 26,
                shifter@.len() == 26,
                to_cipher_text@ == shifter@.subrange(0, i as int),
                to_plain_text@.len() == i,
                forall|k: int| 0 <= k < i ==> is_letter(#[trigger] shifter@[k]),
                forall|k: int| 0 <= k < i ==> to_plain_text@[k] == ' ',
            decreases 26 - i,
        {
            let c = shifter.get_char(i);
            if !is_lowercase_letter(c) {
                return Err(ConfigurationError::InvalidLetter);
            }
            to_cipher_text.push(c);
            to_plain_text.push(' ');
            assert(to_cipher_text@ =~= shifter@.subrange(0, i + 1));
            i += 1;
        }
        assert(to_cipher_text@ =~= shifter@);
        assert(all_letters(shifter@));
        proof {
            lemma_filled_blank(to_plain_text@, 26);
        }
        let mut i: usize = 0;
        while i < 26
            invariant
                i <= 26,
                shifter@.len() == 26,
                all_letters(shifter@),
                to_cipher_text@ == shifter@,
                to_plain_text@.len() == 26,
                forall|a: int, b: int| 0 <= a < b < i ==> shifter@[a] != shifter@[b],
                forall|j: int|
                    0 <= j < 26 ==> #[trigger] to_plain_text@[j] == ' ' || (is_letter(
                        to_plain_text@[j],
                    ) && letter_index(to_plain_text@[j]) < i && shifter@[letter_index(
                        to_plain_text@[j],
                    )] == letter_at(j)),
                forall|k: int|
                    0 <= k < i ==> to_plain_text@[letter_index(#[trigger] shifter@[k])] != ' ',
                filled(to_plain_text@, 26) == i,
            decreases 26 - i,
        {
            let c = to_cipher_text[i];
            assert(is_letter(shifter@[i as int]));
            let slot: usize = index_of_letter(c);
            if to_plain_text[slot] != ' ' {
                proof {
                    let earlier = letter_index(to_plain_text@[slot as int]);
                    assert(shifter@[earlier] == shifter@[i as int]);
                    assert(!shifter@.no_duplicates());
                }
                return Err(ConfigurationError::RepeatedLetter);
            }
            proof {
                lemma_filled_update(to_plain_text@, slot as int, letter_at(i as int), 26);
                assert forall|a: int| 0 <= a < i implies shifter@[a] != shifter@[i as int] by {
                    assert(to_plain_text@[letter_index(shifter@[a])] != ' ');
                }
            }
            to_plain_text.set(slot, letter_of_index(i));
            i += 1;
        }
        proof {
            lemma_filled_all(to_plain_text@, 26);
            assert(shifter@.no_duplicates());
        }
        Ok(SubCipher { to_cipher_text, to_plain_text })
    }

    /// Replaces every lowercase letter by its ciphertext letter and copies every
    /// other character.
    pub fn encrypt(&self, plain_text: &[char]) -> (out: Vec<char>)
        requires
            self.wf(),
        ensures
            out@ == encrypt_text(self.key(), plain_text@),
    {
        let mut output: Vec<char> = Vec::new();
        let mut idx: usize = 0;
        while idx < plain_text.len()
            invariant
                self.wf(),
                idx <= plain_text@.len(),
                output@ == encrypt_text(self.key(), plain_text@.subrange(0, idx as int)),
            decreases plain_text@.len() - idx,
        {
            let c = plain_text[idx];
            let image = if is_lowercase_letter(c) {
                self.to_cipher_text[index_of_letter(c)]
            } else {
                c
            };
            output.push(image);
            assert(output@ =~= encrypt_text(self.key(), plain_text@.subrange(0, idx + 1)));
            idx += 1;
        }
        assert(plain_text@.subrange(0, idx as int) =~= plain_text@);
        output
    }

    /// Replaces every lowercase letter by its plaintext letter and copies every
    /// other character.
    pub fn decrypt(&self, cipher_text: &[char]) -> (out: Vec<char>)
        requires
            self.wf(),
        ensures
            out@ == decrypt_text(self.key(), cipher_text@),
    {
        let mut output: Vec<char> = Vec::new();
        let mut idx: usize = 0;
        while idx < cipher_text.len()
            invariant
                self.wf(),
                idx <= cipher_text@.len(),
                output@ == decrypt_text(self.key(), cipher_text@.subrange(0, idx as int)),
            decreases cipher_text@.len() - idx,
        {
            let c = cipher_text[idx];
            let image = if is_lowercase_letter(c) {
                let p = self.to_plain_text[index_of_letter(c)];
                proof {
                    lemma_key_position(self.key(), letter_index(p));
                }
                p
            } else {
                c
            };
            output.push(image);
            assert(output@ =~= decrypt_text(self.key(), cipher_text@.subrange(0, idx + 1)));
            idx += 1;
        }
        assert(cipher_text@.subrange(0, idx as int) =~= cipher_text@);
        output
    }
}

} // verus!
