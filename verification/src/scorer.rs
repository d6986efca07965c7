//! Scoring a candidate key: how far the n-gram counts of the text it decrypts
//! to are from the reference counts. A lower score is a better key.

use crate::freq_analysis::{
    count_bigram_freq, count_trigram_freq, is_ngram_table_of, ngram_count,
};
use crate::load_data::FrequencyData;
use crate::sub_cipher::{decrypt_text, is_valid_key, key_defect, ConfigurationError, SubCipher};
use crate::tables::{ngram_counts, ngram_table_get};
use dashmap::DashMap;
use vstd::prelude::*;

verus! {

/// Weight of the bigram deviation in a score, in tenths.
pub const BIGRAM_WEIGHT: u128 = 2;

/// Weight of the trigram deviation in a score, in tenths.
pub const TRIGRAM_WEIGHT: u128 = 9;

/// Distance between two counts.
pub open spec fn distance(a: int, b: int) -> int {
    if a > b {
        a - b
    } else {
        b - a
    }
}

/// Returns the absolute value of the difference between `a` and `b`.
pub fn abs_diff(a: usize, b: usize) -> (d: usize)
    ensures
        d == distance(a as int, b as int),
{
    if a > b {
        a - b
    } else {
        b - a
    }
}

/// The count that a table holds for `gram`: 0 where it has no entry.
pub open spec fn measured(counts: Map<Seq<char>, usize>, gram: Seq<char>) -> int {
    if counts.contains_key(gram) {
        counts[gram] as int
    } else {
        0
    }
}

/// Sum, over the first `upto` reference entries, of the distance between the
/// reference count and the count in the table.
pub open spec fn table_deviation(
    reference: Seq<(String, usize)>,
    counts: Map<Seq<char>, usize>,
    upto: int,
) -> int
    decreases upto,
{
    if upto <= 0 {
        0
    } else {
        table_deviation(reference, counts, upto - 1) + distance(
            reference[upto - 1].1 as int,
            measured(counts, reference[upto - 1].0@),
        )
    }
}

/// Sum, over the first `upto` reference entries, of the distance between the
/// reference count and the number of times the n-gram is counted in `text`.
pub open spec fn text_deviation(
    reference: Seq<(String, usize)>,
    text: Seq<char>,
    n: int,
    upto: int,
) -> int
    decreases upto,
{
    if upto <= 0 {
        0
    } else {
        text_deviation(reference, text, n, upto - 1) + distance(
            reference[upto - 1].1 as int,
            ngram_count(text, n, reference[upto - 1].0@) as int,
        )
    }
}

/// Against the table of a text, the deviation is that of the text.
pub proof fn lemma_table_deviation_of_text(
    reference: Seq<(String, usize)>,
    counts: Map<Seq<char>, usize>,
    text: Seq<char>,
    n: int,
    upto: int,
)
    requires
        is_ngram_table_of(counts, text, n),
        0 <= upto <= reference.len(),
    ensures
        table_deviation(reference, counts, upto) == text_deviation(reference, text, n, upto),
    decreases upto,
{
    if upto > 0 {
        lemma_table_deviation_of_text(reference, counts, text, n, upto - 1);
        let g = reference[upto - 1].0@;
        assert(counts.contains_key(g) || !counts.contains_key(g));
    }
}

/// How far a decrypted text is from the reference, by n-gram order.
#[derive(Debug, Clone, Copy, PartialEq, Eq, Structural)]
pub struct Score {
    /// Summed distance between reference and measured bigram counts.
    pub bigram_deviation: u128,
    /// Summed distance between reference and measured trigram counts.
    pub trigram_deviation: u128,
}

impl Score {
    /// The weighted sum of the two deviations, in tenths.
    pub open spec fn weighted(&self) -> nat {
        (BIGRAM_WEIGHT * self.bigram_deviation + TRIGRAM_WEIGHT * self.trigram_deviation) as nat
    }

    /// The weighted sum as a number of 2^64 and a rest below 2^64.
    fn weighted_parts(&self) -> (parts: (u128, u128))
        ensures
            parts.1 < 0x1_0000_0000_0000_0000,
            parts.0 * 0x1_0000_0000_0000_0000 + parts.1 == self.weighted(),
    {
        let word: u128 = 0x1_0000_0000_0000_0000;
        let high: u128 = BIGRAM_WEIGHT * (self.bigram_deviation / word) + TRIGRAM_WEIGHT * (
        self.trigram_deviation / word);
        let low: u128 = BIGRAM_WEIGHT * (self.bigram_deviation % word) + TRIGRAM_WEIGHT * (
        self.trigram_deviation % word);
        (high + low / word, low % word)
    }

    /// Whether this score is strictly better, that is lower, than `other`.
    pub fn is_better_than(&self, other: &Score) -> (r: bool)
        ensures
            r == (self.weighted() < other.weighted()),
    {
        let mine = self.weighted_parts();
        let theirs = other.weighted_parts();
        mine.0 < theirs.0 || (mine.0 == theirs.0 && mine.1 < theirs.1)
    }
}

/// `score` is the score of `key` on `cipher_text`: its two deviations are those
/// of the text decrypted with `key`, over all bigrams and all trigrams of the
/// reference.
pub open spec fn is_score_of(
    score: Score,
    freq_data: FrequencyData,
    cipher_text: Seq<char>,
    key: Seq<char>,
) -> bool {
    &&& score.bigram_deviation == text_deviation(
        freq_data.bigram_frequencies@,
        decrypt_text(key, cipher_text),
        2,
        freq_data.bigram_frequencies@.len() as int,
    )
    &&& score.trigram_deviation == text_deviation(
        freq_data.trigram_frequencies@,
        decrypt_text(key, cipher_text),
        3,
        freq_data.trigram_frequencies@.len() as int,
    )
}

/// The score of `key` on `cipher_text`, where both deviations fit the score.
pub open spec fn score_of(freq_data: FrequencyData, cipher_text: Seq<char>, key: Seq<char>) -> Score {
    Score {
        bigram_deviation: text_deviation(
            freq_data.bigram_frequencies@,
            decrypt_text(key, cipher_text),
            2,
            freq_data.bigram_frequencies@.len() as int,
        ) as u128,
        trigram_deviation: text_deviation(
            freq_data.trigram_frequencies@,
            decrypt_text(key, cipher_text),
            3,
            freq_data.trigram_frequencies@.len() as int,
        ) as u128,
    }
}

/// Sums the distances between the reference counts and the counts of a table,
/// entry by entry of the reference list: an n-gram that the list holds twice
/// is counted twice.
pub fn deviation_from(reference: &Vec<(String, usize)>, table: &DashMap<String, usize>) -> (total:
    u128)
    ensures
        total == table_deviation(reference@, ngram_counts(*table), reference@.len() as int),
{
    let mut total: u128 = 0;
    let mut i: usize = 0;
    while i < reference.len()
        invariant
            i <= reference@.len(),
            total == table_deviation(reference@, ngram_counts(*table), i as int),
            total <= i * 0xFFFF_FFFF_FFFF_FFFF,
        decreases reference@.len() - i,
    {
        let measured_freq: usize = match ngram_table_get(table, reference[i].0.as_str()) {
            Some(f) => f,
            None => 0,
        };
        let d: usize = abs_diff(reference[i].1, measured_freq);
        assert(i * 0xFFFF_FFFF_FFFF_FFFF + 0xFFFF_FFFF_FFFF_FFFF <= 0xFFFF_FFFF_FFFF_FFFF
            * 0xFFFF_FFFF_FFFF_FFFF) by (nonlinear_arith)
            requires
                i < 0xFFFF_FFFF_FFFF_FFFF,
        ;
        total = total + d as u128;
        i += 1;
    }
    total
}

/// Scores a key by evaluating how likely it was used to encrypt the text: the
/// text is decrypted with the key, and its bigram and trigram counts are held
/// against the reference. Lower scores indicate higher likelihood. A string
/// that is no valid key is refused. The reference tables must be mappings, so
/// that every n-gram enters the score once.
pub fn score_shifter(freq_data: &FrequencyData, cipher_text: &[char], shifter: &str) -> (r: Result<
    Score,
    ConfigurationError,
>)
    requires
        freq_data.is_mapping(),
    ensures
        r is Ok <==> is_valid_key(shifter@),
        r matches Err(e) ==> e == key_defect(shifter@),
        r matches Ok(score) ==> is_score_of(score, *freq_data, cipher_text@, shifter@),
{
    let cipher = match SubCipher::new(shifter) {
        Ok(c) => c,
        Err(e) => {
            return Err(e);
        },
    };
    let decrypted = cipher.decrypt(cipher_text);
    let bigram_frequencies = count_bigram_freq(&decrypted);
    let bigram_deviation = deviation_from(&freq_data.bigram_frequencies, &bigram_frequencies);
    let trigram_frequencies = count_trigram_freq(&decrypted);
    let trigram_deviation = deviation_from(&freq_data.trigram_frequencies, &trigram_frequencies);
    proof {
        lemma_table_deviation_of_text(
            freq_data.bigram_frequencies@,
            ngram_counts(bigram_frequencies),
            decrypted@,
            2,
            freq_data.bigram_frequencies@.len() as int,
        );
        lemma_table_deviation_of_text(
            freq_data.trigram_frequencies@,
            ngram_counts(trigram_frequencies),
            decrypted@,
            3,
            freq_data.trigram_frequencies@.len() as int,
        );
    }
    Ok(Score { bigram_deviation, trigram_deviation })
}

} // verus!
