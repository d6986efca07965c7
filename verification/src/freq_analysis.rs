//! Counting letters, bigrams and trigrams in a text.
//!
//! Letters are counted after ASCII case folding and only `a` to `z` count.
//! Bigrams and trigrams are windows of the text as it stands: a window is left
//! out if one of its characters is whitespace, and counted under its literal
//! characters otherwise, punctuation and digits included.

use crate::alphabet::{fold_case, is_letter, lemma_letter_at_index, is_lowercase_letter, letter_at, letter_index, letter_of_index, to_folded};
use crate::tables::{
    char_is_whitespace, is_whitespace, letter_counts, letter_table_get, letter_table_insert,
    new_letter_table, new_ngram_table, ngram_counts, ngram_table_get, ngram_table_insert,
    push_char,
};
use dashmap::DashMap;
use vstd::prelude::*;

verus! {

/// How often the letter `c` occurs in the case-folded text.
pub open spec fn letter_occurrences(text: Seq<char>, c: char) -> nat
    decreases text.len(),
{
    if text.len() == 0 {
        0
    } else {
        letter_occurrences(text.drop_last(), c) + if fold_case(text.last()) == c {
            1nat
        } else {
            0nat
        }
    }
}

/// How many characters of the text are letters after case folding.
pub open spec fn letters_in(text: Seq<char>) -> nat
    decreases text.len(),
{
    if text.len() == 0 {
        0
    } else {
        letters_in(text.drop_last()) + if is_letter(fold_case(text.last())) {
            1nat
        } else {
            0nat
        }
    }
}

/// The counts of the first `n` letters of the alphabet, added up.
pub open spec fn occurrences_total(text: Seq<char>, n: int) -> nat
    decreases n,
{
    if n <= 0 {
        0
    } else {
        occurrences_total(text, n - 1) + letter_occurrences(text, letter_at(n - 1))
    }
}

/// A table of letter counts for `text`: its keys are the 26 letters and each
/// holds the number of occurrences of its letter.
pub open spec fn is_letter_table_of(counts: Map<char, usize>, text: Seq<char>) -> bool {
    &&& forall|c: char| #[trigger] counts.contains_key(c) <==> is_letter(c)
    &&& forall|c: char| is_letter(c) ==> #[trigger] counts[c] == letter_occurrences(text, c)
}

/// A letter occurs at most as often as the text is long.
pub proof fn lemma_letter_occurrences_bound(text: Seq<char>, c: char)
    ensures
        letter_occurrences(text, c) <= text.len(),
    decreases text.len(),
{
    if text.len() > 0 {
        lemma_letter_occurrences_bound(text.drop_last(), c);
    }
}

proof fn lemma_total_step(text: Seq<char>, n: int)
    requires
        text.len() > 0,
        0 <= n <= 26,
    ensures
        occurrences_total(text, n) == occurrences_total(text.drop_last(), n) + if is_letter(
            fold_case(text.last()),
        ) && letter_index(fold_case(text.last())) < n {
            1nat
        } else {
            0nat
        },
    decreases n,
{
    if n > 0 {
        lemma_total_step(text, n - 1);
    }
}

proof fn lemma_total_empty(n: int)
    ensures
        occurrences_total(Seq::<char>::empty(), n) == 0,
    decreases n,
{
    if n > 0 {
        lemma_total_empty(n - 1);
    }
}

/// The counts of the 26 letters add up to the number of characters of the text
/// that are letters after case folding.
pub proof fn lemma_letter_counts_total(text: Seq<char>)
    ensures
        occurrences_total(text, 26) == letters_in(text),
    decreases text.len(),
{
    if text.len() == 0 {
        assert(text =~= Seq::<char>::empty());
        lemma_total_empty(26);
    } else {
        lemma_letter_counts_total(text.drop_last());
        lemma_total_step(text, 26);
    }
}

/// The values that a table holds for the first `n` letters, added up.
pub open spec fn table_total(counts: Map<char, usize>, n: int) -> nat
    decreases n,
{
    if n <= 0 {
        0
    } else {
        table_total(counts, n - 1) + counts[letter_at(n - 1)] as nat
    }
}

proof fn lemma_table_total(counts: Map<char, usize>, text: Seq<char>, n: int)
    requires
        is_letter_table_of(counts, text),
        0 <= n <= 26,
    ensures
        table_total(counts, n) == occurrences_total(text, n),
    decreases n,
{
    if n > 0 {
        lemma_table_total(counts, text, n - 1);
        assert(is_letter(letter_at(n - 1)));
    }
}

/// The table of letter counts of a text has the 26 letters as its keys, and
/// its values add up to the number of characters of the text that are letters
/// after case folding.
pub proof fn lemma_letter_table_total(counts: Map<char, usize>, text: Seq<char>)
    requires
        is_letter_table_of(counts, text),
    ensures
        forall|c: char| #[trigger] counts.contains_key(c) <==> is_letter(c),
        table_total(counts, 26) == letters_in(text),
{
    lemma_table_total(counts, text, 26);
    lemma_letter_counts_total(text);
}

/// Counts the letters of a text. The table has the 26 letters as its keys,
/// whether they occur or not.
pub fn count_char_freq(c_text: &Vec<char>) -> (table: DashMap<char, usize>)
    ensures
        is_letter_table_of(letter_counts(table), c_text@),
{
    let mut ret = new_letter_table(26);
    let mut k: usize = 0;
    while k < 26
        invariant
            k <= 26,
            forall|c: char| #[trigger]
                letter_counts(ret).contains_key(c) <==> (is_letter(c) && letter_index(c) < k),
            forall|c: char| #[trigger]
                letter_counts(ret).contains_key(c) ==> letter_counts(ret)[c] == 0,
        decreases 26 - k,
    {
        let ghost earlier = letter_counts(ret);
        letter_table_insert(&mut ret, letter_of_index(k), 0);
        assert forall|c: char| #[trigger]
            letter_counts(ret).contains_key(c) <==> (is_letter(c) && letter_index(c) < k + 1) by {
            if is_letter(c) {
                lemma_letter_at_index(c);
            }
            assert(letter_counts(ret).contains_key(c) <==> (c == letter_at(k as int)
                || earlier.contains_key(c)));
        }
        k += 1;
    }
    proof {
        let none = c_text@.subrange(0, 0);
        assert forall|c: char| is_letter(c) implies #[trigger] letter_counts(ret)[c]
            == letter_occurrences(none, c) by {
            assert(letter_counts(ret).contains_key(c));
        }
    }
    let mut i: usize = 0;
    while i < c_text.len()
        invariant
            i <= c_text@.len(),
            is_letter_table_of(letter_counts(ret), c_text@.subrange(0, i as int)),
        decreases c_text@.len() - i,
    {
        let x = to_folded(c_text[i]);
        let ghost before = c_text@.subrange(0, i as int);
        let ghost after = c_text@.subrange(0, i + 1);
        assert(after.drop_last() =~= before);
        assert(after.last() == c_text@[i as int]);
        if is_lowercase_letter(x) {
            match letter_table_get(&ret, x) {
                Some(v) => {
                    proof {
                        lemma_letter_occurrences_bound(before, x);
                    }
                    letter_table_insert(&mut ret, x, v + 1);
                },
                None => {},
            }
        }
        i += 1;
    }
    assert(c_text@.subrange(0, i as int) =~= c_text@);
    ret
}

/// The `n` characters of the text that start at `start`.
pub open spec fn window(text: Seq<char>, start: int, n: int) -> Seq<char> {
    text.subrange(start, start + n)
}

/// One of the characters is whitespace.
pub open spec fn has_whitespace(s: Seq<char>) -> bool {
    exists|i: int| 0 <= i < s.len() && is_whitespace(#[trigger] s[i])
}

/// Number of windows of width `n` in a text of length `len`.
pub open spec fn window_starts(len: int, n: int) -> int {
    if len >= n {
        len - n + 1
    } else {
        0
    }
}

/// How many of the windows of width `n` that start below `upto` are equal to
/// `gram`, where `gram` holds no whitespace.
pub open spec fn ngram_occurrences(text: Seq<char>, n: int, gram: Seq<char>, upto: int) -> nat
    decreases upto,
{
    if upto <= 0 {
        0
    } else {
        ngram_occurrences(text, n, gram, upto - 1) + if window(text, upto - 1, n) == gram
            && !has_whitespace(gram) {
            1nat
        } else {
            0nat
        }
    }
}

/// How often `gram` is counted among all windows of width `n` of the text.
pub open spec fn ngram_count(text: Seq<char>, n: int, gram: Seq<char>) -> nat {
    ngram_occurrences(text, n, gram, window_starts(text.len() as int, n))
}

/// A table of n-gram counts over the windows that start below `upto`: it holds
/// the n-grams that occur, each with its number of occurrences.
pub open spec fn is_ngram_table_upto(
    counts: Map<Seq<char>, usize>,
    text: Seq<char>,
    n: int,
    upto: int,
) -> bool {
    &&& forall|g: Seq<char>|
        counts.contains_key(g) <==> ngram_occurrences(text, n, g, upto) > 0
    &&& forall|g: Seq<char>|
        counts.contains_key(g) ==> counts[g] == ngram_occurrences(text, n, g, upto)
}

/// The table of all n-grams of width `n` of the text.
pub open spec fn is_ngram_table_of(counts: Map<Seq<char>, usize>, text: Seq<char>, n: int) -> bool {
    is_ngram_table_upto(counts, text, n, window_starts(text.len() as int, n))
}

/// An n-gram occurs at most once for each window.
pub proof fn lemma_ngram_occurrences_bound(text: Seq<char>, n: int, gram: Seq<char>, upto: int)
    requires
        0 <= upto,
    ensures
        ngram_occurrences(text, n, gram, upto) <= upto,
    decreases upto,
{
    if upto > 0 {
        lemma_ngram_occurrences_bound(text, n, gram, upto - 1);
    }
}

/// An n-gram that is counted has width `n` and holds no whitespace: a window
/// that reaches over whitespace is never counted.
pub proof fn lemma_counted_ngram_shape(text: Seq<char>, n: int, gram: Seq<char>, upto: int)
    requires
        0 <= n,
        0 <= upto <= window_starts(text.len() as int, n),
        ngram_occurrences(text, n, gram, upto) > 0,
    ensures
        gram.len() == n,
        !has_whitespace(gram),
    decreases upto,
{
    if upto > 0 {
        if window(text, upto - 1, n) == gram && !has_whitespace(gram) {
        } else {
            lemma_counted_ngram_shape(text, n, gram, upto - 1);
        }
    }
}

fn count_ngram_freq(c_text: &Vec<char>, n: usize) -> (table: DashMap<String, usize>)
    requires
        1 <= n <= 3,
    ensures
        is_ngram_table_of(ngram_counts(table), c_text@, n as int),
{
    let mut ret = new_ngram_table(26);
    if c_text.len() < n {
        return ret;
    }
    let starts: usize = c_text.len() - n + 1;
    let mut i: usize = 0;
    while i < starts
        invariant
            1 <= n <= 3,
            n <= c_text@.len() <= usize::MAX,
            starts == c_text@.len() - n + 1,
            i <= starts,
            is_ngram_table_upto(ngram_counts(ret), c_text@, n as int, i as int),
        decreases starts - i,
    {
        let mut key = String::new();
        let mut blank = false;
        let mut j: usize = 0;
        while j < n
            invariant
                j <= n,
                i + n <= c_text@.len() <= usize::MAX,
                key@ == c_text@.subrange(i as int, i + j),
                blank == has_whitespace(key@),
            decreases n - j,
        {
            let c = c_text[i + j];
            let ghost shorter = key@;
            let white = char_is_whitespace(c);
            push_char(&mut key, c);
            assert(key@ =~= c_text@.subrange(i as int, i + j + 1));
            proof {
                if has_whitespace(shorter) {
                    let w = choose|w: int| 0 <= w < shorter.len() && is_whitespace(shorter[w]);
                    assert(is_whitespace(key@[w]));
                }
                if white {
                    assert(is_whitespace(key@[j as int]));
                }
                if has_whitespace(key@) {
                    let w = choose|w: int| 0 <= w < key@.len() && is_whitespace(key@[w]);
                    if w < j {
                        assert(is_whitespace(shorter[w]));
                    }
                }
            }
            if white {
                blank = true;
            }
            j += 1;
        }
        if !blank {
            let seen: usize = match ngram_table_get(&ret, key.as_str()) {
                Some(v) => v,
                None => 0,
            };
            proof {
                lemma_ngram_occurrences_bound(c_text@, n as int, key@, i as int);
            }
            ngram_table_insert(&mut ret, key, seen + 1);
        }
        i += 1;
    }
    ret
}

/// Counts the bigrams of a text: every window of two characters without
/// whitespace, overlapping ones included.
pub fn count_bigram_freq(c_text: &Vec<char>) -> (table: DashMap<String, usize>)
    ensures
        is_ngram_table_of(ngram_counts(table), c_text@, 2),
        forall|g: Seq<char>| #[trigger]
            ngram_counts(table).contains_key(g) ==> g.len() == 2 && !has_whitespace(g),
{
    let table = count_ngram_freq(c_text, 2);
    proof {
        assert forall|g: Seq<char>| #[trigger]
            ngram_counts(table).contains_key(g) implies g.len() == 2 && !has_whitespace(g) by {
            lemma_counted_ngram_shape(c_text@, 2, g, window_starts(c_text@.len() as int, 2));
        }
    }
    table
}

/// Counts the trigrams of a text: every window of three characters without
/// whitespace, overlapping ones included.
pub fn count_trigram_freq(c_text: &Vec<char>) -> (table: DashMap<String, usize>)
    ensures
        is_ngram_table_of(ngram_counts(table), c_text@, 3),
        forall|g: Seq<char>| #[trigger]
            ngram_counts(table).contains_key(g) ==> g.len() == 3 && !has_whitespace(g),
{
    let table = count_ngram_freq(c_text, 3);
    proof {
        assert forall|g: Seq<char>| #[trigger]
            ngram_counts(table).contains_key(g) implies g.len() == 3 && !has_whitespace(g) by {
            lemma_counted_ngram_shape(c_text@, 3, g, window_starts(c_text@.len() as int, 3));
        }
    }
    table
}

} // verus!
