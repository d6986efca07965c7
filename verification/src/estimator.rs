//! A first guess at the key: letters paired by their rank in frequency.
//!
//! The letters of the reference table and those of the observed table are
//! each put in ascending order of count, equal counts in alphabetical order.
//! The letter at a rank of the reference is taken to be enciphered as the
//! letter at the same rank of the text.

use crate::alphabet::{is_letter, lemma_letter_at_index, letter_at, letter_index, letter_of_index};
use crate::freq_analysis::letter_occurrences;
use crate::sub_cipher::{is_valid_key, ConfigurationError};
use crate::tables::{
    has_size, letter_counts, letter_table_get, letter_table_len, pair_order, push_char,
    sorted_pairs,
};
use dashmap::DashMap;
use std::collections::HashMap;
use vstd::prelude::*;
use vstd::relations::{sorted_by, total_ordering};
use vstd::seq_lib::{group_to_multiset_ensures, lemma_sorted_unique};
use vstd::set_lib::lemma_subset_equality;

verus! {

/// The code point of the letter at a position of the alphabet.
pub open spec fn letter_code(i: int) -> u32 {
    (i + 97) as u32
}

/// A table keyed by code points has exactly the 26 letters as its keys.
pub open spec fn covers_letter_codes(table: Map<u32, usize>) -> bool {
    forall|k: u32| #[trigger] table.contains_key(k) <==> 97 <= k <= 122
}

/// A table keyed by characters has exactly the 26 letters as its keys.
pub open spec fn covers_letters(table: Map<char, usize>) -> bool {
    forall|c: char| #[trigger] table.contains_key(c) <==> is_letter(c)
}

/// The reference counts as pairs of count and alphabet position, in alphabetical order.
pub open spec fn expected_pairs(table: Map<u32, usize>) -> Seq<(usize, u8)> {
    Seq::new(26, |i: int| (table[letter_code(i)], i as u8))
}

/// The observed counts as pairs of count and alphabet position, in alphabetical order.
pub open spec fn observed_pairs(table: Map<char, usize>) -> Seq<(usize, u8)> {
    Seq::new(26, |i: int| (table[letter_at(i)], i as u8))
}

/// The letter counts of a text as pairs of count and alphabet position, in
/// alphabetical order.
pub open spec fn text_pairs(text: Seq<char>) -> Seq<(usize, u8)> {
    Seq::new(26, |i: int| (letter_occurrences(text, letter_at(i)) as usize, i as u8))
}

/// The 26 letters in alphabetical order.
pub open spec fn alphabet() -> Seq<char> {
    Seq::new(26, |i: int| letter_at(i))
}

/// A table with exactly the 26 letters as its keys has 26 entries.
pub proof fn lemma_letter_table_size(table: Map<char, usize>)
    requires
        covers_letters(table),
    ensures
        table.dom().finite(),
        table.dom().len() == 26,
{
    let letters = alphabet();
    assert forall|c: char| is_letter(c) implies letters.to_set().contains(c) by {
        lemma_letter_at_index(c);
        assert(letters[letter_index(c)] == c);
    }
    assert(table.dom() =~= letters.to_set());
    letters.unique_seq_to_set();
}

/// One pair for each of the 26 letters, in alphabetical order.
pub open spec fn is_pair_table(pairs: Seq<(usize, u8)>) -> bool {
    pairs.len() == 26 && forall|k: int| 0 <= k < 26 ==> (#[trigger] pairs[k]).1 == k
}

/// The pairs in ascending order: by count, and alphabetically among equal counts.
pub open spec fn ranking(pairs: Seq<(usize, u8)>) -> Seq<(usize, u8)> {
    pairs.sort_by(pair_order())
}

/// `key` pairs the letters of the two tables rank by rank: the letter at rank
/// `i` of the reference is replaced by the letter at rank `i` of the text.
pub open spec fn is_likely_shifter(
    key: Seq<char>,
    expected: Seq<(usize, u8)>,
    observed: Seq<(usize, u8)>,
) -> bool {
    &&& key.len() == 26
    &&& forall|i: int|
        0 <= i < 26 ==> key[(#[trigger] ranking(expected)[i]).1 as int] == letter_at(
            ranking(observed)[i].1 as int,
        )
}

/// The key that replaces every letter by itself.
pub open spec fn identity_key() -> Seq<char> {
    Seq::new(26, |i: int| letter_at(i))
}

/// Some pair of `r` belongs to alphabet position `k`.
pub open spec fn holds_position(r: Seq<(usize, u8)>, k: int) -> bool {
    exists|i: int| 0 <= i < 26 && (#[trigger] r[i]).1 == k
}

/// The order of the pairs is total.
pub proof fn lemma_pair_order_total()
    ensures
        total_ordering(pair_order()),
{
    let r = pair_order();
    assert forall|x: (usize, u8), y: (usize, u8)| #[trigger] r(x, y) && #[trigger] r(y, x) implies x
        == y by {
        assert(x.0 == y.0 && x.1 == y.1);
    }
}

/// A sequence with the same pairs as a table of 26 pairs holds each alphabet
/// position once.
pub proof fn lemma_arrangement(r: Seq<(usize, u8)>, pairs: Seq<(usize, u8)>)
    requires
        is_pair_table(pairs),
        r.to_multiset() == pairs.to_multiset(),
    ensures
        r.len() == 26,
        forall|i: int| 0 <= i < 26 ==> (#[trigger] r[i]).1 < 26 && r[i] == pairs[r[i].1 as int],
        forall|i: int, j: int| 0 <= i < 26 && 0 <= j < 26 && i != j ==> r[i].1 != r[j].1,
        forall|k: int| 0 <= k < 26 ==> #[trigger] holds_position(r, k),
{
    broadcast use group_to_multiset_ensures;

    assert(r.len() == r.to_multiset().len());
    assert(pairs.len() == pairs.to_multiset().len());
    assert forall|i: int| 0 <= i < 26 implies (#[trigger] r[i]).1 < 26 && r[i] == pairs[r[i].1 as int] by {
        assert(r.contains(r[i]));
        assert(r.to_multiset().count(r[i]) > 0);
        assert(pairs.contains(r[i]));
        let k = choose|k: int| 0 <= k < pairs.len() && pairs[k] == r[i];
        assert(pairs[k].1 == k);
    }
    assert(pairs.no_duplicates()) by {
        assert forall|a: int, b: int| 0 <= a < 26 && 0 <= b < 26 && a != b implies pairs[a]
            != pairs[b] by {
            assert(pairs[a].1 == a && pairs[b].1 == b);
        }
    }
    pairs.lemma_multiset_has_no_duplicates();
    r.lemma_multiset_has_no_duplicates_conv();
    assert forall|i: int, j: int| 0 <= i < 26 && 0 <= j < 26 && i != j implies r[i].1 != r[j].1 by {
        assert(r[i] != r[j]);
        assert(r[i] == pairs[r[i].1 as int]);
        assert(r[j] == pairs[r[j].1 as int]);
    }
    assert forall|k: int| 0 <= k < 26 implies #[trigger] holds_position(r, k) by {
        assert(pairs.contains(pairs[k]));
        assert(pairs.to_multiset().count(pairs[k]) > 0);
        assert(r.contains(pairs[k]));
        let i = choose|i: int| 0 <= i < r.len() && r[i] == pairs[k];
        assert(r[i].1 == k);
    }
}

/// The ranking of a table of pairs holds the same pairs, in order.
pub proof fn lemma_ranking(pairs: Seq<(usize, u8)>)
    ensures
        ranking(pairs).to_multiset() == pairs.to_multiset(),
        sorted_by(ranking(pairs), pair_order()),
{
    lemma_pair_order_total();
    pairs.lemma_sort_by_ensures(pair_order());
}

/// Where the text has the very counts of the reference, letter for letter, the
/// likely key is the identity: every letter stands for itself.
pub proof fn lemma_matching_tables_give_identity(key: Seq<char>, pairs: Seq<(usize, u8)>)
    requires
        is_pair_table(pairs),
        is_likely_shifter(key, pairs, pairs),
    ensures
        key == identity_key(),
{
    lemma_ranking(pairs);
    let r = ranking(pairs);
    lemma_arrangement(r, pairs);
    assert forall|k: int| 0 <= k < 26 implies key[k] == letter_at(k) by {
        assert(holds_position(r, k));
        let i = choose|i: int| 0 <= i < 26 && (#[trigger] r[i]).1 == k;
        assert(key[r[i].1 as int] == letter_at(r[i].1 as int));
    }
    assert(key =~= identity_key());
}

/// Where the text ranks the letters in the reverse of the reference's order,
/// the likely key replaces the letter at each rank of the reference by the
/// letter at the complementary rank of the reference.
pub proof fn lemma_reversed_ranks(key: Seq<char>, expected: Seq<(usize, u8)>, observed: Seq<(usize, u8)>)
    requires
        is_likely_shifter(key, expected, observed),
        forall|i: int|
            0 <= i < 26 ==> (#[trigger] ranking(observed)[i]).1 == ranking(expected)[25 - i].1,
    ensures
        forall|i: int|
            0 <= i < 26 ==> key[(#[trigger] ranking(expected)[i]).1 as int] == letter_at(
                ranking(expected)[25 - i].1 as int,
            ),
{
    assert forall|i: int| 0 <= i < 26 implies key[(#[trigger] ranking(expected)[i]).1 as int]
        == letter_at(ranking(expected)[25 - i].1 as int) by {
        assert(ranking(observed)[i].1 == ranking(expected)[25 - i].1);
    }
}

/// The likely key is the true key where the counts leave no doubt: every
/// letter of the reference has a count of its own, and the text holds the
/// ciphertext letter of each letter as often as the reference holds the letter.
pub proof fn lemma_recovers_key(
    key: Seq<char>,
    true_key: Seq<char>,
    expected: Seq<(usize, u8)>,
    observed: Seq<(usize, u8)>,
)
    requires
        is_pair_table(expected),
        is_pair_table(observed),
        is_valid_key(true_key),
        forall|p: int, q: int|
            0 <= p < 26 && 0 <= q < 26 && p != q ==> (#[trigger] expected[p]).0 != (
            #[trigger] expected[q]).0,
        forall|p: int|
            0 <= p < 26 ==> observed[letter_index(#[trigger] true_key[p])].0 == expected[p].0,
        is_likely_shifter(key, expected, observed),
    ensures
        key == true_key,
{
    broadcast use group_to_multiset_ensures;

    lemma_pair_order_total();
    lemma_ranking(expected);
    lemma_ranking(observed);
    let re = ranking(expected);
    let ro = ranking(observed);
    lemma_arrangement(re, expected);
    let s = Seq::new(26, |i: int| observed[letter_index(true_key[re[i].1 as int])]);
    assert forall|i: int| 0 <= i < 26 implies 0 <= letter_index(true_key[(#[trigger] re[i]).1 as int])
        < 26 && s[i].1 == letter_index(true_key[re[i].1 as int]) && s[i].0 == re[i].0 by {
        let p = re[i].1 as int;
        assert(is_letter(true_key[p]));
        assert(re[i] == expected[p]);
    }
    assert forall|i: int, j: int| 0 <= i < j < 26 implies #[trigger] pair_order()(s[i], s[j]) by {
        assert(pair_order()(re[i], re[j]));
        assert(re[i].1 != re[j].1);
        assert(re[i] == expected[re[i].1 as int]);
        assert(re[j] == expected[re[j].1 as int]);
        assert(s[i].0 == re[i].0 && s[j].0 == re[j].0);
    }
    assert(sorted_by(s, pair_order()));
    assert forall|i: int, j: int| 0 <= i < 26 && 0 <= j < 26 && i != j implies s[i] != s[j] by {
        assert(re[i].1 != re[j].1);
        assert(true_key[re[i].1 as int] != true_key[re[j].1 as int]);
        assert(s[i].1 == letter_index(true_key[re[i].1 as int]));
        assert(s[j].1 == letter_index(true_key[re[j].1 as int]));
    }
    assert(s.no_duplicates());
    assert forall|a: int, b: int| 0 <= a < 26 && 0 <= b < 26 && a != b implies observed[a]
        != observed[b] by {
        assert(observed[a].1 == a && observed[b].1 == b);
    }
    assert(observed.no_duplicates());
    s.unique_seq_to_set();
    observed.unique_seq_to_set();
    assert forall|x: (usize, u8)| s.to_set().contains(x) implies observed.to_set().contains(x) by {
        let i = choose|i: int| 0 <= i < s.len() && s[i] == x;
        assert(observed[letter_index(true_key[re[i].1 as int])] == x);
    }
    assert(s.to_set().subset_of(observed.to_set()));
    lemma_subset_equality(s.to_set(), observed.to_set());
    s.lemma_multiset_has_no_duplicates();
    observed.lemma_multiset_has_no_duplicates();
    assert forall|x: (usize, u8)| s.to_multiset().count(x) == observed.to_multiset().count(x) by {
        assert(s.contains(x) <==> s.to_set().contains(x));
        assert(observed.contains(x) <==> observed.to_set().contains(x));
        if s.contains(x) {
            assert(s.to_multiset().contains(x));
            assert(observed.to_multiset().contains(x));
        }
    }
    assert(s.to_multiset() =~= observed.to_multiset());
    lemma_sorted_unique(s, ro, pair_order());
    assert forall|k: int| 0 <= k < 26 implies key[k] == true_key[k] by {
        assert(holds_position(re, k));
        let i = choose|i: int| 0 <= i < 26 && (#[trigger] re[i]).1 == k;
        assert(key[re[i].1 as int] == letter_at(ro[i].1 as int));
        assert(ro[i] == s[i]);
        assert(is_letter(true_key[k]));
        lemma_letter_at_index(true_key[k]);
    }
    assert(key =~= true_key);
}

/// Two likely keys for the same tables are the same key.
pub proof fn lemma_likely_shifter_unique(
    first: Seq<char>,
    second: Seq<char>,
    expected: Seq<(usize, u8)>,
    observed: Seq<(usize, u8)>,
)
    requires
        is_pair_table(expected),
        is_likely_shifter(first, expected, observed),
        is_likely_shifter(second, expected, observed),
    ensures
        first == second,
{
    lemma_ranking(expected);
    let r = ranking(expected);
    lemma_arrangement(r, expected);
    assert forall|k: int| 0 <= k < 26 implies first[k] == second[k] by {
        assert(holds_position(r, k));
        let i = choose|i: int| 0 <= i < 26 && (#[trigger] r[i]).1 == k;
        assert(first[r[i].1 as int] == letter_at(ranking(observed)[i].1 as int));
        assert(second[r[i].1 as int] == letter_at(ranking(observed)[i].1 as int));
    }
    assert(first =~= second);
}

/// A finite set that holds 26 given distinct elements and has 26 elements
/// holds nothing else.
proof fn lemma_exact_domain<A>(dom: Set<A>, keys: Seq<A>)
    requires
        dom.finite(),
        keys.no_duplicates(),
        forall|i: int| 0 <= i < keys.len() ==> dom.contains(#[trigger] keys[i]),
    ensures
        keys.to_set().len() == keys.len(),
        dom.len() == keys.len() ==> dom =~= keys.to_set(),
{
    keys.unique_seq_to_set();
    if dom.len() == keys.len() {
        assert(keys.to_set().subset_of(dom));
        lemma_subset_equality(keys.to_set(), dom);
    }
}

/// Tells whether a table keyed by code points has exactly the 26 letters as
/// its keys.
pub fn covers_all_letter_codes(table: &HashMap<u32, usize>) -> (r: bool)
    ensures
        r == covers_letter_codes(table@),
{
    broadcast use vstd::std_specs::hash::group_hash_axioms;

    let ghost codes = Seq::new(26, |i: int| letter_code(i));
    proof {
        assert forall|k: u32| 97 <= k <= 122 implies codes.to_set().contains(k) by {
            assert(codes[k as int - 97] == k);
        }
        if covers_letter_codes(table@) {
            assert(table@.dom() =~= codes.to_set());
            codes.unique_seq_to_set();
        }
    }
    if table.len() != 26 {
        return false;
    }
    let mut k: u8 = 0;
    while k < 26
        invariant
            k <= 26,
            forall|j: int| 0 <= j < k ==> table@.contains_key(#[trigger] letter_code(j)),
        decreases 26 - k,
    {
        let code: u32 = 97 + k as u32;
        match table.get(&code) {
            Some(_) => {},
            None => {
                return false;
            },
        }
        assert(code == letter_code(k as int));
        k += 1;
    }
    proof {
        lemma_exact_domain(table@.dom(), codes);
        assert(covers_letter_codes(table@));
    }
    true
}

/// Pairs the letters of two rankings, rank by rank, into a key.
fn key_from_rankings(
    expected_ranking: &Vec<(usize, u8)>,
    observed_ranking: &Vec<(usize, u8)>,
    Ghost(expected): Ghost<Seq<(usize, u8)>>,
    Ghost(observed): Ghost<Seq<(usize, u8)>>,
) -> (key: String)
    requires
        is_pair_table(expected),
        is_pair_table(observed),
        expected_ranking@.to_multiset() == expected.to_multiset(),
        observed_ranking@.to_multiset() == observed.to_multiset(),
    ensures
        key@.len() == 26,
        forall|i: int|
            0 <= i < 26 ==> key@[(#[trigger] expected_ranking@[i]).1 as int] == letter_at(
                observed_ranking@[i].1 as int,
            ),
        is_valid_key(key@),
{
    proof {
        lemma_arrangement(expected_ranking@, expected);
        lemma_arrangement(observed_ranking@, observed);
    }
    let mut mapping: Vec<char> = Vec::new();
    let mut k: usize = 0;
    while k < 26
        invariant
            k <= 26,
            mapping@.len() == k,
        decreases 26 - k,
    {
        mapping.push('a');
        k += 1;
    }
    let mut i: usize = 0;
    while i < 26
        invariant
            i <= 26,
            mapping@.len() == 26,
            expected_ranking@.len() == 26,
            observed_ranking@.len() == 26,
            forall|a: int| 0 <= a < 26 ==> (#[trigger] expected_ranking@[a]).1 < 26,
            forall|a: int| 0 <= a < 26 ==> (#[trigger] observed_ranking@[a]).1 < 26,
            forall|a: int, b: int|
                0 <= a < 26 && 0 <= b < 26 && a != b ==> expected_ranking@[a].1
                    != expected_ranking@[b].1,
            forall|j: int|
                0 <= j < i ==> mapping@[(#[trigger] expected_ranking@[j]).1 as int] == letter_at(
                    observed_ranking@[j].1 as int,
                ),
        decreases 26 - i,
    {
        let plain: usize = expected_ranking[i].1 as usize;
        let cipher: usize = observed_ranking[i].1 as usize;
        mapping.set(plain, letter_of_index(cipher));
        i += 1;
    }
    proof {
        assert forall|p: int| 0 <= p < 26 implies is_letter(#[trigger] mapping@[p]) by {
            assert(holds_position(expected_ranking@, p));
            let a = choose|a: int| 0 <= a < 26 && (#[trigger] expected_ranking@[a]).1 == p;
            assert(mapping@[expected_ranking@[a].1 as int] == letter_at(
                observed_ranking@[a].1 as int,
            ));
        }
        assert forall|p: int, q: int| 0 <= p < 26 && 0 <= q < 26 && p != q implies mapping@[p]
            != mapping@[q] by {
            assert(holds_position(expected_ranking@, p));
            assert(holds_position(expected_ranking@, q));
            let a = choose|a: int| 0 <= a < 26 && (#[trigger] expected_ranking@[a]).1 == p;
            let b = choose|b: int| 0 <= b < 26 && (#[trigger] expected_ranking@[b]).1 == q;
            assert(mapping@[expected_ranking@[a].1 as int] == letter_at(
                observed_ranking@[a].1 as int,
            ));
            assert(mapping@[expected_ranking@[b].1 as int] == letter_at(
                observed_ranking@[b].1 as int,
            ));
            assert(observed_ranking@[a].1 != observed_ranking@[b].1);
        }
    }
    let mut res = String::new();
    let mut c: usize = 0;
    while c < 26
        invariant
            c <= 26,
            mapping@.len() == 26,
            res@ == mapping@.subrange(0, c as int),
        decreases 26 - c,
    {
        push_char(&mut res, mapping[c]);
        assert(res@ =~= mapping@.subrange(0, c + 1));
        c += 1;
    }
    assert(res@ =~= mapping@);
    res
}

/// Generates a likely key from the expected letter counts and the counts
/// observed in a text. Where `e` is the most frequent letter of the reference
/// and `z` the most frequent letter of the text, `e` is taken to be replaced by
/// `z`, and so on down the ranks. Both tables must have exactly the 26 letters
/// as their keys.
pub fn generate_likely_shifter(
    expected_char_freq: &HashMap<u32, usize>,
    observed_char_freq: &DashMap<char, usize>,
) -> (r: Result<String, ConfigurationError>)
    ensures
        r is Ok <==> covers_letter_codes(expected_char_freq@) && covers_letters(
            letter_counts(*observed_char_freq),
        ),
        r matches Err(e) ==> e == ConfigurationError::IncompleteTable,
        r matches Ok(key) ==> is_valid_key(key@) && is_likely_shifter(
            key@,
            expected_pairs(expected_char_freq@),
            observed_pairs(letter_counts(*observed_char_freq)),
        ),
{
    broadcast use vstd::std_specs::hash::group_hash_axioms;

    let ghost expected = expected_char_freq@;
    let ghost observed = letter_counts(*observed_char_freq);
    let ghost codes = Seq::new(26, |i: int| letter_code(i));
    let ghost letters = alphabet();
    let expected_len = expected_char_freq.len();
    let observed_len = letter_table_len(observed_char_freq);
    proof {
        assert forall|k: u32| 97 <= k <= 122 implies codes.to_set().contains(k) by {
            assert(codes[k as int - 97] == k);
        }
        assert forall|c: char| is_letter(c) implies letters.to_set().contains(c) by {
            lemma_letter_at_index(c);
            assert(letters[letter_index(c)] == c);
        }
        if covers_letter_codes(expected) {
            assert(expected.dom() =~= codes.to_set());
            codes.unique_seq_to_set();
        }
        if covers_letters(observed) {
            assert(observed.dom() =~= letters.to_set());
            letters.unique_seq_to_set();
        }
    }
    if expected_len != 26 || observed_len != 26 {
        return Err(ConfigurationError::IncompleteTable);
    }
    let mut expected_list: Vec<(usize, u8)> = Vec::new();
    let mut observed_list: Vec<(usize, u8)> = Vec::new();
    let mut k: u8 = 0;
    while k < 26
        invariant
            k <= 26,
            expected == expected_char_freq@,
            observed == letter_counts(*observed_char_freq),
            expected_list@ == expected_pairs(expected).subrange(0, k as int),
            observed_list@ == observed_pairs(observed).subrange(0, k as int),
            forall|j: int| 0 <= j < k ==> expected.contains_key(#[trigger] letter_code(j)),
            forall|j: int| 0 <= j < k ==> observed.contains_key(#[trigger] letter_at(j)),
        decreases 26 - k,
    {
        let code: u32 = 97 + k as u32;
        let expected_count: usize = match expected_char_freq.get(&code) {
            Some(v) => *v,
            None => {
                return Err(ConfigurationError::IncompleteTable);
            },
        };
        let observed_count: usize = match letter_table_get(
            observed_char_freq,
            letter_of_index(k as usize),
        ) {
            Some(v) => v,
            None => {
                return Err(ConfigurationError::IncompleteTable);
            },
        };
        expected_list.push((expected_count, k));
        observed_list.push((observed_count, k));
        assert(expected_list@ =~= expected_pairs(expected).subrange(0, k + 1));
        assert(observed_list@ =~= observed_pairs(observed).subrange(0, k + 1));
        k += 1;
    }
    assert(expected_list@ =~= expected_pairs(expected));
    assert(observed_list@ =~= observed_pairs(observed));
    proof {
        assert(has_size(observed, 26));
        lemma_exact_domain(expected.dom(), codes);
        lemma_exact_domain(observed.dom(), letters);
        assert(covers_letter_codes(expected));
        assert(covers_letters(observed));
    }
    let expected_ranking = sorted_pairs(expected_list);
    let observed_ranking = sorted_pairs(observed_list);
    proof {
        lemma_pair_order_total();
        lemma_ranking(expected_pairs(expected));
        lemma_ranking(observed_pairs(observed));
        lemma_sorted_unique(expected_ranking@, ranking(expected_pairs(expected)), pair_order());
        lemma_sorted_unique(observed_ranking@, ranking(observed_pairs(observed)), pair_order());
    }
    let key = key_from_rankings(
        &expected_ranking,
        &observed_ranking,
        Ghost(expected_pairs(expected)),
        Ghost(observed_pairs(observed)),
    );
    Ok(key)
}

} // verus!
