//! The search for the key: from a first guess, swap two letters of the key at
//! random, score the result, and keep track of the best key seen.

use crate::alphabet::{is_letter, letter_at};
use crate::estimator::{
    covers_letter_codes, expected_pairs, generate_likely_shifter, is_likely_shifter,
    lemma_likely_shifter_unique, observed_pairs, text_pairs,
};
use crate::freq_analysis::count_char_freq;
use crate::load_data::FrequencyData;
use crate::scorer::{is_score_of, score_of, score_shifter, Score};
use crate::sub_cipher::{decrypt_text, is_valid_key, key_defect, ConfigurationError, SubCipher};
use crate::tables::letter_counts;
use crate::tables::{push_char, random_byte};
use vstd::prelude::*;

verus! {

/// The key with the letters at positions `i` and `j` exchanged.
pub open spec fn swapped(key: Seq<char>, i: int, j: int) -> Seq<char> {
    key.update(i, key[j]).update(j, key[i])
}

/// `next` is `key` with two of its 26 positions exchanged, or `key` itself.
pub open spec fn is_neighbor(next: Seq<char>, key: Seq<char>) -> bool {
    exists|i: int, j: int| 0 <= i < 26 && 0 <= j < 26 && next == #[trigger] swapped(key, i, j)
}

/// Exchanging two letters of a valid key gives a valid key.
pub proof fn lemma_swapped_valid(key: Seq<char>, i: int, j: int)
    requires
        is_valid_key(key),
        0 <= i < 26,
        0 <= j < 26,
    ensures
        is_valid_key(swapped(key, i, j)),
{
    let s = swapped(key, i, j);
    assert forall|a: int, b: int| 0 <= a < 26 && 0 <= b < 26 && a != b implies s[a] != s[b] by {
        let origin_a = if a == i { j } else if a == j { i } else { a };
        let origin_b = if b == i { j } else if b == j { i } else { b };
        assert(s[a] == key[origin_a]);
        assert(s[b] == key[origin_b]);
    }
    assert forall|a: int| 0 <= a < s.len() implies is_letter(#[trigger] s[a]) by {
        let origin_a = if a == i { j } else if a == j { i } else { a };
        assert(s[a] == key[origin_a]);
    }
}

/// Exchanges the characters at two positions of a key.
pub fn swap_letters(curr_shifter: &str, i: usize, j: usize) -> (proposed: String)
    requires
        i < curr_shifter@.len(),
        j < curr_shifter@.len(),
    ensures
        proposed@ == swapped(curr_shifter@, i as int, j as int),
{
    let n: usize = curr_shifter.unicode_len();
    let at_i = curr_shifter.get_char(i);
    let at_j = curr_shifter.get_char(j);
    let mut proposed = String::new();
    let mut k: usize = 0;
    while k < n
        invariant
            k <= n,
            n == curr_shifter@.len(),
            i < n,
            j < n,
            at_i == curr_shifter@[i as int],
            at_j == curr_shifter@[j as int],
            proposed@ == swapped(curr_shifter@, i as int, j as int).subrange(0, k as int),
        decreases n - k,
    {
        let c = if k == j {
            at_i
        } else if k == i {
            at_j
        } else {
            curr_shifter.get_char(k)
        };
        push_char(&mut proposed, c);
        assert(proposed@ =~= swapped(curr_shifter@, i as int, j as int).subrange(0, k + 1));
        k += 1;
    }
    assert(proposed@ =~= swapped(curr_shifter@, i as int, j as int));
    proposed
}

/// How often a byte is drawn anew before a draw is given up.
pub const REDRAWS: usize = 64;

/// The position that a random byte stands for. The bytes below 234, nine
/// times 26 of them, stand for their remainder by 26; the others for none.
pub open spec fn position_of(byte: u8) -> Option<usize> {
    if byte < 234 {
        Some((byte % 26) as usize)
    } else {
        None
    }
}

/// `byte` is the `k`-th of the bytes that stand for position `p`.
pub open spec fn is_kth_byte_of(byte: u8, p: usize, k: int) -> bool {
    byte == p + 26 * k
}

/// Every position has the same chance under a uniform byte: exactly nine
/// bytes stand for it, `p`, `p + 26`, and so on to `p + 208`.
pub proof fn lemma_positions_equally_likely(p: usize)
    requires
        p < 26,
    ensures
        forall|byte: u8|
            #[trigger] position_of(byte) == Some(p) <==> exists|k: int|
                0 <= k < 9 && #[trigger] is_kth_byte_of(byte, p, k),
        forall|k: int| 0 <= k < 9 ==> #[trigger] is_kth_byte_of((p + 26 * k) as u8, p, k),
{
    assert forall|byte: u8| #[trigger] position_of(byte) == Some(p) <==> exists|k: int|
        0 <= k < 9 && #[trigger] is_kth_byte_of(byte, p, k) by {
        if position_of(byte) == Some(p) {
            assert(is_kth_byte_of(byte, p, byte as int / 26));
        }
    }
}

/// The position that a random byte stands for, if it stands for one.
pub fn position_of_byte(byte: u8) -> (r: Option<usize>)
    ensures
        r == position_of(byte),
        r matches Some(p) ==> p < 26,
{
    if byte < 234 {
        Some((byte % 26) as usize)
    } else {
        None
    }
}

/// Draws a position of the alphabet: random bytes are drawn until one stands
/// for a position. Gives up after `REDRAWS` bytes that stand for none.
pub fn draw_position() -> (r: Option<usize>)
    ensures
        r matches Some(p) ==> p < 26,
{
    let mut tries: usize = 0;
    while tries < REDRAWS
        invariant
            tries <= REDRAWS,
        decreases REDRAWS - tries,
    {
        match position_of_byte(random_byte()) {
            Some(p) => {
                return Some(p);
            },
            None => {},
        }
        tries += 1;
    }
    None
}

/// Creates a proposed new key from the given one: two of its 26 positions,
/// each drawn at random, are exchanged. The two may be the same position, and
/// the proposal is then the key itself. A byte that stands for no position is
/// refused and another drawn, so that no position is more likely than
/// another; where 64 bytes in a row are refused, which happens less than once
/// in 2^226 draws, the proposal is the key itself.
pub fn create_proposal_shifter(curr_shifter: &str) -> (proposed: String)
    requires
        curr_shifter@.len() >= 26,
    ensures
        is_neighbor(proposed@, curr_shifter@),
        is_valid_key(curr_shifter@) ==> is_valid_key(proposed@),
{
    let first = draw_position();
    let second = draw_position();
    let (i, j): (usize, usize) = match (first, second) {
        (Some(i), Some(j)) => (i, j),
        _ => (0, 0),
    };
    let proposed = swap_letters(curr_shifter, i, j);
    proof {
        if is_valid_key(curr_shifter@) {
            lemma_swapped_valid(curr_shifter@, i as int, j as int);
        }
    }
    proposed
}

/// Where the search stands: the key it is at and the best key it has seen,
/// each with its score.
pub struct SearchState {
    /// The key from which the next proposal is made.
    pub curr_shifter: String,
    /// The score of that key.
    pub curr_score: Score,
    /// The key with the lowest score so far.
    pub best_shifter: String,
    /// The lowest score so far.
    pub best_score: Score,
}

/// A search state with its keys as sequences of characters.
pub struct SearchView {
    pub curr_shifter: Seq<char>,
    pub curr_score: Score,
    pub best_shifter: Seq<char>,
    pub best_score: Score,
}

impl View for SearchState {
    type V = SearchView;

    open spec fn view(&self) -> SearchView {
        SearchView {
            curr_shifter: self.curr_shifter@,
            curr_score: self.curr_score,
            best_shifter: self.best_shifter@,
            best_score: self.best_score,
        }
    }
}

impl SearchState {
    /// Both keys are valid and each score is the score of its key.
    pub open spec fn consistent(
        &self,
        freq_data: FrequencyData,
        cipher_text: Seq<char>,
    ) -> bool {
        &&& is_valid_key(self.curr_shifter@)
        &&& is_valid_key(self.best_shifter@)
        &&& is_score_of(self.curr_score, freq_data, cipher_text, self.curr_shifter@)
        &&& is_score_of(self.best_score, freq_data, cipher_text, self.best_shifter@)
    }
}

/// The state after one proposal. The proposal becomes the best key if its
/// score is strictly lower than the best score. It becomes the current key if
/// its score is strictly lower than the current score, or if `keep_anyway`
/// says so.
pub open spec fn step(
    state: SearchView,
    proposed_shifter: Seq<char>,
    proposed_score: Score,
    keep_anyway: bool,
) -> SearchView {
    let improves = proposed_score.weighted() < state.best_score.weighted();
    let accepted = proposed_score.weighted() < state.curr_score.weighted() || keep_anyway;
    SearchView {
        curr_shifter: if accepted {
            proposed_shifter
        } else {
            state.curr_shifter
        },
        curr_score: if accepted {
            proposed_score
        } else {
            state.curr_score
        },
        best_shifter: if improves {
            proposed_shifter
        } else {
            state.best_shifter
        },
        best_score: if improves {
            proposed_score
        } else {
            state.best_score
        },
    }
}

/// What was drawn for one proposal: the two positions to exchange, and whether
/// to keep a proposal that is no better.
pub struct Draw {
    pub first: int,
    pub second: int,
    pub keep: bool,
}

/// Both positions of every draw lie in the alphabet.
pub open spec fn draws_in_range(draws: Seq<Draw>) -> bool {
    forall|k: int|
        0 <= k < draws.len() ==> 0 <= (#[trigger] draws[k]).first < 26 && 0 <= draws[k].second
            < 26
}

/// The state in which a search ends that starts in `start` and draws `draws`,
/// one after the other.
pub open spec fn replay(
    start: SearchView,
    draws: Seq<Draw>,
    freq_data: FrequencyData,
    cipher_text: Seq<char>,
) -> SearchView
    decreases draws.len(),
{
    if draws.len() == 0 {
        start
    } else {
        let before = replay(start, draws.drop_last(), freq_data, cipher_text);
        let proposed = swapped(before.curr_shifter, draws.last().first, draws.last().second);
        step(before, proposed, score_of(freq_data, cipher_text, proposed), draws.last().keep)
    }
}

/// The state in which a search starts: current and best key are the initial key.
pub open spec fn start_of(
    initial_shifter: Seq<char>,
    freq_data: FrequencyData,
    cipher_text: Seq<char>,
) -> SearchView {
    SearchView {
        curr_shifter: initial_shifter,
        curr_score: score_of(freq_data, cipher_text, initial_shifter),
        best_shifter: initial_shifter,
        best_score: score_of(freq_data, cipher_text, initial_shifter),
    }
}

/// The best score never gets worse as a search goes on: after all the draws
/// it is no higher than it was after the first `k` of them, whatever was drawn.
pub proof fn lemma_best_score_never_rises(
    start: SearchView,
    draws: Seq<Draw>,
    freq_data: FrequencyData,
    cipher_text: Seq<char>,
    k: int,
)
    requires
        0 <= k <= draws.len(),
    ensures
        replay(start, draws, freq_data, cipher_text).best_score.weighted() <= replay(
            start,
            draws.subrange(0, k),
            freq_data,
            cipher_text,
        ).best_score.weighted(),
    decreases draws.len(),
{
    if k == draws.len() {
        assert(draws.subrange(0, k) =~= draws);
    } else {
        lemma_best_score_never_rises(start, draws.drop_last(), freq_data, cipher_text, k);
        assert(draws.drop_last().subrange(0, k) =~= draws.subrange(0, k));
    }
}

/// Takes one proposal into the state. The best score never rises.
pub fn advance(
    state: SearchState,
    proposed_shifter: String,
    proposed_score: Score,
    keep_anyway: bool,
) -> (next: SearchState)
    ensures
        next@ == step(state@, proposed_shifter@, proposed_score, keep_anyway),
        next.best_score.weighted() <= state.best_score.weighted(),
        state.best_score.weighted() <= state.curr_score.weighted()
            ==> next.best_score.weighted() <= next.curr_score.weighted(),
{
    let mut next = state;
    if proposed_score.is_better_than(&next.best_score) {
        next.best_score = proposed_score;
        next.best_shifter = proposed_shifter.clone();
    }
    if proposed_score.is_better_than(&next.curr_score) || keep_anyway {
        next.curr_shifter = proposed_shifter;
        next.curr_score = proposed_score;
    }
    next
}

/// Runs the search for `iterations` proposals from `initial_shifter`. With
/// each proposal a random byte is drawn, and a proposal that is not better
/// than the current key is kept all the same if the byte is below
/// `keep_chance`: with 0 the search only ever moves to better keys.
/// The state returned is the one that the draws made lead to, step by step.
/// Whatever is drawn, it is consistent and its best score is no higher than
/// the score of the initial key or that of the current key.
pub fn search(
    freq_data: &FrequencyData,
    cipher_text: &[char],
    initial_shifter: &str,
    iterations: usize,
    keep_chance: u8,
) -> (r: Result<SearchState, ConfigurationError>)
    requires
        freq_data.is_mapping(),
    ensures
        r is Ok <==> is_valid_key(initial_shifter@),
        r matches Err(e) ==> e == key_defect(initial_shifter@),
        r matches Ok(state) ==> state.consistent(*freq_data, cipher_text@) && forall|
            first: Score,
        |
            is_score_of(first, *freq_data, cipher_text@, initial_shifter@)
                ==> state.best_score.weighted() <= first.weighted(),
        r matches Ok(state) ==> state.best_score.weighted() <= state.curr_score.weighted(),
        r matches Ok(state) ==> exists|draws: Seq<Draw>|
            draws.len() == iterations && draws_in_range(draws) && state@ == #[trigger] replay(
                start_of(initial_shifter@, *freq_data, cipher_text@),
                draws,
                *freq_data,
                cipher_text@,
            ),
{
    let first_score = match score_shifter(freq_data, cipher_text, initial_shifter) {
        Ok(score) => score,
        Err(e) => {
            return Err(e);
        },
    };
    let mut state = SearchState {
        curr_shifter: initial_shifter.to_owned(),
        curr_score: first_score,
        best_shifter: initial_shifter.to_owned(),
        best_score: first_score,
    };
    let ghost start = start_of(initial_shifter@, *freq_data, cipher_text@);
    let ghost mut draws: Seq<Draw> = Seq::empty();
    let mut done: usize = 0;
    assert(state@ == start);
    while done < iterations
        invariant
            done <= iterations,
            freq_data.is_mapping(),
            state.consistent(*freq_data, cipher_text@),
            state.best_score.weighted() <= first_score.weighted(),
            state.best_score.weighted() <= state.curr_score.weighted(),
            start == start_of(initial_shifter@, *freq_data, cipher_text@),
            draws.len() == done,
            draws_in_range(draws),
            state@ == replay(start, draws, *freq_data, cipher_text@),
        decreases iterations - done,
    {
        let proposed_shifter = create_proposal_shifter(state.curr_shifter.as_str());
        let scored = score_shifter(freq_data, cipher_text, proposed_shifter.as_str());
        if let Ok(proposed_score) = scored {
            let keep_anyway = random_byte() < keep_chance;
            proof {
                let (i, j) = choose|i: int, j: int|
                    0 <= i < 26 && 0 <= j < 26 && proposed_shifter@ == #[trigger] swapped(
                        state.curr_shifter@,
                        i,
                        j,
                    );
                let draw = Draw { first: i, second: j, keep: keep_anyway };
                let longer = draws.push(draw);
                assert(longer.drop_last() =~= draws);
                assert(longer.last() == draw);
                draws = longer;
            }
            state = advance(state, proposed_shifter, proposed_score, keep_anyway);
        }
        done += 1;
    }
    Ok(state)
}

/// `shifter` and `score` are the best key and best score of a search that
/// starts from `guess` and makes `iterations` draws.
pub open spec fn is_found_from(
    shifter: Seq<char>,
    score: Score,
    guess: Seq<char>,
    iterations: int,
    freq_data: FrequencyData,
    cipher_text: Seq<char>,
) -> bool {
    exists|draws: Seq<Draw>|
        draws.len() == iterations && draws_in_range(draws) && shifter == (#[trigger] replay(
            start_of(guess, freq_data, cipher_text),
            draws,
            freq_data,
            cipher_text,
        )).best_shifter && score == replay(
            start_of(guess, freq_data, cipher_text),
            draws,
            freq_data,
            cipher_text,
        ).best_score
}

/// What the search recovered from a ciphertext.
pub struct Recovery {
    /// The best key found.
    pub shifter: String,
    /// Its score.
    pub score: Score,
    /// The ciphertext decrypted with that key.
    pub plain_text: Vec<char>,
}

/// Recovers a key from ciphertext alone: the first guess pairs letters by
/// frequency rank, the search improves on it, and the text is decrypted with
/// the best key found. The key returned is the best key of a search from the
/// first guess; it scores no higher than the first guess, and is the first
/// guess where there are no iterations. Fails where
/// the reference table of letter counts does not have exactly the 26 letters
/// as its keys.
pub fn crack(
    freq_data: &FrequencyData,
    cipher_text: &Vec<char>,
    iterations: usize,
    keep_chance: u8,
) -> (r: Result<Recovery, ConfigurationError>)
    requires
        freq_data.is_mapping(),
    ensures
        r is Ok <==> covers_letter_codes(freq_data.character_frequencies@),
        r matches Err(e) ==> e == ConfigurationError::IncompleteTable,
        r matches Ok(found) ==> is_valid_key(found.shifter@) && is_score_of(
            found.score,
            *freq_data,
            cipher_text@,
            found.shifter@,
        ) && found.plain_text@ == decrypt_text(found.shifter@, cipher_text@),
        r matches Ok(found) ==> forall|guess: Seq<char>, first: Score|
            is_likely_shifter(
                guess,
                expected_pairs(freq_data.character_frequencies@),
                text_pairs(cipher_text@),
            ) && #[trigger] is_score_of(first, *freq_data, cipher_text@, guess)
                ==> found.score.weighted() <= first.weighted() && (iterations == 0
                ==> found.shifter@ == guess),
        r matches Ok(found) ==> forall|guess: Seq<char>| #[trigger]
            is_likely_shifter(
                guess,
                expected_pairs(freq_data.character_frequencies@),
                text_pairs(cipher_text@),
            ) ==> is_found_from(
                found.shifter@,
                found.score,
                guess,
                iterations as int,
                *freq_data,
                cipher_text@,
            ),
{
    let char_frequencies = count_char_freq(cipher_text);
    proof {
        assert forall|i: int| 0 <= i < 26 implies observed_pairs(
            letter_counts(char_frequencies),
        )[i] == text_pairs(cipher_text@)[i] by {
            assert(is_letter(letter_at(i)));
        }
        assert(observed_pairs(letter_counts(char_frequencies)) =~= text_pairs(cipher_text@));
    }
    let first_guess = match generate_likely_shifter(
        &freq_data.character_frequencies,
        &char_frequencies,
    ) {
        Ok(key) => key,
        Err(e) => {
            return Err(e);
        },
    };
    let state = match search(
        freq_data,
        cipher_text.as_slice(),
        first_guess.as_str(),
        iterations,
        keep_chance,
    ) {
        Ok(state) => state,
        Err(_) => {
            return Err(ConfigurationError::IncompleteTable);
        },
    };
    proof {
        assert forall|guess: Seq<char>, first: Score|
            is_likely_shifter(
                guess,
                expected_pairs(freq_data.character_frequencies@),
                text_pairs(cipher_text@),
            ) && #[trigger] is_score_of(
                first,
                *freq_data,
                cipher_text@,
                guess,
            ) implies state.best_score.weighted() <= first.weighted() && (iterations == 0
            ==> state.best_shifter@ == guess) by {
            lemma_likely_shifter_unique(
                guess,
                first_guess@,
                expected_pairs(freq_data.character_frequencies@),
                text_pairs(cipher_text@),
            );
        }
    }
    proof {
        let draws = choose|draws: Seq<Draw>|
            draws.len() == iterations && draws_in_range(draws) && state@ == #[trigger] replay(
                start_of(first_guess@, *freq_data, cipher_text@),
                draws,
                *freq_data,
                cipher_text@,
            );
        assert forall|guess: Seq<char>| #[trigger]
            is_likely_shifter(
                guess,
                expected_pairs(freq_data.character_frequencies@),
                text_pairs(cipher_text@),
            ) implies is_found_from(
            state.best_shifter@,
            state.best_score,
            guess,
            iterations as int,
            *freq_data,
            cipher_text@,
        ) by {
            lemma_likely_shifter_unique(
                guess,
                first_guess@,
                expected_pairs(freq_data.character_frequencies@),
                text_pairs(cipher_text@),
            );
            assert(state@ == replay(
                start_of(guess, *freq_data, cipher_text@),
                draws,
                *freq_data,
                cipher_text@,
            ));
        }
    }
    match SubCipher::new(state.best_shifter.as_str()) {
        Ok(cipher) => {
            let plain_text = cipher.decrypt(cipher_text.as_slice());
            Ok(Recovery { shifter: state.best_shifter, score: state.best_score, plain_text })
        },
        Err(_) => Err(ConfigurationError::IncompleteTable),
    }
}

} // verus!
