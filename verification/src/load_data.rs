//! The reference statistics of the language a text is expected to be written
//! in, and the text format they are kept in.
//!
//! The format has three sections divided by `#`: letters, bigrams, trigrams.
//! In a section only the lines that end in `)` count. Such a line is cut into
//! tokens at every blank, `(` and `,`; its second token is the n-gram and its
//! fourth token the count, as in `1 th  92535489 (3.88)`. In the first section
//! the letter is the first alphabetic character of the line instead. A later
//! line for the same n-gram replaces the earlier count. Statistics are
//! complete when the letters are exactly `a` to `z`, every bigram is two
//! lowercase letters and every trigram three.

use crate::alphabet::{is_letter, is_lowercase_letter};
use crate::estimator::{covers_all_letter_codes, covers_letter_codes};
use crate::sub_cipher::all_letters;
use crate::tables::{char_is_alphabetic, is_alphabetic, push_char};
use std::collections::HashMap;
use vstd::prelude::*;

verus! {

/// Expected counts of letters, bigrams and trigrams in ordinary text.
pub struct FrequencyData {
    /// Expected count of each letter, under the letter's code point.
    pub character_frequencies: HashMap<u32, usize>,
    /// Expected count of each bigram listed.
    pub bigram_frequencies: Vec<(String, usize)>,
    /// Expected count of each trigram listed.
    pub trigram_frequencies: Vec<(String, usize)>,
}

/// Why no reference statistics could be had from a text.
#[derive(Debug, Clone, Copy, PartialEq, Eq, Structural)]
pub enum DataUnavailableError {
    /// The text has fewer than three sections.
    MissingSection,
    /// A line that counts lacks its n-gram or a count that fits the machine word.
    MalformedLine,
    /// The letters of the first section are not exactly `a` to `z`.
    IncompleteLetters,
    /// A bigram is not two lowercase letters, or a trigram not three.
    InvalidNgram,
}

/// The pieces of `text` between separators, from left to right. A text with
/// `k` separators has `k + 1` pieces, empty ones included.
pub open spec fn split(text: Seq<char>, separators: Seq<char>) -> Seq<Seq<char>>
    decreases text.len(),
{
    if text.len() == 0 {
        seq![Seq::<char>::empty()]
    } else {
        let before = split(text.drop_last(), separators);
        if separators.contains(text.last()) {
            before.push(Seq::<char>::empty())
        } else {
            before.update(before.len() - 1, before.last().push(text.last()))
        }
    }
}

/// The characters of each piece.
pub open spec fn views(pieces: Seq<Vec<char>>) -> Seq<Seq<char>> {
    Seq::new(pieces.len(), |i: int| pieces[i]@)
}

/// An entry with its n-gram by its characters.
pub open spec fn entry_view(entry: (String, usize)) -> (Seq<char>, usize) {
    (entry.0@, entry.1)
}

/// The entries of a table, each n-gram by its characters.
pub open spec fn entry_views(table: Seq<(String, usize)>) -> Seq<(Seq<char>, usize)> {
    Seq::new(table.len(), |i: int| entry_view(table[i]))
}

/// `gram` is `n` lowercase letters.
pub open spec fn is_ngram(gram: Seq<char>, n: int) -> bool {
    gram.len() == n && all_letters(gram)
}

/// Every key of the table is `n` lowercase letters.
pub open spec fn all_ngrams(table: Seq<(Seq<char>, usize)>, n: int) -> bool {
    forall|i: int| 0 <= i < table.len() ==> is_ngram((#[trigger] table[i]).0, n)
}

/// No n-gram stands twice in the table.
pub open spec fn distinct_keys(table: Seq<(Seq<char>, usize)>) -> bool {
    forall|i: int, j: int|
        0 <= i < table.len() && 0 <= j < table.len() && i != j ==> (#[trigger] table[i]).0 != (
        #[trigger] table[j]).0
}

impl FrequencyData {
    /// The tables of bigrams and trigrams are mappings: no n-gram stands in
    /// one of them twice.
    pub open spec fn is_mapping(&self) -> bool {
        &&& distinct_keys(entry_views(self.bigram_frequencies@))
        &&& distinct_keys(entry_views(self.trigram_frequencies@))
    }

    /// The statistics are complete: the letters are exactly `a` to `z`, every
    /// bigram is two lowercase letters and every trigram three.
    pub open spec fn is_complete(&self) -> bool {
        &&& covers_letter_codes(self.character_frequencies@)
        &&& all_ngrams(entry_views(self.bigram_frequencies@), 2)
        &&& all_ngrams(entry_views(self.trigram_frequencies@), 3)
    }
}

/// The characters that end a section, a line and a token.
pub open spec fn section_separators() -> Seq<char> {
    seq!['#']
}

pub open spec fn line_separators() -> Seq<char> {
    seq!['\n']
}

pub open spec fn token_separators() -> Seq<char> {
    seq![' ', '(', ',']
}

/// The line that a piece between newlines holds, if it counts: a carriage
/// return before the newline is dropped, and the line must end in `)`.
pub open spec fn counted_line(piece: Seq<char>, is_last: bool) -> Option<Seq<char>> {
    let line = if !is_last && piece.len() > 0 && piece.last() == '\r' {
        piece.drop_last()
    } else {
        piece
    };
    if line.len() > 0 && line.last() == ')' {
        Some(line)
    } else {
        None
    }
}

/// `c` is a decimal digit.
pub open spec fn is_digit(c: char) -> bool {
    '0' <= c && c <= '9'
}

pub open spec fn all_digits(s: Seq<char>) -> bool {
    forall|i: int| 0 <= i < s.len() ==> is_digit(#[trigger] s[i])
}

/// The number that a run of decimal digits writes.
pub open spec fn digits_value(s: Seq<char>) -> nat
    decreases s.len(),
{
    if s.len() == 0 {
        0
    } else {
        digits_value(s.drop_last()) * 10 + if is_digit(s.last()) {
            (s.last() as int - 48) as nat
        } else {
            0
        }
    }
}

/// The count that a token writes: one or more decimal digits, after an
/// optional `+`, whose number fits the machine word.
pub open spec fn count_of(token: Seq<char>) -> Option<usize> {
    let digits = if token.len() > 0 && token[0] == '+' {
        token.subrange(1, token.len() as int)
    } else {
        token
    };
    if digits.len() > 0 && all_digits(digits) && digits_value(digits) <= usize::MAX {
        Some(digits_value(digits) as usize)
    } else {
        None
    }
}

/// The first alphabetic character of a line.
pub open spec fn first_alphabetic(line: Seq<char>) -> Option<char>
    decreases line.len(),
{
    if line.len() == 0 {
        None
    } else if is_alphabetic(line[0]) {
        Some(line[0])
    } else {
        first_alphabetic(line.drop_first())
    }
}

/// The n-gram and count of a line of the second or third section.
pub open spec fn ngram_entry(line: Seq<char>) -> Option<(Seq<char>, usize)> {
    let tokens = split(line, token_separators());
    if tokens.len() >= 4 && count_of(tokens[3]) is Some {
        Some((tokens[1], count_of(tokens[3])->0))
    } else {
        None
    }
}

/// The letter, as its code point, and count of a line of the first section.
pub open spec fn letter_entry(line: Seq<char>) -> Option<(u32, usize)> {
    let tokens = split(line, token_separators());
    if first_alphabetic(line) is Some && tokens.len() >= 4 && count_of(tokens[3]) is Some {
        Some((first_alphabetic(line)->0 as u32, count_of(tokens[3])->0))
    } else {
        None
    }
}

/// `at` is the first position of the table that holds `key`.
pub open spec fn is_first_position(table: Seq<(Seq<char>, usize)>, key: Seq<char>, at: int) -> bool {
    &&& 0 <= at < table.len()
    &&& table[at].0 == key
    &&& forall|j: int| 0 <= j < at ==> (#[trigger] table[j]).0 != key
}

/// The table with `key` set to `count`: in place where the table holds the
/// key, at the end where it does not.
pub open spec fn upsert(table: Seq<(Seq<char>, usize)>, key: Seq<char>, count: usize) -> Seq<
    (Seq<char>, usize),
> {
    if exists|at: int| is_first_position(table, key, at) {
        table.update(choose|at: int| is_first_position(table, key, at), (key, count))
    } else {
        table.push((key, count))
    }
}

/// A key that the table holds has a first position.
pub proof fn lemma_first_position(table: Seq<(Seq<char>, usize)>, key: Seq<char>, at: int)
    requires
        0 <= at < table.len(),
        table[at].0 == key,
    ensures
        exists|w: int| is_first_position(table, key, w),
    decreases at,
{
    if exists|j: int| 0 <= j < at && (#[trigger] table[j]).0 == key {
        let j = choose|j: int| 0 <= j < at && (#[trigger] table[j]).0 == key;
        lemma_first_position(table, key, j);
    } else {
        assert(is_first_position(table, key, at));
    }
}

/// Setting a count keeps the table a mapping: no n-gram comes to stand twice.
pub proof fn lemma_upsert_distinct(table: Seq<(Seq<char>, usize)>, key: Seq<char>, count: usize)
    requires
        distinct_keys(table),
    ensures
        distinct_keys(upsert(table, key, count)),
{
    let next = upsert(table, key, count);
    if exists|at: int| is_first_position(table, key, at) {
        let at = choose|at: int| is_first_position(table, key, at);
        assert forall|i: int, j: int|
            0 <= i < next.len() && 0 <= j < next.len() && i != j implies (#[trigger] next[i]).0 != (
        #[trigger] next[j]).0 by {
            assert(next[i].0 == table[i].0);
            assert(next[j].0 == table[j].0);
        }
    } else {
        assert forall|k: int| 0 <= k < table.len() implies (#[trigger] table[k]).0 != key by {
            if table[k].0 == key {
                lemma_first_position(table, key, k);
            }
        }
        assert forall|i: int, j: int|
            0 <= i < next.len() && 0 <= j < next.len() && i != j implies (#[trigger] next[i]).0 != (
        #[trigger] next[j]).0 by {
            if i < table.len() {
                assert(next[i] == table[i]);
            }
            if j < table.len() {
                assert(next[j] == table[j]);
            }
        }
    }
}

/// The table that a section of n-grams gives is a mapping: no n-gram stands
/// in it twice.
pub proof fn lemma_section_distinct(lines: Seq<Seq<char>>, upto: int)
    ensures
        ngram_section(lines, upto) matches Some(table) ==> distinct_keys(table),
    decreases upto,
{
    if upto > 0 {
        lemma_section_distinct(lines, upto - 1);
        match ngram_section(lines, upto - 1) {
            None => {},
            Some(table) => match counted_line(lines[upto - 1], upto == lines.len()) {
                None => {},
                Some(line) => match ngram_entry(line) {
                    None => {},
                    Some(entry) => {
                        lemma_upsert_distinct(table, entry.0, entry.1);
                    },
                },
            },
        }
    }
}

/// The table of n-grams that the first `upto` pieces of a section give, or
/// `None` where one of their lines is malformed.
pub open spec fn ngram_section(lines: Seq<Seq<char>>, upto: int) -> Option<
    Seq<(Seq<char>, usize)>,
>
    decreases upto,
{
    if upto <= 0 {
        Some(Seq::empty())
    } else {
        match ngram_section(lines, upto - 1) {
            None => None,
            Some(table) => match counted_line(lines[upto - 1], upto == lines.len()) {
                None => Some(table),
                Some(line) => match ngram_entry(line) {
                    None => None,
                    Some(entry) => Some(upsert(table, entry.0, entry.1)),
                },
            },
        }
    }
}

/// The table of letters that the first `upto` pieces of a section give, or
/// `None` where one of their lines is malformed.
pub open spec fn letter_section(lines: Seq<Seq<char>>, upto: int) -> Option<Map<u32, usize>>
    decreases upto,
{
    if upto <= 0 {
        Some(Map::empty())
    } else {
        match letter_section(lines, upto - 1) {
            None => None,
            Some(table) => match counted_line(lines[upto - 1], upto == lines.len()) {
                None => Some(table),
                Some(line) => match letter_entry(line) {
                    None => None,
                    Some(entry) => Some(table.insert(entry.0, entry.1)),
                },
            },
        }
    }
}

/// All lines of a section of n-grams.
pub open spec fn ngrams_of(section: Seq<char>) -> Option<Seq<(Seq<char>, usize)>> {
    let lines = split(section, line_separators());
    ngram_section(lines, lines.len() as int)
}

/// All lines of the section of letters.
pub open spec fn letters_of(section: Seq<char>) -> Option<Map<u32, usize>> {
    let lines = split(section, line_separators());
    letter_section(lines, lines.len() as int)
}

/// What a text gives: the first error that applies, or statistics that hold
/// its three tables.
pub open spec fn is_loaded_from(
    r: Result<FrequencyData, DataUnavailableError>,
    content: Seq<char>,
) -> bool {
    let sections = split(content, section_separators());
    if sections.len() < 3 {
        r == Err::<FrequencyData, DataUnavailableError>(DataUnavailableError::MissingSection)
    } else if letters_of(sections[0]) is None || ngrams_of(sections[1]) is None || ngrams_of(
        sections[2],
    ) is None {
        r == Err::<FrequencyData, DataUnavailableError>(DataUnavailableError::MalformedLine)
    } else if !covers_letter_codes(letters_of(sections[0])->0) {
        r == Err::<FrequencyData, DataUnavailableError>(DataUnavailableError::IncompleteLetters)
    } else if !all_ngrams(ngrams_of(sections[1])->0, 2) || !all_ngrams(
        ngrams_of(sections[2])->0,
        3,
    ) {
        r == Err::<FrequencyData, DataUnavailableError>(DataUnavailableError::InvalidNgram)
    } else {
        &&& r is Ok
        &&& r->Ok_0.character_frequencies@ == letters_of(sections[0])->0
        &&& entry_views(r->Ok_0.bigram_frequencies@) == ngrams_of(sections[1])->0
        &&& entry_views(r->Ok_0.trigram_frequencies@) == ngrams_of(sections[2])->0
    }
}

fn is_separator(c: char, separators: &Vec<char>) -> (r: bool)
    ensures
        r == separators@.contains(c),
{
    let mut k: usize = 0;
    while k < separators.len()
        invariant
            k <= separators@.len(),
            forall|j: int| 0 <= j < k ==> separators@[j] != c,
        decreases separators@.len() - k,
    {
        if separators[k] == c {
            return true;
        }
        k += 1;
    }
    false
}

/// Cuts a text into its pieces between separators.
pub fn split_chars(text: &Vec<char>, separators: &Vec<char>) -> (pieces: Vec<Vec<char>>)
    ensures
        views(pieces@) == split(text@, separators@),
{
    let mut done: Vec<Vec<char>> = Vec::new();
    let mut current: Vec<char> = Vec::new();
    let mut i: usize = 0;
    assert(views(done@).push(current@) =~= split(text@.subrange(0, 0), separators@));
    while i < text.len()
        invariant
            i <= text@.len(),
            views(done@).push(current@) == split(text@.subrange(0, i as int), separators@),
        decreases text@.len() - i,
    {
        let c = text[i];
        let ghost before = text@.subrange(0, i as int);
        let ghost after = text@.subrange(0, i + 1);
        let ghost old_done = views(done@);
        let ghost old_current = current@;
        assert(after.drop_last() =~= before);
        assert(after.last() == c);
        if is_separator(c, separators) {
            done.push(current);
            current = Vec::new();
            assert(views(done@) =~= old_done.push(old_current));
        } else {
            current.push(c);
            assert(views(done@).push(current@) =~= old_done.push(old_current).update(
                old_done.len() as int,
                old_current.push(c),
            ));
        }
        i += 1;
    }
    assert(text@.subrange(0, i as int) =~= text@);
    let ghost old_done = views(done@);
    done.push(current);
    assert(views(done@) =~= old_done.push(current@));
    done
}

/// A prefix of a run of characters writes no greater number than the run.
proof fn lemma_digits_prefix(s: Seq<char>, i: int)
    requires
        0 <= i <= s.len(),
    ensures
        digits_value(s.subrange(0, i)) <= digits_value(s),
    decreases s.len(),
{
    if i == s.len() {
        assert(s.subrange(0, i) =~= s);
    } else {
        lemma_digits_prefix(s.drop_last(), i);
        assert(s.drop_last().subrange(0, i) =~= s.subrange(0, i));
    }
}

/// Reads the count that a token writes.
pub fn parse_count(token: &Vec<char>) -> (r: Option<usize>)
    ensures
        r == count_of(token@),
{
    let start: usize = if token.len() > 0 && token[0] == '+' {
        1
    } else {
        0
    };
    let ghost digits = token@.subrange(start as int, token@.len() as int);
    assert(start == 0 ==> digits =~= token@);
    if start == token.len() {
        return None;
    }
    let mut value: usize = 0;
    let mut i: usize = start;
    assert(digits.subrange(0, 0) =~= Seq::<char>::empty());
    while i < token.len()
        invariant
            start <= i <= token@.len(),
            start <= 1,
            start == 1 <==> token@[0] == '+',
            start == 0 ==> digits == token@,
            digits == token@.subrange(start as int, token@.len() as int),
            all_digits(digits.subrange(0, i - start)),
            value == digits_value(digits.subrange(0, i - start)),
        decreases token@.len() - i,
    {
        let c = token[i];
        let ghost shorter = digits.subrange(0, i - start);
        let ghost longer = digits.subrange(0, i - start + 1);
        assert(longer.drop_last() =~= shorter);
        assert(longer.last() == c);
        if !('0' <= c && c <= '9') {
            assert(!is_digit(digits[i - start]));
            return None;
        }
        let d: usize = (c as u32 - 48) as usize;
        assert(digits_value(longer) == value * 10 + d);
        assert(all_digits(longer)) by {
            assert forall|j: int| 0 <= j < longer.len() implies is_digit(#[trigger] longer[j]) by {
                if j < shorter.len() {
                    assert(longer[j] == shorter[j]);
                }
            }
        }
        if value > (usize::MAX - d) / 10 {
            proof {
                lemma_digits_prefix(digits, i - start + 1);
                assert((usize::MAX - d) / 10 * 10 + 10 > usize::MAX - d);
                assert(digits_value(longer) > usize::MAX);
                assert(digits_value(digits) > usize::MAX);
            }
            return None;
        }
        value = value * 10 + d;
        i += 1;
    }
    assert(digits.subrange(0, i - start) =~= digits);
    Some(value)
}

/// Finds the first alphabetic character of a line.
fn find_alphabetic(line: &Vec<char>) -> (r: Option<char>)
    ensures
        r == first_alphabetic(line@),
{
    let mut i: usize = 0;
    assert(line@.subrange(0, line@.len() as int) =~= line@);
    while i < line.len()
        invariant
            i <= line@.len(),
            first_alphabetic(line@) == first_alphabetic(
                line@.subrange(i as int, line@.len() as int),
            ),
        decreases line@.len() - i,
    {
        let ghost rest = line@.subrange(i as int, line@.len() as int);
        assert(rest[0] == line@[i as int]);
        assert(rest.drop_first() =~= line@.subrange(i + 1, line@.len() as int));
        if char_is_alphabetic(line[i]) {
            return Some(line[i]);
        }
        i += 1;
    }
    None
}

/// Copies the line that a piece holds, if it counts.
fn line_of_piece(piece: &Vec<char>, is_last: bool) -> (r: Option<Vec<char>>)
    ensures
        match counted_line(piece@, is_last) {
            Some(line) => r is Some && r->0@ == line,
            None => r is None,
        },
{
    let n: usize = piece.len();
    let len: usize = if !is_last && n > 0 && piece[n - 1] == '\r' {
        n - 1
    } else {
        n
    };
    if len == 0 || piece[len - 1] != ')' {
        assert(piece@.subrange(0, n as int) =~= piece@);
        return None;
    }
    let mut line: Vec<char> = Vec::new();
    let mut i: usize = 0;
    while i < len
        invariant
            i <= len <= piece@.len(),
            line@ == piece@.subrange(0, i as int),
        decreases len - i,
    {
        line.push(piece[i]);
        assert(line@ =~= piece@.subrange(0, i + 1));
        i += 1;
    }
    assert(piece@.subrange(0, n as int) =~= piece@);
    assert(piece@.subrange(0, n - 1) =~= piece@.drop_last());
    Some(line)
}

fn token_separator_list() -> (list: Vec<char>)
    ensures
        list@ == token_separators(),
{
    let mut list: Vec<char> = Vec::new();
    list.push(' ');
    list.push('(');
    list.push(',');
    assert(list@ =~= token_separators());
    list
}

fn single_separator(c: char) -> (list: Vec<char>)
    ensures
        list@ == seq![c],
{
    let mut list: Vec<char> = Vec::new();
    list.push(c);
    assert(list@ =~= seq![c]);
    list
}

fn string_of(chars: &Vec<char>) -> (s: String)
    ensures
        s@ == chars@,
{
    let mut s = String::new();
    let mut i: usize = 0;
    while i < chars.len()
        invariant
            i <= chars@.len(),
            s@ == chars@.subrange(0, i as int),
        decreases chars@.len() - i,
    {
        push_char(&mut s, chars[i]);
        assert(s@ =~= chars@.subrange(0, i + 1));
        i += 1;
    }
    assert(chars@.subrange(0, i as int) =~= chars@);
    s
}

/// Reads the n-gram and count of a line.
pub fn parse_ngram_line(line: &Vec<char>) -> (r: Option<(String, usize)>)
    ensures
        match ngram_entry(line@) {
            Some(entry) => r is Some && entry_view(r->0) == entry,
            None => r is None,
        },
{
    let separators = token_separator_list();
    let tokens = split_chars(line, &separators);
    if tokens.len() < 4 {
        return None;
    }
    assert(views(tokens@)[1] == tokens@[1]@);
    assert(views(tokens@)[3] == tokens@[3]@);
    match parse_count(&tokens[3]) {
        Some(count) => Some((string_of(&tokens[1]), count)),
        None => None,
    }
}

/// Reads the letter and count of a line.
pub fn parse_letter_line(line: &Vec<char>) -> (r: Option<(u32, usize)>)
    ensures
        r == letter_entry(line@),
{
    let letter = match find_alphabetic(line) {
        Some(c) => c,
        None => {
            return None;
        },
    };
    let separators = token_separator_list();
    let tokens = split_chars(line, &separators);
    if tokens.len() < 4 {
        return None;
    }
    assert(views(tokens@)[3] == tokens@[3]@);
    match parse_count(&tokens[3]) {
        Some(count) => Some((letter as u32, count)),
        None => None,
    }
}

/// Sets the count of an n-gram in a table.
pub fn upsert_entry(table: &mut Vec<(String, usize)>, key: String, count: usize)
    ensures
        entry_views(final(table)@) == upsert(entry_views(old(table)@), key@, count),
{
    let ghost before = entry_views(table@);
    let mut at: usize = 0;
    while at < table.len()
        invariant
            at <= table@.len(),
            before == entry_views(old(table)@),
            entry_views(table@) == before,
            forall|j: int| 0 <= j < at ==> (#[trigger] before[j]).0 != key@,
        decreases table@.len() - at,
    {
        assert(before[at as int].0 == table@[at as int].0@);
        if table[at].0 == key {
            proof {
                assert(is_first_position(before, key@, at as int));
                let chosen = choose|w: int| is_first_position(before, key@, w);
                assert(is_first_position(before, key@, chosen));
                if chosen < at {
                    assert(before[chosen].0 != key@);
                }
                if chosen > at {
                    assert(before[at as int].0 != key@);
                }
            }
            table.set(at, (key, count));
            assert(entry_views(table@) =~= before.update(at as int, (key@, count)));
            return ;
        }
        at += 1;
    }
    proof {
        if exists|w: int| is_first_position(before, key@, w) {
            let w = choose|w: int| is_first_position(before, key@, w);
            assert(before[w].0 != key@);
        }
    }
    table.push((key, count));
    assert(entry_views(table@) =~= before.push((key@, count)));
}

fn parse_ngram_section(section: &Vec<char>) -> (r: Option<Vec<(String, usize)>>)
    ensures
        match ngrams_of(section@) {
            Some(table) => r is Some && entry_views(r->0@) == table,
            None => r is None,
        },
{
    let newline = single_separator('\n');
    let lines = split_chars(section, &newline);
    let mut table: Vec<(String, usize)> = Vec::new();
    let mut k: usize = 0;
    assert(entry_views(table@) =~= Seq::empty());
    while k < lines.len()
        invariant
            k <= lines@.len(),
            views(lines@) == split(section@, line_separators()),
            ngram_section(views(lines@), k as int) == Some(entry_views(table@)),
        decreases lines@.len() - k,
    {
        assert(views(lines@)[k as int] == lines@[k as int]@);
        match line_of_piece(&lines[k], k + 1 == lines.len()) {
            None => {},
            Some(line) => match parse_ngram_line(&line) {
                None => {
                    assert(ngram_section(views(lines@), k + 1) is None);
                    proof {
                        lemma_ngram_section_fails(views(lines@), k + 1, lines@.len() as int);
                    }
                    return None;
                },
                Some(entry) => {
                    upsert_entry(&mut table, entry.0, entry.1);
                },
            },
        }
        k += 1;
    }
    Some(table)
}

/// Once a line is malformed the section is.
proof fn lemma_ngram_section_fails(lines: Seq<Seq<char>>, at: int, upto: int)
    requires
        at <= upto,
        ngram_section(lines, at) is None,
    ensures
        ngram_section(lines, upto) is None,
    decreases upto - at,
{
    if at < upto {
        lemma_ngram_section_fails(lines, at, upto - 1);
    }
}

/// Once a line is malformed the section is.
proof fn lemma_letter_section_fails(lines: Seq<Seq<char>>, at: int, upto: int)
    requires
        at <= upto,
        letter_section(lines, at) is None,
    ensures
        letter_section(lines, upto) is None,
    decreases upto - at,
{
    if at < upto {
        lemma_letter_section_fails(lines, at, upto - 1);
    }
}

fn parse_letter_section(section: &Vec<char>) -> (r: Option<HashMap<u32, usize>>)
    ensures
        match letters_of(section@) {
            Some(table) => r is Some && r->0@ == table,
            None => r is None,
        },
{
    broadcast use vstd::std_specs::hash::group_hash_axioms;

    let newline = single_separator('\n');
    let lines = split_chars(section, &newline);
    let mut table: HashMap<u32, usize> = HashMap::new();
    let mut k: usize = 0;
    assert(table@ =~= Map::empty());
    while k < lines.len()
        invariant
            k <= lines@.len(),
            views(lines@) == split(section@, line_separators()),
            letter_section(views(lines@), k as int) == Some(table@),
        decreases lines@.len() - k,
    {
        assert(views(lines@)[k as int] == lines@[k as int]@);
        match line_of_piece(&lines[k], k + 1 == lines.len()) {
            None => {},
            Some(line) => match parse_letter_line(&line) {
                None => {
                    assert(letter_section(views(lines@), k + 1) is None);
                    proof {
                        lemma_letter_section_fails(views(lines@), k + 1, lines@.len() as int);
                    }
                    return None;
                },
                Some(entry) => {
                    table.insert(entry.0, entry.1);
                },
            },
        }
        k += 1;
    }
    Some(table)
}

/// Tells whether no n-gram stands twice in a table.
pub fn has_distinct_keys(table: &Vec<(String, usize)>) -> (r: bool)
    ensures
        r == distinct_keys(entry_views(table@)),
{
    let ghost keys = entry_views(table@);
    let mut i: usize = 0;
    while i < table.len()
        invariant
            i <= table@.len(),
            keys == entry_views(table@),
            forall|a: int, b: int| 0 <= a < b < i ==> (#[trigger] keys[a]).0 != (#[trigger] keys[b]).0,
        decreases table@.len() - i,
    {
        let mut j: usize = 0;
        while j < i
            invariant
                j <= i < table@.len(),
                keys == entry_views(table@),
                forall|a: int| 0 <= a < j ==> (#[trigger] keys[a]).0 != keys[i as int].0,
            decreases i - j,
        {
            assert(keys[j as int].0 == table@[j as int].0@);
            assert(keys[i as int].0 == table@[i as int].0@);
            if table[j].0 == table[i].0 {
                return false;
            }
            j += 1;
        }
        i += 1;
    }
    assert forall|a: int, b: int|
        0 <= a < keys.len() && 0 <= b < keys.len() && a != b implies (#[trigger] keys[a]).0 != (
    #[trigger] keys[b]).0 by {
        if a < b {
            assert(keys[a].0 != keys[b].0);
        } else {
            assert(keys[b].0 != keys[a].0);
        }
    }
    true
}

/// Tells whether a key is `n` lowercase letters.
pub fn is_ngram_key(key: &str, n: usize) -> (r: bool)
    ensures
        r == is_ngram(key@, n as int),
{
    if key.unicode_len() != n {
        return false;
    }
    let mut i: usize = 0;
    while i < n
        invariant
            i <= n,
            key@.len() == n,
            forall|j: int| 0 <= j < i ==> is_letter(#[trigger] key@[j]),
        decreases n - i,
    {
        if !is_lowercase_letter(key.get_char(i)) {
            return false;
        }
        i += 1;
    }
    true
}

/// Tells whether every key of a table is `n` lowercase letters.
pub fn has_only_ngrams(table: &Vec<(String, usize)>, n: usize) -> (r: bool)
    ensures
        r == all_ngrams(entry_views(table@), n as int),
{
    let mut i: usize = 0;
    while i < table.len()
        invariant
            i <= table@.len(),
            forall|j: int| 0 <= j < i ==> is_ngram((#[trigger] entry_views(table@)[j]).0, n as int),
        decreases table@.len() - i,
    {
        assert(entry_views(table@)[i as int].0 == table@[i as int].0@);
        if !is_ngram_key(table[i].0.as_str(), n) {
            return false;
        }
        i += 1;
    }
    true
}

/// Reads the reference statistics from the text that holds them, and refuses
/// them where they are incomplete. What is returned is complete, and in its
/// tables of bigrams and trigrams no n-gram stands twice.
pub fn load_frequency_data(content: &Vec<char>) -> (r: Result<FrequencyData, DataUnavailableError>)
    ensures
        is_loaded_from(r, content@),
        r matches Ok(data) ==> data.is_complete() && data.is_mapping(),
{
    proof {
        let sections = split(content@, section_separators());
        if sections.len() >= 3 {
            let second = split(sections[1], line_separators());
            let third = split(sections[2], line_separators());
            lemma_section_distinct(second, second.len() as int);
            lemma_section_distinct(third, third.len() as int);
        }
    }
    let hash = single_separator('#');
    let sections = split_chars(content, &hash);
    if sections.len() < 3 {
        return Err(DataUnavailableError::MissingSection);
    }
    assert(views(sections@)[0] == sections@[0]@);
    assert(views(sections@)[1] == sections@[1]@);
    assert(views(sections@)[2] == sections@[2]@);
    let letters = parse_letter_section(&sections[0]);
    let bigrams = parse_ngram_section(&sections[1]);
    let trigrams = parse_ngram_section(&sections[2]);
    match (letters, bigrams, trigrams) {
        (Some(character_frequencies), Some(bigram_frequencies), Some(trigram_frequencies)) => {
            if !covers_all_letter_codes(&character_frequencies) {
                Err(DataUnavailableError::IncompleteLetters)
            } else if !has_only_ngrams(&bigram_frequencies, 2) || !has_only_ngrams(
                &trigram_frequencies,
                3,
            ) {
                Err(DataUnavailableError::InvalidNgram)
            } else {
                Ok(FrequencyData { character_frequencies, bigram_frequencies, trigram_frequencies })
            }
        },
        _ => Err(DataUnavailableError::MalformedLine),
    }
}

} // verus!
