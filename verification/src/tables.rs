//! Frequency tables held in `dashmap::DashMap`, and the few other calls that the
//! library makes into code it does not verify. Every contract in this file is
//! taken on trust from the documentation or source of the function it describes.
//!
//! A `DashMap` can be written through a shared reference. What is said here of
//! a table's entries holds while no other thread writes to the table during a
//! call; the library itself writes only through `&mut`.

use dashmap::DashMap;
use itertools::Itertools;
use vstd::prelude::*;
use vstd::relations::sorted_by;

verus! {

/// `dashmap::DashMap`, a concurrent hash map. Its inside is not visible to proofs.
#[verifier::external_type_specification]
#[verifier::external_body]
#[verifier::reject_recursive_types(K)]
#[verifier::reject_recursive_types(V)]
#[verifier::reject_recursive_types(S)]
pub struct ExDashMap<K, V, S>(DashMap<K, V, S>);

/// The entries of a table of letter counts: the pairs of key and value that
/// its shards hold together, as long as nobody else writes to it.
pub uninterp spec fn letter_counts(table: DashMap<char, usize>) -> Map<char, usize>;

/// The entries of a table of n-gram counts, each key by its characters: the
/// pairs of key and value that its shards hold together, as long as nobody
/// else writes to it.
pub uninterp spec fn ngram_counts(table: DashMap<String, usize>) -> Map<Seq<char>, usize>;

/// `c` has the Unicode property `White_Space`: the tab, the line and page
/// breaks, the blank and the other spaces and separators of the standard.
pub open spec fn is_whitespace(c: char) -> bool {
    let code = c as u32;
    ||| 0x09 <= code <= 0x0D
    ||| code == 0x20
    ||| code == 0x85
    ||| code == 0xA0
    ||| code == 0x1680
    ||| 0x2000 <= code <= 0x200A
    ||| code == 0x2028
    ||| code == 0x2029
    ||| code == 0x202F
    ||| code == 0x205F
    ||| code == 0x3000
}

/// What `char::is_alphabetic` answers for `c`: whether `c` has the Unicode
/// property `Alphabetic`.
pub uninterp spec fn is_alphabetic(c: char) -> bool;

/// `DashMap::with_capacity`: a new table with no entries. The capacity is
/// rounded up to a multiple of the number of shards, so it must leave room
/// for that.
#[verifier::external_body]
pub(crate) fn new_letter_table(capacity: usize) -> (table: DashMap<char, usize>)
    requires
        capacity <= 0xFFFF,
    ensures
        letter_counts(table).dom() == Set::<char>::empty(),
{
    DashMap::with_capacity(capacity)
}

/// `DashMap::insert`: afterwards `key` maps to `value` and every other entry is as before.
#[verifier::external_body]
pub(crate) fn letter_table_insert(table: &mut DashMap<char, usize>, key: char, value: usize)
    ensures
        letter_counts(*final(table)) == letter_counts(*old(table)).insert(key, value),
{
    table.insert(key, value);
}

/// `DashMap::get`: the value stored under `key`, if there is one.
#[verifier::external_body]
pub(crate) fn letter_table_get(table: &DashMap<char, usize>, key: char) -> (found: Option<usize>)
    ensures
        found == (if letter_counts(*table).contains_key(key) {
            Some(letter_counts(*table)[key])
        } else {
            None
        }),
{
    table.get(&key).map(|entry| *entry)
}

/// A map with finitely many entries, `n` of them.
pub open spec fn has_size(m: Map<char, usize>, n: nat) -> bool {
    m.dom().finite() && m.dom().len() == n
}

/// `DashMap::len`: the number of entries, which is finite.
#[verifier::external_body]
pub(crate) fn letter_table_len(table: &DashMap<char, usize>) -> (n: usize)
    ensures
        has_size(letter_counts(*table), n as nat),
{
    table.len()
}

/// `DashMap::with_capacity`: a new table with no entries. The capacity is
/// rounded up to a multiple of the number of shards, so it must leave room
/// for that.
#[verifier::external_body]
pub(crate) fn new_ngram_table(capacity: usize) -> (table: DashMap<String, usize>)
    requires
        capacity <= 0xFFFF,
    ensures
        ngram_counts(table).dom() == Set::<Seq<char>>::empty(),
{
    DashMap::with_capacity(capacity)
}

/// `DashMap::insert`: afterwards `key` maps to `value` and every other entry is as before.
#[verifier::external_body]
pub(crate) fn ngram_table_insert(table: &mut DashMap<String, usize>, key: String, value: usize)
    ensures
        ngram_counts(*final(table)) == ngram_counts(*old(table)).insert(key@, value),
{
    table.insert(key, value);
}

/// `DashMap::get`: the value stored under `key`, if there is one.
#[verifier::external_body]
pub(crate) fn ngram_table_get(table: &DashMap<String, usize>, key: &str) -> (found: Option<usize>)
    ensures
        found == (if ngram_counts(*table).contains_key(key@) {
            Some(ngram_counts(*table)[key@])
        } else {
            None
        }),
{
    table.get(key).map(|entry| *entry)
}

/// `char::is_whitespace`: whether `c` has the Unicode property `White_Space`,
/// whose code points `is_whitespace` lists.
#[verifier::external_body]
pub(crate) fn char_is_whitespace(c: char) -> (r: bool)
    ensures
        r == is_whitespace(c),
{
    c.is_whitespace()
}

/// `char::is_alphabetic`.
#[verifier::external_body]
pub(crate) fn char_is_alphabetic(c: char) -> (r: bool)
    ensures
        r == is_alphabetic(c),
{
    c.is_alphabetic()
}

/// `String::push`: appends one character.
#[verifier::external_body]
pub(crate) fn push_char(s: &mut String, c: char)
    ensures
        final(s)@ == old(s)@.push(c),
{
    s.push(c)
}

/// The order of pairs `(count, position)`: by count, and by position among equal counts.
pub open spec fn pair_le(a: (usize, u8), b: (usize, u8)) -> bool {
    a.0 < b.0 || (a.0 == b.0 && a.1 <= b.1)
}

/// The same order as a relation.
pub open spec fn pair_order() -> spec_fn((usize, u8), (usize, u8)) -> bool {
    |a: (usize, u8), b: (usize, u8)| pair_le(a, b)
}

/// `Itertools::sorted`: the same pairs, each as often as before, in ascending order.
#[verifier::external_body]
pub(crate) fn sorted_pairs(pairs: Vec<(usize, u8)>) -> (sorted: Vec<(usize, u8)>)
    ensures
        sorted@.to_multiset() == pairs@.to_multiset(),
        sorted_by(sorted@, pair_order()),
{
    pairs.into_iter().sorted().collect()
}

/// `rand::random::<u8>`: a byte from the thread's random generator. Nothing is
/// known of its value. The generator panics where the operating system gives
/// it no seed, which no argument decides.
#[verifier::external_body]
pub(crate) fn random_byte() -> u8 {
    rand::random::<u8>()
}

} // verus!
