//! The user's choice of shoots: numbers typed on a line, counted from 1.

use vstd::prelude::*;
use crate::text::{parse_number, parsed_number, texts};

verus! {

/// The words of `text`: its maximal runs of characters that are not
/// whitespace, in order, as `str::split_whitespace` yields them. Whitespace
/// is what Unicode marks as White_Space.
pub uninterp spec fn whitespace_words(text: Seq<char>) -> Seq<Seq<char>>;

/// Calls `str::split_whitespace` and collects what it yields. The contract
/// only gives the result its name, [`whitespace_words`].
#[verifier::external_body]
pub(crate) fn split_words(text: &str) -> (words: Vec<String>)
    ensures
        texts(words@) == whitespace_words(text@),
{
    text.split_whitespace().map(|w| w.to_string()).collect()
}

/// The numbers among `words`, in order; words that write no number are
/// passed over.
pub open spec fn numbers_among(words: Seq<Seq<char>>) -> Seq<usize> {
    words.filter_map(|w: Seq<char>| parsed_number(w))
}

/// Reads the numbers among `words`, in order; words that write no number are
/// passed over.
pub fn parse_numbers(words: &Vec<String>) -> (numbers: Vec<usize>)
    ensures
        numbers@ == numbers_among(texts(words@)),
{
    let ghost all = texts(words@);
    let mut numbers: Vec<usize> = Vec::new();
    let mut i: usize = 0;
    assert(all.take(0) =~= Seq::<Seq<char>>::empty());
    while i < words.len()
        invariant
            i <= words.len(),
            all == texts(words@),
            numbers@ == numbers_among(all.take(i as int)),
        decreases words.len() - i,
    {
        proof {
            assert(all.take(i + 1).drop_last() =~= all.take(i as int));
            assert(all.take(i + 1).last() == words[i as int]@);
        }
        match parse_number(words[i].as_str()) {
            Some(n) => {
                numbers.push(n);
                assert(numbers@ =~= numbers_among(all.take(i as int)) + seq![n]);
            },
            None => {},
        }
        i += 1;
    }
    assert(all.take(words.len() as int) =~= all);
    numbers
}

/// The shoot numbers that the user typed on a line, separated by whitespace.
/// What is no number is passed over.
pub fn parse_selection(line: &str) -> (numbers: Vec<usize>)
    ensures
        numbers@ == numbers_among(whitespace_words(line@)),
{
    let words = split_words(line);
    parse_numbers(&words)
}

/// The position, counted from 0, of the shoot that the user calls `number`,
/// counted from 1, among `shoot_count` shoots; `None` where there is no such
/// shoot.
pub open spec fn chosen_shoot(number: usize, shoot_count: usize) -> Option<usize> {
    if 1 <= number <= shoot_count {
        Some((number - 1) as usize)
    } else {
        None
    }
}

/// Finds the shoot that the user calls `number`, counted from 1. A number
/// that names no shoot, 0 among them, gives `None`: the caller reports it
/// and goes on.
pub fn select_shoot(number: usize, shoot_count: usize) -> (position: Option<usize>)
    ensures
        position == chosen_shoot(number, shoot_count),
{
    if 1 <= number && number <= shoot_count {
        Some(number - 1)
    } else {
        None
    }
}

} // verus!
