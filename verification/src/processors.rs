//! The transforms: each takes a collection of tokens and returns a collection.

use vstd::prelude::*;
use vstd::string::*;
use crate::text::{chars_of, digit, is_digit, blank, is_blank, skip_digits, trim_bounds, trimmed, digits_at_start};
use crate::select::{retain_marked, lemma_picked_is_filter};
use crate::sorting::{sort_distinct, ordered, members, distinct, lemma_ordered_distinct};

verus! {

/// Whether a character has the Unicode property Alphabetic, as the standard
/// library classifies it.
pub uninterp spec fn alphabetic(c: char) -> bool;

/// `char::is_alphabetic` of the standard library: the result is the Unicode
/// Alphabetic classification of the character, which is given the name
/// [`alphabetic`] and is not spelled out here.
pub assume_specification[ char::is_alphabetic ](c: char) -> (r: bool)
    ensures
        r == alphabetic(c),
;

/// Every character of the token is alphabetic. The empty token qualifies.
pub open spec fn all_alphabetic(s: Seq<char>) -> bool {
    forall|i: int| 0 <= i < s.len() ==> alphabetic(#[trigger] s[i])
}

/// Every character of the token is a decimal digit. The empty token qualifies.
pub open spec fn all_digits(s: Seq<char>) -> bool {
    forall|i: int| 0 <= i < s.len() ==> is_digit(#[trigger] s[i])
}

/// Whether the word consists of decimal digits only.
pub fn is_number(word: &String) -> (r: bool)
    ensures
        r == all_digits(word@),
{
    for c in it: word.as_str().chars()
        invariant
            it.seq() == word@,
            forall|j: int| 0 <= j < it.index() ==> is_digit(#[trigger] word@[j]),
    {
        if !digit(c) {
            return false;
        }
    }
    true
}

/// Whether the word consists of alphabetic characters only.
pub fn only_letters(word: &str) -> (r: bool)
    ensures
        r == all_alphabetic(word@),
{
    for c in it: word.chars()
        invariant
            it.seq() == word@,
            forall|j: int| 0 <= j < it.index() ==> alphabetic(#[trigger] word@[j]),
    {
        if !c.is_alphabetic() {
            return false;
        }
    }
    true
}

/// The token starts with a count: one or more decimal digits and, right after
/// them, a blank.
pub open spec fn has_count(s: Seq<char>) -> bool {
    let d = digits_at_start(s);
    d >= 1 && d < s.len() && is_blank(s[d as int])
}

/// The token without its count: what follows the digits, trimmed. A token that
/// starts with no count is itself: digits alone are no count, nor are digits
/// with a letter right after them. A count with blanks only after it leaves the
/// empty token.
pub open spec fn without_count(s: Seq<char>) -> Seq<char> {
    if has_count(s) {
        trimmed(s.skip(digits_at_start(s) as int))
    } else {
        s
    }
}

/// The predicate of the filter that keeps tokens made of letters only.
pub open spec fn letters_only() -> spec_fn(String) -> bool {
    |w: String| all_alphabetic(w@)
}

/// The predicate of the filter that keeps tokens holding a character that is
/// no letter. The empty token holds none.
pub open spec fn some_symbol() -> spec_fn(String) -> bool {
    |w: String| !all_alphabetic(w@)
}

/// The predicate of the filter that keeps tokens of `min` to `max` characters.
pub open spec fn length_within(min: usize, max: usize) -> spec_fn(String) -> bool {
    |w: String| min <= w@.len() <= max
}

/// Removes the blanks at both ends of one word.
pub fn trim_whitespace(word: String) -> (r: String)
    ensures
        r@ == trimmed(word@),
{
    let chars = chars_of(word.as_str());
    let (a, b) = trim_bounds(&chars, 0);
    proof {
        assert(chars@.skip(0) =~= word@);
    }
    if a == 0 && b == chars.len() {
        proof {
            assert(word@.subrange(0, word@.len() as int) =~= word@);
        }
        word
    } else {
        word.as_str().substring_char(a, b).to_owned()
    }
}

/// Removes the count that one word starts with, if it starts with one.
pub fn remove_count(word: String) -> (r: String)
    ensures
        r@ == without_count(word@),
        !has_count(word@) ==> r@ == word@,
{
    let chars = chars_of(word.as_str());
    let n: usize = chars.len();
    let d: usize = skip_digits(&chars, 0, n);
    proof {
        assert(chars@.subrange(0, n as int) =~= word@);
    }
    if d >= 1 && d < n && blank(chars[d]) {
        let (a, b) = trim_bounds(&chars, d);
        word.as_str().substring_char(a, b).to_owned()
    } else {
        word
    }
}

/// Puts `prefix` in front of one word.
pub fn prefixed(prefix: &str, word: String) -> (r: String)
    ensures
        r@ == prefix@ + word@,
{
    prefix.to_owned().concat(word.as_str())
}

/// Keeps one word of each token and returns them in ascending dictionary
/// order, by code point: the result holds no token twice, and holds exactly the
/// tokens that `words` holds.
pub fn deduplicate(words: Vec<String>) -> (r: Vec<String>)
    ensures
        ordered(r@, true),
        distinct(r@),
        members(r@) == members(words@),
{
    let out = sort_distinct(words, true);
    proof {
        lemma_ordered_distinct(out@, true);
    }
    out
}

/// Keeps the words made of letters only, in their order. The empty word stays.
pub fn remove_contains_symbols(words: Vec<String>) -> (r: Vec<String>)
    ensures
        r@ == words@.filter(letters_only()),
{
    let mut marks: Vec<bool> = Vec::new();
    let n: usize = words.len();
    for i in 0..n
        invariant
            n == words@.len(),
            marks@.len() == i,
            forall|j: int| 0 <= j < i ==> marks@[j] == letters_only()(#[trigger] words@[j]),
    {
        marks.push(only_letters(words[i].as_str()));
    }
    proof {
        lemma_picked_is_filter(words@, marks@, letters_only());
    }
    retain_marked(words, &marks)
}

/// Keeps the words that hold at least one character that is no letter, in their
/// order. The empty word goes.
pub fn remove_lacking_symbols(words: Vec<String>) -> (r: Vec<String>)
    ensures
        r@ == words@.filter(some_symbol()),
{
    let mut marks: Vec<bool> = Vec::new();
    let n: usize = words.len();
    for i in 0..n
        invariant
            n == words@.len(),
            marks@.len() == i,
            forall|j: int| 0 <= j < i ==> marks@[j] == some_symbol()(#[trigger] words@[j]),
    {
        marks.push(!only_letters(words[i].as_str()));
    }
    proof {
        lemma_picked_is_filter(words@, marks@, some_symbol());
    }
    retain_marked(words, &marks)
}

/// Keeps the words whose number of characters is at least `min` and at most
/// `max`, in their order. Characters are counted, not bytes.
pub fn remove_outside_lengths(words: Vec<String>, min: usize, max: usize) -> (r: Vec<String>)
    ensures
        r@ == words@.filter(length_within(min, max)),
        r@.len() <= words@.len(),
        forall|i: int| 0 <= i < r@.len() ==> min <= (#[trigger] r@[i])@.len() <= max,
{
    let mut marks: Vec<bool> = Vec::new();
    let n: usize = words.len();
    for i in 0..n
        invariant
            n == words@.len(),
            marks@.len() == i,
            forall|j: int|
                0 <= j < i ==> marks@[j] == length_within(min, max)(#[trigger] words@[j]),
    {
        let len: usize = words[i].as_str().unicode_len();
        marks.push(min <= len && len <= max);
    }
    proof {
        lemma_picked_is_filter(words@, marks@, length_within(min, max));
        words@.lemma_filter_len(length_within(min, max));
        assert forall|i: int| 0 <= i < words@.filter(length_within(min, max)).len() implies min <= (
        #[trigger] words@.filter(length_within(min, max))[i])@.len() <= max by {
            words@.lemma_filter_pred(length_within(min, max), i);
        }
    }
    retain_marked(words, &marks)
}

/// Trims every word; the result has one word for each word given, in the same
/// order.
pub fn trim_whitespaces(words: Vec<String>) -> (r: Vec<String>)
    ensures
        r@.len() == words@.len(),
        forall|i: int| 0 <= i < r@.len() ==> (#[trigger] r@[i])@ == trimmed(words@[i]@),
{
    let ghost all = words@;
    let mut out: Vec<String> = Vec::new();
    for word in it: words
        invariant
            it.seq() == all,
            out@.len() == it.index(),
            forall|j: int| 0 <= j < out@.len() ==> (#[trigger] out@[j])@ == trimmed(all[j]@),
    {
        out.push(trim_whitespace(word));
    }
    out
}

/// Removes the count from every word that starts with one; the result has one
/// word for each word given, in the same order.
pub fn remove_counts(words: Vec<String>) -> (r: Vec<String>)
    ensures
        r@.len() == words@.len(),
        forall|i: int| 0 <= i < r@.len() ==> (#[trigger] r@[i])@ == without_count(words@[i]@),
        forall|i: int|
            0 <= i < r@.len() && !has_count(words@[i]@) ==> (#[trigger] r@[i])@ == words@[i]@,
{
    let ghost all = words@;
    let mut out: Vec<String> = Vec::new();
    for word in it: words
        invariant
            it.seq() == all,
            out@.len() == it.index(),
            forall|j: int| 0 <= j < out@.len() ==> (#[trigger] out@[j])@ == without_count(all[j]@),
    {
        out.push(remove_count(word));
    }
    out
}

/// Puts `lead` in front of every word; the result has one word for each word
/// given, in the same order.
pub fn prefix(lead: &str, words: Vec<String>) -> (r: Vec<String>)
    ensures
        r@.len() == words@.len(),
        forall|i: int| 0 <= i < r@.len() ==> (#[trigger] r@[i])@ == lead@ + words@[i]@,
        forall|i: int| 0 <= i < r@.len() ==> lead@.is_prefix_of((#[trigger] r@[i])@),
{
    let ghost all = words@;
    let mut out: Vec<String> = Vec::new();
    for word in it: words
        invariant
            it.seq() == all,
            out@.len() == it.index(),
            forall|j: int| 0 <= j < out@.len() ==> (#[trigger] out@[j])@ == lead@ + all[j]@,
            forall|j: int| 0 <= j < out@.len() ==> lead@.is_prefix_of((#[trigger] out@[j])@),
    {
        let ghost w = word@;
        let p = prefixed(lead, word);
        proof {
            assert((lead@ + w).subrange(0, lead@.len() as int) =~= lead@);
        }
        out.push(p);
    }
    out
}

} // verus!
