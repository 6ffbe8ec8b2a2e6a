//! Running a list of stages one after the other, each on what the one before
//! it returned.

use vstd::prelude::*;
use crate::processors::{
    deduplicate, length_within, letters_only, prefix, remove_contains_symbols,
    remove_counts, remove_lacking_symbols, remove_outside_lengths, some_symbol, trim_whitespaces,
    without_count,
};
use crate::sorting::{distinct, members, ordered};
use crate::text::trimmed;

verus! {

/// One transform, with its parameters.
#[derive(Clone, Debug)]
pub enum Stage {
    /// Trim every word.
    Trim,
    /// Remove the count that a word starts with.
    RemoveCounts,
    /// Keep one word of each token, in ascending order.
    Deduplicate,
    /// Keep the words of `min` to `max` characters.
    Lengths { min: usize, max: usize },
    /// Keep the words made of letters only.
    LettersOnly,
    /// Keep the words that hold a character that is no letter.
    WithSymbol,
    /// Put a string in front of every word.
    Prefix(String),
}

/// `output` is what the stage makes of `input`.
pub open spec fn stage_maps(stage: Stage, input: Seq<String>, output: Seq<String>) -> bool {
    match stage {
        Stage::Trim => {
            &&& output.len() == input.len()
            &&& forall|i: int|
                0 <= i < output.len() ==> (#[trigger] output[i])@ == trimmed(input[i]@)
        },
        Stage::RemoveCounts => {
            &&& output.len() == input.len()
            &&& forall|i: int|
                0 <= i < output.len() ==> (#[trigger] output[i])@ == without_count(input[i]@)
        },
        Stage::Deduplicate => {
            &&& ordered(output, true)
            &&& distinct(output)
            &&& members(output) == members(input)
        },
        Stage::Lengths { min, max } => output == input.filter(length_within(min, max)),
        Stage::LettersOnly => output == input.filter(letters_only()),
        Stage::WithSymbol => output == input.filter(some_symbol()),
        Stage::Prefix(lead) => {
            &&& output.len() == input.len()
            &&& forall|i: int|
                0 <= i < output.len() ==> (#[trigger] output[i])@ == lead@ + input[i]@
        },
    }
}

/// `output` is what the stages, run in order, make of `input`: with no stage it
/// is `input`; otherwise the last stage makes it of what the stages before it
/// make of `input`.
pub open spec fn pipeline_maps(stages: Seq<Stage>, input: Seq<String>, output: Seq<String>) -> bool
    decreases stages.len(),
{
    if stages.len() == 0 {
        output == input
    } else {
        exists|mid: Seq<String>|
            pipeline_maps(stages.drop_last(), input, mid) && #[trigger] stage_maps(
                stages.last(),
                mid,
                output,
            )
    }
}

/// Whether the words that a stage returns stand in the order in which they were
/// given. Deduplicating sorts; every other stage keeps the order.
pub open spec fn keeps_order(stage: Stage) -> bool {
    !(stage is Deduplicate)
}

impl Stage {
    /// Whether this stage returns the words in the order in which they were
    /// given.
    pub fn preserves_order(&self) -> (r: bool)
        ensures
            r == keeps_order(*self),
    {
        match self {
            Stage::Deduplicate => false,
            _ => true,
        }
    }

    /// Runs this stage on `words`.
    pub fn apply(&self, words: Vec<String>) -> (r: Vec<String>)
        ensures
            stage_maps(*self, words@, r@),
    {
        match self {
            Stage::Trim => trim_whitespaces(words),
            Stage::RemoveCounts => remove_counts(words),
            Stage::Deduplicate => deduplicate(words),
            Stage::Lengths { min, max } => remove_outside_lengths(words, *min, *max),
            Stage::LettersOnly => remove_contains_symbols(words),
            Stage::WithSymbol => remove_lacking_symbols(words),
            Stage::Prefix(lead) => prefix(lead.as_str(), words),
        }
    }
}

/// Runs the stages in order, each on what the one before it returned. With no
/// stage the words come back as they were given.
pub fn run(stages: &Vec<Stage>, words: Vec<String>) -> (r: Vec<String>)
    ensures
        pipeline_maps(stages@, words@, r@),
{
    let ghost all = words@;
    let mut current = words;
    let n: usize = stages.len();
    proof {
        assert(stages@.take(0).len() == 0);
    }
    for i in 0..n
        invariant
            n == stages@.len(),
            pipeline_maps(stages@.take(i as int), all, current@),
    {
        let ghost mid = current@;
        current = stages[i].apply(current);
        proof {
            let done = stages@.take(i + 1);
            assert(done.drop_last() =~= stages@.take(i as int));
            assert(done.last() == stages@[i as int]);
            assert(stage_maps(done.last(), mid, current@));
        }
    }
    proof {
        assert(stages@.take(n as int) =~= stages@);
    }
    current
}

/// Running two lists of stages one after the other is running the one list
/// that holds the stages of both.
pub proof fn lemma_pipeline_joined(
    first: Seq<Stage>,
    second: Seq<Stage>,
    input: Seq<String>,
    mid: Seq<String>,
    output: Seq<String>,
)
    requires
        pipeline_maps(first, input, mid),
        pipeline_maps(second, mid, output),
    ensures
        pipeline_maps(first + second, input, output),
    decreases second.len(),
{
    if second.len() == 0 {
        assert(first + second =~= first);
    } else {
        let before = choose|before: Seq<String>|
            pipeline_maps(second.drop_last(), mid, before) && #[trigger] stage_maps(
                second.last(),
                before,
                output,
            );
        lemma_pipeline_joined(first, second.drop_last(), input, mid, before);
        assert((first + second).drop_last() =~= first + second.drop_last());
        assert((first + second).last() == second.last());
    }
}

} // verus!
