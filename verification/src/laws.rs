//! What holds of the stages when they are repeated.

use vstd::prelude::*;
use crate::pipeline::{stage_maps, Stage};
use crate::processors::{length_within, letters_only, some_symbol};
use crate::select::lemma_filter_twice;
use crate::sorting::lemma_ordered_unique;
use crate::text::{lemma_trimmed_idempotent, tokens};

verus! {

/// Trimming is idempotent: trimming what trimming returned changes no token.
pub proof fn lemma_trim_twice(input: Seq<String>, once: Seq<String>, twice: Seq<String>)
    requires
        stage_maps(Stage::Trim, input, once),
        stage_maps(Stage::Trim, once, twice),
    ensures
        tokens(twice) == tokens(once),
{
    assert forall|i: int| 0 <= i < once.len() implies twice[i]@ == once[i]@ by {
        lemma_trimmed_idempotent(input[i]@);
    }
    assert(tokens(twice) =~= tokens(once));
}

/// Deduplicating is idempotent: deduplicating what deduplicating returned
/// gives the same tokens in the same order.
pub proof fn lemma_deduplicate_twice(input: Seq<String>, once: Seq<String>, twice: Seq<String>)
    requires
        stage_maps(Stage::Deduplicate, input, once),
        stage_maps(Stage::Deduplicate, once, twice),
    ensures
        tokens(twice) == tokens(once),
{
    lemma_ordered_unique(twice, once, true);
}

/// What deduplicating returns is determined by the tokens given: two results
/// for the same input hold the same tokens in the same order.
pub proof fn lemma_deduplicate_determined(input: Seq<String>, one: Seq<String>, other: Seq<String>)
    requires
        stage_maps(Stage::Deduplicate, input, one),
        stage_maps(Stage::Deduplicate, input, other),
    ensures
        tokens(one) == tokens(other),
{
    lemma_ordered_unique(one, other, true);
}

/// The filters are idempotent: a filter drops nothing from what it returned.
pub proof fn lemma_filter_stage_twice(
    stage: Stage,
    input: Seq<String>,
    once: Seq<String>,
    twice: Seq<String>,
)
    requires
        stage is Lengths || stage is LettersOnly || stage is WithSymbol,
        stage_maps(stage, input, once),
        stage_maps(stage, once, twice),
    ensures
        twice == once,
{
    match stage {
        Stage::Lengths { min, max } => {
            lemma_filter_twice(input, length_within(min, max));
        },
        Stage::LettersOnly => {
            lemma_filter_twice(input, letters_only());
        },
        Stage::WithSymbol => {
            lemma_filter_twice(input, some_symbol());
        },
        _ => {},
    }
}

} // verus!
