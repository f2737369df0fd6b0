//! What it means for a tree of choices to be balanced, what validation
//! reports where it is not, and why the two go together.

use crate::types::config::Choice;
use crate::types::config::Level;
use vstd::prelude::*;

verus! {

/// A level of the tree whose weights do not sum to 100: the names of the
/// parameters that lead to it, outermost first, and the sum found there.
pub struct Mismatch {
    pub path: Seq<Seq<char>>,
    pub total: nat,
}

/// The sum of the weights of the first `count` alternatives.
pub open spec fn weight_before(choices: Seq<Choice>, count: int) -> nat
    decreases count,
{
    if count <= 0 || count > choices.len() {
        0
    } else {
        weight_before(choices, count - 1) + choices[count - 1].weight as nat
    }
}

/// The sum of the weights of all alternatives.
pub open spec fn total_weight(choices: Seq<Choice>) -> nat {
    weight_before(choices, choices.len() as int)
}

/// Whether the weights sum to 100 in every set of alternatives of the tree.
pub open spec fn balanced(levels: Seq<Level>) -> bool
    decreases levels, 0int,
{
    forall|i: int| 0 <= i < levels.len() ==> choices_balanced(#[trigger] levels[i].choices)
}

/// Whether the weights sum to 100 in this set of alternatives and in every
/// set below it.
pub open spec fn choices_balanced(choices: Seq<Choice>) -> bool
    decreases choices, 0int,
{
    &&& total_weight(choices) == 100
    &&& forall|j: int|
        0 <= j < choices.len() ==> match (#[trigger] choices[j]).next {
            Some(levels) => balanced(levels),
            None => true,
        }
}

/// The first mismatch that a walk of the parameters from index `from` on
/// meets, each parameter's alternatives being searched by
/// [`choices_mismatch`].
pub open spec fn levels_mismatch(levels: Seq<Level>, from: int) -> Option<Mismatch>
    decreases levels, 1int, levels.len() - from,
{
    if from < 0 || from >= levels.len() {
        None
    } else {
        match choices_mismatch(levels[from].choices) {
            Some(inner) => Some(
                Mismatch { path: seq![levels[from].name] + inner.path, total: inner.total },
            ),
            None => levels_mismatch(levels, from + 1),
        }
    }
}

/// The first mismatch in a set of alternatives: one below an alternative, in
/// order, comes before the set's own.
pub open spec fn choices_mismatch(choices: Seq<Choice>) -> Option<Mismatch>
    decreases choices, 1int, 0int,
{
    match nested_mismatch(choices, 0) {
        Some(inner) => Some(inner),
        None => if total_weight(choices) != 100 {
            Some(Mismatch { path: Seq::empty(), total: total_weight(choices) })
        } else {
            None
        },
    }
}

/// The first mismatch below the alternatives from index `from` on.
pub open spec fn nested_mismatch(choices: Seq<Choice>, from: int) -> Option<Mismatch>
    decreases choices, 0int, choices.len() - from,
{
    if from < 0 || from >= choices.len() {
        None
    } else {
        match choices[from].next {
            Some(levels) => match levels_mismatch(levels, 0) {
                Some(inner) => Some(inner),
                None => nested_mismatch(choices, from + 1),
            },
            None => nested_mismatch(choices, from + 1),
        }
    }
}

/// Whether the parameter names of `path`, followed from these levels down
/// through some alternatives, end at a set of alternatives whose weights sum
/// to `total`.
pub open spec fn leads_to_total(levels: Seq<Level>, path: Seq<Seq<char>>, total: nat) -> bool
    decreases path.len(), 0int,
{
    path.len() > 0 && exists|i: int|
        0 <= i < levels.len() && (#[trigger] levels[i]).name == path[0] && choices_lead_to_total(
            levels[i].choices,
            path.skip(1),
            total,
        )
}

/// Whether `rest`, followed from below some alternative of `choices`, ends at
/// a set of alternatives whose weights sum to `total`; with nothing left to
/// follow, whether `choices` is that set.
pub open spec fn choices_lead_to_total(choices: Seq<Choice>, rest: Seq<Seq<char>>, total: nat) -> bool
    decreases rest.len(), 1int,
{
    if rest.len() == 0 {
        total_weight(choices) == total
    } else {
        exists|j: int|
            0 <= j < choices.len() && match (#[trigger] choices[j]).next {
                Some(levels) => leads_to_total(levels, rest, total),
                None => false,
            }
    }
}

proof fn lemma_levels_mismatch_none(levels: Seq<Level>, from: int)
    requires
        0 <= from <= levels.len(),
    ensures
        levels_mismatch(levels, from) is None <==> forall|i: int|
            from <= i < levels.len() ==> choices_balanced(#[trigger] levels[i].choices),
    decreases levels, 1int, levels.len() - from,
{
    if from < levels.len() {
        lemma_choices_mismatch_none(levels[from].choices);
        lemma_levels_mismatch_none(levels, from + 1);
    }
}

/// The search of one set of alternatives finds nothing exactly when the
/// weights sum to 100 in it and in every set below it.
pub proof fn lemma_choices_mismatch_none(choices: Seq<Choice>)
    ensures
        choices_mismatch(choices) is None <==> choices_balanced(choices),
    decreases choices, 1int, 0int,
{
    lemma_nested_mismatch_none(choices, 0);
}

proof fn lemma_nested_mismatch_none(choices: Seq<Choice>, from: int)
    requires
        0 <= from <= choices.len(),
    ensures
        nested_mismatch(choices, from) is None <==> forall|j: int|
            from <= j < choices.len() ==> match (#[trigger] choices[j]).next {
                Some(levels) => balanced(levels),
                None => true,
            },
    decreases choices, 0int, choices.len() - from,
{
    if from < choices.len() {
        match choices[from].next {
            Some(levels) => {
                lemma_levels_mismatch_none(levels, 0);
            },
            None => {},
        }
        lemma_nested_mismatch_none(choices, from + 1);
    }
}

proof fn lemma_levels_mismatch_real(levels: Seq<Level>, from: int)
    requires
        0 <= from <= levels.len(),
    ensures
        levels_mismatch(levels, from) matches Some(found) ==> found.total != 100 && leads_to_total(
            levels,
            found.path,
            found.total,
        ),
    decreases levels, 1int, levels.len() - from,
{
    if from < levels.len() {
        lemma_choices_mismatch_real(levels[from].choices);
        lemma_levels_mismatch_real(levels, from + 1);
        if let Some(inner) = choices_mismatch(levels[from].choices) {
            let path = seq![levels[from].name] + inner.path;
            assert(path.skip(1) =~= inner.path);
            assert(path[0] == levels[from].name);
        }
    }
}

proof fn lemma_choices_mismatch_real(choices: Seq<Choice>)
    ensures
        choices_mismatch(choices) matches Some(found) ==> found.total != 100
            && choices_lead_to_total(choices, found.path, found.total),
    decreases choices, 1int, 0int,
{
    lemma_nested_mismatch_real(choices, 0);
}

proof fn lemma_nested_mismatch_real(choices: Seq<Choice>, from: int)
    requires
        0 <= from <= choices.len(),
    ensures
        nested_mismatch(choices, from) matches Some(found) ==> found.total != 100
            && found.path.len() > 0 && choices_lead_to_total(choices, found.path, found.total),
    decreases choices, 0int, choices.len() - from,
{
    if from < choices.len() {
        match choices[from].next {
            Some(levels) => {
                lemma_levels_mismatch_real(levels, 0);
            },
            None => {},
        }
        lemma_nested_mismatch_real(choices, from + 1);
    }
}

/// Validation accepts a tree exactly when the weights sum to 100 in every set
/// of alternatives of it.
pub proof fn lemma_accepted_iff_balanced(levels: Seq<Level>)
    ensures
        levels_mismatch(levels, 0) is None <==> balanced(levels),
{
    lemma_levels_mismatch_none(levels, 0);
}

/// The mismatch that validation reports is one of the tree: its path leads to
/// a set of alternatives whose weights sum to the total reported, and that
/// total is not 100.
pub proof fn lemma_reported_mismatch_is_real(levels: Seq<Level>)
    ensures
        levels_mismatch(levels, 0) matches Some(found) ==> found.total != 100 && leads_to_total(
            levels,
            found.path,
            found.total,
        ),
{
    lemma_levels_mismatch_real(levels, 0);
}

} // verus!
