//! Wording for people of what tells two scores apart, for the criteria that carry whole numbers.
use vstd::prelude::*;
use vstd::string::StringExecFns;
use crate::compare::ScoreDifference;
use crate::features::NodeFeature;
use crate::score::MAX_COEFFICIENT;
use crate::text::{dec, push_decimal, push_str};

verus! {

/// A count that moves from `from` to `to`, worded as getting better or worse.
pub open spec fn change_words(better: bool, what: Seq<char>, up: Seq<char>, down: Seq<char>, better_goes_down: bool, from: nat, to: nat) -> Seq<char> {
    (if better {
        "(gets better) "@
    } else {
        "(gets worse) "@
    }) + what + (if better == better_goes_down {
        down
    } else {
        up
    }) + " from "@ + dec(from) + " to "@ + dec(to)
}

/// The words for difference `d` between a score (`self`) and the one it is compared with
/// (`other`): for a count, whether it gets better or worse and from what to what; for a
/// coefficient, its two values with two decimals; for the averages and for equal scores, the
/// criterion alone.
pub open spec fn difference_words(d: ScoreDifference) -> Seq<char> {
    match d {
        ScoreDifference::ControlledNodes { feature, self_nodes, other_nodes } => change_words(
            other_nodes > self_nodes,
            "the number of nodes controlled by dominant "@ + (if feature == NodeFeature::NodeProvider {
                "NPs"@
            } else {
                "Country actors"@
            }),
            " increases"@,
            " decreases"@,
            true,
            other_nodes as nat,
            self_nodes as nat,
        ),
        ScoreDifference::UniqueActors { feature, self_actors, other_actors } => change_words(
            other_actors < self_actors,
            "the number of different "@ + (if feature == NodeFeature::NodeProvider {
                "NP"@
            } else {
                "Country"@
            }) + " actors"@,
            " increases"@,
            " decreases"@,
            false,
            other_actors as nat,
            self_actors as nat,
        ),
        ScoreDifference::LowCoefficients { self_count, other_count } => change_words(
            other_count < self_count,
            "the number of Nakamoto coefficients with extremely low values"@,
            " increases"@,
            " decreases"@,
            true,
            other_count as nat,
            self_count as nat,
        ),
        ScoreDifference::FeatureCoefficient { feature, self_coefficient, other_coefficient } => "the Nakamoto coefficient value for feature "@
            + feature.spec_name() + " changes from "@ + dec(other_coefficient as nat) + ".00 to "@ + dec(
            self_coefficient as nat,
        ) + ".00"@,
        ScoreDifference::Equal => "equal decentralization across all features"@,
        ScoreDifference::AverageLog2 => "the average log2 of Nakamoto Coefficients across all features changes"@,
        ScoreDifference::LinearAverage => "the linear average of Nakamoto coefficients across all features changes"@,
    }
}

fn push_change(s: &mut String, better: bool, up: &str, down: &str, better_goes_down: bool, from: usize, to: usize)
    ensures
        final(s)@ == old(s)@ + (if better == better_goes_down {
            down@
        } else {
            up@
        }) + " from "@ + dec(from as nat) + " to "@ + dec(to as nat),
{
    if better == better_goes_down {
        push_str(s, down);
    } else {
        push_str(s, up);
    }
    push_str(s, " from ");
    push_decimal(s, from);
    push_str(s, " to ");
    push_decimal(s, to);
}

fn push_verdict(s: &mut String, better: bool)
    ensures
        final(s)@ == old(s)@ + (if better {
            "(gets better) "@
        } else {
            "(gets worse) "@
        }),
{
    if better {
        push_str(s, "(gets better) ");
    } else {
        push_str(s, "(gets worse) ");
    }
}

/// The words for difference `d` (see [`difference_words`]). The coefficients of a feature are
/// at most [`MAX_COEFFICIENT`], as those of a bounded score are.
pub fn describe_integers(d: &ScoreDifference) -> (r: String)
    requires
        d matches ScoreDifference::FeatureCoefficient { self_coefficient, other_coefficient, .. } ==> self_coefficient
            <= MAX_COEFFICIENT && other_coefficient <= MAX_COEFFICIENT,
    ensures
        r@ == difference_words(*d),
{
    let mut s = String::new();
    match d {
        ScoreDifference::ControlledNodes { feature, self_nodes, other_nodes } => {
            let better = *other_nodes > *self_nodes;
            push_verdict(&mut s, better);
            push_str(&mut s, "the number of nodes controlled by dominant ");
            if matches!(feature, NodeFeature::NodeProvider) {
                push_str(&mut s, "NPs");
            } else {
                push_str(&mut s, "Country actors");
            }
            push_change(&mut s, better, " increases", " decreases", true, *other_nodes, *self_nodes);
        },
        ScoreDifference::UniqueActors { feature, self_actors, other_actors } => {
            let better = *other_actors < *self_actors;
            push_verdict(&mut s, better);
            push_str(&mut s, "the number of different ");
            if matches!(feature, NodeFeature::NodeProvider) {
                push_str(&mut s, "NP");
            } else {
                push_str(&mut s, "Country");
            }
            push_str(&mut s, " actors");
            push_change(&mut s, better, " increases", " decreases", false, *other_actors, *self_actors);
        },
        ScoreDifference::LowCoefficients { self_count, other_count } => {
            let better = *other_count < *self_count;
            push_verdict(&mut s, better);
            push_str(&mut s, "the number of Nakamoto coefficients with extremely low values");
            push_change(&mut s, better, " increases", " decreases", true, *other_count, *self_count);
        },
        ScoreDifference::FeatureCoefficient { feature, self_coefficient, other_coefficient } => {
            push_str(&mut s, "the Nakamoto coefficient value for feature ");
            let name = feature.name();
            push_str(&mut s, name.as_str());
            push_str(&mut s, " changes from ");
            push_decimal(&mut s, *other_coefficient);
            push_str(&mut s, ".00 to ");
            push_decimal(&mut s, *self_coefficient);
            push_str(&mut s, ".00");
        },
        ScoreDifference::Equal => {
            push_str(&mut s, "equal decentralization across all features");
        },
        ScoreDifference::AverageLog2 => {
            push_str(&mut s, "the average log2 of Nakamoto Coefficients across all features changes");
        },
        ScoreDifference::LinearAverage => {
            push_str(&mut s, "the linear average of Nakamoto coefficients across all features changes");
        },
    }
    assert(s@ =~= difference_words(*d));
    s
}

} // verus!
