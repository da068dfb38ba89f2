//! Classifying a whole validation set and counting the hits.

use vstd::prelude::*;
use crate::classifier::{classify, predicted_label};
use crate::error::ClassifyError;
use crate::example::{Example, ExampleView};

verus! {

/// The outcome of classifying every record of a validation set.
#[derive(Clone, Debug, PartialEq, Eq)]
pub struct Evaluation {
    /// The predicted label of each validation record, in order.
    pub predictions: Vec<i32>,
    /// How many predictions equal the record's own label.
    pub correct: usize,
    /// How many predictions differ from the record's own label.
    pub wrong: usize,
}

/// How many of the first `predictions.len()` validation records carry the
/// label that was predicted for them.
pub open spec fn count_correct(validation: Seq<ExampleView>, predictions: Seq<i32>) -> nat
    decreases predictions.len(),
{
    if predictions.len() == 0 {
        0
    } else {
        let earlier = count_correct(validation, predictions.drop_last());
        if validation[predictions.len() - 1].label == predictions.last() {
            earlier + 1
        } else {
            earlier
        }
    }
}

/// Classifies every record of `validation` against `training` and counts
/// how often the prediction equals the record's own label.
///
/// The records are taken in order, and the first one that cannot be
/// classified ends the evaluation with its error. An empty validation set
/// yields no predictions and two counts of zero.
pub fn evaluate(training: &Vec<Example>, validation: &Vec<Example>) -> (r: Result<
    Evaluation,
    ClassifyError,
>)
    ensures
        match r {
            Ok(outcome) => {
                &&& outcome.predictions.len() == validation.len()
                &&& forall|i: int|
                    0 <= i < validation.len() ==> predicted_label(
                        training.deep_view(),
                        (#[trigger] validation.deep_view()[i]).pixels,
                    ) == Ok::<i32, ClassifyError>(outcome.predictions[i])
                &&& outcome.correct == count_correct(validation.deep_view(), outcome.predictions@)
                &&& outcome.correct + outcome.wrong == validation.len()
            },
            Err(e) => exists|i: int|
                {
                    &&& 0 <= i < validation.len()
                    &&& predicted_label(
                        training.deep_view(),
                        (#[trigger] validation.deep_view()[i]).pixels,
                    ) == Err::<i32, ClassifyError>(e)
                    &&& forall|j: int|
                        0 <= j < i ==> predicted_label(
                            training.deep_view(),
                            (#[trigger] validation.deep_view()[j]).pixels,
                        ) is Ok
                },
        },
{
    let ghost records = validation.deep_view();
    let n: usize = validation.len();
    let mut predictions: Vec<i32> = Vec::new();
    let mut correct: usize = 0;
    let mut wrong: usize = 0;
    let mut i: usize = 0;
    while i < n
        invariant
            n == validation.len(),
            records == validation.deep_view(),
            i <= n,
            predictions.len() == i,
            forall|j: int|
                0 <= j < i ==> predicted_label(
                    training.deep_view(),
                    (#[trigger] records[j]).pixels,
                ) == Ok::<i32, ClassifyError>(predictions[j]),
            correct == count_correct(records, predictions@),
            correct + wrong == i,
        decreases n - i,
    {
        assert(records[i as int].pixels == validation[i as int].pixels@);
        assert(records[i as int].label == validation[i as int].label);
        let label: i32 = match classify(training, &validation[i].pixels) {
            Ok(label) => label,
            Err(e) => {
                return Err(e);
            },
        };
        let ghost before = predictions@;
        predictions.push(label);
        assert(predictions@.drop_last() =~= before);
        if label == validation[i].label {
            correct = correct + 1;
        } else {
            wrong = wrong + 1;
        }
        i = i + 1;
    }
    Ok(Evaluation { predictions, correct, wrong })
}

} // verus!
