//! The nearest-neighbour search and its tie-breaking rule.

use vstd::prelude::*;
use crate::distance::{spec_squared_distance, squared_distance};
use crate::error::ClassifyError;
use crate::distance::{lemma_squared_distance_nonnegative, lemma_squared_distance_zero_iff_equal};
use crate::example::{Example, ExampleView};

verus! {

/// The squared distance from the query `unknown` to the reference example at
/// position `i`.
pub open spec fn distance_to(examples: Seq<ExampleView>, unknown: Seq<i32>, i: int) -> int {
    spec_squared_distance(unknown, examples[i].pixels)
}

/// Why a query cannot be classified against a reference set, if it cannot:
/// the set is empty, or one of its examples differs in length from the query.
pub open spec fn rejection(examples: Seq<ExampleView>, unknown: Seq<i32>) -> Option<
    ClassifyError,
> {
    if examples.len() == 0 {
        Some(ClassifyError::EmptyReferenceSet)
    } else if exists|i: int| 0 <= i < examples.len() && (#[trigger] examples[i]).pixels.len()
        != unknown.len() {
        Some(ClassifyError::DimensionMismatch)
    } else {
        None
    }
}

/// Position `k` holds the nearest neighbour of `unknown`: no example is
/// closer, and every example before it is strictly farther away. Among
/// several examples at the least distance, this is the first.
pub open spec fn is_first_nearest(examples: Seq<ExampleView>, unknown: Seq<i32>, k: int) -> bool {
    &&& 0 <= k < examples.len()
    &&& forall|j: int|
        0 <= j < examples.len() ==> distance_to(examples, unknown, k) <= #[trigger] distance_to(
            examples,
            unknown,
            j,
        )
    &&& forall|j: int|
        0 <= j < k ==> distance_to(examples, unknown, k) < #[trigger] distance_to(
            examples,
            unknown,
            j,
        )
}

/// The position of the nearest neighbour of `unknown` in a non-empty
/// reference set.
pub open spec fn nearest_index(examples: Seq<ExampleView>, unknown: Seq<i32>) -> int {
    choose|k: int| is_first_nearest(examples, unknown, k)
}

/// What classification of `unknown` against `examples` yields: the label of
/// the nearest neighbour, or the reason why there is none.
pub open spec fn predicted_label(examples: Seq<ExampleView>, unknown: Seq<i32>) -> Result<
    i32,
    ClassifyError,
> {
    match rejection(examples, unknown) {
        Some(e) => Err(e),
        None => Ok(examples[nearest_index(examples, unknown)].label),
    }
}

/// At most one position is the nearest neighbour, so the search has one
/// answer only.
pub proof fn lemma_first_nearest_unique(
    examples: Seq<ExampleView>,
    unknown: Seq<i32>,
    k: int,
    m: int,
)
    requires
        is_first_nearest(examples, unknown, k),
        is_first_nearest(examples, unknown, m),
    ensures
        k == m,
{
    if k < m {
        assert(distance_to(examples, unknown, m) < distance_to(examples, unknown, k));
        assert(distance_to(examples, unknown, k) <= distance_to(examples, unknown, m));
    } else if m < k {
        assert(distance_to(examples, unknown, k) < distance_to(examples, unknown, m));
        assert(distance_to(examples, unknown, m) <= distance_to(examples, unknown, k));
    }
}

/// Every non-empty reference set has a nearest neighbour for every query.
pub proof fn lemma_first_nearest_exists(examples: Seq<ExampleView>, unknown: Seq<i32>)
    requires
        examples.len() > 0,
    ensures
        is_first_nearest(examples, unknown, nearest_index(examples, unknown)),
    decreases examples.len(),
{
    let last: int = examples.len() - 1;
    if examples.len() == 1 {
        assert(is_first_nearest(examples, unknown, 0));
    } else {
        let front = examples.drop_last();
        lemma_first_nearest_exists(front, unknown);
        let k: int = nearest_index(front, unknown);
        assert forall|j: int| 0 <= j < front.len() implies distance_to(front, unknown, j)
            == distance_to(examples, unknown, j) by {
            assert(front[j] == examples[j]);
        }
        if distance_to(examples, unknown, last) < distance_to(examples, unknown, k) {
            assert forall|j: int| 0 <= j < examples.len() implies distance_to(
                examples,
                unknown,
                last,
            ) <= #[trigger] distance_to(examples, unknown, j) by {
                if j < last {
                    assert(distance_to(front, unknown, k) <= distance_to(front, unknown, j));
                }
            }
            assert forall|j: int| 0 <= j < last implies distance_to(examples, unknown, last)
                < #[trigger] distance_to(examples, unknown, j) by {
                assert(distance_to(front, unknown, k) <= distance_to(front, unknown, j));
            }
            assert(is_first_nearest(examples, unknown, last));
        } else {
            assert forall|j: int| 0 <= j < examples.len() implies distance_to(
                examples,
                unknown,
                k,
            ) <= #[trigger] distance_to(examples, unknown, j) by {
                if j < last {
                    assert(distance_to(front, unknown, k) <= distance_to(front, unknown, j));
                }
            }
            assert forall|j: int| 0 <= j < k implies distance_to(examples, unknown, k)
                < #[trigger] distance_to(examples, unknown, j) by {
                assert(distance_to(front, unknown, k) < distance_to(front, unknown, j));
            }
            assert(is_first_nearest(examples, unknown, k));
        }
    }
}

/// A query is classified whenever the reference set is not empty and all its
/// examples have the length of the query; the prediction is then the label
/// of the nearest neighbour.
pub proof fn lemma_classification_succeeds(examples: Seq<ExampleView>, unknown: Seq<i32>)
    requires
        examples.len() > 0,
        forall|i: int| 0 <= i < examples.len() ==> (#[trigger] examples[i]).pixels.len()
            == unknown.len(),
    ensures
        rejection(examples, unknown) is None,
        is_first_nearest(examples, unknown, nearest_index(examples, unknown)),
        predicted_label(examples, unknown) == Ok::<i32, ClassifyError>(
            examples[nearest_index(examples, unknown)].label,
        ),
{
    lemma_first_nearest_exists(examples, unknown);
}

/// A reference example identical to the query decides the prediction: the
/// query gets that example's label, provided that no earlier example
/// identical to the query carries another label.
pub proof fn lemma_identical_example_wins(examples: Seq<ExampleView>, unknown: Seq<i32>, i: int)
    requires
        rejection(examples, unknown) is None,
        0 <= i < examples.len(),
        examples[i].pixels == unknown,
        forall|j: int|
            0 <= j < i && (#[trigger] examples[j]).pixels == unknown ==> examples[j].label
                == examples[i].label,
    ensures
        predicted_label(examples, unknown) == Ok::<i32, ClassifyError>(examples[i].label),
{
    lemma_first_nearest_exists(examples, unknown);
    let k: int = nearest_index(examples, unknown);
    lemma_squared_distance_zero_iff_equal(unknown, examples[i].pixels);
    assert(distance_to(examples, unknown, i) == 0);
    assert(distance_to(examples, unknown, k) <= distance_to(examples, unknown, i));
    lemma_squared_distance_nonnegative(unknown, examples[k].pixels);
    assert(examples[k].pixels.len() == unknown.len());
    lemma_squared_distance_zero_iff_equal(unknown, examples[k].pixels);
    if i < k {
        assert(distance_to(examples, unknown, k) < distance_to(examples, unknown, i));
    }
}

/// Of two reference examples at the same, least distance from the query, the
/// earlier one decides the prediction, provided that no example before it at
/// that distance carries another label.
pub proof fn lemma_tie_goes_to_earlier(
    examples: Seq<ExampleView>,
    unknown: Seq<i32>,
    i: int,
    j: int,
)
    requires
        rejection(examples, unknown) is None,
        0 <= i < j < examples.len(),
        distance_to(examples, unknown, i) == distance_to(examples, unknown, j),
        forall|m: int|
            0 <= m < examples.len() ==> distance_to(examples, unknown, i) <= #[trigger] distance_to(
                examples,
                unknown,
                m,
            ),
        forall|m: int|
            0 <= m < i && #[trigger] distance_to(examples, unknown, m) == distance_to(
                examples,
                unknown,
                i,
            ) ==> examples[m].label == examples[i].label,
    ensures
        nearest_index(examples, unknown) <= i,
        nearest_index(examples, unknown) != j,
        predicted_label(examples, unknown) == Ok::<i32, ClassifyError>(examples[i].label),
{
    lemma_first_nearest_exists(examples, unknown);
    let k: int = nearest_index(examples, unknown);
    assert(distance_to(examples, unknown, k) <= distance_to(examples, unknown, i));
    assert(distance_to(examples, unknown, i) <= distance_to(examples, unknown, k));
    if i < k {
        assert(distance_to(examples, unknown, k) < distance_to(examples, unknown, i));
    }
}

/// Against a reference set of one example, every query of that example's
/// length gets that example's label.
pub proof fn lemma_single_example_decides(examples: Seq<ExampleView>, unknown: Seq<i32>)
    requires
        examples.len() == 1,
        examples[0].pixels.len() == unknown.len(),
    ensures
        predicted_label(examples, unknown) == Ok::<i32, ClassifyError>(examples[0].label),
{
    lemma_first_nearest_exists(examples, unknown);
}

/// An empty reference set is always rejected, and so is a reference set
/// with an example whose length is not that of the query.
pub proof fn lemma_rejections(examples: Seq<ExampleView>, unknown: Seq<i32>, i: int)
    ensures
        examples.len() == 0 ==> predicted_label(examples, unknown) == Err::<i32, ClassifyError>(
            ClassifyError::EmptyReferenceSet,
        ),
        0 <= i < examples.len() && examples[i].pixels.len() != unknown.len() ==> predicted_label(
            examples,
            unknown,
        ) == Err::<i32, ClassifyError>(ClassifyError::DimensionMismatch),
{
}

/// Finds the position of the nearest neighbour of `unknown` among `examples`.
///
/// The examples are scanned in order and a later one replaces the best so
/// far only when it is strictly closer, so the first of several equally
/// close examples is the one found.
pub fn nearest(examples: &Vec<Example>, unknown: &Vec<i32>) -> (r: Result<usize, ClassifyError>)
    ensures
        match r {
            Ok(k) => rejection(examples.deep_view(), unknown@) is None && k == nearest_index(
                examples.deep_view(),
                unknown@,
            ) && is_first_nearest(examples.deep_view(), unknown@, k as int),
            Err(e) => rejection(examples.deep_view(), unknown@) == Some(e),
        },
{
    let ghost model = examples.deep_view();
    let n: usize = examples.len();
    if n == 0 {
        return Err(ClassifyError::EmptyReferenceSet);
    }
    let mut best: usize = 0;
    let mut best_distance: u128 = 0;
    let mut i: usize = 0;
    while i < n
        invariant
            n == examples.len(),
            n > 0,
            model == examples.deep_view(),
            i <= n,
            forall|j: int| 0 <= j < i ==> (#[trigger] model[j]).pixels.len() == unknown@.len(),
            i > 0 ==> is_first_nearest(model.take(i as int), unknown@, best as int),
            i > 0 ==> best_distance == distance_to(model, unknown@, best as int),
        decreases n - i,
    {
        assert(model[i as int].pixels == examples[i as int].pixels@);
        let d: u128 = match squared_distance(unknown, &examples[i].pixels) {
            Ok(d) => d,
            Err(e) => {
                return Err(e);
            },
        };
        proof {
            let before = model.take(i as int);
            let after = model.take(i + 1);
            assert forall|j: int| 0 <= j < i implies distance_to(before, unknown@, j)
                == distance_to(model, unknown@, j) && distance_to(after, unknown@, j)
                == distance_to(model, unknown@, j) by {
                assert(before[j] == model[j]);
                assert(after[j] == model[j]);
            }
            assert(after[i as int] == model[i as int]);
            assert(distance_to(after, unknown@, i as int) == d);
            if i > 0 {
                assert forall|j: int| 0 <= j < i implies distance_to(before, unknown@, best as int)
                    <= distance_to(after, unknown@, j) by {
                    assert(distance_to(before, unknown@, best as int) <= distance_to(
                        before,
                        unknown@,
                        j,
                    ));
                }
                assert forall|j: int| 0 <= j < best implies distance_to(
                    before,
                    unknown@,
                    best as int,
                ) < distance_to(after, unknown@, j) by {
                    assert(distance_to(before, unknown@, best as int) < distance_to(
                        before,
                        unknown@,
                        j,
                    ));
                }
            }
        }
        if i == 0 || d < best_distance {
            best = i;
            best_distance = d;
        }
        i = i + 1;
        assert(is_first_nearest(model.take(i as int), unknown@, best as int));
    }
    proof {
        assert(model.take(n as int) =~= model);
        lemma_first_nearest_exists(model, unknown@);
        lemma_first_nearest_unique(model, unknown@, best as int, nearest_index(model, unknown@));
    }
    Ok(best)
}

/// Predicts the label of `unknown`: the label of its nearest neighbour among
/// `examples`.
///
/// An empty reference set and a reference example whose length differs from
/// that of the query are rejected; on every other input a label is returned.
pub fn classify(examples: &Vec<Example>, unknown: &Vec<i32>) -> (r: Result<i32, ClassifyError>)
    ensures
        r == predicted_label(examples.deep_view(), unknown@),
{
    match nearest(examples, unknown) {
        Ok(k) => {
            assert(examples.deep_view()[k as int].label == examples[k as int].label);
            Ok(examples[k].label)
        },
        Err(e) => Err(e),
    }
}

} // verus!
