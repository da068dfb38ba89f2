//! The data model: a labelled feature vector.

use vstd::prelude::*;

verus! {

/// A labelled feature vector: a class identifier and the intensities that
/// describe one record.
#[derive(Clone, Debug, PartialEq, Eq)]
pub struct Example {
    /// The class this record belongs to. Any value is a valid label.
    pub label: i32,
    /// The feature values, in order.
    pub pixels: Vec<i32>,
}

/// The mathematical value of an [`Example`].
pub ghost struct ExampleView {
    pub label: i32,
    pub pixels: Seq<i32>,
}

impl View for Example {
    type V = ExampleView;

    open spec fn view(&self) -> ExampleView {
        ExampleView { label: self.label, pixels: self.pixels@ }
    }
}

impl DeepView for Example {
    type V = ExampleView;

    open spec fn deep_view(&self) -> ExampleView {
        self@
    }
}

/// All examples of the set have the same number of feature values.
pub open spec fn is_uniform(examples: Seq<ExampleView>) -> bool {
    forall|i: int, j: int|
        0 <= i < examples.len() && 0 <= j < examples.len() ==> (#[trigger] examples[i]).pixels.len()
            == (#[trigger] examples[j]).pixels.len()
}

} // verus!
