//! The data model: attribute values, class labels and labelled records.

use vstd::prelude::*;

verus! {

/// Number of attributes of a record in the congressional voting data set.
pub const ATTRIBUTES_COUNT: usize = 16;

/// Number of folds a cross-validation run uses by default.
pub const CROSSVALIDATION_SPLITS: usize = 10;

/// Number of values an attribute can take.
pub const CHOICES_COUNT: usize = 3;

/// Number of class labels.
pub const CLASSES_COUNT: usize = 2;

/// The value of one categorical attribute. `Unknown` is a category of its
/// own, not a gap to be filled in.
#[derive(Debug, Clone, Copy, Hash, PartialEq, Eq, Structural)]
pub enum Choice {
    Yes,
    No,
    Unknown,
}

/// The label of a record.
#[derive(Debug, Clone, Copy, Hash, PartialEq, Eq, Structural)]
pub enum Class {
    Republican,
    Democrat,
}

/// One labelled observation.
#[derive(Debug, PartialEq, Eq)]
pub struct Row {
    pub class: Class,
    pub attributes: Vec<Choice>,
}

/// What a [`Row`] says, without regard to where its attributes are stored.
pub struct Record {
    pub class: Class,
    pub attributes: Seq<Choice>,
}

impl View for Row {
    type V = Record;

    open spec fn view(&self) -> Record {
        Record { class: self.class, attributes: self.attributes@ }
    }
}

impl DeepView for Row {
    type V = Record;

    open spec fn deep_view(&self) -> Record {
        self.view()
    }
}

impl Row {
    /// A record of the given class with the given attribute values.
    pub fn new(class: Class, attributes: Vec<Choice>) -> (row: Row)
        ensures
            row@ == (Record { class, attributes: attributes@ }),
    {
        Row { class, attributes }
    }
}

impl Clone for Row {
    fn clone(&self) -> (row: Row)
        ensures
            row@ == self@,
    {
        let mut attributes: Vec<Choice> = Vec::new();
        let mut i: usize = 0;
        while i < self.attributes.len()
            invariant
                i <= self.attributes.len(),
                attributes@ == self.attributes@.take(i as int),
            decreases self.attributes.len() - i,
        {
            attributes.push(self.attributes[i]);
            i += 1;
        }
        assert(attributes@ =~= self.attributes@);
        Row { class: self.class, attributes }
    }
}

} // verus!
