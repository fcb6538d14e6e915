//! The ways in which an input can be unfit for classification.

use vstd::prelude::*;

verus! {

/// Why a data set, a fold assignment or a line of input was turned down.
/// None of these leaves a partial result behind.
#[derive(Debug, Clone, Copy, Hash, PartialEq, Eq, Structural)]
pub enum Error {
    /// There are no records to split into folds.
    EmptyDataset,
    /// The number of folds asked for is zero.
    NoFolds,
    /// There are more folds than records, so some fold would stay empty.
    TooFewRecords,
    /// A model cannot be fitted to an empty training set.
    EmptyTrainingSet,
    /// An accuracy cannot be measured on an empty test set.
    EmptyTestSet,
    /// A record does not have as many attributes as the others.
    AttributeCountMismatch,
    /// A line names a class that is neither `republican` nor `democrat`.
    UnknownClass,
    /// A line has fewer attribute fields than a record needs.
    MissingAttributes,
}

impl Error {
    /// What the error says, in words.
    pub open spec fn description(self) -> Seq<char> {
        match self {
            Error::EmptyDataset => "the data set holds no records"@,
            Error::NoFolds => "the number of folds is zero"@,
            Error::TooFewRecords => "the data set holds fewer records than there are folds"@,
            Error::EmptyTrainingSet => "the training set is empty"@,
            Error::EmptyTestSet => "the test set is empty"@,
            Error::AttributeCountMismatch => "a record differs from the others in its number of attributes"@,
            Error::UnknownClass => "a line names a class that is not known"@,
            Error::MissingAttributes => "a line holds too few attribute fields"@,
        }
    }

    /// What the error says, in words.
    pub fn message(&self) -> (text: String)
        ensures
            text@ == self.description(),
    {
        match self {
            Error::EmptyDataset => "the data set holds no records".to_owned(),
            Error::NoFolds => "the number of folds is zero".to_owned(),
            Error::TooFewRecords => "the data set holds fewer records than there are folds".to_owned(),
            Error::EmptyTrainingSet => "the training set is empty".to_owned(),
            Error::EmptyTestSet => "the test set is empty".to_owned(),
            Error::AttributeCountMismatch => "a record differs from the others in its number of attributes".to_owned(),
            Error::UnknownClass => "a line names a class that is not known".to_owned(),
            Error::MissingAttributes => "a line holds too few attribute fields".to_owned(),
        }
    }
}

/// Whether an outcome `got` is the outcome `expected`, seen through its view.
pub open spec fn agrees<T: View>(got: Result<T, Error>, expected: Result<T::V, Error>) -> bool {
    match got {
        Ok(value) => expected == Ok::<T::V, Error>(value@),
        Err(error) => expected == Err::<T::V, Error>(error),
    }
}

} // verus!
