//! Categorical naive Bayes classification of labelled voting records, judged
//! by k-fold cross-validation.
//!
//! Every probability the classifier works with is a ratio of two counts, so
//! the library keeps the counts and never rounds: a prior is
//! `class count / training size`, a smoothed likelihood is
//! `(occurrences + 1) / training size`, an accuracy is `correct / total`.
//! Callers that want floating-point numbers divide at the very end.

pub mod error;
pub mod loader;
pub mod model;
pub mod natural;
pub mod partition;
pub mod records;
pub mod validation;

pub use error::Error;
pub use loader::{choice_str_to_enum, parse_row, parse_rows};
pub use model::{Accuracy, Model, Probability};
pub use natural::Natural;
pub use partition::{partition, split_for_crossvalidation};
pub use records::{
    Choice, Class, Record, Row, ATTRIBUTES_COUNT, CHOICES_COUNT, CLASSES_COUNT,
    CROSSVALIDATION_SPLITS,
};
pub use validation::{cross_validate, mean_accuracy, validate_folds, Mean, Report};
