//! The naive Bayes model: fitting it to a training set, scoring and
//! classifying records with it, and measuring its accuracy.
//!
//! For a training set of `total` records the model estimates
//!
//! * the prior of a class as `class count / total`, and
//! * the likelihood of a choice at an attribute, given a class, as
//!   `(occurrences + 1) / total`, where `occurrences` counts the training
//!   records of that class that show that choice at that attribute.
//!
//! The one added to every count keeps a combination that training never saw
//! from wiping out a whole product. The denominator is the size of the whole
//! training set, not of the class.

use vstd::prelude::*;
use crate::error::{agrees, Error};
use crate::natural::Natural;
use crate::records::{Choice, Class, Record, Row};

verus! {

/// A ratio of two counts.
pub struct Ratio {
    pub numerator: nat,
    pub denominator: nat,
}

/// How often each choice was seen at one attribute, among the training
/// records of one class.
pub struct TallyView {
    pub yes: nat,
    pub no: nat,
    pub unknown: nat,
}

impl TallyView {
    /// How often `choice` was seen.
    pub open spec fn of(self, choice: Choice) -> nat {
        match choice {
            Choice::Yes => self.yes,
            Choice::No => self.no,
            Choice::Unknown => self.unknown,
        }
    }

    /// This tally after one more sighting of `choice`.
    pub open spec fn with(self, choice: Choice) -> TallyView {
        match choice {
            Choice::Yes => TallyView { yes: self.yes + 1, ..self },
            Choice::No => TallyView { no: self.no + 1, ..self },
            Choice::Unknown => TallyView { unknown: self.unknown + 1, ..self },
        }
    }
}

/// An estimated probability, kept as the ratio of counts that it is.
#[derive(Debug, Clone, Copy, Hash, PartialEq, Eq, Structural)]
pub struct Probability {
    pub numerator: u128,
    pub denominator: u128,
}

impl View for Probability {
    type V = Ratio;

    open spec fn view(&self) -> Ratio {
        Ratio { numerator: self.numerator as nat, denominator: self.denominator as nat }
    }
}

/// The share of a test set that a model classified as labelled.
#[derive(Debug, Clone, Copy, Hash, PartialEq, Eq, Structural)]
pub struct Accuracy {
    /// Number of records classified as they are labelled.
    pub correct: usize,
    /// Number of records in the test set.
    pub total: usize,
}

impl View for Accuracy {
    type V = Ratio;

    open spec fn view(&self) -> Ratio {
        Ratio { numerator: self.correct as nat, denominator: self.total as nat }
    }
}

/// The records of class `class`.
pub open spec fn of_class(class: Class) -> spec_fn(Record) -> bool {
    |record: Record| record.class == class
}

/// The records of class `class` that show `choice` at `attribute`.
pub open spec fn showing(class: Class, attribute: int, choice: Choice) -> spec_fn(Record) -> bool {
    |record: Record| record.class == class && record.attributes[attribute] == choice
}

/// How many records of `training` are of class `class`.
pub open spec fn class_count(training: Seq<Record>, class: Class) -> nat {
    training.filter(of_class(class)).len()
}

/// How many records of `training` are of class `class` and show `choice` at
/// `attribute`.
pub open spec fn occurrences(
    training: Seq<Record>,
    class: Class,
    attribute: int,
    choice: Choice,
) -> nat {
    training.filter(showing(class, attribute, choice)).len()
}

/// The tally of `attribute` among the records of `training` of class `class`.
pub open spec fn tally(training: Seq<Record>, class: Class, attribute: int) -> TallyView {
    TallyView {
        yes: occurrences(training, class, attribute, Choice::Yes),
        no: occurrences(training, class, attribute, Choice::No),
        unknown: occurrences(training, class, attribute, Choice::Unknown),
    }
}

/// Whether every record has as many attributes as the first.
pub open spec fn uniform(records: Seq<Record>) -> bool {
    forall|i: int|
        0 <= i < records.len() ==> (#[trigger] records[i]).attributes.len()
            == records[0].attributes.len()
}

/// What a model has learnt: the counts behind its estimates.
pub struct ModelView {
    /// Size of the training set.
    pub total: nat,
    /// Number of Republican training records.
    pub republicans: nat,
    /// Number of Democrat training records.
    pub democrats: nat,
    /// Per attribute, the tally among the Republican training records.
    pub republican: Seq<TallyView>,
    /// Per attribute, the tally among the Democrat training records.
    pub democrat: Seq<TallyView>,
}

impl ModelView {
    /// Number of attributes of the records the model was fitted to.
    pub open spec fn attributes(self) -> nat {
        self.republican.len()
    }

    /// Number of training records of class `class`.
    pub open spec fn class_count(self, class: Class) -> nat {
        match class {
            Class::Republican => self.republicans,
            Class::Democrat => self.democrats,
        }
    }

    /// Number of training records of class `class` that showed `choice` at
    /// `attribute`.
    pub open spec fn occurrences(self, class: Class, attribute: int, choice: Choice) -> nat {
        match class {
            Class::Republican => self.republican[attribute].of(choice),
            Class::Democrat => self.democrat[attribute].of(choice),
        }
    }

    /// The estimated probability of class `class`.
    pub open spec fn class_prior(self, class: Class) -> Ratio {
        Ratio { numerator: self.class_count(class), denominator: self.total }
    }

    /// The estimated probability of seeing `choice` at `attribute` in a
    /// record of class `class`.
    pub open spec fn attr_likelihood(self, class: Class, attribute: int, choice: Choice) -> Ratio {
        Ratio {
            numerator: self.occurrences(class, attribute, choice) + 1,
            denominator: self.total,
        }
    }

    /// The product of the likelihood numerators of the first `count`
    /// attributes of a record, given `class`.
    pub open spec fn likelihood_product(
        self,
        class: Class,
        attributes: Seq<Choice>,
        count: nat,
    ) -> nat
        decreases count,
    {
        if count == 0 {
            1
        } else {
            self.likelihood_product(class, attributes, (count - 1) as nat) * self.attr_likelihood(
                class,
                count - 1,
                attributes[count - 1],
            ).numerator
        }
    }

    /// The weight of `class` for a record with the given attributes: the
    /// numerator of `prior * likelihood of each attribute`. The denominator
    /// of that product, `total` to the power `attributes + 1`, is the same
    /// for every class, and a logarithm grows with its argument: the class
    /// with the greater weight is the class with the greater sum of
    /// logarithms of these probabilities.
    pub open spec fn weight(self, class: Class, attributes: Seq<Choice>) -> nat {
        self.class_count(class) * self.likelihood_product(class, attributes, self.attributes())
    }

    /// The class that the model assigns to a record with the given
    /// attributes: the one of greater weight, and Republican, the first
    /// class, when the two weigh the same.
    pub open spec fn classify(self, attributes: Seq<Choice>) -> Class {
        if self.weight(Class::Republican, attributes) >= self.weight(Class::Democrat, attributes) {
            Class::Republican
        } else {
            Class::Democrat
        }
    }

    /// The weight of `class` for `record`, which must have as many
    /// attributes as the model.
    pub open spec fn score(self, record: Record, class: Class) -> Result<nat, Error> {
        if record.attributes.len() != self.attributes() {
            Err(Error::AttributeCountMismatch)
        } else {
            Ok(self.weight(class, record.attributes))
        }
    }

    /// The records that the model classifies as they are labelled.
    pub open spec fn classified_rightly(self) -> spec_fn(Record) -> bool {
        |record: Record| self.classify(record.attributes) == record.class
    }

    /// Whether every record of `records` has as many attributes as the model.
    pub open spec fn fits(self, records: Seq<Record>) -> bool {
        forall|i: int|
            0 <= i < records.len() ==> (#[trigger] records[i]).attributes.len()
                == self.attributes()
    }

    /// The accuracy of the model on `test`: the share of records that it
    /// classifies as they are labelled. There is none for an empty test
    /// set, nor for one with a record of another attribute count.
    pub open spec fn evaluate(self, test: Seq<Record>) -> Result<Ratio, Error> {
        if test.len() == 0 {
            Err(Error::EmptyTestSet)
        } else if !self.fits(test) {
            Err(Error::AttributeCountMismatch)
        } else {
            Ok(
                Ratio {
                    numerator: test.filter(self.classified_rightly()).len(),
                    denominator: test.len(),
                },
            )
        }
    }
}

/// The counts that fitting to `training` gives.
pub open spec fn fit(training: Seq<Record>) -> ModelView
    recommends
        training.len() > 0,
{
    let attributes = training[0].attributes.len();
    ModelView {
        total: training.len(),
        republicans: class_count(training, Class::Republican),
        democrats: class_count(training, Class::Democrat),
        republican: Seq::new(attributes, |i: int| tally(training, Class::Republican, i)),
        democrat: Seq::new(attributes, |i: int| tally(training, Class::Democrat, i)),
    }
}

/// The outcome of fitting to `training`: a training set must not be empty,
/// and its records must all have the same number of attributes.
pub open spec fn fitted(training: Seq<Record>) -> Result<ModelView, Error> {
    if training.len() == 0 {
        Err(Error::EmptyTrainingSet)
    } else if !uniform(training) {
        Err(Error::AttributeCountMismatch)
    } else {
        Ok(fit(training))
    }
}

/// One more record adds one to the count of its class.
pub proof fn lemma_class_count_push(training: Seq<Record>, record: Record, class: Class)
    ensures
        class_count(training.push(record), class) == class_count(training, class) + (if record.class
            == class {
            1nat
        } else {
            0nat
        }),
        class_count(training, class) <= training.len(),
{
    training.lemma_filter_len_push(of_class(class), record);
    training.lemma_filter_len(of_class(class));
}

/// One more record adds one sighting to each tally of its class.
pub proof fn lemma_tally_push(training: Seq<Record>, record: Record, class: Class, attribute: int)
    ensures
        tally(training.push(record), class, attribute) == (if record.class == class {
            tally(training, class, attribute).with(record.attributes[attribute])
        } else {
            tally(training, class, attribute)
        }),
        tally(training, class, attribute).yes <= training.len(),
        tally(training, class, attribute).no <= training.len(),
        tally(training, class, attribute).unknown <= training.len(),
{
    training.lemma_filter_len_push(showing(class, attribute, Choice::Yes), record);
    training.lemma_filter_len_push(showing(class, attribute, Choice::No), record);
    training.lemma_filter_len_push(showing(class, attribute, Choice::Unknown), record);
    training.lemma_filter_len(showing(class, attribute, Choice::Yes));
    training.lemma_filter_len(showing(class, attribute, Choice::No));
    training.lemma_filter_len(showing(class, attribute, Choice::Unknown));
}

/// Nothing has been counted in an empty training set.
pub proof fn lemma_counts_of_nothing(class: Class, attribute: int)
    ensures
        class_count(Seq::<Record>::empty(), class) == 0,
        tally(Seq::<Record>::empty(), class, attribute) == (TallyView { yes: 0, no: 0, unknown: 0 }),
{
    let nothing = Seq::<Record>::empty();
    nothing.lemma_filter_len(of_class(class));
    nothing.lemma_filter_len(showing(class, attribute, Choice::Yes));
    nothing.lemma_filter_len(showing(class, attribute, Choice::No));
    nothing.lemma_filter_len(showing(class, attribute, Choice::Unknown));
}

/// No estimated likelihood is zero, whether or not training ever saw the
/// combination of class, attribute and choice.
pub proof fn lemma_likelihood_positive(
    training: Seq<Record>,
    class: Class,
    attribute: int,
    choice: Choice,
)
    requires
        training.len() > 0,
    ensures
        fit(training).attr_likelihood(class, attribute, choice).numerator > 0,
        fit(training).attr_likelihood(class, attribute, choice).denominator > 0,
{
}

/// How often each choice was seen at one attribute.
#[derive(Debug, Clone, Copy)]
struct Tally {
    yes: usize,
    no: usize,
    unknown: usize,
}

impl View for Tally {
    type V = TallyView;

    closed spec fn view(&self) -> TallyView {
        TallyView { yes: self.yes as nat, no: self.no as nat, unknown: self.unknown as nat }
    }
}

impl Tally {
    fn of(&self, choice: Choice) -> (count: usize)
        ensures
            count == self@.of(choice),
    {
        match choice {
            Choice::Yes => self.yes,
            Choice::No => self.no,
            Choice::Unknown => self.unknown,
        }
    }

    fn with(&self, choice: Choice) -> (tally: Tally)
        requires
            self@.of(choice) < usize::MAX,
        ensures
            tally@ == self@.with(choice),
    {
        match choice {
            Choice::Yes => Tally { yes: self.yes + 1, no: self.no, unknown: self.unknown },
            Choice::No => Tally { yes: self.yes, no: self.no + 1, unknown: self.unknown },
            Choice::Unknown => Tally { yes: self.yes, no: self.no, unknown: self.unknown + 1 },
        }
    }
}

/// The views of a table of tallies.
spec fn tallies(table: Seq<Tally>) -> Seq<TallyView> {
    Seq::new(table.len(), |i: int| table[i]@)
}

/// A fitted naive Bayes model. It is built once, by [`Model::new`], and not
/// changed afterwards.
#[derive(Debug)]
pub struct Model {
    total: usize,
    republicans: usize,
    democrats: usize,
    republican: Vec<Tally>,
    democrat: Vec<Tally>,
}

impl View for Model {
    type V = ModelView;

    closed spec fn view(&self) -> ModelView {
        ModelView {
            total: self.total as nat,
            republicans: self.republicans as nat,
            democrats: self.democrats as nat,
            republican: tallies(self.republican@),
            democrat: tallies(self.democrat@),
        }
    }
}

/// A table of `attributes` tallies in which nothing has been counted yet.
fn blank_table(attributes: usize) -> (table: Vec<Tally>)
    ensures
        table.len() == attributes,
        forall|i: int|
            0 <= i < attributes ==> (#[trigger] table[i])@ == (TallyView {
                yes: 0,
                no: 0,
                unknown: 0,
            }),
{
    let mut table: Vec<Tally> = Vec::new();
    let mut i: usize = 0;
    while i < attributes
        invariant
            i <= attributes,
            table.len() == i,
            forall|j: int|
                0 <= j < i ==> (#[trigger] table[j])@ == (TallyView { yes: 0, no: 0, unknown: 0 }),
        decreases attributes - i,
    {
        table.push(Tally { yes: 0, no: 0, unknown: 0 });
        i += 1;
    }
    table
}

/// Counts the attributes of one more record of a class into the table of
/// that class.
fn count_attributes(table: &mut Vec<Tally>, attributes: &Vec<Choice>)
    requires
        old(table).len() == attributes.len(),
        forall|i: int, choice: Choice|
            0 <= i < old(table).len() ==> (#[trigger] old(table)[i]@.of(choice)) < usize::MAX,
    ensures
        final(table).len() == old(table).len(),
        forall|i: int|
            0 <= i < old(table).len() ==> (#[trigger] final(table)[i])@ == old(table)[i]@.with(
                attributes[i],
            ),
{
    let n = attributes.len();
    let mut i: usize = 0;
    while i < n
        invariant
            i <= n,
            n == attributes.len(),
            table.len() == n,
            old(table).len() == n,
            forall|j: int| 0 <= j < i ==> (#[trigger] table[j])@ == old(table)[j]@.with(attributes[j]),
            forall|j: int| i <= j < n ==> (#[trigger] table[j]) == old(table)[j],
            forall|j: int, choice: Choice|
                0 <= j < n ==> (#[trigger] old(table)[j]@.of(choice)) < usize::MAX,
        decreases n - i,
    {
        let choice = attributes[i];
        assert(old(table)[i as int]@.of(choice) < usize::MAX);
        let counted = table[i].with(choice);
        table.set(i, counted);
        i += 1;
    }
}

impl Model {
    #[verifier::type_invariant]
    spec fn well_formed(self) -> bool {
        &&& self.total > 0
        &&& self.republican.len() == self.democrat.len()
    }

    /// Fits a model to the training set `data`.
    ///
    /// The number of attributes is that of the first record. Fitting fails
    /// on an empty training set, and on one whose records differ in their
    /// number of attributes.
    pub fn new(data: &Vec<&Row>) -> (outcome: Result<Model, Error>)
        ensures
            agrees(outcome, fitted(data.deep_view())),
            outcome matches Ok(model) ==> forall|class: Class, attribute: int, choice: Choice|
                0 < (#[trigger] model@.attr_likelihood(class, attribute, choice)).numerator && 0
                    < model@.attr_likelihood(class, attribute, choice).denominator,
    {
        let ghost training = data.deep_view();
        let len = data.len();
        if len == 0 {
            return Err(Error::EmptyTrainingSet);
        }
        let n = data[0].attributes.len();
        assert(training[0] == data@[0]@);
        let mut k: usize = 0;
        while k < len
            invariant
                k <= len,
                len == data.len(),
                training == data.deep_view(),
                n == training[0].attributes.len(),
                forall|i: int| 0 <= i < k ==> (#[trigger] training[i]).attributes.len() == n,
            decreases len - k,
        {
            assert(training[k as int] == data@[k as int]@);
            if data[k].attributes.len() != n {
                return Err(Error::AttributeCountMismatch);
            }
            k += 1;
        }
        assert(uniform(training));

        let mut republican = blank_table(n);
        let mut democrat = blank_table(n);
        let mut republicans: usize = 0;
        let mut democrats: usize = 0;
        proof {
            assert(training.take(0) =~= Seq::<Record>::empty());
            lemma_counts_of_nothing(Class::Republican, 0);
            lemma_counts_of_nothing(Class::Democrat, 0);
            assert forall|i: int| 0 <= i < n implies (#[trigger] republican[i])@ == tally(
                training.take(0),
                Class::Republican,
                i,
            ) && (#[trigger] democrat[i])@ == tally(training.take(0), Class::Democrat, i) by {
                lemma_counts_of_nothing(Class::Republican, i);
                lemma_counts_of_nothing(Class::Democrat, i);
            }
        }
        let mut k: usize = 0;
        while k < len
            invariant
                k <= len,
                len == data.len(),
                training == data.deep_view(),
                uniform(training),
                n == training[0].attributes.len(),
                republican.len() == n,
                democrat.len() == n,
                republicans == class_count(training.take(k as int), Class::Republican),
                democrats == class_count(training.take(k as int), Class::Democrat),
                forall|i: int|
                    0 <= i < n ==> (#[trigger] republican[i])@ == tally(
                        training.take(k as int),
                        Class::Republican,
                        i,
                    ),
                forall|i: int|
                    0 <= i < n ==> (#[trigger] democrat[i])@ == tally(
                        training.take(k as int),
                        Class::Democrat,
                        i,
                    ),
            decreases len - k,
        {
            let row = data[k];
            let ghost seen = training.take(k as int);
            let ghost record = training[k as int];
            proof {
                assert(record == row@);
                assert(training.take(k + 1) =~= seen.push(record));
                lemma_class_count_push(seen, record, Class::Republican);
                lemma_class_count_push(seen, record, Class::Democrat);
                assert forall|i: int| 0 <= i < n implies tally(
                    training.take(k + 1),
                    Class::Republican,
                    i,
                ) == (if record.class == Class::Republican {
                    tally(seen, Class::Republican, i).with(record.attributes[i])
                } else {
                    tally(seen, Class::Republican, i)
                }) && tally(training.take(k + 1), Class::Democrat, i) == (if record.class
                    == Class::Democrat {
                    tally(seen, Class::Democrat, i).with(record.attributes[i])
                } else {
                    tally(seen, Class::Democrat, i)
                }) by {
                    lemma_tally_push(seen, record, Class::Republican, i);
                    lemma_tally_push(seen, record, Class::Democrat, i);
                }
                assert forall|i: int, choice: Choice| 0 <= i < n implies (#[trigger] republican[i]@.of(
                    choice,
                )) < usize::MAX && (#[trigger] democrat[i]@.of(choice)) < usize::MAX by {
                    lemma_tally_push(seen, record, Class::Republican, i);
                    lemma_tally_push(seen, record, Class::Democrat, i);
                    assert(republican[i]@ == tally(seen, Class::Republican, i));
                    assert(democrat[i]@ == tally(seen, Class::Democrat, i));
                }
                assert(row.attributes@ == record.attributes);
            }
            if row.class == Class::Republican {
                republicans += 1;
                count_attributes(&mut republican, &row.attributes);
            } else {
                democrats += 1;
                count_attributes(&mut democrat, &row.attributes);
            }
            k += 1;
        }
        proof {
            assert(training.take(len as int) =~= training);
            assert(tallies(republican@) =~= fit(training).republican);
            assert(tallies(democrat@) =~= fit(training).democrat);
        }
        Ok(Model { total: len, republicans, democrats, republican, democrat })
    }

    /// Number of attributes of the records that the model was fitted to.
    pub fn attributes(&self) -> (count: usize)
        ensures
            count == self@.attributes(),
    {
        self.republican.len()
    }

    /// Size of the training set that the model was fitted to.
    pub fn training_size(&self) -> (size: usize)
        ensures
            size == self@.total,
            size > 0,
    {
        proof {
            use_type_invariant(self);
        }
        self.total
    }

    /// The estimated probability of class `class`.
    pub fn class_prior(&self, class: Class) -> (prior: Probability)
        ensures
            prior@ == self@.class_prior(class),
    {
        let count = match class {
            Class::Republican => self.republicans,
            Class::Democrat => self.democrats,
        };
        Probability { numerator: count as u128, denominator: self.total as u128 }
    }

    /// The estimated probability of seeing `choice` at `attribute` in a
    /// record of class `class`; none for an attribute the model does not
    /// have.
    pub fn attr_likelihood(&self, class: Class, attribute: usize, choice: Choice) -> (likelihood:
        Option<Probability>)
        ensures
            match likelihood {
                Some(ratio) => attribute < self@.attributes() && ratio@ == self@.attr_likelihood(
                    class,
                    attribute as int,
                    choice,
                ) && ratio.numerator > 0 && ratio.denominator > 0,
                None => attribute >= self@.attributes(),
            },
    {
        proof {
            use_type_invariant(self);
        }
        if attribute >= self.republican.len() {
            return None;
        }
        let seen = match class {
            Class::Republican => self.republican[attribute].of(choice),
            Class::Democrat => self.democrat[attribute].of(choice),
        };
        Some(Probability { numerator: seen as u128 + 1, denominator: self.total as u128 })
    }

    /// The weight of `class` for `row`: the class count times, for each
    /// attribute, one more than the number of training records of the
    /// class that showed the choice of `row` there. Divided by the training
    /// size to the power `attributes + 1` it is the probability that the
    /// model gives to the class and the record together, and the logarithm
    /// of that probability is the sum of the logarithms of the prior and of
    /// the likelihoods.
    pub fn predict_class(&self, row: &Row, class: Class) -> (outcome: Result<Natural, Error>)
        ensures
            agrees(outcome, self@.score(row@, class)),
    {
        proof {
            use_type_invariant(self);
        }
        let n = self.republican.len();
        if row.attributes.len() != n {
            return Err(Error::AttributeCountMismatch);
        }
        let count = match class {
            Class::Republican => self.republicans,
            Class::Democrat => self.democrats,
        };
        let ghost prior = self@.class_count(class);
        let mut weight = Natural::from_u64(count as u64);
        assert(weight@ == prior * self@.likelihood_product(class, row@.attributes, 0))
            by (nonlinear_arith)
            requires
                weight@ == prior,
                self@.likelihood_product(class, row@.attributes, 0) == 1,
        ;
        let mut i: usize = 0;
        while i < n
            invariant
                i <= n,
                n == self.republican.len(),
                n == self.democrat.len(),
                n == row.attributes.len(),
                prior == self@.class_count(class),
                weight@ == prior * self@.likelihood_product(class, row@.attributes, i as nat),
            decreases n - i,
        {
            let choice = row.attributes[i];
            let seen = match class {
                Class::Republican => self.republican[i].of(choice),
                Class::Democrat => self.democrat[i].of(choice),
            };
            let ghost before = self@.likelihood_product(class, row@.attributes, i as nat);
            let ghost after = self@.likelihood_product(class, row@.attributes, (i + 1) as nat);
            proof {
                assert(seen == self@.occurrences(class, i as int, choice));
                assert(after == before * (seen + 1));
                assert(prior * before * seen + prior * before == prior * after)
                    by (nonlinear_arith)
                    requires
                        after == before * (seen + 1),
                ;
            }
            weight = weight.times(seen as u64).plus(&weight);
            i += 1;
        }
        Ok(weight)
    }

    /// The class that the model assigns to `row`: the one of greater
    /// weight, and Republican when both weigh the same.
    pub fn predict(&self, row: &Row) -> (outcome: Result<Class, Error>)
        ensures
            match outcome {
                Ok(class) => row@.attributes.len() == self@.attributes() && class
                    == self@.classify(row@.attributes),
                Err(error) => error == Error::AttributeCountMismatch && row@.attributes.len()
                    != self@.attributes(),
            },
    {
        let republican = match self.predict_class(row, Class::Republican) {
            Ok(weight) => weight,
            Err(error) => {
                return Err(error);
            },
        };
        let democrat = match self.predict_class(row, Class::Democrat) {
            Ok(weight) => weight,
            Err(error) => {
                return Err(error);
            },
        };
        if republican.at_least(&democrat) {
            Ok(Class::Republican)
        } else {
            Ok(Class::Democrat)
        }
    }

    /// The accuracy of the model on `testing_set`: how many of its records
    /// the model classifies as they are labelled, out of how many.
    ///
    /// There is no accuracy on an empty test set, nor on one that holds a
    /// record with another number of attributes than the model has.
    pub fn get_accuracy(&self, testing_set: &Vec<Row>) -> (outcome: Result<Accuracy, Error>)
        ensures
            agrees(outcome, self@.evaluate(testing_set.deep_view())),
            outcome matches Ok(accuracy) ==> 0 < accuracy.total && accuracy.correct
                <= accuracy.total,
    {
        let ghost test = testing_set.deep_view();
        let len = testing_set.len();
        if len == 0 {
            return Err(Error::EmptyTestSet);
        }
        let mut correct: usize = 0;
        let mut k: usize = 0;
        proof {
            assert(test.take(0) =~= Seq::<Record>::empty());
            test.take(0).lemma_filter_len(self@.classified_rightly());
        }
        while k < len
            invariant
                k <= len,
                len == testing_set.len(),
                test == testing_set.deep_view(),
                correct <= k,
                correct == test.take(k as int).filter(self@.classified_rightly()).len(),
                forall|i: int|
                    0 <= i < k ==> (#[trigger] test[i]).attributes.len() == self@.attributes(),
            decreases len - k,
        {
            let row = &testing_set[k];
            proof {
                assert(test[k as int] == row@);
                assert(test.take(k + 1) =~= test.take(k as int).push(test[k as int]));
                test.take(k as int).lemma_filter_len_push(self@.classified_rightly(), test[k as int]);
            }
            match self.predict(row) {
                Ok(class) => {
                    if class == row.class {
                        correct += 1;
                    }
                },
                Err(error) => {
                    return Err(error);
                },
            }
            k += 1;
        }
        proof {
            assert(test.take(len as int) =~= test);
        }
        Ok(Accuracy { correct, total: len })
    }
}

} // verus!
