use naive_bayes::{Accuracy, Choice, Class, Error, Model, Probability, Row};

const Y: Choice = Choice::Yes;
const N: Choice = Choice::No;
const U: Choice = Choice::Unknown;

fn row(class: Class, attributes: &[Choice]) -> Row {
    Row::new(class, attributes.to_vec())
}

fn value(probability: Probability) -> f64 {
    probability.numerator as f64 / probability.denominator as f64
}

/// A sequence of numbers that looks random and is the same on every run.
fn next(state: &mut u64) -> u64 {
    *state = state.wrapping_mul(6364136223846793005).wrapping_add(1442695040888963407);
    *state >> 33
}

fn made_up_rows(count: usize, attributes: usize, state: &mut u64) -> Vec<Row> {
    let mut rows = Vec::new();
    for _ in 0..count {
        let class = if next(state) % 3 == 0 { Class::Republican } else { Class::Democrat };
        let mut choices = Vec::new();
        for position in 0..attributes {
            let lean = if class == Class::Republican { position % 2 } else { (position + 1) % 2 };
            let draw = next(state) % 10;
            choices.push(if draw == 0 {
                U
            } else if (draw as usize + lean) % 3 == 0 {
                N
            } else {
                Y
            });
        }
        rows.push(Row::new(class, choices));
    }
    rows
}

/// The sum of the base-10 logarithms of the prior and of the likelihoods.
fn log_score(model: &Model, row: &Row, class: Class) -> f64 {
    let mut score = value(model.class_prior(class)).log10();
    for (attribute, choice) in row.attributes.iter().enumerate() {
        score += value(model.attr_likelihood(class, attribute, *choice).unwrap()).log10();
    }
    score
}

#[test]
fn two_record_training_set_gives_the_stated_estimates() {
    let republican = row(Class::Republican, &[Y, N]);
    let democrat = row(Class::Democrat, &[N, Y]);
    let model = Model::new(&vec![&republican, &democrat]).unwrap();
    assert_eq!(model.attributes(), 2);
    assert_eq!(model.training_size(), 2);

    assert_eq!(value(model.class_prior(Class::Republican)), 0.5);
    assert_eq!(value(model.class_prior(Class::Democrat)), 0.5);
    assert_eq!(value(model.attr_likelihood(Class::Republican, 0, Y).unwrap()), 1.0);
    assert_eq!(value(model.attr_likelihood(Class::Republican, 0, N).unwrap()), 0.5);
    assert_eq!(value(model.attr_likelihood(Class::Republican, 0, U).unwrap()), 0.5);

    let test = row(Class::Republican, &[Y, N]);
    assert_eq!(model.predict(&test), Ok(Class::Republican));
    assert_eq!(model.predict_class(&test, Class::Republican).unwrap().to_u128(), Some(4));
    assert_eq!(model.predict_class(&test, Class::Democrat).unwrap().to_u128(), Some(1));
    assert!(log_score(&model, &test, Class::Republican) > log_score(&model, &test, Class::Democrat));
}

#[test]
fn estimates_are_counts_over_the_size_of_the_whole_training_set() {
    let rows = [
        row(Class::Republican, &[Y, U]),
        row(Class::Republican, &[Y, N]),
        row(Class::Republican, &[N, N]),
        row(Class::Democrat, &[N, N]),
        row(Class::Democrat, &[U, Y]),
    ];
    let model = Model::new(&rows.iter().collect()).unwrap();
    assert_eq!(
        model.class_prior(Class::Republican),
        Probability { numerator: 3, denominator: 5 }
    );
    assert_eq!(model.class_prior(Class::Democrat), Probability { numerator: 2, denominator: 5 });
    let expected = [
        (Class::Republican, 0, [3, 2, 1]),
        (Class::Republican, 1, [1, 3, 2]),
        (Class::Democrat, 0, [1, 2, 2]),
        (Class::Democrat, 1, [2, 2, 1]),
    ];
    for (class, attribute, numerators) in expected {
        for (choice, numerator) in [Y, N, U].into_iter().zip(numerators) {
            assert_eq!(
                model.attr_likelihood(class, attribute, choice),
                Some(Probability { numerator, denominator: 5 })
            );
        }
    }
}

#[test]
fn no_likelihood_is_zero() {
    let rows = [row(Class::Republican, &[Y, Y, Y]), row(Class::Republican, &[Y, N, Y])];
    let model = Model::new(&rows.iter().collect()).unwrap();
    for class in [Class::Republican, Class::Democrat] {
        for attribute in 0..3 {
            for choice in [Y, N, U] {
                let likelihood = model.attr_likelihood(class, attribute, choice).unwrap();
                assert!(likelihood.numerator >= 1);
                assert_eq!(likelihood.denominator, 2);
                assert!(value(likelihood) > 0.0);
            }
        }
    }
    assert_eq!(
        model.attr_likelihood(Class::Democrat, 1, U),
        Some(Probability { numerator: 1, denominator: 2 })
    );
}

#[test]
fn there_is_no_likelihood_for_an_attribute_the_model_lacks() {
    let rows = [row(Class::Republican, &[Y, N])];
    let model = Model::new(&rows.iter().collect()).unwrap();
    assert!(model.attr_likelihood(Class::Republican, 1, Y).is_some());
    assert_eq!(model.attr_likelihood(Class::Republican, 2, Y), None);
    assert_eq!(model.attr_likelihood(Class::Democrat, usize::MAX, N), None);
}

#[test]
fn an_empty_training_set_is_refused() {
    assert_eq!(Model::new(&Vec::new()).err(), Some(Error::EmptyTrainingSet));
}

#[test]
fn a_training_set_of_uneven_records_is_refused() {
    let rows = [row(Class::Republican, &[Y, N]), row(Class::Democrat, &[Y])];
    assert_eq!(Model::new(&rows.iter().collect()).err(), Some(Error::AttributeCountMismatch));
    let rows = [row(Class::Republican, &[]), row(Class::Democrat, &[Y])];
    assert_eq!(Model::new(&rows.iter().collect()).err(), Some(Error::AttributeCountMismatch));
}

#[test]
fn records_without_attributes_are_classified_by_the_prior() {
    let rows = [row(Class::Democrat, &[]), row(Class::Democrat, &[]), row(Class::Republican, &[])];
    let model = Model::new(&rows.iter().collect()).unwrap();
    assert_eq!(model.attributes(), 0);
    let test = row(Class::Republican, &[]);
    assert_eq!(model.predict_class(&test, Class::Republican).unwrap().to_u128(), Some(1));
    assert_eq!(model.predict_class(&test, Class::Democrat).unwrap().to_u128(), Some(2));
    assert_eq!(model.predict(&test), Ok(Class::Democrat));
}

#[test]
fn the_weight_is_the_class_count_times_one_more_than_each_count() {
    let rows = [
        row(Class::Republican, &[Y, U, N]),
        row(Class::Republican, &[Y, N, N]),
        row(Class::Republican, &[N, N, N]),
        row(Class::Democrat, &[N, N, Y]),
        row(Class::Democrat, &[U, Y, Y]),
    ];
    let model = Model::new(&rows.iter().collect()).unwrap();
    let test = row(Class::Democrat, &[Y, N, N]);
    // Republican: 3 * (2 + 1) * (2 + 1) * (3 + 1); Democrat: 2 * (0 + 1) * (1 + 1) * (0 + 1).
    assert_eq!(model.predict_class(&test, Class::Republican).unwrap().to_u128(), Some(108));
    assert_eq!(model.predict_class(&test, Class::Democrat).unwrap().to_u128(), Some(4));
    assert_eq!(model.predict(&test), Ok(Class::Republican));
    let test = row(Class::Democrat, &[U, Y, Y]);
    // Republican: 3 * 1 * 1 * 1; Democrat: 2 * 2 * 2 * 3.
    assert_eq!(model.predict_class(&test, Class::Republican).unwrap().to_u128(), Some(3));
    assert_eq!(model.predict_class(&test, Class::Democrat).unwrap().to_u128(), Some(24));
    assert_eq!(model.predict(&test), Ok(Class::Democrat));
}

#[test]
fn equal_weights_go_to_the_first_class() {
    let rows = [row(Class::Republican, &[Y]), row(Class::Democrat, &[Y])];
    let model = Model::new(&rows.iter().collect()).unwrap();
    let test = row(Class::Democrat, &[Y]);
    assert_eq!(model.predict_class(&test, Class::Republican).unwrap().to_u128(), Some(2));
    assert_eq!(model.predict_class(&test, Class::Democrat).unwrap().to_u128(), Some(2));
    assert_eq!(model.predict(&test), Ok(Class::Republican));
}

#[test]
fn a_class_that_training_never_saw_is_never_predicted_against_one_it_saw() {
    let rows = [row(Class::Democrat, &[Y, N]), row(Class::Democrat, &[N, N])];
    let model = Model::new(&rows.iter().collect()).unwrap();
    for attributes in [[Y, Y], [U, U], [N, N]] {
        let test = row(Class::Republican, &attributes);
        assert_eq!(model.predict_class(&test, Class::Republican).unwrap().to_u128(), Some(0));
        assert_eq!(model.predict(&test), Ok(Class::Democrat));
    }
    let rows = [row(Class::Republican, &[Y, N])];
    let model = Model::new(&rows.iter().collect()).unwrap();
    assert_eq!(model.predict(&row(Class::Democrat, &[N, Y])), Ok(Class::Republican));
}

#[test]
fn a_record_of_another_length_is_not_scored() {
    let rows = [row(Class::Republican, &[Y, N]), row(Class::Democrat, &[N, Y])];
    let model = Model::new(&rows.iter().collect()).unwrap();
    for test in [row(Class::Republican, &[Y]), row(Class::Republican, &[Y, N, U])] {
        assert_eq!(
            model.predict_class(&test, Class::Republican).err(),
            Some(Error::AttributeCountMismatch)
        );
        assert_eq!(model.predict(&test), Err(Error::AttributeCountMismatch));
        assert_eq!(model.get_accuracy(&vec![test]), Err(Error::AttributeCountMismatch));
    }
}

#[test]
fn a_single_matching_record_gives_accuracy_one() {
    let rows = [row(Class::Republican, &[Y, N]), row(Class::Democrat, &[N, Y])];
    let model = Model::new(&rows.iter().collect()).unwrap();
    let test = row(Class::Republican, &[Y, N]);
    assert_eq!(model.predict(&test), Ok(test.class));
    let accuracy = model.get_accuracy(&vec![test]).unwrap();
    assert_eq!(accuracy, Accuracy { correct: 1, total: 1 });
    assert_eq!(accuracy.correct as f64 / accuracy.total as f64, 1.0);
}

#[test]
fn a_single_mismatching_record_gives_accuracy_zero() {
    let rows = [row(Class::Republican, &[Y, N]), row(Class::Democrat, &[N, Y])];
    let model = Model::new(&rows.iter().collect()).unwrap();
    let test = row(Class::Democrat, &[Y, N]);
    assert_eq!(model.predict(&test), Ok(Class::Republican));
    let accuracy = model.get_accuracy(&vec![test]).unwrap();
    assert_eq!(accuracy, Accuracy { correct: 0, total: 1 });
    assert_eq!(accuracy.correct as f64 / accuracy.total as f64, 0.0);
}

#[test]
fn accuracy_counts_the_records_classified_as_labelled() {
    let rows = [row(Class::Republican, &[Y, N]), row(Class::Democrat, &[N, Y])];
    let model = Model::new(&rows.iter().collect()).unwrap();
    let test = vec![
        row(Class::Republican, &[Y, N]),
        row(Class::Democrat, &[Y, N]),
        row(Class::Democrat, &[N, Y]),
        row(Class::Republican, &[U, U]),
        row(Class::Democrat, &[U, U]),
    ];
    assert_eq!(model.get_accuracy(&test), Ok(Accuracy { correct: 3, total: 5 }));
}

#[test]
fn an_empty_test_set_has_no_accuracy() {
    let rows = [row(Class::Republican, &[Y, N])];
    let model = Model::new(&rows.iter().collect()).unwrap();
    assert_eq!(model.get_accuracy(&Vec::new()), Err(Error::EmptyTestSet));
}

#[test]
fn accuracy_lies_between_zero_and_one() {
    let mut state = 11;
    for round in 0..20 {
        let training = made_up_rows(30 + round, 6, &mut state);
        let test = made_up_rows(1 + round, 6, &mut state);
        let model = Model::new(&training.iter().collect()).unwrap();
        let accuracy = model.get_accuracy(&test).unwrap();
        assert_eq!(accuracy.total, test.len());
        assert!(accuracy.correct <= accuracy.total);
        let share = accuracy.correct as f64 / accuracy.total as f64;
        assert!((0.0..=1.0).contains(&share));
    }
}

#[test]
fn fitting_and_judging_again_gives_the_same_accuracy() {
    let mut state = 5;
    let training = made_up_rows(120, 16, &mut state);
    let test = made_up_rows(40, 16, &mut state);
    let first = Model::new(&training.iter().collect()).unwrap().get_accuracy(&test);
    let copies: Vec<Row> = training.iter().map(|row| row.clone()).collect();
    let second = Model::new(&copies.iter().collect()).unwrap().get_accuracy(&test.clone());
    assert!(first.is_ok());
    assert_eq!(first, second);
}

#[test]
fn the_greater_weight_is_the_greater_sum_of_logarithms() {
    let mut state = 2024;
    let training = made_up_rows(300, 16, &mut state);
    let model = Model::new(&training.iter().collect()).unwrap();
    let mut decided = 0;
    for test in made_up_rows(200, 16, &mut state) {
        let republican = model.predict_class(&test, Class::Republican).unwrap();
        let democrat = model.predict_class(&test, Class::Democrat).unwrap();
        let by_weight = model.predict(&test).unwrap();
        assert_eq!(by_weight == Class::Republican, republican.at_least(&democrat));
        let difference =
            log_score(&model, &test, Class::Republican) - log_score(&model, &test, Class::Democrat);
        if difference.abs() > 1e-9 {
            decided += 1;
            assert_eq!(by_weight == Class::Republican, difference > 0.0);
        }
    }
    assert!(decided > 100);
}

#[test]
fn weights_beyond_the_machine_integers_are_still_compared() {
    let mut rows = Vec::new();
    for index in 0..2000 {
        let class = if index % 2 == 0 { Class::Republican } else { Class::Democrat };
        let choice = if class == Class::Republican || index % 200 == 1 { Y } else { N };
        rows.push(Row::new(class, vec![choice; 40]));
    }
    let model = Model::new(&rows.iter().collect()).unwrap();
    let test = Row::new(Class::Republican, vec![Y; 40]);
    let republican = model.predict_class(&test, Class::Republican).unwrap();
    let democrat = model.predict_class(&test, Class::Democrat).unwrap();
    // Republican: 1000 * 1001^40; Democrat: 1000 * 11^40.
    assert_eq!(republican.to_u128(), None);
    assert_eq!(democrat.to_u128(), None);
    assert!(republican.at_least(&democrat));
    assert!(!democrat.at_least(&republican));
    assert_eq!(model.predict(&test), Ok(Class::Republican));
    assert_eq!(model.predict(&Row::new(Class::Democrat, vec![N; 40])), Ok(Class::Democrat));
}
