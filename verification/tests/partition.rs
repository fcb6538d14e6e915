use naive_bayes::{
    partition, split_for_crossvalidation, Choice, Class, Error, Row, CROSSVALIDATION_SPLITS,
};

/// A record that spells `number` in its attributes, lowest bit first.
fn numbered(number: usize) -> Row {
    let mut attributes = Vec::new();
    for bit in 0..16 {
        attributes.push(if (number >> bit) & 1 == 1 { Choice::Yes } else { Choice::No });
    }
    let class = if number % 3 == 0 { Class::Republican } else { Class::Democrat };
    Row::new(class, attributes)
}

fn number_of(row: &Row) -> usize {
    let mut number = 0;
    for (bit, choice) in row.attributes.iter().enumerate() {
        if *choice == Choice::Yes {
            number |= 1 << bit;
        }
    }
    number
}

fn numbered_rows(count: usize) -> Vec<Row> {
    (0..count).map(numbered).collect()
}

fn numbers(folds: &[Vec<Row>]) -> Vec<Vec<usize>> {
    folds.iter().map(|fold| fold.iter().map(number_of).collect()).collect()
}

#[test]
fn chunks_come_first_and_left_overs_go_to_the_first_folds() {
    let folds = partition(&numbered_rows(7), 3).unwrap();
    assert_eq!(numbers(&folds), vec![vec![0, 1, 6], vec![2, 3], vec![4, 5]]);
    let folds = partition(&numbered_rows(11), 4).unwrap();
    assert_eq!(
        numbers(&folds),
        vec![vec![0, 1, 8], vec![2, 3, 9], vec![4, 5, 10], vec![6, 7]]
    );
}

#[test]
fn an_even_split_has_no_left_overs() {
    let folds = partition(&numbered_rows(6), 3).unwrap();
    assert_eq!(numbers(&folds), vec![vec![0, 1], vec![2, 3], vec![4, 5]]);
}

#[test]
fn as_many_folds_as_records_gives_one_record_each() {
    let folds = partition(&numbered_rows(4), 4).unwrap();
    assert_eq!(numbers(&folds), vec![vec![0], vec![1], vec![2], vec![3]]);
}

#[test]
fn one_fold_holds_everything() {
    let folds = partition(&numbered_rows(3), 1).unwrap();
    assert_eq!(numbers(&folds), vec![vec![0, 1, 2]]);
}

#[test]
fn the_voting_data_splits_into_five_folds_of_44_and_five_of_43() {
    let rows = numbered_rows(435);
    let folds = partition(&rows, CROSSVALIDATION_SPLITS).unwrap();
    let sizes: Vec<usize> = folds.iter().map(|fold| fold.len()).collect();
    assert_eq!(sizes, vec![44, 44, 44, 44, 44, 43, 43, 43, 43, 43]);
    for (index, fold) in folds.iter().enumerate() {
        assert_eq!(number_of(&fold[0]), index * 43);
        assert_eq!(number_of(&fold[42]), index * 43 + 42);
        if index < 5 {
            assert_eq!(number_of(&fold[43]), 430 + index);
        }
    }
    let mut all: Vec<usize> = folds.iter().flatten().map(number_of).collect();
    all.sort();
    assert_eq!(all, (0..435).collect::<Vec<usize>>());
}

#[test]
fn a_split_needs_a_fold_a_record_and_no_more_folds_than_records() {
    assert_eq!(partition(&numbered_rows(5), 0), Err(Error::NoFolds));
    assert_eq!(partition(&Vec::new(), 0), Err(Error::NoFolds));
    assert_eq!(partition(&Vec::new(), 3), Err(Error::EmptyDataset));
    assert_eq!(partition(&numbered_rows(5), 6), Err(Error::TooFewRecords));
    assert_eq!(split_for_crossvalidation(numbered_rows(5), 0), Err(Error::NoFolds));
    assert_eq!(split_for_crossvalidation(Vec::new(), 0), Err(Error::NoFolds));
    assert_eq!(split_for_crossvalidation(Vec::new(), 3), Err(Error::EmptyDataset));
    assert_eq!(split_for_crossvalidation(numbered_rows(5), 6), Err(Error::TooFewRecords));
}

#[test]
fn a_shuffled_split_holds_every_record_exactly_once() {
    for (count, splits) in [(1, 1), (7, 3), (10, 10), (23, 4), (435, 10)] {
        let rows = numbered_rows(count);
        let folds = split_for_crossvalidation(rows, splits).unwrap();
        assert_eq!(folds.len(), splits);
        let mut all: Vec<usize> = folds.iter().flatten().map(number_of).collect();
        assert_eq!(all.len(), count);
        all.sort();
        assert_eq!(all, (0..count).collect::<Vec<usize>>());
        for fold in folds.iter().flatten() {
            assert_eq!(*fold, numbered(number_of(fold)));
        }
    }
}

#[test]
fn the_sizes_of_shuffled_folds_differ_by_at_most_one() {
    for (count, splits) in [(7, 3), (10, 10), (23, 4), (435, 10), (99, 99)] {
        let folds = split_for_crossvalidation(numbered_rows(count), splits).unwrap();
        for (index, fold) in folds.iter().enumerate() {
            let expected = count / splits + if index < count % splits { 1 } else { 0 };
            assert_eq!(fold.len(), expected);
        }
        let largest = folds.iter().map(|fold| fold.len()).max().unwrap();
        let smallest = folds.iter().map(|fold| fold.len()).min().unwrap();
        assert!(largest - smallest <= 1);
        assert!(smallest >= 1);
    }
}

#[test]
fn a_shuffled_split_does_not_keep_the_order_of_the_input() {
    let rows = numbered_rows(400);
    let in_order = numbers(&partition(&rows, 10).unwrap());
    let shuffled = numbers(&split_for_crossvalidation(rows, 10).unwrap());
    assert_ne!(shuffled, in_order);
}

#[test]
fn two_shuffled_splits_differ() {
    let first = numbers(&split_for_crossvalidation(numbered_rows(400), 10).unwrap());
    let second = numbers(&split_for_crossvalidation(numbered_rows(400), 10).unwrap());
    assert_ne!(first, second);
}
