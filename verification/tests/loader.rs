use naive_bayes::{
    choice_str_to_enum, parse_row, parse_rows, Choice, Class, Error, Row, ATTRIBUTES_COUNT,
};

#[test]
fn attribute_tokens_map_to_choices() {
    assert_eq!(choice_str_to_enum("y"), Choice::Yes);
    assert_eq!(choice_str_to_enum("n"), Choice::No);
    assert_eq!(choice_str_to_enum("?"), Choice::Unknown);
}

#[test]
fn unrecognised_attribute_tokens_are_unknown() {
    assert_eq!(choice_str_to_enum(""), Choice::Unknown);
    assert_eq!(choice_str_to_enum("yes"), Choice::Unknown);
    assert_eq!(choice_str_to_enum("Y"), Choice::Unknown);
    assert_eq!(choice_str_to_enum(" n"), Choice::Unknown);
    assert_eq!(choice_str_to_enum("ñ"), Choice::Unknown);
}

#[test]
fn a_line_of_the_voting_data_is_read() {
    let line = "republican,n,y,n,y,y,y,n,n,n,y,?,y,y,y,n,y";
    let row = parse_row(line, ATTRIBUTES_COUNT).unwrap();
    let y = Choice::Yes;
    let n = Choice::No;
    let u = Choice::Unknown;
    assert_eq!(
        row,
        Row::new(Class::Republican, vec![n, y, n, y, y, y, n, n, n, y, u, y, y, y, n, y])
    );
    let line = "democrat,?,y,y,?,y,y,n,n,n,n,y,n,y,y,n,n";
    let row = parse_row(line, ATTRIBUTES_COUNT).unwrap();
    assert_eq!(
        row,
        Row::new(Class::Democrat, vec![u, y, y, u, y, y, n, n, n, n, y, n, y, y, n, n])
    );
}

#[test]
fn an_unknown_class_is_refused() {
    assert_eq!(parse_row("independent,y,n", 2), Err(Error::UnknownClass));
    assert_eq!(parse_row("Republican,y,n", 2), Err(Error::UnknownClass));
    assert_eq!(parse_row("republican ,y,n", 2), Err(Error::UnknownClass));
    assert_eq!(parse_row("democra,y,n", 2), Err(Error::UnknownClass));
    assert_eq!(parse_row("democrats,y,n", 2), Err(Error::UnknownClass));
    assert_eq!(parse_row("", 2), Err(Error::UnknownClass));
    assert_eq!(parse_row(",y,n", 2), Err(Error::UnknownClass));
}

#[test]
fn a_short_line_is_refused() {
    assert_eq!(parse_row("democrat,y", 2), Err(Error::MissingAttributes));
    assert_eq!(parse_row("democrat", 1), Err(Error::MissingAttributes));
    assert_eq!(
        parse_row("republican,n,y,n,y,y,y,n,n,n,y,?,y,y,y,n", ATTRIBUTES_COUNT),
        Err(Error::MissingAttributes)
    );
}

#[test]
fn an_unknown_class_is_reported_before_missing_attributes() {
    assert_eq!(parse_row("green", 3), Err(Error::UnknownClass));
}

#[test]
fn empty_and_surplus_fields() {
    assert_eq!(
        parse_row("democrat,,y,", 3),
        Ok(Row::new(Class::Democrat, vec![Choice::Unknown, Choice::Yes, Choice::Unknown]))
    );
    assert_eq!(
        parse_row("democrat,y,n,y,y", 2),
        Ok(Row::new(Class::Democrat, vec![Choice::Yes, Choice::No]))
    );
    assert_eq!(parse_row("republican", 0), Ok(Row::new(Class::Republican, vec![])));
    assert_eq!(parse_row("republican,y", 0), Ok(Row::new(Class::Republican, vec![])));
}

#[test]
fn lines_are_read_in_order() {
    let lines = vec!["democrat,y,n".to_string(), "republican,?,y".to_string()];
    assert_eq!(
        parse_rows(&lines, 2),
        Ok(vec![
            Row::new(Class::Democrat, vec![Choice::Yes, Choice::No]),
            Row::new(Class::Republican, vec![Choice::Unknown, Choice::Yes]),
        ])
    );
    assert_eq!(parse_rows(&Vec::new(), 2), Ok(Vec::new()));
}

#[test]
fn reading_stops_at_the_first_unfit_line() {
    let lines = vec![
        "democrat,y,n".to_string(),
        "republican,y".to_string(),
        "nobody,y,n".to_string(),
    ];
    assert_eq!(parse_rows(&lines, 2), Err(Error::MissingAttributes));
    let lines = vec!["nobody,y,n".to_string(), "republican,y".to_string()];
    assert_eq!(parse_rows(&lines, 2), Err(Error::UnknownClass));
}
