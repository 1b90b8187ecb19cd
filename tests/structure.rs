use foamparser::Foam;

#[test]
fn attribution() {
    let text = "a_var value;";
    let result = Foam::parse(text).unwrap();
    let expected = Foam::Dictionary(vec![("a_var", vec![Foam::Value("value")])]);
    assert_eq!(result, expected);
}

#[test]
fn multiple_attribution() {
    let text = "a_var value1 value2 value3;";
    let result = Foam::parse(text).unwrap();
    let expected = Foam::Dictionary(vec![(
        "a_var",
        vec![
            Foam::Value("value1"),
            Foam::Value("value2"),
            Foam::Value("value3"),
        ],
    )]);
    assert_eq!(result, expected);
}

#[test]
fn two_attributions() {
    let text = "var1 value1; var2 value2;";
    let result = Foam::parse(text).unwrap();
    let expected = Foam::Dictionary(vec![
        ("var1", vec![Foam::Value("value1")]),
        ("var2", vec![Foam::Value("value2")]),
    ]);
    assert_eq!(result, expected);
}

#[test]
fn dictionaries_single_value() {
    let text = "dict { a 1; }";
    let result = Foam::parse(text).unwrap();
    let expected = Foam::Dictionary(vec![(
        "dict",
        vec![Foam::Dictionary(vec![("a", vec![Foam::Value("1")])])],
    )]);
    assert_eq!(result, expected);
}

#[test]
fn with_lists() {
    let text = "dict { list (1 2); }";
    let result = Foam::parse(text).unwrap();
    let expected = Foam::Dictionary(vec![(
        "dict",
        vec![Foam::Dictionary(vec![(
            "list",
            vec![Foam::List(vec![Foam::Value("1"), Foam::Value("2")])],
        )])],
    )]);
    assert_eq!(result, expected);
}

#[test]
fn two_values() {
    let text = "dict { a 1; b 2; }";
    let result = Foam::parse(text).unwrap();
    let expected = Foam::Dictionary(vec![(
        "dict",
        vec![Foam::Dictionary(vec![
            ("a", vec![Foam::Value("1")]),
            ("b", vec![Foam::Value("2")]),
        ])],
    )]);
    assert_eq!(result, expected);
}

#[test]
fn lists_a_list() {
    let text = "var ( 1 2 );";
    let result = Foam::parse(text).unwrap();
    let expected = Foam::Dictionary(vec![(
        "var",
        vec![Foam::List(vec![Foam::Value("1"), Foam::Value("2")])],
    )]);
    assert_eq!(result, expected);
}

#[test]
fn list_of_lists() {
    let text = "var ((1 2) (4 5));";
    let result = Foam::parse(text).unwrap();
    let expected = Foam::Dictionary(vec![(
        "var",
        vec![Foam::List(vec![
            Foam::List(vec![Foam::Value("1"), Foam::Value("2")]),
            Foam::List(vec![Foam::Value("4"), Foam::Value("5")]),
        ])],
    )]);
    assert_eq!(result, expected);
}
