use foamparser::Foam;

#[test]
fn single_attribution() {
    let result = Foam::parse("variable value;");
    let map = vec![("variable", vec![Foam::Value("value")])];
    assert_eq!(result, Ok(Foam::Dictionary(map)));
}

#[test]
fn mutiple_attributions() {
    let result = Foam::parse("variable value1 value2 value3;");
    let map = vec![(
        "variable",
        vec![
            Foam::Value("value1"),
            Foam::Value("value2"),
            Foam::Value("value3"),
        ],
    )];
    assert_eq!(result, Ok(Foam::Dictionary(map)));
}

#[test]
fn multiple_variables() {
    let result = Foam::parse("var1 value1;\nvar2 value2 value3;");
    let map = vec![
        ("var1", vec![Foam::Value("value1")]),
        ("var2", vec![Foam::Value("value2"), Foam::Value("value3")]),
    ];
    assert_eq!(result, Ok(Foam::Dictionary(map)));
}

#[test]
fn simple_list() {
    let result = Foam::parse("var (value1 value2);");
    let map = vec![(
        "var",
        vec![Foam::List(vec![Foam::Value("value1"), Foam::Value("value2")])],
    )];
    assert_eq!(result, Ok(Foam::Dictionary(map)));
}

#[test]
fn lists_with_lists() {
    let result = Foam::parse("var ( value1 ( inner2 ) );");
    let map = vec![(
        "var",
        vec![Foam::List(vec![
            Foam::Value("value1"),
            Foam::List(vec![Foam::Value("inner2")]),
        ])],
    )];
    assert_eq!(result, Ok(Foam::Dictionary(map)));
}

#[test]
fn simple_dict() {
    let result = Foam::parse("entry { var value; }");
    let inner = vec![("var", vec![Foam::Value("value")])];
    let map = vec![("entry", vec![Foam::Dictionary(inner)])];
    assert_eq!(result, Ok(Foam::Dictionary(map)));
}

#[test]
fn dict_with_multiple_values() {
    let result = Foam::parse("entry { var1 value1; var2 value2; }");
    let inner = vec![
        ("var1", vec![Foam::Value("value1")]),
        ("var2", vec![Foam::Value("value2")]),
    ];
    let outer = vec![("entry", vec![Foam::Dictionary(inner)])];
    assert_eq!(result, Ok(Foam::Dictionary(outer)));
}

#[test]
fn dict_with_lists() {
    let result = Foam::parse("outer { a_list ( 1 2 3 ); }");
    let inner = vec![(
        "a_list",
        vec![Foam::List(vec![
            Foam::Value("1"),
            Foam::Value("2"),
            Foam::Value("3"),
        ])],
    )];
    let outer = vec![("outer", vec![Foam::Dictionary(inner)])];
    assert_eq!(result, Ok(Foam::Dictionary(outer)));
}

#[test]
fn all_types() {
    let result = Foam::parse("attribution 1;list (1 2);dict {inner 1;}");
    let attribution = vec![Foam::Value("1")];
    let list = Foam::List(vec![Foam::Value("1"), Foam::Value("2")]);
    let dict = Foam::Dictionary(vec![("inner", vec![Foam::Value("1")])]);
    let main = Foam::Dictionary(vec![
        ("attribution", attribution),
        ("list", vec![list]),
        ("dict", vec![dict]),
    ]);
    assert_eq!(result, Ok(main));
}

#[test]
fn named_dicts() {
    let result =
        Foam::parse("list ( name1 { inner 1; } name2 { inner 2; } )").unwrap();
    println!("{result:?}");
}
