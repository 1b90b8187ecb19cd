use foamparser::Foam;

#[test]
fn simple() {
    let data = Foam::parse("var value;").unwrap();
    let formatted = data.render();
    assert_eq!(formatted, "var   value ;\n");
}

#[test]
fn output_a_list() {
    let data = Foam::parse("var ( 1 2 3 );").unwrap();
    let formatted = data.render();
    assert_eq!(formatted, "var   (\n      1       2       3 \n   );\n");
}
