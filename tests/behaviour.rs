use foamparser::render::safe_keyword;
use foamparser::scanner::{Scanner, Token};
use foamparser::{Foam, FoamError};

#[test]
fn key_value_is_one_entry() {
    let result = Foam::parse("key value;").unwrap();
    assert_eq!(result, Foam::Dictionary(vec![("key", vec![Foam::Value("value")])]));
}

#[test]
fn multi_value_attribution_keeps_order() {
    let result = Foam::parse("version 2.0 1.0 0.0;").unwrap();
    let expected = vec![Foam::Value("2.0"), Foam::Value("1.0"), Foam::Value("0.0")];
    assert_eq!(result.get("version"), Ok(expected.as_slice()));
}

#[test]
fn nested_dictionary_entry() {
    let result = Foam::parse("entry { var1 value1; var2 value2; }").unwrap();
    let inner = Foam::Dictionary(vec![
        ("var1", vec![Foam::Value("value1")]),
        ("var2", vec![Foam::Value("value2")]),
    ]);
    assert_eq!(result, Foam::Dictionary(vec![("entry", vec![inner])]));
}

#[test]
fn comments_are_transparent() {
    let with = Foam::parse("version 2.0; // note\nformat ascii; /* block */").unwrap();
    let without = Foam::parse("version 2.0; \nformat ascii; ").unwrap();
    assert_eq!(with, without);
    assert_eq!(
        with,
        Foam::Dictionary(vec![
            ("version", vec![Foam::Value("2.0")]),
            ("format", vec![Foam::Value("ascii")]),
        ])
    );
}

#[test]
fn quoted_key_keeps_inner_space() {
    let result = Foam::parse("\"a b\" 1;").unwrap();
    assert_eq!(result, Foam::Dictionary(vec![("a b", vec![Foam::Value("1")])]));
}

#[test]
fn first_value_skips_lists() {
    let root = Foam::parse("var (1) 2;").unwrap();
    assert_eq!(root.get_first_value("var"), Ok("2"));
    let root = Foam::parse("var (1) (2);").unwrap();
    assert_eq!(root.get_first_value("var"), Err(FoamError::NoSuchValue));
}

#[test]
fn unbalanced_list_fails() {
    let result = Foam::parse("var ( 1 2 ;");
    assert_eq!(result, Err(FoamError::UnexpectedToken { token: ";", structure: "list" }));
    assert_eq!(Foam::parse("var ( 1 2 ;"), result);
}

#[test]
fn unclosed_list_at_end_fails() {
    assert_eq!(Foam::parse("var ( 1 2"), Err(FoamError::EndOfContent));
}

#[test]
fn root_commits_unterminated_attribution() {
    let result = Foam::parse("a 1").unwrap();
    assert_eq!(result, Foam::Dictionary(vec![("a", vec![Foam::Value("1")])]));
}

#[test]
fn nested_scope_needs_closing_brace() {
    assert_eq!(Foam::parse("d { a 1;"), Err(FoamError::EndOfContent));
    assert_eq!(Foam::parse("d { a 1"), Err(FoamError::EndOfContent));
}

#[test]
fn closing_brace_commits_pending_entry() {
    let result = Foam::parse("d { a 1 }").unwrap();
    let inner = Foam::Dictionary(vec![("a", vec![Foam::Value("1")])]);
    assert_eq!(result, Foam::Dictionary(vec![("d", vec![inner])]));
}

#[test]
fn stray_closing_brace_at_root() {
    assert_eq!(Foam::parse("a 1; }"), Err(FoamError::InvalidDictEnd { token: "}" }));
}

#[test]
fn unexpected_tokens_in_dictionary() {
    assert_eq!(
        Foam::parse("(1 2)"),
        Err(FoamError::UnexpectedToken { token: "(", structure: "dictionary" })
    );
    assert_eq!(
        Foam::parse("{ a 1; }"),
        Err(FoamError::UnexpectedToken { token: "{", structure: "dictionary" })
    );
    assert_eq!(
        Foam::parse("a 1; ;"),
        Err(FoamError::UnexpectedToken { token: ";", structure: "dictionary" })
    );
    assert_eq!(
        Foam::parse("a 1 );"),
        Err(FoamError::UnexpectedToken { token: ")", structure: "dictionary" })
    );
}

#[test]
fn unexpected_brace_in_list() {
    assert_eq!(
        Foam::parse("a ( 1 };"),
        Err(FoamError::UnexpectedToken { token: "}", structure: "list" })
    );
}

#[test]
fn scan_failure_is_end_of_content() {
    assert_eq!(Foam::parse("a [1 2];"), Err(FoamError::EndOfContent));
    assert_eq!(Foam::parse("a \"open;"), Err(FoamError::EndOfContent));
    assert_eq!(Foam::parse("a / b;"), Err(FoamError::EndOfContent));
}

#[test]
fn redeclared_key_takes_last_values() {
    let result = Foam::parse("a 1; b 2; a 3;").unwrap();
    assert_eq!(
        result,
        Foam::Dictionary(vec![("a", vec![Foam::Value("3")]), ("b", vec![Foam::Value("2")])])
    );
}

#[test]
fn empty_input_is_empty_dictionary() {
    assert_eq!(Foam::parse(""), Ok(Foam::Dictionary(vec![])));
    assert_eq!(Foam::parse("  // only a comment\n"), Ok(Foam::Dictionary(vec![])));
}

#[test]
fn named_dictionaries_in_list() {
    let result = Foam::parse("list ( name1 { inner 1; } name2 { inner 2; } )").unwrap();
    let d1 = Foam::Dictionary(vec![("inner", vec![Foam::Value("1")])]);
    let d2 = Foam::Dictionary(vec![("inner", vec![Foam::Value("2")])]);
    let list = Foam::List(vec![Foam::Value("name1"), d1, Foam::Value("name2"), d2]);
    assert_eq!(result, Foam::Dictionary(vec![("list", vec![list])]));
}

#[test]
fn non_ascii_text_is_kept_in_quotes() {
    let result = Foam::parse("\"clé\" \"välue ü\";").unwrap();
    assert_eq!(result, Foam::Dictionary(vec![("clé", vec![Foam::Value("välue ü")])]));
}

#[test]
fn other_characters_are_no_token() {
    assert_eq!(Foam::parse("a (1 $ 2)"), Err(FoamError::EndOfContent));
    assert_eq!(Foam::parse("clé 1;"), Err(FoamError::EndOfContent));
    assert_eq!(Foam::parse("a -1;"), Err(FoamError::EndOfContent));
    assert_eq!(Foam::parse("a *;"), Err(FoamError::EndOfContent));
}

#[test]
fn lookup_errors() {
    let root = Foam::parse("var ( 1 2 3 ); v 2; e;").unwrap();
    assert_eq!(root.get("missing"), Err(FoamError::NoSuchKey));
    let level1 = root.get("var").unwrap();
    assert_eq!(level1[0].get("1"), Err(FoamError::NotADictionary));
    assert_eq!(root.get_first("e"), Err(FoamError::NoDictValues { name: "e" }));
    assert_eq!(root.get_first("v").unwrap().as_dict(), Err(FoamError::NotADictionary));
    assert_eq!(root.get_first("var").unwrap().as_value(), Err(FoamError::NotAValue));
    assert_eq!(root.get_first("v").unwrap().as_value(), Ok("2"));
}

#[test]
fn first_of_each_kind() {
    let root = Foam::parse("var 1 2 ( 3 4 ) { a 1; } ( 5 );").unwrap();
    let expected_list = vec![Foam::Value("3"), Foam::Value("4")];
    assert_eq!(root.get_first_list("var"), Ok(expected_list.as_slice()));
    let expected_dict = vec![("a", vec![Foam::Value("1")])];
    assert_eq!(root.get_first_dict("var"), Ok(&expected_dict));
    assert_eq!(root.get_first("var"), Ok(&Foam::Value("1")));
    let root = Foam::parse("not_dict 1; maybe_not_dict ( a 1 );").unwrap();
    assert_eq!(root.get_first_dict("maybe_not_dict"), Err(FoamError::NoSuchValue));
    assert_eq!(root.get_first_list("not_dict"), Err(FoamError::NoSuchValue));
    assert_eq!(root.get_first_dict("noSuchThing"), Err(FoamError::NoSuchKey));
}

#[test]
fn as_dict_gives_entries() {
    let root = Foam::parse("outer { inner 2; var 2; }").unwrap();
    let outer = root.get_first("outer").unwrap();
    let expected = vec![("inner", vec![Foam::Value("2")]), ("var", vec![Foam::Value("2")])];
    assert_eq!(outer.as_dict(), Ok(&expected));
}

#[test]
fn round_trip_examples() {
    let inputs = [
        "key value;",
        "version 2.0 1.0 0.0;",
        "entry { var1 value1; var2 value2; }",
        "var ( value1 ( inner2 ) ) tail;",
        "list ( name1 { inner 1; } name2 { inner 2; } )",
        "\"a b\" \"\" (); e; d { x { y (1 (2)); } }",
        "a 1; b 2; a 3; // trailing",
    ];
    for input in inputs {
        let first = Foam::parse(input).unwrap();
        let text = first.render();
        let second = Foam::parse(&text).unwrap();
        assert_eq!(first, second, "{}", text);
    }
}

#[test]
fn render_nested_dictionary() {
    let root = Foam::parse("entry { var value; }").unwrap();
    assert_eq!(root.render(), "entry   {\n      var         value ;\n   };\n");
}

#[test]
fn render_non_dictionary_root() {
    assert_eq!(Foam::Value("a b").render(), "\"a b\" ");
    assert_eq!(Foam::Dimension(vec!["0", "1", "-2"]).render(), "[ 0 1 -2 ];");
}

#[test]
fn render_dimension_entry_has_one_semicolon() {
    let root = Foam::Dictionary(vec![("dimensions", vec![Foam::Dimension(vec!["0", "1"])])]);
    assert_eq!(root.render(), "dimensions   [ 0 1 ];\n");
}

#[test]
fn quoting_rules() {
    assert_eq!(safe_keyword("abc"), "abc");
    assert_eq!(safe_keyword("2.0"), "2.0");
    assert_eq!(safe_keyword("a b"), "\"a b\"");
    assert_eq!(safe_keyword(""), "\"\"");
    assert_eq!(safe_keyword("a;b"), "\"a;b\"");
    assert_eq!(safe_keyword("a*"), "\"a*\"");
    assert_eq!(safe_keyword("$x"), "\"$x\"");
    assert_eq!(safe_keyword("clé"), "\"clé\"");
}

#[test]
fn scanner_reports_offending_text() {
    let mut scanner = Scanner::new("\"é\" é");
    assert!(matches!(scanner.next(), Some(Ok(Token::Keyword("é")))));
    match scanner.next() {
        Some(Err(e)) => {
            assert_eq!(e.slice, "é");
            assert_eq!((e.start, e.end), (5, 7));
        }
        other => panic!("unexpected {:?}", other),
    }
    assert_eq!(scanner.offset(), 7);
    assert!(scanner.next().is_none());
}

#[test]
fn scanner_token_kinds() {
    let mut scanner = Scanner::new("a{}();// c\n/**/");
    assert!(matches!(scanner.next(), Some(Ok(Token::Keyword("a")))));
    assert!(matches!(scanner.next(), Some(Ok(Token::DictStart))));
    assert!(matches!(scanner.next(), Some(Ok(Token::DictEnd))));
    assert!(matches!(scanner.next(), Some(Ok(Token::ListStart))));
    assert!(matches!(scanner.next(), Some(Ok(Token::ListEnd))));
    assert!(matches!(scanner.next(), Some(Ok(Token::End))));
    assert!(matches!(scanner.next(), Some(Ok(Token::Comment("// c")))));
    assert!(matches!(scanner.next(), Some(Ok(Token::MultilineComment("/**/")))));
    assert!(scanner.next().is_none());
}
