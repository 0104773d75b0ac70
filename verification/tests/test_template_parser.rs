use vcs_core::template_parser::{
    check, commit_keywords, expect_arguments, expect_exact_arguments, expect_no_arguments,
    expect_some_arguments, integer_value, keyword, parse_commit_template, parse_template,
    IntegerError, Keyword, TemplateParseErrorKind, TemplateParser, Typed, ValueType,
};
use vcs_core::template_syntax::Expr;

fn parse(template_text: &str) -> Result<Typed, TemplateParseErrorKind> {
    let no_keywords: Vec<Keyword> = vec![];
    parse_template(&template_text.as_bytes().to_vec(), &no_keywords)
}

fn tree(template_text: &str) -> Result<Option<Expr>, TemplateParseErrorKind> {
    TemplateParser::parse(&template_text.as_bytes().to_vec())
}

fn commit(template_text: &str) -> Result<Typed, TemplateParseErrorKind> {
    parse_commit_template(&template_text.as_bytes().to_vec())
}

fn bytes(text: &str) -> Vec<u8> {
    text.as_bytes().to_vec()
}

fn ident(name: &str) -> Expr {
    Expr::Identifier(bytes(name))
}

fn literal(text: &str) -> Expr {
    Expr::Literal(bytes(text))
}

fn method(object: Expr, name: &str, args: Vec<Expr>) -> Expr {
    Expr::Method { object: Box::new(object), name: bytes(name), args }
}

fn function(name: &str, args: Vec<Expr>) -> Expr {
    Expr::Function { name: bytes(name), args }
}

fn no_such_method(on_type: ValueType, name: &str) -> TemplateParseErrorKind {
    TemplateParseErrorKind::NoSuchMethod { on_type, name: bytes(name) }
}

#[test]
fn test_integer_literal() {
    let extract = |text: &str| match tree(text).unwrap().unwrap() {
        Expr::Integer(digits) => {
            assert_eq!(parse(text).unwrap().ty, ValueType::Integer);
            integer_value(&digits).unwrap()
        }
        other => panic!("not an integer: {other:?}"),
    };

    assert_eq!(extract("0"), 0);
    assert_eq!(extract("(42)"), 42);
    assert!(parse("00").is_err());

    assert_eq!(extract(&format!("{}", i64::MAX)), i64::MAX);
    assert!(parse(&format!("{}", (i64::MAX as u64) + 1)).is_err());
}

#[test]
fn integer_literals_that_do_not_fit_are_integer_errors() {
    assert_eq!(
        parse("10000000000000000000"),
        Err(TemplateParseErrorKind::ParseIntError(IntegerError::PosOverflow))
    );
    assert_eq!(
        parse("9223372036854775808"),
        Err(TemplateParseErrorKind::ParseIntError(IntegerError::PosOverflow))
    );
    assert_eq!(integer_value(&bytes("9223372036854775807")), Ok(i64::MAX));
    assert_eq!(integer_value(&bytes("9223372036854775808")), Err(IntegerError::PosOverflow));
    assert_eq!(integer_value(&bytes("0012")), Ok(12));
    assert_eq!(integer_value(&bytes("")), Ok(0));
    // Syntax comes first: a text with a syntax error is no integer error.
    assert_eq!(parse("10000000000000000000 ("), Err(TemplateParseErrorKind::SyntaxError));
    // The tree keeps the digits.
    assert_eq!(tree("10000000000000000000"), Ok(Some(Expr::Integer(bytes("10000000000000000000")))));
    assert_eq!(
        check(&Expr::Integer(bytes("1x")), &vec![]),
        Err(TemplateParseErrorKind::SyntaxError)
    );
    assert_eq!(
        check(&Expr::Integer(bytes("007")), &vec![]),
        Err(TemplateParseErrorKind::SyntaxError)
    );
}

#[test]
fn templates_parse_into_trees() {
    assert_eq!(tree(""), Ok(None));
    assert_eq!(tree("  \n "), Ok(None));
    assert_eq!(tree("  commit_id.short()  "), Ok(Some(method(ident("commit_id"), "short", vec![]))));
    assert_eq!(
        tree("  commit_id.short()  empty "),
        Ok(Some(Expr::List(vec![method(ident("commit_id"), "short", vec![]), ident("empty")])))
    );
    assert_eq!(tree("(commit_id.short())"), Ok(Some(method(ident("commit_id"), "short", vec![]))));
    assert_eq!(
        tree("(commit_id.short() \" \") empty"),
        Ok(Some(Expr::List(vec![
            Expr::List(vec![method(ident("commit_id"), "short", vec![]), literal(" ")]),
            ident("empty"),
        ])))
    );
    assert_eq!(
        tree("if((divergent), \"t\", \"f\")"),
        Ok(Some(function("if", vec![ident("divergent"), literal("t"), literal("f")])))
    );
    assert_eq!(tree("(commit_id).short()"), Ok(Some(method(ident("commit_id"), "short", vec![]))));
    assert_eq!(
        tree("a.b( 1 ,\n\"x\" ).c()"),
        Ok(Some(method(
            method(ident("a"), "b", vec![Expr::Integer(bytes("1")), literal("x")]),
            "c",
            vec![],
        )))
    );
    assert_eq!(tree("f( )"), Ok(Some(function("f", vec![]))));
    assert_eq!(tree("_x1 (y)"), Ok(Some(Expr::List(vec![ident("_x1"), ident("y")]))));
}

#[test]
fn string_literals_decode_their_escapes() {
    assert_eq!(tree(r#""a\nb""#), Ok(Some(literal("a\nb"))));
    assert_eq!(tree(r#""say \"hi\" \\ n""#), Ok(Some(literal("say \"hi\" \\ n"))));
    assert_eq!(tree(r#""""#), Ok(Some(literal(""))));
    assert_eq!(tree("\"caf\u{e9}\""), Ok(Some(literal("caf\u{e9}"))));
    assert_eq!(tree(r#""\t""#), Err(TemplateParseErrorKind::SyntaxError));
    assert_eq!(tree(r#""open"#), Err(TemplateParseErrorKind::SyntaxError));
    assert_eq!(tree(r#""trailing\"#), Err(TemplateParseErrorKind::SyntaxError));
}

#[test]
fn malformed_templates_are_syntax_errors() {
    for text in [
        "description ()",
        "00",
        "a b)",
        "(a",
        "f(a,)",
        "f(,a)",
        "f(a b",
        "a.",
        "a.b",
        "a .b()",
        "a\tb",
        "1a",
        "-1",
        "a,b",
        ".a()",
        "f (a) )",
    ] {
        assert_eq!(tree(text), Err(TemplateParseErrorKind::SyntaxError), "{text}");
        assert_eq!(commit(text), Err(TemplateParseErrorKind::SyntaxError), "{text}");
    }
}

#[test]
fn unknown_names_are_reported_with_the_name() {
    assert_eq!(commit("foo"), Err(TemplateParseErrorKind::NoSuchKeyword(bytes("foo"))));
    assert_eq!(commit("foo()"), Err(TemplateParseErrorKind::NoSuchFunction(bytes("foo"))));
    assert_eq!(
        commit("description.first_line().foo()"),
        Err(no_such_method(ValueType::String, "foo"))
    );
    assert_eq!(commit("42.foo()"), Err(no_such_method(ValueType::Integer, "foo")));
    assert_eq!(commit("empty.not()"), Err(no_such_method(ValueType::Boolean, "not")));
    assert_eq!(
        commit("(\"foo\" \"bar\").baz()"),
        Err(no_such_method(ValueType::Template, "baz"))
    );
    assert_eq!(
        commit("commit_id.shortest_styled_prefix().short()"),
        Err(no_such_method(ValueType::IdWithHighlightedPrefix, "short"))
    );
    assert_eq!(commit("author.age()"), Err(no_such_method(ValueType::Signature, "age")));
    assert_eq!(
        commit("author.timestamp().name()"),
        Err(no_such_method(ValueType::Timestamp, "name"))
    );
    assert_eq!(commit("commit_id.long()"), Err(no_such_method(ValueType::CommitOrChangeId, "long")));
    // Without keywords every identifier is unknown.
    assert_eq!(parse("description"), Err(TemplateParseErrorKind::NoSuchKeyword(bytes("description"))));
}

#[test]
fn argument_counts_and_types_are_checked() {
    assert_eq!(
        commit("description.contains()"),
        Err(TemplateParseErrorKind::InvalidArgumentCountExact(1))
    );
    assert_eq!(
        commit("description.first_line(\"foo\")"),
        Err(TemplateParseErrorKind::InvalidArgumentCountExact(0))
    );
    assert_eq!(commit("label()"), Err(TemplateParseErrorKind::InvalidArgumentCountExact(2)));
    assert_eq!(
        commit("label(\"foo\", \"bar\", \"baz\")"),
        Err(TemplateParseErrorKind::InvalidArgumentCountExact(2))
    );
    assert_eq!(
        commit("if()"),
        Err(TemplateParseErrorKind::InvalidArgumentCountRange { min: 2, max: 3 })
    );
    assert_eq!(
        commit("if(\"foo\", \"bar\", \"baz\", \"quux\")"),
        Err(TemplateParseErrorKind::InvalidArgumentCountRange { min: 2, max: 3 })
    );
    assert_eq!(
        commit("if(label(\"foo\", \"bar\"), \"baz\")"),
        Err(TemplateParseErrorKind::InvalidArgumentType(ValueType::Boolean))
    );
    assert_eq!(
        commit("if(42, \"baz\")"),
        Err(TemplateParseErrorKind::InvalidArgumentType(ValueType::Boolean))
    );
    assert_eq!(
        commit("separate()"),
        Err(TemplateParseErrorKind::InvalidArgumentCountRangeFrom(1))
    );
    assert_eq!(
        commit("commit_id.short(1, 2)"),
        Err(TemplateParseErrorKind::InvalidArgumentCountRange { min: 0, max: 1 })
    );
    assert_eq!(
        commit("commit_id.short(\"1\")"),
        Err(TemplateParseErrorKind::InvalidArgumentType(ValueType::Integer))
    );
    // The first error from the left wins; the type of the condition before what follows.
    assert_eq!(
        commit("if(1, foo)"),
        Err(TemplateParseErrorKind::InvalidArgumentType(ValueType::Boolean))
    );
    assert_eq!(
        commit("if(foo, bar)"),
        Err(TemplateParseErrorKind::NoSuchKeyword(bytes("foo")))
    );
    assert_eq!(
        commit("separate(\" \", a, b)"),
        Err(TemplateParseErrorKind::NoSuchKeyword(bytes("a")))
    );
    assert_eq!(
        commit("label(x) y"),
        Err(TemplateParseErrorKind::InvalidArgumentCountExact(2))
    );
}

#[test]
fn well_formed_templates_get_their_types_and_labels() {
    let typed = |ty: ValueType, labels: &[&str]| {
        Ok(Typed { ty, labels: labels.iter().map(|label| bytes(label)).collect() })
    };
    assert_eq!(commit(""), typed(ValueType::Template, &[]));
    assert_eq!(commit("\"text\""), typed(ValueType::String, &[]));
    assert_eq!(commit("42"), typed(ValueType::Integer, &[]));
    assert_eq!(commit("description"), typed(ValueType::String, &["description"]));
    assert_eq!(commit("empty"), typed(ValueType::Boolean, &["empty"]));
    assert_eq!(commit("commit_id"), typed(ValueType::CommitOrChangeId, &["commit_id"]));
    assert_eq!(commit("commit_id.short()"), typed(ValueType::String, &["commit_id", "short"]));
    assert_eq!(commit("change_id.short(8)"), typed(ValueType::String, &["change_id", "short"]));
    assert_eq!(
        commit("commit_id.shortest_prefix_and_brackets()"),
        typed(ValueType::String, &["commit_id", "shortest_prefix_and_brackets"])
    );
    assert_eq!(
        commit("commit_id.shortest_styled_prefix(3)"),
        typed(ValueType::IdWithHighlightedPrefix, &["commit_id", "shortest_styled_prefix"])
    );
    assert_eq!(
        commit("author.timestamp().ago()"),
        typed(ValueType::String, &["author", "timestamp", "ago"])
    );
    assert_eq!(commit("committer.email()"), typed(ValueType::String, &["committer", "email"]));
    assert_eq!(commit("author.name()"), typed(ValueType::String, &["author", "name"]));
    assert_eq!(
        commit("\"fooo\".contains(\"foo\")"),
        typed(ValueType::Boolean, &["contains"])
    );
    assert_eq!(
        commit("\"description 123\".contains(description.first_line())"),
        typed(ValueType::Boolean, &["contains"])
    );
    assert_eq!(commit("\"foo\\nbar\".first_line()"), typed(ValueType::String, &["first_line"]));
    assert_eq!(commit("commit_id.short() \" \" branches"), typed(ValueType::Template, &[]));
    assert_eq!(commit("label(\"error\", \"text\")"), typed(ValueType::Template, &[]));
    assert_eq!(
        commit("label(if(empty, \"error\", \"warning\"), \"text\")"),
        typed(ValueType::Template, &[])
    );
    assert_eq!(commit("if((divergent), \"t\", \"f\")"), typed(ValueType::Template, &[]));
    assert_eq!(commit("if(description, \"t\")"), typed(ValueType::Template, &[]));
    assert_eq!(commit("separate(\" \")"), typed(ValueType::Template, &[]));
    assert_eq!(
        commit("separate(\" \", \"a\", separate(\"|\", \"b\", \"c\"))"),
        typed(ValueType::Template, &[])
    );
    assert_eq!(commit("separate(author, \"X\", \"Y\", \"Z\")"), typed(ValueType::Template, &[]));
    for name in ["working_copies", "branches", "tags", "git_refs", "git_head"] {
        assert_eq!(commit(name), typed(ValueType::String, &[name]));
    }
    for name in ["current_working_copy", "divergent", "conflict"] {
        assert_eq!(commit(name), typed(ValueType::Boolean, &[name]));
    }
    assert_eq!(commit_keywords().len(), 14);
    // The first entry of a table wins.
    let table = vec![keyword("x", ValueType::Integer), keyword("x", ValueType::String)];
    assert_eq!(
        parse_template(&bytes("x"), &table),
        Ok(Typed { ty: ValueType::Integer, labels: vec![bytes("x")] })
    );
}

#[test]
fn argument_count_checks_are_exact() {
    assert_eq!(expect_no_arguments(0), Ok(()));
    assert_eq!(expect_no_arguments(1), Err(TemplateParseErrorKind::InvalidArgumentCountExact(0)));
    assert_eq!(expect_exact_arguments(2, 2), Ok(()));
    assert_eq!(
        expect_exact_arguments(2, 3),
        Err(TemplateParseErrorKind::InvalidArgumentCountExact(2))
    );
    assert_eq!(expect_some_arguments(1, 4), Ok(3));
    assert_eq!(
        expect_some_arguments(2, 1),
        Err(TemplateParseErrorKind::InvalidArgumentCountRangeFrom(2))
    );
    assert_eq!(expect_arguments(2, 1, 2), Ok(0));
    assert_eq!(expect_arguments(2, 1, 3), Ok(1));
    assert_eq!(
        expect_arguments(2, 1, 4),
        Err(TemplateParseErrorKind::InvalidArgumentCountRange { min: 2, max: 3 })
    );
    assert_eq!(
        expect_arguments(2, 1, 1),
        Err(TemplateParseErrorKind::InvalidArgumentCountRange { min: 2, max: 3 })
    );
    assert_eq!(
        expect_arguments(3, usize::MAX, 1),
        Err(TemplateParseErrorKind::InvalidArgumentCountRange { min: 3, max: usize::MAX })
    );
    assert_eq!(ValueType::CommitOrChangeId.name(), "CommitOrChangeId");
    assert_eq!(ValueType::Template.name(), "Template");
}
