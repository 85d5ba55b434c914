use bracket_parser::{parse, search_end_bracket, Bracket, ParseError, AST};

fn text(s: &str) -> AST {
    AST::Text(s.to_string())
}

#[test]
fn search_end_bracket_paranthesis() {
    let origin = "(123456)texttext";
    assert_eq!(7, search_end_bracket(origin, &Bracket::Paren).unwrap());

    let double = "(123456(89))texttext";
    assert_eq!(11, search_end_bracket(double, &Bracket::Paren).unwrap());
}

#[test]
fn search_end_bracket_curly() {
    let origin = "{123456}texttext";
    assert_eq!(7, search_end_bracket(origin, &Bracket::Curly).unwrap());

    let double = "{123456{89}}texttext";
    assert_eq!(11, search_end_bracket(double, &Bracket::Curly).unwrap());
}

#[test]
fn search_end_bracket_square() {
    let origin = "[123456]texttext";
    assert_eq!(7, search_end_bracket(origin, &Bracket::Square).unwrap());

    let double = "[123456[89]]texttext";
    assert_eq!(11, search_end_bracket(double, &Bracket::Square).unwrap());
}

#[test]
fn search_end_bracket_none() {
    let origin = "(123456texttext";
    assert_eq!(None, search_end_bracket(origin, &Bracket::Square));
}

#[test]
fn parse_single_text() {
    let ast = parse("t").unwrap();
    if let AST::Text(str) = ast {
        assert_eq!(str, "t");
    } else {
        assert!(false);
    }
}

#[test]
fn parse_single_bracket() {
    let ast = parse("text(a)").unwrap();
    if let AST::Tokens(tokens) = ast {
        assert_eq!(tokens.len(), 2);
        assert!(matches!(tokens[0], AST::Text(_)));
        if let AST::Parenthesis(a) = &tokens[1] {
            assert!(matches!(**a, AST::Text(_)))
        } else {
            assert!(false);
        }
    } else {
        assert!(false);
    };
}

#[test]
fn parse_single_curly() {
    let ast = parse("text{aaa}test").unwrap();
    if let AST::Tokens(tokens) = ast {
        assert_eq!(tokens.len(), 3);
        assert!(matches!(tokens[0], AST::Text(_)));
        if let AST::Curly(a) = &tokens[1] {
            assert!(matches!(**a, AST::Text(_)))
        } else {
            assert!(false)
        }
        assert!(matches!(tokens[2], AST::Text(_)));
    } else {
        assert!(false);
    };
}

#[test]
fn parse_single_square() {
    let ast = parse("text[aaa]test").unwrap();
    if let AST::Tokens(tokens) = ast {
        assert_eq!(tokens.len(), 3);
        assert!(matches!(tokens[0], AST::Text(_)));
        if let AST::Square(a) = &tokens[1] {
            assert!(matches!(**a, AST::Text(_)))
        } else {
            assert!(false)
        }
        assert!(matches!(tokens[2], AST::Text(_)));
    } else {
        assert!(false);
    };
}

#[test]
fn parse_not_closing_bracket() {
    match parse("text(aaa]test") {
        Err(e) => assert!(matches!(e, ParseError::HasNoClosing(4))),
        _ => assert!(false),
    }
}

#[test]
fn parse_nest() {
    let ast = parse("test inner(par{curly[square]curly}par)").unwrap();
    println!("{:?}", ast);
    let expected = AST::Tokens(vec![
        text("test inner"),
        AST::Parenthesis(Box::new(AST::Tokens(vec![
            text("par"),
            AST::Curly(Box::new(AST::Tokens(vec![
                text("curly"),
                AST::Square(Box::new(text("square"))),
                text("curly"),
            ]))),
            text("par"),
        ]))),
    ]);
    assert_eq!(ast, expected);
}

#[test]
fn plain_text_is_one_text_node() {
    assert_eq!(parse("hello, world").unwrap(), text("hello, world"));
    assert_eq!(parse("ab").unwrap(), text("ab"));
    assert_eq!(parse("héllo wörld").unwrap(), text("héllo wörld"));
}

#[test]
fn empty_text_is_empty_text_node() {
    assert_eq!(parse("").unwrap(), text(""));
}

#[test]
fn nested_parentheses() {
    let expected = AST::Parenthesis(Box::new(AST::Tokens(vec![
        text("1"),
        AST::Parenthesis(Box::new(text("2"))),
        text("3"),
    ])));
    assert_eq!(parse("(1(2)3)").unwrap(), expected);
}

#[test]
fn mixed_text_and_group() {
    let expected = AST::Tokens(vec![text("text"), AST::Parenthesis(Box::new(text("a")))]);
    assert_eq!(parse("text(a)").unwrap(), expected);
}

#[test]
fn empty_group_holds_empty_text() {
    assert_eq!(parse("()").unwrap(), AST::Parenthesis(Box::new(text(""))));
    let expected = AST::Tokens(vec![AST::Square(Box::new(text(""))), AST::Curly(Box::new(text("")))]);
    assert_eq!(parse("[]{}").unwrap(), expected);
}

#[test]
fn single_trailing_character_is_kept() {
    let expected = AST::Tokens(vec![
        text("text"),
        AST::Parenthesis(Box::new(text("a"))),
        text("b"),
    ]);
    assert_eq!(parse("text(a)b").unwrap(), expected);
}

#[test]
fn other_kinds_are_inert_inside_a_group() {
    assert_eq!(parse("(aaa]bbb)").unwrap(), AST::Parenthesis(Box::new(text("aaa]bbb"))));
    assert_eq!(parse("x}").unwrap(), text("x}"));
    assert_eq!(parse("(aaa]"), Err(ParseError::HasNoClosing(0)));
}

#[test]
fn nested_error_offset_is_relative_to_its_group() {
    assert_eq!(parse("ab(x{y)"), Err(ParseError::HasNoClosing(1)));
    assert_eq!(parse("a(b(c)"), Err(ParseError::HasNoClosing(1)));
}

#[test]
fn first_unclosed_bracket_wins() {
    assert_eq!(parse("(a)[b{c"), Err(ParseError::HasNoClosing(3)));
}

#[test]
fn offsets_count_characters() {
    assert_eq!(search_end_bracket("(é)", &Bracket::Paren), Some(2));
    let expected = AST::Tokens(vec![text("é"), AST::Curly(Box::new(text("ü")))]);
    assert_eq!(parse("é{ü}").unwrap(), expected);
    assert_eq!(parse("é(ü"), Err(ParseError::HasNoClosing(1)));
}

#[test]
fn matcher_counts_only_its_kind() {
    assert_eq!(search_end_bracket("(a[b)c]", &Bracket::Paren), Some(4));
    assert_eq!(search_end_bracket("{}", &Bracket::Paren), None);
    assert_eq!(search_end_bracket("", &Bracket::Curly), None);
    assert_eq!(search_end_bracket(")(()", &Bracket::Paren), Some(3));
}

#[test]
fn render_writes_variant_names() {
    let ast = parse("text(a)").unwrap();
    assert_eq!(ast.render(), "AST::Tokens([ AST::Text(text), AST::Parenthesis(AST::Text(a)), ]");
    assert_eq!(parse("{b}").unwrap().render(), "AST::Curly(AST::Text(b))");
    assert_eq!(parse("[]").unwrap().render(), "AST::Square(AST::Text())");
}
