use sexpr::error::ParseError;
use sexpr::lexer::{Lexer, Location, TokenKind};
use sexpr::model::Model;
use sexpr::parser::{parse, parse_decimal, Parser};

fn integer(n: i64) -> Model {
    Model::Int(n)
}

fn sym(s: &str) -> Model {
    Model::Symbol(s.to_string())
}

fn pair(a: Model, b: Model) -> Model {
    Model::Pair(Box::new(a), Box::new(b))
}

fn loc(start_line: u32, start_column: u32, end_line: u32, end_column: u32) -> Location {
    Location { start_line, start_column, end_line, end_column }
}

#[test]
fn test_parse_number() {
    let mut parser = Parser::new("123").unwrap();
    let exprs = parser.parse().unwrap();
    assert_eq!(exprs.len(), 1);
    assert_eq!(exprs[0], Model::Int(123));
}

#[test]
fn test_parse_string() {
    let mut parser = Parser::new("\"Hello, World!\"").unwrap();
    let exprs = parser.parse().unwrap();
    assert_eq!(exprs.len(), 1);
    assert_eq!(exprs[0], Model::String("Hello, World!".to_string()));
}

#[test]
fn test_parse_s_expr() {
    let mut parser = Parser::new("(1 2 3)").unwrap();
    let exprs = parser.parse().unwrap();
    assert_eq!(exprs.len(), 1);
    assert_eq!(exprs[0], Model::Pair(Box::new(Model::Int(1)), Box::new(Model::Pair(Box::new(Model::Int(2)), Box::new(Model::Pair(Box::new(Model::Int(3)), Box::new(Model::Null)))))));
}

#[test]
fn integer_literals_read_as_their_value() {
    assert_eq!(parse("123").unwrap(), vec![integer(123)]);
    assert_eq!(parse("0").unwrap(), vec![integer(0)]);
    assert_eq!(parse("007").unwrap(), vec![integer(7)]);
    assert_eq!(parse("9223372036854775807").unwrap(), vec![integer(i64::MAX)]);
}

#[test]
fn integer_too_large_is_invalid_number() {
    assert_eq!(
        parse("9223372036854775808"),
        Err(ParseError::InvalidNumber {
            text: "9223372036854775808".to_string(),
            location: loc(1, 1, 1, 20),
        })
    );
}

#[test]
fn float_literals_keep_their_text() {
    let forms = parse("1.5").unwrap();
    assert_eq!(forms, vec![Model::Float("1.5".to_string())]);
    match &forms[0] {
        Model::Float(text) => assert_eq!(text.parse::<f64>().unwrap(), 1.5),
        other => panic!("not a float: {:?}", other),
    }
    assert_eq!(parse("2.").unwrap(), vec![Model::Float("2.".to_string())]);
    assert_eq!(parse("0.25").unwrap(), vec![Model::Float("0.25".to_string())]);
}

#[test]
fn strings_lose_their_quotes() {
    assert_eq!(
        parse("\"Hello, World!\"").unwrap(),
        vec![Model::String("Hello, World!".to_string())]
    );
    assert_eq!(parse("\"\"").unwrap(), vec![Model::String(String::new())]);
}

#[test]
fn strings_keep_non_ascii_text_and_backslashes() {
    assert_eq!(parse("\"héllo wörld\"").unwrap(), vec![Model::String("héllo wörld".to_string())]);
    assert_eq!(parse("\"a\\nb\"").unwrap(), vec![Model::String("a\\nb".to_string())]);
}

#[test]
fn list_is_chain_of_pairs() {
    assert_eq!(
        parse("(1 2 3)").unwrap(),
        vec![pair(integer(1), pair(integer(2), pair(integer(3), Model::Null)))]
    );
}

#[test]
fn nested_lists() {
    assert_eq!(
        parse("(a (b) ())").unwrap(),
        vec![pair(sym("a"), pair(pair(sym("b"), Model::Null), pair(Model::Null, Model::Null)))]
    );
}

#[test]
fn empty_list_is_null() {
    assert_eq!(parse("()").unwrap(), vec![Model::Null]);
}

#[test]
fn quote_reads_as_quote_list() {
    assert_eq!(
        parse("'x").unwrap(),
        vec![pair(sym("quote"), pair(sym("x"), Model::Null))]
    );
    assert_eq!(
        parse("'(1)").unwrap(),
        vec![pair(sym("quote"), pair(pair(integer(1), Model::Null), Model::Null))]
    );
}

#[test]
fn literal_symbols() {
    assert_eq!(parse("#t").unwrap(), vec![Model::Bool(true)]);
    assert_eq!(parse("#f").unwrap(), vec![Model::Bool(false)]);
    assert_eq!(parse("null").unwrap(), vec![Model::Null]);
    assert_eq!(parse("NULL").unwrap(), vec![sym("NULL")]);
    assert_eq!(parse("#tt").unwrap(), vec![sym("#tt")]);
    assert_eq!(parse("nul").unwrap(), vec![sym("nul")]);
}

#[test]
fn symbols_take_the_punctuation_set() {
    assert_eq!(parse("a-b?!=<>+*/%&|~#_").unwrap(), vec![sym("a-b?!=<>+*/%&|~#_")]);
}

#[test]
fn number_then_symbol_split() {
    assert_eq!(parse("12ab").unwrap(), vec![integer(12), sym("ab")]);
}

#[test]
fn unmatched_paren_points_at_the_open_paren() {
    assert_eq!(
        parse("(1 2"),
        Err(ParseError::UnmatchedParen { location: loc(1, 1, 1, 2) })
    );
}

#[test]
fn unmatched_paren_points_at_the_outermost_open_paren() {
    assert_eq!(
        parse("x\n  (a (b"),
        Err(ParseError::UnmatchedParen { location: loc(2, 3, 2, 4) })
    );
}

#[test]
fn unterminated_string() {
    assert_eq!(
        parse("\"abc"),
        Err(ParseError::UnterminatedString { location: loc(1, 1, 1, 5) })
    );
}

#[test]
fn comments_are_transparent() {
    assert_eq!(parse("; comment\n42").unwrap(), vec![integer(42)]);
    assert_eq!(parse("; comment\n42").unwrap(), parse("42").unwrap());
    assert_eq!(parse("1 ; two\n3 ; four").unwrap(), vec![integer(1), integer(3)]);
    assert_eq!(parse("; only a comment").unwrap(), vec![]);
}

#[test]
fn reparsing_gives_equal_forms() {
    let src = "(define (f x) '(x \"y\" 1.5 #t)) ; done\n(f 2)";
    assert_eq!(parse(src), parse(src));
    assert_eq!(parse("(1"), parse("(1"));
}

#[test]
fn empty_source_has_no_forms() {
    assert_eq!(parse("").unwrap(), vec![]);
    assert_eq!(parse(" \t\r\n").unwrap(), vec![]);
}

#[test]
fn invalid_byte_is_invalid_token() {
    assert_eq!(parse("@"), Err(ParseError::InvalidToken { location: loc(1, 1, 1, 2) }));
    assert_eq!(parse("(a\n .b)"), Err(ParseError::InvalidToken { location: loc(2, 2, 2, 3) }));
    assert_eq!(parse("\0"), Err(ParseError::InvalidToken { location: loc(1, 1, 1, 2) }));
}

#[test]
fn close_paren_where_expression_expected() {
    assert_eq!(
        parse(")"),
        Err(ParseError::UnexpectedToken {
            expected: "expression".to_string(),
            found: TokenKind::RParen,
            location: loc(1, 1, 1, 2),
        })
    );
    assert_eq!(
        parse("[1]"),
        Err(ParseError::UnexpectedToken {
            expected: "expression".to_string(),
            found: TokenKind::LBracket,
            location: loc(1, 1, 1, 2),
        })
    );
}

#[test]
fn quote_at_end_of_input() {
    assert_eq!(
        parse("'"),
        Err(ParseError::UnexpectedEof { expected: "expression".to_string(), location: loc(1, 2, 1, 2) })
    );
}

#[test]
fn error_location_accessor() {
    let e = parse("\n\n  )").unwrap_err();
    assert_eq!(e.location(), loc(3, 3, 3, 4));
}

#[test]
fn tokens_carry_spans_and_locations() {
    let mut lexer = Lexer::new("(ab\n \"x\ny\" 12.5)");
    let tokens = lexer.collect().unwrap();
    let kinds: Vec<TokenKind> = tokens.iter().map(|t| t.kind).collect();
    assert_eq!(
        kinds,
        vec![
            TokenKind::LParen,
            TokenKind::Symbol,
            TokenKind::String,
            TokenKind::Number,
            TokenKind::RParen,
            TokenKind::Eof
        ]
    );
    assert_eq!(tokens[1].location, loc(1, 2, 1, 4));
    assert_eq!(tokens[2].location, loc(2, 2, 3, 3));
    assert_eq!((tokens[2].span.start, tokens[2].span.end), (5, 10));
    assert_eq!(tokens[3].location, loc(3, 4, 3, 8));
    assert_eq!(tokens[5].location, loc(3, 9, 3, 9));
    assert_eq!((tokens[5].span.start, tokens[5].span.end), (16, 16));
    let source = "(ab\n \"x\ny\" 12.5)".as_bytes();
    assert_eq!(tokens[3].text(source), b"12.5".to_vec());
}

#[test]
fn columns_reset_after_newline() {
    let mut lexer = Lexer::new("a\nbb\n\nc");
    let tokens = lexer.collect().unwrap();
    assert_eq!(tokens[0].location, loc(1, 1, 1, 2));
    assert_eq!(tokens[1].location, loc(2, 1, 2, 3));
    assert_eq!(tokens[2].location, loc(4, 1, 4, 2));
    for w in tokens.windows(2) {
        assert!(w[0].location.start_line <= w[1].location.start_line);
    }
}

#[test]
fn decimal_reading() {
    assert_eq!(parse_decimal(b"0"), Some(0));
    assert_eq!(parse_decimal(b"42"), Some(42));
    assert_eq!(parse_decimal(b"9223372036854775807"), Some(i64::MAX));
    assert_eq!(parse_decimal(b"9223372036854775808"), None);
    assert_eq!(parse_decimal(b""), Some(0));
}

#[test]
fn number_token_reads_directly() {
    let mut p = Parser::new("007 1.25").unwrap();
    assert_eq!(p.parse_number(), Ok(Model::Int(7)));
    assert_eq!(p.parse_number(), Ok(Model::Float("1.25".to_string())));
}

#[test]
fn string_token_keeps_content_verbatim() {
    let mut p = Parser::new("\"a\\\" \"\" \"b\nc\"").unwrap();
    assert_eq!(p.parse_string(), Ok(Model::String("a\\".to_string())));
    assert_eq!(p.parse_string(), Ok(Model::String(String::new())));
    assert_eq!(p.parse_string(), Ok(Model::String("b\nc".to_string())));
}

#[test]
fn symbol_token_reads_directly() {
    let mut p = Parser::new("#t foo").unwrap();
    assert_eq!(p.parse_symbol(), Ok(Model::Bool(true)));
    assert_eq!(p.parse_symbol(), Ok(sym("foo")));
}

#[test]
fn token_locations_never_go_back() {
    let src = "(a \"x\ny\"\n  12) ; c\n'b";
    let tokens = Lexer::new(src).collect().unwrap();
    for t in &tokens {
        let l = t.location;
        assert!((l.start_line, l.start_column) <= (l.end_line, l.end_column));
    }
    for w in tokens.windows(2) {
        let (a, b) = (w[0].location, w[1].location);
        assert!((a.end_line, a.end_column) <= (b.start_line, b.start_column));
    }
}

#[test]
fn comment_between_tokens_is_transparent() {
    assert_eq!(parse("(a ; note\nb)").unwrap(), parse("(a b)").unwrap());
    assert_eq!(parse("1;x\n2").unwrap(), vec![integer(1), integer(2)]);
}
