use sexpr::ast::{Expression, Program};
use sexpr::pos::Pos;
use sexpr::reader::{is_symbol_char, ReadError, Reader};

#[test]
fn test_num_list() {
    let mut reader = Reader::new("(1 2 3)");
    let program = reader.read().unwrap();
    assert_eq!(program.to_string(), "(1 2 3)\n");
}

#[test]
fn test_symbol() {
    let mut reader = Reader::new("(a b c)");
    let program = reader.read().unwrap();
    assert_eq!(program.to_string(), "(a b c)\n");
}

#[test]
fn reader_keeps_positions() {
    let mut reader = Reader::new("foo\n  (bar)");
    let program = reader.read().unwrap();
    assert_eq!(program.expressions.len(), 2);
    assert_eq!(
        program.expressions[0],
        Expression::Symbol { name: "foo".to_string(), pos: Pos::new(1, 1) }
    );
    assert_eq!(
        program.expressions[1],
        Expression::List {
            items: vec![Expression::Symbol { name: "bar".to_string(), pos: Pos::new(2, 4) }],
            pos: Pos::new(2, 3),
        }
    );
    assert_eq!(program.to_string(), "foo\n(bar)\n");
}

#[test]
fn reader_reads_digits_as_symbols() {
    let mut reader = Reader::new("12");
    let program = reader.read().unwrap();
    assert_eq!(
        program.expressions,
        vec![Expression::Symbol { name: "12".to_string(), pos: Pos::new(1, 1) }]
    );
    assert_eq!(Reader::new("12.5").read(), Err(ReadError::InvalidExpression(Pos::new(1, 3))));
}

#[test]
fn reader_errors() {
    assert_eq!(Reader::new(")").read(), Err(ReadError::InvalidExpression(Pos::new(1, 1))));
    assert_eq!(Reader::new("a ").read(), Err(ReadError::UnexpectedEof(Pos::new(1, 3))));
    assert_eq!(Reader::new("(a )").read(), Err(ReadError::InvalidExpression(Pos::new(1, 4))));
}

#[test]
fn reader_open_list_ends_with_input() {
    let program = Reader::new("(a (b").read().unwrap();
    assert_eq!(program.to_string(), "(a (b))\n");
}

#[test]
fn reader_unicode_symbols() {
    let program = Reader::new("(héllo wörld)").read().unwrap();
    assert_eq!(program.to_string(), "(héllo wörld)\n");
    assert!(is_symbol_char('é'));
    assert!(is_symbol_char('7'));
    assert!(is_symbol_char('%'));
    assert!(!is_symbol_char('#'));
    assert!(!is_symbol_char('('));
}

#[test]
fn program_renders_each_expression_on_a_line() {
    let program = Program::new(vec![
        Expression::Number { text: "1.5".to_string(), pos: Pos::default() },
        Expression::List { items: vec![], pos: Pos::default() },
    ]);
    assert_eq!(program.to_string(), "1.5\n()\n");
    assert_eq!(Pos::default(), Pos::new(1, 1));
}
