use dicer::number::Number;
use dicer::parser::{
    get_precedence, is_operator, parse, parse_array, parse_call_args, parse_parenthesis, tokenize,
    Array, Expr, ParseError, ParseErrorKind, Stmt, Token,
};

fn num(x: f64) -> Number {
    Number::from_bits(x.to_bits())
}

fn val(x: f64) -> Expr {
    Expr::Val(num(x))
}

fn var(name: &str) -> Expr {
    Expr::Var(name.to_owned())
}

fn op(left: Expr, o: char, right: Expr) -> Expr {
    Expr::Operation(Box::new(left), o, Box::new(right))
}

fn list(items: Vec<Expr>) -> Expr {
    Expr::Array(Array(items))
}

fn program(source: &str) -> Result<Vec<Stmt>, ParseError> {
    let tokens = tokenize(source.to_owned()).unwrap();
    let mut i = 0;
    let r = parse(&tokens, &mut i);
    if r.is_ok() {
        assert_eq!(i, tokens.len());
    }
    r
}

fn fails(source: &str, kind: ParseErrorKind, index: usize) {
    assert_eq!(program(source), Err(ParseError { kind, index }));
}

#[test]
fn parses_an_output_statement() {
    let tokens = vec![
        Token::Output,
        Token::Number(num(2.0)),
        Token::Operator('+'),
        Token::Number(num(3.0)),
        Token::Operator('*'),
        Token::Number(num(4.0)),
    ];
    let mut i = 0;
    let stmts = parse(&tokens, &mut i).unwrap();
    assert_eq!(i, 6);
    let expected = Stmt::Out(op(val(2.0), '+', op(val(3.0), '*', val(4.0))));
    assert_eq!(stmts, vec![expected]);
}

#[test]
fn the_operator_table() {
    let tightest_first = ['d', '@', '^', '*', '+', 'l', '_', 'x', '<', '=', '&', '|'];
    for pair in tightest_first.windows(2) {
        assert!(get_precedence(pair[0]) < get_precedence(pair[1]));
    }
    assert_eq!(get_precedence('*'), get_precedence('/'));
    assert_eq!(get_precedence('+'), get_precedence('-'));
    assert_eq!(get_precedence('l'), get_precedence('h'));
    assert_eq!(get_precedence('_'), get_precedence('s'));
    assert_eq!(get_precedence('<'), get_precedence('>'));
    assert_eq!(get_precedence('d'), 1);
    assert_eq!(get_precedence('='), 10);
    for c in "d+-*/^<>=|&@xlh_s".chars() {
        assert!(is_operator(c));
    }
    for c in "!iewfabc$~()[]{},. AZ09\"".chars() {
        assert!(!is_operator(c));
    }
}

#[test]
fn a_tighter_operator_goes_down_the_right_edge() {
    assert_eq!(
        program("$2+3*4"),
        Ok(vec![Stmt::Out(op(val(2.0), '+', op(val(3.0), '*', val(4.0))))])
    );
    assert_eq!(
        program("$2*3+4"),
        Ok(vec![Stmt::Out(op(op(val(2.0), '*', val(3.0)), '+', val(4.0)))])
    );
    assert_eq!(
        program("$1+2*3^4"),
        Ok(vec![Stmt::Out(op(
            val(1.0),
            '+',
            op(val(2.0), '*', op(val(3.0), '^', val(4.0)))
        ))])
    );
    assert_eq!(
        program("$1+2d6"),
        Ok(vec![Stmt::Out(op(val(1.0), '+', op(val(2.0), 'd', val(6.0))))])
    );
    assert_eq!(
        program("$A=1<2"),
        Ok(vec![Stmt::Out(op(var("A"), '=', op(val(1.0), '<', val(2.0))))])
    );
}

#[test]
fn equal_operators_group_to_the_left() {
    assert_eq!(
        program("$2-3-4"),
        Ok(vec![Stmt::Out(op(op(val(2.0), '-', val(3.0)), '-', val(4.0)))])
    );
    assert_eq!(
        program("$8/4*2"),
        Ok(vec![Stmt::Out(op(op(val(8.0), '/', val(4.0)), '*', val(2.0)))])
    );
}

#[test]
fn a_unary_operator_has_zero_on_its_right() {
    assert_eq!(program("$As"), Ok(vec![Stmt::Out(op(var("A"), 's', val(0.0)))]));
    assert_eq!(program("$A_"), Ok(vec![Stmt::Out(op(var("A"), '_', val(0.0)))]));
    assert_eq!(
        program("$1+As"),
        Ok(vec![Stmt::Out(op(op(val(1.0), '+', var("A")), 's', val(0.0)))])
    );
}

#[test]
fn values_of_every_kind() {
    assert_eq!(
        program("$[1,A,[2]]"),
        Ok(vec![Stmt::Out(list(vec![val(1.0), var("A"), list(vec![val(2.0)])]))])
    );
    assert_eq!(program("$[]"), Ok(vec![Stmt::Out(list(vec![]))]));
    assert_eq!(
        program("$(1+2)"),
        Ok(vec![Stmt::Out(op(val(1.0), '+', val(2.0)))])
    );
    assert_eq!(
        program("$3x(1d6)"),
        Ok(vec![Stmt::Out(op(val(3.0), 'x', op(val(1.0), 'd', val(6.0))))])
    );
    assert_eq!(
        program("$PUSH(A,1+2)"),
        Ok(vec![Stmt::Out(Expr::Call(
            "PUSH".to_owned(),
            vec![var("A"), op(val(1.0), '+', val(2.0))]
        ))])
    );
    assert_eq!(
        program("$F()"),
        Ok(vec![Stmt::Out(Expr::Call("F".to_owned(), vec![]))])
    );
    assert_eq!(
        program("$F(G(1),[2])+1"),
        Ok(vec![Stmt::Out(op(
            Expr::Call(
                "F".to_owned(),
                vec![Expr::Call("G".to_owned(), vec![val(1.0)]), list(vec![val(2.0)])]
            ),
            '+',
            val(1.0)
        ))])
    );
}

#[test]
fn statements_follow_one_another() {
    assert_eq!(
        program("A=1 B=A $B ~B"),
        Ok(vec![
            Stmt::Bind("A".to_owned(), val(1.0)),
            Stmt::Bind("B".to_owned(), var("A")),
            Stmt::Out(var("B")),
            Stmt::StringOut(var("B")),
        ])
    );
    assert_eq!(program(""), Ok(vec![]));
    assert_eq!(program("A"), Err(ParseError { kind: ParseErrorKind::Unfinished, index: 1 }));
    assert_eq!(program("A 5"), Ok(vec![Stmt::Bind("A".to_owned(), val(5.0))]));
    assert_eq!(
        program("A==1"),
        Ok(vec![Stmt::Bind("A".to_owned(), val(1.0))])
    );
    assert_eq!(
        program("A=B=1"),
        Ok(vec![Stmt::Bind("A".to_owned(), op(var("B"), '=', val(1.0)))])
    );
}

#[test]
fn control_statements_take_their_blocks() {
    assert_eq!(
        program("if A {$1} else {$2}"),
        Ok(vec![Stmt::Condition(
            var("A"),
            Some(vec![Stmt::Out(val(1.0))]),
            Some(vec![Stmt::Out(val(2.0))])
        )])
    );
    assert_eq!(
        program("if A {}"),
        Ok(vec![Stmt::Condition(var("A"), Some(vec![]), None)])
    );
    assert_eq!(
        program("while A<3 {A=A+1}"),
        Ok(vec![Stmt::While(
            op(var("A"), '<', val(3.0)),
            Some(vec![Stmt::Bind("A".to_owned(), op(var("A"), '+', val(1.0)))])
        )])
    );
    assert_eq!(
        program("for V A {$V}"),
        Ok(vec![Stmt::For(
            Some("V".to_owned()),
            var("A"),
            Some(vec![Stmt::Out(var("V"))])
        )])
    );
    assert_eq!(
        program("for V [1] {if V {$V}} $2"),
        Ok(vec![
            Stmt::For(
                Some("V".to_owned()),
                list(vec![val(1.0)]),
                Some(vec![Stmt::Condition(
                    var("V"),
                    Some(vec![Stmt::Out(var("V"))]),
                    None
                )])
            ),
            Stmt::Out(val(2.0)),
        ])
    );
    assert_eq!(
        program("while A {} B=1"),
        Ok(vec![
            Stmt::While(var("A"), Some(vec![])),
            Stmt::Bind("B".to_owned(), val(1.0)),
        ])
    );
    assert_eq!(
        program("if A {} B=1"),
        Ok(vec![
            Stmt::Condition(var("A"), Some(vec![]), None),
            Stmt::Bind("B".to_owned(), val(1.0)),
        ])
    );
}

#[test]
fn a_value_without_a_place() {
    fails("$1 2", ParseErrorKind::MisplacedValue, 2);
    fails("$[1 2]", ParseErrorKind::MisplacedValue, 3);
    fails("$1(2)", ParseErrorKind::MisplacedValue, 2);
    fails("$1[2]", ParseErrorKind::MisplacedValue, 2);
    fails("if 1 A {}", ParseErrorKind::MisplacedValue, 2);
}

#[test]
fn a_variable_without_a_place_opens_a_binding() {
    assert_eq!(
        program("$1 A=2"),
        Ok(vec![Stmt::Out(val(1.0)), Stmt::Bind("A".to_owned(), val(2.0))])
    );
    assert_eq!(
        program("$1 F(2)"),
        Ok(vec![Stmt::Out(val(1.0)), Stmt::Bind("F".to_owned(), val(2.0))])
    );
    assert_eq!(
        program("A=1 B=A"),
        Ok(vec![Stmt::Bind("A".to_owned(), val(1.0)), Stmt::Bind("B".to_owned(), var("A"))])
    );
}

#[test]
fn an_operator_without_an_operand() {
    fails("$+1", ParseErrorKind::MisplacedOperator, 1);
    fails("$1+*2", ParseErrorKind::MisplacedOperator, 3);
    fails("$[+]", ParseErrorKind::MisplacedOperator, 2);
    fails("$(*)", ParseErrorKind::MisplacedOperator, 2);
}

#[test]
fn a_token_out_of_place() {
    fails("1", ParseErrorKind::Unexpected, 0);
    fails("+", ParseErrorKind::Unexpected, 0);
    fails("(1)", ParseErrorKind::Unexpected, 0);
    fails("[1]", ParseErrorKind::Unexpected, 0);
    fails(")", ParseErrorKind::Unexpected, 0);
    fails("$1)", ParseErrorKind::Unexpected, 2);
    fails("$1]", ParseErrorKind::Unexpected, 2);
    fails("$1,2", ParseErrorKind::Unexpected, 2);
    fails("}", ParseErrorKind::Unexpected, 0);
    fails("$1}", ParseErrorKind::Unexpected, 2);
    fails("else", ParseErrorKind::Unexpected, 0);
    fails("$1 else", ParseErrorKind::Unexpected, 2);
    fails("{", ParseErrorKind::Unexpected, 0);
    fails("$1 {", ParseErrorKind::Unexpected, 2);
    fails("if 1 {} {} {}", ParseErrorKind::Unexpected, 6);
    fails("while 1 {} 2", ParseErrorKind::Unexpected, 4);
    fails("$[1)", ParseErrorKind::Unexpected, 3);
    fails("$(1]", ParseErrorKind::Unexpected, 3);
    fails("$[,1]", ParseErrorKind::Unexpected, 2);
    fails("$[1,,2]", ParseErrorKind::Unexpected, 4);
    fails("$(1,2)", ParseErrorKind::Unexpected, 3);
    fails("$[$]", ParseErrorKind::Unexpected, 2);
    fails("$(if)", ParseErrorKind::Unexpected, 2);
    fails("for (1) {}", ParseErrorKind::Unexpected, 1);
}

#[test]
fn an_empty_token_is_out_of_place_everywhere() {
    let mut i = 0;
    assert_eq!(
        parse(&vec![Token::Empty], &mut i),
        Err(ParseError { kind: ParseErrorKind::Unexpected, index: 0 })
    );
    let mut i = 0;
    assert_eq!(
        parse_array(&vec![Token::Empty], &mut i).map(|a| a.into_inner()),
        Err(ParseError { kind: ParseErrorKind::Unexpected, index: 0 })
    );
    let mut i = 0;
    assert_eq!(
        parse_parenthesis(&vec![Token::Empty], &mut i),
        Err(ParseError { kind: ParseErrorKind::Unexpected, index: 0 })
    );
}

#[test]
fn what_is_no_operator_is_refused_as_one() {
    let tokens = vec![Token::Output, Token::Number(num(1.0)), Token::Operator('!')];
    let mut i = 0;
    assert_eq!(
        parse(&tokens, &mut i),
        Err(ParseError { kind: ParseErrorKind::UnknownOperator, index: 2 })
    );
}

#[test]
fn what_misses_an_operand_or_a_block() {
    fails("$", ParseErrorKind::Unfinished, 1);
    fails("$2+", ParseErrorKind::Unfinished, 3);
    fails("$2+ $3", ParseErrorKind::Unfinished, 3);
    fails("A", ParseErrorKind::Unfinished, 1);
    fails("A=", ParseErrorKind::Unfinished, 2);
    fails("A=1 B", ParseErrorKind::Unfinished, 4);
    fails("$(1+)", ParseErrorKind::Unfinished, 4);
    fails("$()", ParseErrorKind::Unfinished, 2);
    fails("$[1+]", ParseErrorKind::Unfinished, 4);
    fails("$[1+,2]", ParseErrorKind::Unfinished, 4);
    fails("$F(1-)", ParseErrorKind::Unfinished, 5);
    fails("if 1", ParseErrorKind::Unfinished, 2);
    fails("if 1 $2", ParseErrorKind::Unfinished, 2);
    fails("if {}", ParseErrorKind::Unfinished, 1);
    fails("if 1+ {}", ParseErrorKind::Unfinished, 3);
    fails("if 1 {$}", ParseErrorKind::Unfinished, 4);
    fails("if 1 {$2+}", ParseErrorKind::Unfinished, 6);
    fails("while A", ParseErrorKind::Unfinished, 2);
    fails("while {}", ParseErrorKind::Unfinished, 1);
    fails("for {}", ParseErrorKind::Unfinished, 1);
    fails("for V {}", ParseErrorKind::Unfinished, 2);
    fails("for V [1]", ParseErrorKind::Unfinished, 5);
    fails("for V [1] A=1", ParseErrorKind::MisplacedValue, 5);
    fails("$1*+2", ParseErrorKind::MisplacedOperator, 3);
}

fn holds_empty(e: &Expr) -> bool {
    match e {
        Expr::Empty => true,
        Expr::Val(_) | Expr::Var(_) => false,
        Expr::Array(a) => a.0.iter().any(holds_empty),
        Expr::Call(_, args) => args.iter().any(holds_empty),
        Expr::Operation(a, _, b) => holds_empty(a) || holds_empty(b),
    }
}

fn finished(s: &Stmt) -> bool {
    match s {
        Stmt::Bind(_, e) | Stmt::Out(e) | Stmt::StringOut(e) => !holds_empty(e),
        Stmt::Condition(e, Some(a), b) => {
            !holds_empty(e) && a.iter().all(finished) && b.iter().flatten().all(finished)
        }
        Stmt::While(e, Some(a)) | Stmt::For(Some(_), e, Some(a)) => {
            !holds_empty(e) && a.iter().all(finished)
        }
        _ => false,
    }
}

#[test]
fn what_parses_is_finished() {
    let sources = [
        "$1",
        "A=1+2*3 $A",
        "if A {$1} else {for V [1,F(2,[3]s)] {while V<3 {V=V+1}}}",
        "$3x(1d6) ~\"ab\"",
        "$1+ 2",
        "$(1+2)*3 $[1,(2),[3,4_]]l2",
        "$1+",
        "if 1 {$",
        "for V {}",
        "$[1,2+]",
    ];
    for source in sources {
        if let Ok(stmts) = program(source) {
            assert!(stmts.iter().all(finished), "{}", source);
        }
    }
}

#[test]
fn a_binding_wants_its_equals_sign() {
    fails("A+1", ParseErrorKind::ExpectedAssign, 1);
    fails("A<", ParseErrorKind::ExpectedAssign, 1);
}

#[test]
fn a_comma_before_the_end() {
    fails("$[1,]", ParseErrorKind::TrailingComma, 4);
    fails("$[1,2,]", ParseErrorKind::TrailingComma, 6);
    fails("$F(1,)", ParseErrorKind::TrailingComma, 5);
}

#[test]
fn a_bracket_that_nothing_closes() {
    fails("$(1", ParseErrorKind::Unclosed, 3);
    fails("$[1,2", ParseErrorKind::Unclosed, 5);
    fails("$F(1", ParseErrorKind::Unclosed, 4);
    fails("if 1 {$2", ParseErrorKind::Unclosed, 5);
    fails("if 1 {if 2 {}", ParseErrorKind::Unclosed, 7);
    fails("$((1)", ParseErrorKind::Unclosed, 5);
}

#[test]
fn the_pieces_stop_at_their_closing_token() {
    let tokens = tokenize("1,2+3] 4".to_owned()).unwrap();
    let mut i = 0;
    let a = parse_array(&tokens, &mut i).unwrap();
    assert_eq!(i, 5);
    assert_eq!(a.into_inner(), vec![val(1.0), op(val(2.0), '+', val(3.0))]);

    let tokens = tokenize("1+2) 4".to_owned()).unwrap();
    let mut i = 0;
    let e = parse_parenthesis(&tokens, &mut i).unwrap();
    assert_eq!(i, 3);
    assert_eq!(e, op(val(1.0), '+', val(2.0)));

    let tokens = tokenize("A,[1]) 4".to_owned()).unwrap();
    let mut i = 0;
    let args = parse_call_args(&tokens, &mut i).unwrap();
    assert_eq!(i, 5);
    assert_eq!(args, vec![var("A"), list(vec![val(1.0)])]);

    let tokens = tokenize("$1 $2".to_owned()).unwrap();
    let mut i = 2;
    assert_eq!(parse(&tokens, &mut i), Ok(vec![Stmt::Out(val(2.0))]));
    assert_eq!(i, 4);
    let mut i = 9;
    assert_eq!(parse(&tokens, &mut i), Ok(vec![]));
    assert_eq!(i, 9);
}

#[test]
fn the_insertions_one_by_one() {
    assert_eq!(Expr::Empty.add_f(num(1.0)), Ok(val(1.0)));
    assert_eq!(val(1.0).add_f(num(2.0)), Err(ParseErrorKind::MisplacedValue));
    assert_eq!(var("A").add_var("B".to_owned()), Err(ParseErrorKind::MisplacedValue));
    assert_eq!(list(vec![]).add_arr(Array(vec![])), Err(ParseErrorKind::MisplacedValue));
    assert_eq!(Expr::Empty.add_var("A".to_owned()), Ok(var("A")));
    assert_eq!(Expr::Empty.add_arr(Array(vec![val(1.0)])), Ok(list(vec![val(1.0)])));
    assert_eq!(Expr::Empty.add_expr(op(val(1.0), '+', val(2.0))), Ok(op(val(1.0), '+', val(2.0))));
    assert_eq!(Expr::Empty.add_op('+'), Err(ParseErrorKind::MisplacedOperator));
    assert_eq!(
        op(val(1.0), '*', Expr::Empty).add_op('+'),
        Err(ParseErrorKind::MisplacedOperator)
    );
    assert_eq!(val(1.0).add_op('?'), Err(ParseErrorKind::UnknownOperator));
    assert_eq!(val(1.0).add_op('+'), Ok(op(val(1.0), '+', Expr::Empty)));
    assert_eq!(var("A").add_op('d'), Ok(op(var("A"), 'd', Expr::Empty)));
    assert_eq!(list(vec![]).add_op('s'), Ok(op(list(vec![]), 's', val(0.0))));
    let open = op(val(1.0), '+', Expr::Empty);
    assert!(open.is_open());
    assert_eq!(open.clone().add_op('*'), Err(ParseErrorKind::MisplacedOperator));
    assert_eq!(open.clone().add_f(num(2.0)), Ok(op(val(1.0), '+', val(2.0))));
    let closed = op(val(1.0), '+', val(2.0));
    assert!(!closed.is_open());
    assert_eq!(closed.clone().add_f(num(3.0)), Err(ParseErrorKind::MisplacedValue));
    assert_eq!(
        closed.clone().add_op('*'),
        Ok(op(val(1.0), '+', op(val(2.0), '*', Expr::Empty)))
    );
    assert_eq!(
        closed.clone().add_op('-'),
        Ok(op(op(val(1.0), '+', val(2.0)), '-', Expr::Empty))
    );
    assert_eq!(
        closed.clone().add_op('='),
        Ok(op(op(val(1.0), '+', val(2.0)), '=', Expr::Empty))
    );
}

#[test]
fn copies_are_equal_to_what_they_copy() {
    let program = program("if A {for V [1,F(2)] {$V+1}} else {~\"x\"} while 0 {} B=3x(1d6)").unwrap();
    let copy = program.clone();
    assert_eq!(copy, program);
    let a = Array(vec![val(1.0), var("A")]);
    assert_eq!(a.clone(), a);
    assert_eq!(a.into_inner(), vec![val(1.0), var("A")]);
}

#[test]
fn an_error_names_its_token() {
    let tokens = tokenize("$1 AB)".to_owned()).unwrap();
    let mut i = 0;
    let e = parse(&tokens, &mut i).unwrap_err();
    assert_eq!(e, ParseError { kind: ParseErrorKind::Unexpected, index: 3 });
    assert_eq!(e.token(&tokens), Some(&Token::RParen));
    let tokens = tokenize("$1 2".to_owned()).unwrap();
    let mut i = 0;
    let e = parse(&tokens, &mut i).unwrap_err();
    assert_eq!(e.token(&tokens), Some(&Token::Number(num(2.0))));
    let tokens = tokenize("$(1".to_owned()).unwrap();
    let mut i = 0;
    let e = parse(&tokens, &mut i).unwrap_err();
    assert_eq!(e.kind, ParseErrorKind::Unclosed);
    assert_eq!(e.token(&tokens), None);
}
