use dicer::chance::{dice_op, power_op};
use dicer::environment::Environment;
use dicer::evaluator::{evaluate, evaluate_expr, x_op, EvArray};
use dicer::number::Number;
use dicer::ops::{
    and_op, at_op, call, contains_op, divide_op, equal_op, flatten_op, keephigh_op, keeplow_op,
    less_op, minus_op, more_op, or_op, plus_op, push_op, shallow_flatten_op, sort_numbers, sum_op,
    times_op,
};
use dicer::parser::{Expr, Stmt};
use dicer::program::{interpret, Failure};
use dicer::value::EvalError;

fn num(x: f64) -> Number {
    Number::from_bits(x.to_bits())
}

fn f(x: f64) -> EvArray {
    EvArray::F(num(x))
}

fn a(items: Vec<EvArray>) -> EvArray {
    EvArray::A(items)
}

fn fs(items: &[f64]) -> EvArray {
    EvArray::A(items.iter().map(|x| f(*x)).collect())
}

#[test]
fn arithmetic_on_values() {
    assert_eq!(plus_op(f(1.0), f(2.0)), Ok(f(3.0)));
    assert_eq!(minus_op(f(1.0), f(2.0)), Ok(f(-1.0)));
    assert_eq!(times_op(f(3.0), f(2.0)), Ok(f(6.0)));
    assert_eq!(divide_op(f(3.0), f(2.0)), Ok(f(1.5)));
    assert_eq!(divide_op(f(3.0), f(0.0)), Err(EvalError::DivisionByZero));
    assert_eq!(divide_op(f(3.0), f(-0.0)), Err(EvalError::DivisionByZero));
    assert_eq!(minus_op(fs(&[5.0, 7.0]), f(2.0)), Ok(fs(&[3.0, 5.0])));
    assert_eq!(minus_op(f(10.0), fs(&[5.0, 7.0])), Ok(fs(&[5.0, 3.0])));
    assert_eq!(times_op(fs(&[1.0, 2.0]), fs(&[3.0, 4.0])), Ok(fs(&[3.0, 8.0])));
    assert_eq!(plus_op(fs(&[]), fs(&[])), Ok(fs(&[])));
    assert_eq!(plus_op(fs(&[]), f(1.0)), Ok(fs(&[])));
    assert_eq!(
        plus_op(a(vec![fs(&[1.0, 2.0]), f(3.0)]), a(vec![f(10.0), fs(&[1.0, 2.0])])),
        Ok(a(vec![fs(&[11.0, 12.0]), fs(&[4.0, 5.0])]))
    );
    assert_eq!(plus_op(fs(&[1.0]), fs(&[1.0, 2.0])), Err(EvalError::SizeMismatch));
    assert_eq!(
        divide_op(fs(&[1.0, 2.0, 3.0]), a(vec![f(0.0), fs(&[1.0, 2.0]), f(1.0)])),
        Err(EvalError::DivisionByZero)
    );
    assert_eq!(
        divide_op(a(vec![fs(&[1.0]), f(1.0)]), a(vec![fs(&[1.0, 2.0]), f(0.0)])),
        Err(EvalError::SizeMismatch)
    );
}

#[test]
fn comparisons_on_values() {
    assert_eq!(less_op(f(1.0), f(2.0)), Ok(f(1.0)));
    assert_eq!(less_op(f(2.0), f(2.0)), Ok(f(0.0)));
    assert_eq!(more_op(f(3.0), f(2.0)), Ok(f(1.0)));
    assert_eq!(more_op(f(2.0), f(2.0)), Ok(f(0.0)));
    assert_eq!(less_op(f(f64::NAN), f(2.0)), Ok(f(0.0)));
    assert_eq!(more_op(f(f64::NAN), f(2.0)), Ok(f(0.0)));
    assert_eq!(less_op(fs(&[]), f(2.0)), Err(EvalError::TypeMismatch));
    assert_eq!(more_op(f(2.0), fs(&[])), Err(EvalError::TypeMismatch));
    assert_eq!(and_op(f(2.0), f(-1.0)), Ok(f(1.0)));
    assert_eq!(and_op(f(2.0), f(0.0)), Ok(f(0.0)));
    assert_eq!(and_op(f(f64::NAN), f(1.0)), Ok(f(1.0)));
    assert_eq!(or_op(f(0.0), f(-0.0)), Ok(f(0.0)));
    assert_eq!(or_op(f(0.0), f(0.5)), Ok(f(1.0)));
    assert_eq!(and_op(fs(&[1.0]), f(1.0)), Err(EvalError::TypeMismatch));
    assert_eq!(or_op(f(1.0), fs(&[1.0])), Err(EvalError::TypeMismatch));
}

#[test]
fn equality_on_values() {
    assert_eq!(equal_op(f(1.0), f(1.0)), Ok(f(1.0)));
    assert_eq!(equal_op(f(0.0), f(-0.0)), Ok(f(1.0)));
    assert_eq!(equal_op(f(1.0), f(2.0)), Ok(f(0.0)));
    assert_eq!(equal_op(f(f64::NAN), f(f64::NAN)), Ok(f(0.0)));
    assert_eq!(equal_op(f(1.0), fs(&[1.0])), Ok(f(0.0)));
    assert_eq!(equal_op(fs(&[1.0]), f(1.0)), Ok(f(0.0)));
    assert_eq!(equal_op(fs(&[]), fs(&[])), Ok(f(1.0)));
    let nested = a(vec![f(1.0), a(vec![f(2.0), fs(&[3.0])]), fs(&[])]);
    assert_eq!(equal_op(nested.clone(), nested.clone()), Ok(f(1.0)));
    assert_eq!(
        equal_op(nested.clone(), a(vec![f(1.0), a(vec![f(2.0), fs(&[4.0])]), fs(&[])])),
        Ok(f(0.0))
    );
    assert_eq!(equal_op(fs(&[f64::NAN]), fs(&[f64::NAN])), Ok(f(0.0)));
    assert!(nested.equals(&nested));
    assert!(nested.is_true());
    assert!(!f(0.0).is_true());
    assert!(!f(-0.0).is_true());
    assert!(f(f64::NAN).is_true());
}

#[test]
fn indexing_on_values() {
    assert_eq!(at_op(f(1.0), fs(&[5.0, 6.0])), Ok(f(6.0)));
    assert_eq!(at_op(f(f64::NAN), fs(&[5.0, 6.0])), Ok(f(5.0)));
    assert_eq!(at_op(f(-0.5), fs(&[5.0, 6.0])), Err(EvalError::Negative));
    assert_eq!(at_op(f(2.0), fs(&[5.0, 6.0])), Err(EvalError::OutOfRange));
    assert_eq!(at_op(f(0.0), fs(&[])), Err(EvalError::OutOfRange));
    assert_eq!(at_op(f(1e300), fs(&[5.0])), Err(EvalError::OutOfRange));
    assert_eq!(at_op(f(0.0), f(1.0)), Err(EvalError::TypeMismatch));
    assert_eq!(at_op(fs(&[0.0]), fs(&[1.0])), Err(EvalError::TypeMismatch));
}

#[test]
fn keeping_on_values() {
    assert_eq!(keeplow_op(fs(&[5.0, 3.0, 8.0, 1.0]), f(2.0)), Ok(fs(&[1.0, 3.0])));
    assert_eq!(keephigh_op(fs(&[5.0, 3.0, 8.0, 1.0]), f(2.0)), Ok(fs(&[8.0, 5.0])));
    assert_eq!(keeplow_op(fs(&[2.0, -1.0, 2.0, -7.5]), f(4.0)), Ok(fs(&[-7.5, -1.0, 2.0, 2.0])));
    assert_eq!(keephigh_op(fs(&[]), f(0.0)), Ok(fs(&[])));
    assert_eq!(keeplow_op(fs(&[1.0]), f(2.0)), Err(EvalError::OutOfRange));
    assert_eq!(keeplow_op(fs(&[1.0]), f(-1.0)), Err(EvalError::Negative));
    assert_eq!(keeplow_op(a(vec![fs(&[1.0])]), f(1.0)), Err(EvalError::TypeMismatch));
    assert_eq!(keeplow_op(f(1.0), f(1.0)), Err(EvalError::TypeMismatch));
    assert_eq!(keephigh_op(fs(&[1.0]), fs(&[1.0])), Err(EvalError::TypeMismatch));
}

#[test]
fn ties_keep_their_order() {
    let bits = |v: &Vec<Number>| v.iter().map(|n| n.to_bits()).collect::<Vec<u64>>();
    let zeros = vec![num(0.0), num(-0.0), num(1.0), num(-0.0), num(0.0), num(-1.0)];
    assert_eq!(
        bits(&sort_numbers(&zeros, false)),
        bits(&vec![num(-1.0), num(0.0), num(-0.0), num(-0.0), num(0.0), num(1.0)])
    );
    assert_eq!(
        bits(&sort_numbers(&zeros, true)),
        bits(&vec![num(1.0), num(0.0), num(-0.0), num(-0.0), num(0.0), num(-1.0)])
    );
    assert_eq!(bits(&sort_numbers(&vec![], true)), Vec::<u64>::new());
}

#[test]
fn flattening_on_values() {
    let nested = a(vec![f(1.0), a(vec![f(2.0), fs(&[3.0, 4.0])]), fs(&[]), f(5.0)]);
    assert_eq!(flatten_op(nested.clone()), Ok(fs(&[1.0, 2.0, 3.0, 4.0, 5.0])));
    assert_eq!(
        shallow_flatten_op(nested.clone()),
        Ok(a(vec![f(1.0), f(2.0), fs(&[3.0, 4.0]), f(5.0)]))
    );
    assert_eq!(flatten_op(f(1.0)), Ok(f(1.0)));
    assert_eq!(shallow_flatten_op(f(1.0)), Ok(f(1.0)));
    assert_eq!(flatten_op(fs(&[])), Ok(fs(&[])));
    assert_eq!(shallow_flatten_op(fs(&[])), Ok(fs(&[])));
}

#[test]
fn shallow_flattening_through_the_evaluator() {
    let e = Expr::Operation(
        Box::new(Expr::Var("A".to_owned())),
        '!',
        Box::new(Expr::Val(num(0.0))),
    );
    let mut env = Environment::new();
    env.insert("A".to_owned(), a(vec![fs(&[1.0]), a(vec![fs(&[2.0])])]));
    assert_eq!(evaluate_expr(&e, &env), Ok(a(vec![f(1.0), fs(&[2.0])])));
    assert_eq!(
        evaluate(&vec![Stmt::Out(e)], &mut env, 0),
        Ok("[1,[2]]\n".to_owned())
    );
}

#[test]
fn an_operator_that_the_language_lacks() {
    let e = Expr::Operation(
        Box::new(Expr::Var("Z".to_owned())),
        '?',
        Box::new(Expr::Val(num(0.0))),
    );
    assert_eq!(evaluate_expr(&e, &Environment::new()), Err(EvalError::UnknownOperator('?')));
    assert_eq!(evaluate_expr(&Expr::Empty, &Environment::new()), Err(EvalError::Unfinished));
    assert_eq!(
        evaluate(&vec![Stmt::Empty], &mut Environment::new(), 5),
        Err(EvalError::Unfinished)
    );
    assert_eq!(
        evaluate(
            &vec![Stmt::Condition(Expr::Var("Z".to_owned()), None, None)],
            &mut Environment::new(),
            5
        ),
        Err(EvalError::Unfinished)
    );
}

#[test]
fn summing_on_values() {
    assert_eq!(sum_op(fs(&[1.0, 2.0, 3.5])), Ok(f(6.5)));
    assert_eq!(sum_op(fs(&[1e100, 1.0, -1e100])), Ok(f(0.0)));
    assert_eq!(sum_op(fs(&[])), Ok(f(0.0)));
    assert_eq!(sum_op(f(4.0)), Ok(f(4.0)));
    assert_eq!(sum_op(a(vec![f(1.0), fs(&[])])), Err(EvalError::TypeMismatch));
}

#[test]
fn the_functions_on_values() {
    assert_eq!(contains_op(&fs(&[1.0, 2.0]), &f(2.0)), f(1.0));
    assert_eq!(contains_op(&fs(&[1.0, 2.0]), &f(3.0)), f(0.0));
    assert_eq!(contains_op(&f(2.0), &f(2.0)), f(1.0));
    assert_eq!(contains_op(&f(2.0), &fs(&[2.0])), f(0.0));
    assert_eq!(push_op(fs(&[1.0]), fs(&[2.0])), Ok(a(vec![f(1.0), fs(&[2.0])])));
    assert_eq!(push_op(f(1.0), f(2.0)), Err(EvalError::TypeMismatch));
    assert_eq!(call(&"PUSH".to_owned(), vec![fs(&[]), f(1.0)]), Ok(fs(&[1.0])));
    assert_eq!(call(&"CONTAINS".to_owned(), vec![fs(&[1.0]), f(1.0)]), Ok(f(1.0)));
    assert_eq!(call(&"PUSH".to_owned(), vec![fs(&[])]), Err(EvalError::ArityMismatch));
    assert_eq!(call(&"push".to_owned(), vec![fs(&[]), f(1.0)]), Err(EvalError::UnknownFunction));
    assert_eq!(call(&"".to_owned(), vec![]), Err(EvalError::UnknownFunction));
}

#[test]
fn dice_on_values() {
    for _ in 0..100 {
        match dice_op(f(4.0), f(3.0)).unwrap() {
            EvArray::A(items) => {
                assert_eq!(items.len(), 4);
                for item in items {
                    assert!(item == f(1.0) || item == f(2.0) || item == f(3.0));
                }
            }
            EvArray::F(_) => panic!("a roll is an array"),
        }
    }
    assert_eq!(dice_op(f(3.0), f(1.0)), Ok(fs(&[1.0, 1.0, 1.0])));
    assert_eq!(dice_op(f(2.0), a(vec![fs(&[7.0])])), Ok(a(vec![fs(&[7.0]), fs(&[7.0])])));
    assert_eq!(dice_op(f(0.9), f(6.0)), Ok(fs(&[])));
    assert_eq!(dice_op(f(-3.0), f(6.0)), Ok(fs(&[])));
    assert_eq!(dice_op(f(1.0), f(0.5)), Err(EvalError::NothingToDraw));
    assert_eq!(dice_op(f(1.0), fs(&[])), Err(EvalError::NothingToDraw));
    assert_eq!(dice_op(fs(&[1.0]), f(6.0)), Err(EvalError::TypeMismatch));
}

#[test]
fn powers_on_values() {
    assert_eq!(power_op(f(3.0), f(2.0)), Ok(f(9.0)));
    assert_eq!(power_op(fs(&[1.0, 2.0]), fs(&[3.0, 4.0])), Ok(fs(&[1.0, 16.0])));
    assert_eq!(power_op(fs(&[1.0]), fs(&[])), Err(EvalError::SizeMismatch));
    assert_eq!(
        power_op(a(vec![fs(&[2.0]), f(2.0)]), f(3.0)),
        Ok(a(vec![fs(&[8.0]), f(8.0)]))
    );
}

#[test]
fn the_text_of_values() {
    assert_eq!(f(1.5).to_string(), "1.5");
    assert_eq!(fs(&[]).to_string(), "[]");
    assert_eq!(fs(&[1.0]).to_string(), "[1]");
    assert_eq!(a(vec![f(1.0), fs(&[2.0, 3.0]), fs(&[])]).to_string(), "[1,[2,3],[]]");
    assert_eq!(fs(&[72.0, 105.9]).stringify(), Ok("Hi".to_owned()));
    assert_eq!(f(955.0).stringify(), Ok("\u{3bb}".to_owned()));
    assert_eq!(fs(&[]).stringify(), Ok("".to_owned()));
    assert_eq!(f(55296.0).stringify(), Err(EvalError::InvalidCodePoint));
    assert_eq!(f(57343.0).stringify(), Err(EvalError::InvalidCodePoint));
    assert_eq!(f(57344.0).stringify(), Ok("\u{e000}".to_owned()));
    assert_eq!(f(1e10).stringify(), Err(EvalError::InvalidCodePoint));
    assert_eq!(f(-1.0).stringify(), Err(EvalError::InvalidCodePoint));
    assert_eq!(f(-0.5).stringify(), Err(EvalError::InvalidCodePoint));
    assert_eq!(f(f64::NAN).stringify(), Err(EvalError::InvalidCodePoint));
    assert_eq!(f(f64::NEG_INFINITY).stringify(), Err(EvalError::InvalidCodePoint));
    assert_eq!(fs(&[65.0, -1.0]).stringify(), Err(EvalError::InvalidCodePoint));
    assert_eq!(f(-0.0).stringify(), Ok("\u{0}".to_owned()));
    assert_eq!(a(vec![fs(&[1.0])]).stringify(), Err(EvalError::TypeMismatch));
    assert_eq!(
        a(vec![f(55296.0), fs(&[1.0])]).stringify(),
        Err(EvalError::InvalidCodePoint)
    );
}

#[test]
fn code_points_come_back_from_their_text() {
    let codes: Vec<u32> = vec![0, 65, 955, 0xD7FF, 0xE000, 0x1F600, 0x10FFFF];
    let array = EvArray::A(codes.iter().map(|c| EvArray::F(Number::from_count(*c as usize))).collect());
    let text = array.stringify().unwrap();
    let again =
        EvArray::A(text.chars().map(|c| EvArray::F(Number::from_count(c as usize))).collect());
    assert_eq!(again, array);
    assert_eq!(text.chars().map(|c| c as u32).collect::<Vec<u32>>(), codes);
}

#[test]
fn the_environment_keeps_the_last_value() {
    let mut env = Environment::new();
    assert_eq!(env.get(&"A".to_owned()), None);
    env.insert("A".to_owned(), f(1.0));
    env.insert("B".to_owned(), f(2.0));
    env.insert("A".to_owned(), fs(&[3.0]));
    assert_eq!(env.get(&"A".to_owned()), Some(fs(&[3.0])));
    assert_eq!(env.get(&"B".to_owned()), Some(f(2.0)));
    assert_eq!(env.entries.len(), 2);
}

#[test]
fn from_text_to_text() {
    assert_eq!(interpret("A=[1,2,3] B=As $B*2".to_owned(), 0), Ok("12\n".to_owned()));
    assert_eq!(interpret("A=[1,2,3] $2*As".to_owned(), 0), Ok("12\n".to_owned()));
    assert_eq!(interpret("A=[1,2,3] $As*2".to_owned(), 0), Ok("6\n".to_owned()));
    assert_eq!(
        interpret("$1..".to_owned(), 0),
        Err(Failure::Lex(dicer::lexer::LexError { index: 1 }))
    );
    assert_eq!(
        interpret("$)".to_owned(), 0),
        Err(Failure::Parse(dicer::parser::ParseError {
            kind: dicer::parser::ParseErrorKind::Unexpected,
            index: 1
        }))
    );
    assert_eq!(interpret("$A".to_owned(), 0), Err(Failure::Eval(EvalError::UnboundVariable)));
    assert_eq!(interpret("while 1 {}".to_owned(), 3), Err(Failure::Eval(EvalError::StepLimit)));
    assert_eq!(interpret("A=1 $A".to_owned(), 0), interpret("A=1 $A".to_owned(), 9));
}

#[test]
fn repetition_on_values() {
    let roll = Expr::Operation(
        Box::new(Expr::Val(num(1.0))),
        'd',
        Box::new(Expr::Val(num(6.0))),
    );
    let env = Environment::new();
    let mut differed = false;
    for _ in 0..200 {
        match x_op(f(3.0), &roll, &env).unwrap() {
            EvArray::A(rounds) => {
                assert_eq!(rounds.len(), 3);
                for round in rounds.iter() {
                    match round {
                        EvArray::A(one) => assert_eq!(one.len(), 1),
                        EvArray::F(_) => panic!("a round is a roll"),
                    }
                }
                if rounds[0] != rounds[1] || rounds[1] != rounds[2] {
                    differed = true;
                }
            }
            EvArray::F(_) => panic!("a repetition is an array"),
        }
    }
    assert!(differed);
    assert_eq!(x_op(f(2.0), &Expr::Val(num(7.0)), &env), Ok(fs(&[7.0, 7.0])));
    assert_eq!(x_op(f(0.0), &Expr::Var("Z".to_owned()), &env), Ok(fs(&[])));
    assert_eq!(x_op(f(1.0), &Expr::Var("Z".to_owned()), &env), Err(EvalError::UnboundVariable));
    assert_eq!(x_op(fs(&[1.0, 2.0]), &Expr::Val(num(2.0)), &env), Ok(fs(&[1.0, 2.0, 1.0, 2.0])));
    assert_eq!(
        x_op(fs(&[1.0]), &Expr::Array(dicer::parser::Array(vec![])), &env),
        Err(EvalError::TypeMismatch)
    );
}
