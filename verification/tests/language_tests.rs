use dicer::environment::Environment;
use dicer::evaluator::{evaluate, EvArray};
use dicer::number::Number;
use dicer::parser::{parse, tokenize, ParseErrorKind};
use dicer::value::EvalError;

#[derive(Debug, PartialEq)]
enum Failure {
    Lex(usize),
    Parse(ParseErrorKind, usize),
    Eval(EvalError),
}

fn run_in(source: &str, env: &mut Environment, limit: u64) -> Result<String, Failure> {
    let tokens = match tokenize(source.to_owned()) {
        Ok(tokens) => tokens,
        Err(e) => return Err(Failure::Lex(e.index)),
    };
    let mut i = 0;
    let program = match parse(&tokens, &mut i) {
        Ok(program) => program,
        Err(e) => return Err(Failure::Parse(e.kind, e.index)),
    };
    match evaluate(&program, env, limit) {
        Ok(text) => Ok(text),
        Err(e) => Err(Failure::Eval(e)),
    }
}

fn run(source: &str) -> Result<String, Failure> {
    run_in(source, &mut Environment::new(), 100_000)
}

fn num(x: f64) -> Number {
    Number::from_bits(x.to_bits())
}

#[test]
fn multiplication_binds_tighter_than_addition() {
    assert_eq!(run("$2+3*4"), Ok("14\n".to_owned()));
    assert_eq!(run("$2*3+4"), Ok("10\n".to_owned()));
}

#[test]
fn subtraction_groups_to_the_left() {
    assert_eq!(run("$2-3-4"), Ok("-5\n".to_owned()));
}

#[test]
fn a_scalar_spreads_over_an_array() {
    assert_eq!(run("$[1,2,3]+1"), Ok("[2,3,4]\n".to_owned()));
    assert_eq!(run("$1+[1,2,3]"), Ok("[2,3,4]\n".to_owned()));
    assert_eq!(run("$[[1,2],3]*2"), Ok("[[2,4],6]\n".to_owned()));
    assert_eq!(run("$[1,2]+[10,20]"), Ok("[11,22]\n".to_owned()));
}

#[test]
fn arrays_of_different_lengths_do_not_add() {
    assert_eq!(run("$[1,2]+[1,2,3]"), Err(Failure::Eval(EvalError::SizeMismatch)));
    assert_eq!(run("$[[1,2],[3]]+[[1,2],[3,4]]"), Err(Failure::Eval(EvalError::SizeMismatch)));
}

#[test]
fn five_dice_of_six_faces() {
    for _ in 0..200 {
        let text = run("$5d6").unwrap();
        let inner = text.trim_end_matches('\n');
        assert!(inner.starts_with('[') && inner.ends_with(']'));
        let rolls: Vec<u32> =
            inner[1..inner.len() - 1].split(',').map(|r| r.parse().unwrap()).collect();
        assert_eq!(rolls.len(), 5);
        for r in rolls {
            assert!(1 <= r && r <= 6);
        }
    }
}

#[test]
fn dice_do_show_every_face() {
    let mut seen = [false; 6];
    for _ in 0..500 {
        let text = run("$1d6").unwrap();
        let inner = text.trim_end_matches('\n');
        let roll: usize = inner[1..inner.len() - 1].parse().unwrap();
        seen[roll - 1] = true;
    }
    assert_eq!(seen, [true; 6]);
}

#[test]
fn picks_come_from_the_pool() {
    for _ in 0..100 {
        let text = run("$3d[10,20,30]").unwrap();
        let inner = text.trim_end_matches('\n');
        let picks: Vec<u32> =
            inner[1..inner.len() - 1].split(',').map(|r| r.parse().unwrap()).collect();
        assert_eq!(picks.len(), 3);
        for p in picks {
            assert!(p == 10 || p == 20 || p == 30);
        }
    }
}

#[test]
fn no_dice_and_dice_without_faces() {
    assert_eq!(run("$0d6"), Ok("[]\n".to_owned()));
    assert_eq!(run("$0d0"), Ok("[]\n".to_owned()));
    assert_eq!(run("$2d0"), Err(Failure::Eval(EvalError::NothingToDraw)));
    assert_eq!(run("$2d[]"), Err(Failure::Eval(EvalError::NothingToDraw)));
    assert_eq!(run("$[1]d6"), Err(Failure::Eval(EvalError::TypeMismatch)));
}

#[test]
fn keep_low_and_keep_high() {
    assert_eq!(run("$[5,3,8,1]l2"), Ok("[1,3]\n".to_owned()));
    assert_eq!(run("$[5,3,8,1]h2"), Ok("[8,5]\n".to_owned()));
    assert_eq!(run("$[5,3,8,1]l0"), Ok("[]\n".to_owned()));
    assert_eq!(run("$[5,3,8,1]h4"), Ok("[8,5,3,1]\n".to_owned()));
    assert_eq!(run("$[5,3,8,1]l5"), Err(Failure::Eval(EvalError::OutOfRange)));
    assert_eq!(run("$[5,3,8,1]l(0-1)"), Err(Failure::Eval(EvalError::Negative)));
    assert_eq!(run("$[5,[3],8]l1"), Err(Failure::Eval(EvalError::TypeMismatch)));
    assert_eq!(run("$5l1"), Err(Failure::Eval(EvalError::TypeMismatch)));
}

#[test]
fn an_array_equals_itself() {
    assert_eq!(run("A=[1,[2,3],[]] $A=A"), Ok("1\n".to_owned()));
    assert_eq!(run("$[1,2]=[1,2]"), Ok("1\n".to_owned()));
    assert_eq!(run("$[1,2]=[1,3]"), Ok("0\n".to_owned()));
    assert_eq!(run("$[1,2]=[1,2,3]"), Ok("0\n".to_owned()));
    assert_eq!(run("$1=[1]"), Ok("0\n".to_owned()));
    assert_eq!(run("$3=3"), Ok("1\n".to_owned()));
}

#[test]
fn repetition_rolls_anew_each_time() {
    let mut differed = false;
    for _ in 0..200 {
        let text = run("$3x(1d6)").unwrap();
        let inner = text.trim_end_matches('\n');
        let parts: Vec<&str> = inner[1..inner.len() - 1].split("],[").collect();
        assert_eq!(parts.len(), 3);
        let clean: Vec<String> =
            parts.iter().map(|p| p.replace('[', "").replace(']', "")).collect();
        if clean[0] != clean[1] || clean[1] != clean[2] {
            differed = true;
        }
    }
    assert!(differed);
}

#[test]
fn an_array_is_repeated_as_it_is() {
    assert_eq!(run("$[1,2]x3"), Ok("[1,2,1,2,1,2]\n".to_owned()));
    assert_eq!(run("$[1,2]x0"), Ok("[]\n".to_owned()));
    assert_eq!(run("$2x5"), Ok("[5,5]\n".to_owned()));
    assert_eq!(run("$[1,2]x[3]"), Err(Failure::Eval(EvalError::TypeMismatch)));
}

#[test]
fn every_array_is_true() {
    assert_eq!(run("if [0] {$1}"), Ok("1\n".to_owned()));
    assert_eq!(run("if 0 {$1}"), Ok("".to_owned()));
    assert_eq!(run("if [] {$1}"), Ok("1\n".to_owned()));
    assert_eq!(run("if 2 {$1}"), Ok("1\n".to_owned()));
}

#[test]
fn the_second_block_runs_where_the_test_fails() {
    assert_eq!(run("if 0 {$1} else {$2}"), Ok("2\n".to_owned()));
    assert_eq!(run("if 1 {$1} else {$2}"), Ok("1\n".to_owned()));
    assert_eq!(run("if 0 {$1} {$2}"), Ok("2\n".to_owned()));
}

#[test]
fn a_loop_variable_outlives_its_loop() {
    assert_eq!(run("for V [1,2,3] {} $V"), Ok("3\n".to_owned()));
    assert_eq!(run("for V [1,2,3] {$V*2}"), Ok("2\n4\n6\n".to_owned()));
    assert_eq!(run("for V 7 {$V}"), Ok("7\n".to_owned()));
    assert_eq!(run("for V [] {$V} $1"), Ok("1\n".to_owned()));
}

#[test]
fn a_binding_inside_a_block_stays() {
    assert_eq!(run("if 1 {A=5} $A"), Ok("5\n".to_owned()));
    let mut env = Environment::new();
    assert_eq!(run_in("A=[1,2]", &mut env, 10), Ok("".to_owned()));
    let a = env.get(&"A".to_owned()).unwrap();
    assert_eq!(a, EvArray::A(vec![EvArray::F(num(1.0)), EvArray::F(num(2.0))]));
    assert!(env.contains_key(&"A".to_owned()));
    assert!(!env.contains_key(&"B".to_owned()));
}

#[test]
fn while_counts_down() {
    assert_eq!(run("X=3 while X {$X X=X-1}"), Ok("3\n2\n1\n".to_owned()));
    assert_eq!(run("X=0 while X {$X} $9"), Ok("9\n".to_owned()));
}

#[test]
fn a_loop_that_never_ends_runs_out_of_steps() {
    let mut env = Environment::new();
    assert_eq!(run_in("while 1 {}", &mut env, 1000), Err(Failure::Eval(EvalError::StepLimit)));
    assert_eq!(
        run_in("X=5 while X {X=X-1}", &mut Environment::new(), 4),
        Err(Failure::Eval(EvalError::StepLimit))
    );
    assert_eq!(run_in("X=5 while X {X=X-1} $X", &mut Environment::new(), 5), Ok("0\n".to_owned()));
    assert_eq!(run_in("if 1 {$1} for V [1,2] {$V}", &mut Environment::new(), 0), Ok("1\n1\n2\n".to_owned()));
}

#[test]
fn text_comes_out_as_written() {
    assert_eq!(run("~\"hello\""), Ok("hello\n".to_owned()));
    assert_eq!(run("~[72,105]"), Ok("Hi\n".to_owned()));
    assert_eq!(run("~65"), Ok("A\n".to_owned()));
    assert_eq!(run("~\"a\\\"b\\\\c\""), Ok("a\"b\\c\n".to_owned()));
    assert_eq!(run("~\"\""), Ok("\n".to_owned()));
    assert_eq!(run("$\"ab\""), Ok("[97,98]\n".to_owned()));
    assert_eq!(run("~\"h\u{e9}\u{4e16}\u{1F600}\""), Ok("h\u{e9}\u{4e16}\u{1F600}\n".to_owned()));
}

#[test]
fn text_is_not_flattened_and_not_every_number_is_a_character() {
    assert_eq!(run("~[[72],105]"), Err(Failure::Eval(EvalError::TypeMismatch)));
    assert_eq!(run("~55296"), Err(Failure::Eval(EvalError::InvalidCodePoint)));
    assert_eq!(run("~[65,1114112]"), Err(Failure::Eval(EvalError::InvalidCodePoint)));
    assert_eq!(run("~1114111"), Ok("\u{10FFFF}\n".to_owned()));
    assert_eq!(run("~(0-5)"), Err(Failure::Eval(EvalError::InvalidCodePoint)));
    assert_eq!(run("~[65,0-1]"), Err(Failure::Eval(EvalError::InvalidCodePoint)));
    assert_eq!(run("N=0-1 ~N^0.5"), Err(Failure::Eval(EvalError::InvalidCodePoint)));
    assert_eq!(run("~0"), Ok("\u{0}\n".to_owned()));
    assert_eq!(run("~65.9"), Ok("A\n".to_owned()));
}

#[test]
fn division_and_its_zero() {
    assert_eq!(run("$1/2"), Ok("0.5\n".to_owned()));
    assert_eq!(run("$1/3"), Ok("0.3333333333333333\n".to_owned()));
    assert_eq!(run("$7/0"), Err(Failure::Eval(EvalError::DivisionByZero)));
    assert_eq!(run("$[4,6]/2"), Ok("[2,3]\n".to_owned()));
    assert_eq!(run("$[4,6]/[2,0]"), Err(Failure::Eval(EvalError::DivisionByZero)));
}

#[test]
fn decimal_literals() {
    assert_eq!(run("$1.5+1.25"), Ok("2.75\n".to_owned()));
    assert_eq!(run("$.5"), Ok("0.5\n".to_owned()));
    assert_eq!(run("$2."), Ok("2\n".to_owned()));
    assert_eq!(run("$0.1+0.2"), Ok("0.30000000000000004\n".to_owned()));
    assert_eq!(run("$1.2.3"), Err(Failure::Lex(1)));
    assert_eq!(run("$ ."), Err(Failure::Lex(2)));
}

#[test]
fn powers() {
    assert_eq!(run("$2^10"), Ok("1024\n".to_owned()));
    assert_eq!(run("$[1,2,3]^2"), Ok("[1,4,9]\n".to_owned()));
    assert_eq!(run("$2^[1,2,3]"), Ok("[2,4,8]\n".to_owned()));
    assert_eq!(run("$4^0.5"), Ok("2\n".to_owned()));
    assert_eq!(run("N=0-1 $N^0.5"), Ok("NaN\n".to_owned()));
    assert_eq!(run("$[1,2]^[1,2,3]"), Err(Failure::Eval(EvalError::SizeMismatch)));
}

#[test]
fn comparisons_and_logic() {
    assert_eq!(run("$1<2"), Ok("1\n".to_owned()));
    assert_eq!(run("$2<1"), Ok("0\n".to_owned()));
    assert_eq!(run("$2>1"), Ok("1\n".to_owned()));
    assert_eq!(run("$(0-1)<0"), Ok("1\n".to_owned()));
    assert_eq!(run("$(0-2)<(0-1)"), Ok("1\n".to_owned()));
    assert_eq!(run("$[1]<2"), Err(Failure::Eval(EvalError::TypeMismatch)));
    assert_eq!(run("$1>[2]"), Err(Failure::Eval(EvalError::TypeMismatch)));
    assert_eq!(run("$1&0"), Ok("0\n".to_owned()));
    assert_eq!(run("$1&2"), Ok("1\n".to_owned()));
    assert_eq!(run("$0|0"), Ok("0\n".to_owned()));
    assert_eq!(run("$0|3"), Ok("1\n".to_owned()));
    assert_eq!(run("$[1]&1"), Err(Failure::Eval(EvalError::TypeMismatch)));
    assert_eq!(run("$1|[1]"), Err(Failure::Eval(EvalError::TypeMismatch)));
    assert_eq!(run("$1<2&2<3"), Ok("1\n".to_owned()));
}

#[test]
fn indexing() {
    assert_eq!(run("$0@[7,8,9]"), Ok("7\n".to_owned()));
    assert_eq!(run("$2@[7,8,9]"), Ok("9\n".to_owned()));
    assert_eq!(run("$1.9@[7,8,9]"), Ok("8\n".to_owned()));
    assert_eq!(run("$3@[7,8,9]"), Err(Failure::Eval(EvalError::OutOfRange)));
    assert_eq!(run("N=0-1 $N@[7,8,9]"), Err(Failure::Eval(EvalError::Negative)));
    assert_eq!(run("$1@5"), Err(Failure::Eval(EvalError::TypeMismatch)));
    assert_eq!(run("$[1]@[5]"), Err(Failure::Eval(EvalError::TypeMismatch)));
}

#[test]
fn flattening_and_summing() {
    assert_eq!(run("$[1,[2,[3,4]],5]_"), Ok("[1,2,3,4,5]\n".to_owned()));
    assert_eq!(run("$7_"), Ok("7\n".to_owned()));
    assert_eq!(run("$[1,2,3]s"), Ok("6\n".to_owned()));
    assert_eq!(run("$[]s"), Ok("0\n".to_owned()));
    assert_eq!(run("$7s"), Ok("7\n".to_owned()));
    assert_eq!(run("$[1,[2]]s"), Err(Failure::Eval(EvalError::TypeMismatch)));
    assert_eq!(run("$([1,[2,3]]_)s"), Ok("6\n".to_owned()));
}

#[test]
fn the_two_functions() {
    assert_eq!(run("$CONTAINS([1,2,3],2)"), Ok("1\n".to_owned()));
    assert_eq!(run("$CONTAINS([1,2,3],5)"), Ok("0\n".to_owned()));
    assert_eq!(run("$CONTAINS([1,[2],3],2)"), Ok("0\n".to_owned()));
    assert_eq!(run("$CONTAINS([1,[2],3],[2])"), Ok("1\n".to_owned()));
    assert_eq!(run("$CONTAINS(4,4)"), Ok("1\n".to_owned()));
    assert_eq!(run("$CONTAINS(4,5)"), Ok("0\n".to_owned()));
    assert_eq!(run("$PUSH([1,2],3)"), Ok("[1,2,3]\n".to_owned()));
    assert_eq!(run("$PUSH([],[1])"), Ok("[[1]]\n".to_owned()));
    assert_eq!(run("A=[] A=PUSH(A,1+1) $A"), Ok("[2]\n".to_owned()));
    assert_eq!(run("$PUSH(1,3)"), Err(Failure::Eval(EvalError::TypeMismatch)));
    assert_eq!(run("$PUSH([1])"), Err(Failure::Eval(EvalError::ArityMismatch)));
    assert_eq!(run("$CONTAINS([1],2,3)"), Err(Failure::Eval(EvalError::ArityMismatch)));
    assert_eq!(run("$CONTAINS()"), Err(Failure::Eval(EvalError::ArityMismatch)));
    assert_eq!(run("$POP([1])"), Err(Failure::Eval(EvalError::UnknownFunction)));
    assert_eq!(run("$POP(Z)"), Err(Failure::Eval(EvalError::UnboundVariable)));
}

#[test]
fn variables() {
    assert_eq!(run("A=2 B=A*3 $B"), Ok("6\n".to_owned()));
    assert_eq!(run("AB=2 A=1 $AB+A"), Ok("3\n".to_owned()));
    assert_eq!(run("A=1 A=A+1 $A"), Ok("2\n".to_owned()));
    assert_eq!(run("$Z"), Err(Failure::Eval(EvalError::UnboundVariable)));
}

#[test]
fn what_is_not_finished_does_not_parse() {
    assert_eq!(run("$1+"), Err(Failure::Parse(ParseErrorKind::Unfinished, 3)));
    assert_eq!(run("$"), Err(Failure::Parse(ParseErrorKind::Unfinished, 1)));
    assert_eq!(run("if 1"), Err(Failure::Parse(ParseErrorKind::Unfinished, 2)));
    assert_eq!(run("while 1"), Err(Failure::Parse(ParseErrorKind::Unfinished, 2)));
    assert_eq!(run("for {}"), Err(Failure::Parse(ParseErrorKind::Unfinished, 1)));
    assert_eq!(run("$1*+2"), Err(Failure::Parse(ParseErrorKind::MisplacedOperator, 3)));
}

#[test]
fn an_empty_program_writes_nothing() {
    assert_eq!(run(""), Ok("".to_owned()));
    assert_eq!(run("   "), Ok("".to_owned()));
}

#[test]
fn the_first_error_ends_the_run() {
    let mut env = Environment::new();
    assert_eq!(run_in("A=1 $Z A=2", &mut env, 10), Err(Failure::Eval(EvalError::UnboundVariable)));
    assert_eq!(env.get(&"A".to_owned()), Some(EvArray::F(num(1.0))));
}

#[test]
fn large_numbers_are_written_in_full() {
    assert_eq!(run("$10^21"), Ok("1000000000000000000000\n".to_owned()));
    assert_eq!(run("$1000000*1000000"), Ok("1000000000000\n".to_owned()));
    assert_eq!(run("$0-0.25"), Ok("-0.25\n".to_owned()));
}

#[test]
fn an_operator_walks_into_a_group_on_its_left() {
    assert_eq!(run("$2*(3+4)"), Ok("14\n".to_owned()));
    assert_eq!(run("$(2+3)*4"), Ok("14\n".to_owned()));
    assert_eq!(run("$(2*3)+4"), Ok("10\n".to_owned()));
}

#[test]
fn not_a_number_equals_nothing() {
    assert_eq!(run("N=0-1 M=N^0.5 $M=M"), Ok("0\n".to_owned()));
    assert_eq!(run("N=0-1 M=[N^0.5] $M=M"), Ok("0\n".to_owned()));
    assert_eq!(run("N=0-1 $[3,N^0.5,1]l3"), Ok("[1,3,NaN]\n".to_owned()));
    assert_eq!(run("N=0-1 $[3,N^0.5,1]h3"), Ok("[NaN,3,1]\n".to_owned()));
}
