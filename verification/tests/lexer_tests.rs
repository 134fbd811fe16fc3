use dicer::lexer::LexError;
use dicer::number::Number;
use dicer::parser::{tokenize, Control, Token};

fn num(x: f64) -> Token {
    Token::Number(Number::from_bits(x.to_bits()))
}

fn var(name: &str) -> Token {
    Token::Variable(name.to_owned())
}

fn lex(source: &str) -> Vec<Token> {
    tokenize(source.to_owned()).unwrap()
}

#[test]
fn numbers_take_the_whole_run_of_digits() {
    assert_eq!(lex("12"), vec![num(12.0)]);
    assert_eq!(lex("1.5"), vec![num(1.5)]);
    assert_eq!(lex("007"), vec![num(7.0)]);
    assert_eq!(lex("1 2"), vec![num(1.0), num(2.0)]);
    assert_eq!(lex("3d6"), vec![num(3.0), Token::Operator('d'), num(6.0)]);
}

#[test]
fn a_run_of_digits_and_dots_that_is_no_number() {
    assert_eq!(tokenize("1.2.3".to_owned()), Err(LexError { index: 0 }));
    assert_eq!(tokenize(".".to_owned()), Err(LexError { index: 0 }));
    assert_eq!(tokenize("A=..".to_owned()), Err(LexError { index: 2 }));
    assert_eq!(tokenize("\u{e9}+1..2".to_owned()), Err(LexError { index: 2 }));
}

#[test]
fn variables_take_the_whole_run_of_capitals() {
    assert_eq!(lex("A"), vec![var("A")]);
    assert_eq!(lex("ABC"), vec![var("ABC")]);
    assert_eq!(lex("AB C"), vec![var("AB"), var("C")]);
    assert_eq!(lex("A1"), vec![var("A"), num(1.0)]);
    assert_eq!(lex("\u{c9}T\u{c9}"), vec![var("\u{c9}T\u{c9}")]);
    assert_eq!(lex("Ad6"), vec![var("A"), Token::Operator('d'), num(6.0)]);
}

#[test]
fn keywords_stand_letter_for_letter() {
    assert_eq!(lex("if"), vec![Token::Control(Control::If)]);
    assert_eq!(lex("else"), vec![Token::Control(Control::Else)]);
    assert_eq!(lex("while"), vec![Token::Control(Control::While)]);
    assert_eq!(lex("for"), vec![Token::Control(Control::For)]);
    assert_eq!(lex("ifA"), vec![Token::Control(Control::If), var("A")]);
    assert_eq!(lex("i"), vec![]);
    assert_eq!(lex("fo"), vec![]);
    assert_eq!(
        lex("els"),
        vec![Token::Operator('l'), Token::Operator('s')]
    );
    assert_eq!(
        lex("whil"),
        vec![Token::Operator('h'), Token::Operator('l')]
    );
}

#[test]
fn single_characters() {
    assert_eq!(
        lex("$~()[]{},"),
        vec![
            Token::Output,
            Token::StringOutput,
            Token::LParen,
            Token::RParen,
            Token::LBracket,
            Token::RBracket,
            Token::LBraces,
            Token::RBraces,
            Token::Comma,
        ]
    );
    let operators = "d+-*/^<>=|&@xlh_s";
    let expected: Vec<Token> = operators.chars().map(Token::Operator).collect();
    assert_eq!(lex(operators), expected);
}

#[test]
fn what_is_no_token_is_passed_over() {
    assert_eq!(lex(" \t\n"), vec![]);
    assert_eq!(lex("a b c ! # ? ; :"), vec![]);
    assert_eq!(lex("1 + 2"), vec![num(1.0), Token::Operator('+'), num(2.0)]);
    assert_eq!(lex("1\n+\n2"), vec![num(1.0), Token::Operator('+'), num(2.0)]);
}

#[test]
fn a_quoted_text_is_the_array_of_its_code_points() {
    assert_eq!(
        lex("\"ab\""),
        vec![Token::LBracket, num(97.0), Token::Comma, num(98.0), Token::RBracket]
    );
    assert_eq!(lex("\"\""), vec![Token::LBracket, Token::RBracket]);
    assert_eq!(lex("\"a\""), vec![Token::LBracket, num(97.0), Token::RBracket]);
    assert_eq!(
        lex("\"\u{1F600}\""),
        vec![Token::LBracket, num(128512.0), Token::RBracket]
    );
    assert_eq!(
        lex("\"if 1\""),
        vec![
            Token::LBracket,
            num(105.0),
            Token::Comma,
            num(102.0),
            Token::Comma,
            num(32.0),
            Token::Comma,
            num(49.0),
            Token::RBracket
        ]
    );
}

#[test]
fn a_backslash_makes_the_next_character_plain() {
    assert_eq!(
        lex("\"\\\"\""),
        vec![Token::LBracket, num(34.0), Token::RBracket]
    );
    assert_eq!(
        lex("\"\\\\\""),
        vec![Token::LBracket, num(92.0), Token::RBracket]
    );
    assert_eq!(
        lex("\"\\n\""),
        vec![Token::LBracket, num(110.0), Token::RBracket]
    );
}

#[test]
fn a_text_that_nothing_closes_ends_with_the_program() {
    assert_eq!(
        lex("\"ab"),
        vec![Token::LBracket, num(97.0), Token::Comma, num(98.0), Token::RBracket]
    );
    assert_eq!(lex("\""), vec![Token::LBracket, Token::RBracket]);
    assert_eq!(lex("\"a\\"), vec![Token::LBracket, num(97.0), Token::RBracket]);
}

#[test]
fn the_lexer_hands_out_no_empty_token() {
    let tokens = lex("A = 3d6 + [1,2] if else while for $ ~ \"x\" {}()");
    assert!(!tokens.is_empty());
    for t in tokens {
        assert_ne!(t, Token::Empty);
    }
}

#[test]
fn a_whole_statement() {
    assert_eq!(
        lex("for V [1,2] {$V}"),
        vec![
            Token::Control(Control::For),
            var("V"),
            Token::LBracket,
            num(1.0),
            Token::Comma,
            num(2.0),
            Token::RBracket,
            Token::LBraces,
            Token::Output,
            var("V"),
            Token::RBraces,
        ]
    );
}
