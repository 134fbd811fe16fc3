//! The lexer: from the text of a program to its tokens.
use crate::number::Number;
use crate::parser::{operator, tokens, Control, Token, TokenView};
use vstd::prelude::*;

verus! {

/// A run of digits and dots that is no number. `index` is the place of its
/// first character, counted in characters.
#[derive(PartialEq, Eq, Structural, Clone, Copy, Debug)]
pub struct LexError {
    pub index: usize,
}

/// Whether a character is an uppercase letter, as Unicode defines it.
pub uninterp spec fn uppercase(c: char) -> bool;

/// `char::is_uppercase` of std: whether the character has the Unicode
/// property `Uppercase`, which depends on the character alone. Among the
/// ASCII characters the letters `A` to `Z` have it and no other.
pub assume_specification[ char::is_uppercase ](c: char) -> (r: bool)
    ensures
        r == uppercase(c),
        c <= '\x7f' ==> r == ('A' <= c && c <= 'Z'),
;

/// A character of a numeric literal.
pub open spec fn numeric(c: char) -> bool {
    ('0' <= c && c <= '9') || c == '.'
}

/// The character at place `k` is `c`.
pub open spec fn has(s: Seq<char>, k: nat, c: char) -> bool {
    k < s.len() && s[k as int] == c
}

/// The keyword that begins at place `i`, with its length.
pub open spec fn keyword(s: Seq<char>, i: nat) -> Option<(Control, nat)> {
    if has(s, i, 'i') && has(s, i + 1, 'f') {
        Some((Control::If, 2))
    } else if has(s, i, 'e') && has(s, i + 1, 'l') && has(s, i + 2, 's') && has(s, i + 3, 'e') {
        Some((Control::Else, 4))
    } else if has(s, i, 'w') && has(s, i + 1, 'h') && has(s, i + 2, 'i') && has(s, i + 3, 'l')
        && has(s, i + 4, 'e') {
        Some((Control::While, 5))
    } else if has(s, i, 'f') && has(s, i + 1, 'o') && has(s, i + 2, 'r') {
        Some((Control::For, 3))
    } else {
        None
    }
}

/// The token that a single character stands for.
pub open spec fn single(c: char) -> Option<TokenView> {
    if c == '$' {
        Some(TokenView::Output)
    } else if c == '~' {
        Some(TokenView::StringOutput)
    } else if c == '(' {
        Some(TokenView::LParen)
    } else if c == ')' {
        Some(TokenView::RParen)
    } else if c == '[' {
        Some(TokenView::LBracket)
    } else if c == ']' {
        Some(TokenView::RBracket)
    } else if c == '{' {
        Some(TokenView::LBraces)
    } else if c == '}' {
        Some(TokenView::RBraces)
    } else if c == ',' {
        Some(TokenView::Comma)
    } else if operator(c) {
        Some(TokenView::Operator(c))
    } else {
        None
    }
}

/// The end of the run of digits and dots that holds place `i`.
pub open spec fn number_end(s: Seq<char>, i: nat) -> nat
    decreases s.len() - i,
{
    if i < s.len() && numeric(s[i as int]) {
        number_end(s, i + 1)
    } else {
        i
    }
}

/// The end of the run of uppercase letters that holds place `i`.
pub open spec fn name_end(s: Seq<char>, i: nat) -> nat
    decreases s.len() - i,
{
    if i < s.len() && uppercase(s[i as int]) {
        name_end(s, i + 1)
    } else {
        i
    }
}

/// The characters of a quoted text, read from place `i` behind the opening
/// quote, after the characters `text`, with the place behind the closing
/// quote. A backslash makes the character behind it stand for itself. A
/// text that nothing closes ends where the program ends.
pub open spec fn quoted(s: Seq<char>, i: nat, text: Seq<char>) -> (Seq<char>, nat)
    decreases s.len() - i,
{
    if i >= s.len() {
        (text, i)
    } else if s[i as int] == '"' {
        (text, i + 1)
    } else if s[i as int] == '\\' {
        if i + 1 < s.len() {
            quoted(s, i + 2, text.push(s[i + 1 as int]))
        } else {
            (text, i + 1)
        }
    } else {
        quoted(s, i + 1, text.push(s[i as int]))
    }
}

/// The number that stands for a character: its code point.
pub open spec fn code_number(c: char) -> Number {
    Number::of_count(c as u64)
}

/// The tokens of the first `n` characters of a quoted text: the number of
/// each, with commas between them.
pub open spec fn spelled_out(text: Seq<char>, n: nat) -> Seq<TokenView>
    decreases n,
{
    if n == 0 || n > text.len() {
        Seq::empty()
    } else if n == 1 {
        seq![TokenView::Number(code_number(text[0]))]
    } else {
        spelled_out(text, (n - 1) as nat).push(TokenView::Comma).push(
            TokenView::Number(code_number(text[n - 1])),
        )
    }
}

/// The tokens of a quoted text: those of the array of its code points.
pub open spec fn literal(text: Seq<char>) -> Seq<TokenView> {
    (seq![TokenView::LBracket] + spelled_out(text, text.len())).push(TokenView::RBracket)
}

/// The tokens of a program text from place `i` on, behind the tokens
/// `found`.
///
/// A run of digits and dots is one number, and an error if it is none; a
/// run of uppercase letters is one variable; a quoted text is the array of
/// its code points. `if`, `else`, `while` and `for` are keywords where they
/// stand letter for letter. `$` and `~` are the two outputs; brackets and
/// the comma are themselves; an operator's character is that operator.
/// Every other character is passed over.
pub open spec fn lexed(s: Seq<char>, i: nat, found: Seq<TokenView>) -> Result<
    Seq<TokenView>,
    LexError,
>
    decreases s.len() - i,
{
    if i >= s.len() {
        Ok(found)
    } else {
        let c = s[i as int];
        if numeric(c) {
            let j = number_end(s, i + 1);
            if i < j <= s.len() {
                match Number::parsed(s.subrange(i as int, j as int)) {
                    Some(n) => lexed(s, j, found.push(TokenView::Number(n))),
                    None => Err(LexError { index: i as usize }),
                }
            } else {
                Ok(found)
            }
        } else if c == '"' {
            let (text, j) = quoted(s, i + 1, Seq::empty());
            if i < j <= s.len() {
                lexed(s, j, found + literal(text))
            } else {
                Ok(found)
            }
        } else {
            match keyword(s, i) {
                Some((word, n)) => lexed(s, i + n, found.push(TokenView::Control(word))),
                None => match single(c) {
                    Some(token) => lexed(s, i + 1, found.push(token)),
                    None => if uppercase(c) {
                        let j = name_end(s, i + 1);
                        if i < j <= s.len() {
                            lexed(
                                s,
                                j,
                                found.push(TokenView::Variable(s.subrange(i as int, j as int))),
                            )
                        } else {
                            Ok(found)
                        }
                    } else {
                        lexed(s, i + 1, found)
                    },
                },
            }
        }
    }
}

/// Adding a token at the end of a list adds its view at the end of the
/// list's views.
pub proof fn lemma_tokens_push(before: Vec<Token>, after: Vec<Token>, t: Token)
    requires
        after@ == before@.push(t),
    ensures
        tokens(after) == tokens(before).push(t@),
{
    assert(tokens(after) =~= tokens(before).push(t@));
}

/// The characters of a text.
#[verifier::loop_isolation(false)]
fn characters(s: &str) -> (r: Vec<char>)
    ensures
        r@ == s@,
{
    let mut out: Vec<char> = Vec::new();
    for c in it: s.chars()
        invariant
            it.seq() == s@,
            out@ == it.seq().take(it.index()),
    {
        out.push(c);
        assert(out@ =~= it.seq().take(it.index() + 1));
    }
    assert(s@.take(s@.len() as int) =~= s@);
    out
}

fn is_numeric(c: char) -> (r: bool)
    ensures
        r == numeric(c),
{
    ('0' <= c && c <= '9') || c == '.'
}

fn at(s: &Vec<char>, k: usize, c: char) -> (r: bool)
    ensures
        r == has(s@, k as nat, c),
{
    k < s.len() && s[k] == c
}

fn keyword_at(s: &Vec<char>, i: usize) -> (r: Option<(Control, usize)>)
    requires
        i < s.len(),
    ensures
        match r {
            Some((word, n)) => keyword(s@, i as nat) == Some((word, n as nat)) && 0 < n && i + n
                <= s.len(),
            None => keyword(s@, i as nat) is None,
        },
{
    let n: usize = s.len();
    if at(s, i, 'i') && n - i >= 2 && at(s, i + 1, 'f') {
        Some((Control::If, 2))
    } else if at(s, i, 'e') && n - i >= 4 && at(s, i + 1, 'l') && at(s, i + 2, 's') && at(
        s,
        i + 3,
        'e',
    ) {
        Some((Control::Else, 4))
    } else if at(s, i, 'w') && n - i >= 5 && at(s, i + 1, 'h') && at(s, i + 2, 'i') && at(
        s,
        i + 3,
        'l',
    ) && at(s, i + 4, 'e') {
        Some((Control::While, 5))
    } else if at(s, i, 'f') && n - i >= 3 && at(s, i + 1, 'o') && at(s, i + 2, 'r') {
        Some((Control::For, 3))
    } else {
        None
    }
}

fn single_token(c: char) -> (r: Option<Token>)
    ensures
        match r {
            Some(t) => single(c) == Some(t@),
            None => single(c) is None,
        },
{
    if c == '$' {
        Some(Token::Output)
    } else if c == '~' {
        Some(Token::StringOutput)
    } else if c == '(' {
        Some(Token::LParen)
    } else if c == ')' {
        Some(Token::RParen)
    } else if c == '[' {
        Some(Token::LBracket)
    } else if c == ']' {
        Some(Token::RBracket)
    } else if c == '{' {
        Some(Token::LBraces)
    } else if c == '}' {
        Some(Token::RBraces)
    } else if c == ',' {
        Some(Token::Comma)
    } else if crate::parser::is_operator(c) {
        Some(Token::Operator(c))
    } else {
        None
    }
}

/// Reads a quoted text from place `*i`, behind its opening quote, and
/// leaves `*i` behind its closing quote.
#[verifier::loop_isolation(false)]
fn read_quoted(s: &Vec<char>, i: &mut usize) -> (text: Vec<char>)
    requires
        *old(i) <= s.len(),
    ensures
        quoted(s@, *old(i) as nat, Seq::empty()) == (text@, *final(i) as nat),
        *old(i) <= *final(i) <= s.len(),
{
    let mut text: Vec<char> = Vec::new();
    loop
        invariant
            *old(i) <= *i <= s.len(),
            quoted(s@, *i as nat, text@) == quoted(s@, *old(i) as nat, Seq::empty()),
        decreases s.len() - *i,
    {
        if *i >= s.len() {
            return text;
        }
        let c = s[*i];
        if c == '"' {
            *i = *i + 1;
            return text;
        } else if c == '\\' {
            if *i + 1 < s.len() {
                text.push(s[*i + 1]);
                *i = *i + 2;
            } else {
                *i = *i + 1;
                return text;
            }
        } else {
            text.push(c);
            *i = *i + 1;
        }
    }
}

/// The number that stands for a character.
fn number_of_char(c: char) -> (r: Number)
    ensures
        r == code_number(c),
{
    let code: u32 = c as u32;
    Number::from_count(code as usize)
}

/// Adds the tokens of a quoted text at the end of `out`.
#[verifier::loop_isolation(false)]
fn push_literal(out: &mut Vec<Token>, text: &Vec<char>)
    ensures
        tokens(*final(out)) == tokens(*old(out)) + literal(text@),
{
    let ghost start = tokens(*out);
    let ghost before = *out;
    out.push(Token::LBracket);
    proof {
        lemma_tokens_push(before, *out, Token::LBracket);
    }
    let mut k: usize = 0;
    assert(tokens(*out) =~= start + (seq![TokenView::LBracket] + spelled_out(text@, 0)));
    while k < text.len()
        invariant
            k <= text.len(),
            tokens(*out) == start + (seq![TokenView::LBracket] + spelled_out(text@, k as nat)),
        decreases text.len() - k,
    {
        if k > 0 {
            let ghost before = *out;
            out.push(Token::Comma);
            proof {
                lemma_tokens_push(before, *out, Token::Comma);
            }
        }
        let ghost before = *out;
        let token = Token::Number(number_of_char(text[k]));
        let ghost last = token;
        out.push(token);
        proof {
            lemma_tokens_push(before, *out, last);
        }
        assert(tokens(*out) =~= start + (seq![TokenView::LBracket] + spelled_out(
            text@,
            (k + 1) as nat,
        )));
        k += 1;
    }
    let ghost before = *out;
    out.push(Token::RBracket);
    proof {
        lemma_tokens_push(before, *out, Token::RBracket);
    }
    assert(tokens(*out) =~= start + literal(text@));
}

/// The characters from place `from` up to place `to`.
#[verifier::loop_isolation(false)]
fn slice(s: &Vec<char>, from: usize, to: usize) -> (r: Vec<char>)
    requires
        from <= to <= s.len(),
    ensures
        r@ == s@.subrange(from as int, to as int),
{
    let mut out: Vec<char> = Vec::new();
    let mut k: usize = from;
    while k < to
        invariant
            from <= k <= to,
            out@ == s@.subrange(from as int, k as int),
        decreases to - k,
    {
        out.push(s[k]);
        assert(out@ =~= s@.subrange(from as int, k + 1));
        k += 1;
    }
    out
}

/// The characters as a string.
#[verifier::loop_isolation(false)]
fn text_of(s: &Vec<char>) -> (r: String)
    ensures
        r@ == s@,
{
    let mut out = String::new();
    let mut k: usize = 0;
    while k < s.len()
        invariant
            k <= s.len(),
            out@ == s@.take(k as int),
        decreases s.len() - k,
    {
        out.push(s[k]);
        assert(out@ =~= s@.take(k + 1));
        k += 1;
    }
    assert(s@.take(s.len() as int) =~= s@);
    out
}

/// The tokens of a program text. No token of the result is the empty
/// token.
#[verifier::loop_isolation(false)]
pub fn tokenize(s: String) -> (r: Result<Vec<Token>, LexError>)
    ensures
        match r {
            Ok(v) => lexed(s@, 0, Seq::empty()) == Ok::<Seq<TokenView>, LexError>(tokens(v))
                && crate::laws::all_tokens(tokens(v)),
            Err(e) => lexed(s@, 0, Seq::empty()) == Err::<Seq<TokenView>, LexError>(e),
        },
{
    proof {
        crate::laws::law_no_empty_token(s@, 0, Seq::empty());
    }
    let chars = characters(s.as_str());
    let mut out: Vec<Token> = Vec::new();
    let mut i: usize = 0;
    assert(tokens(out) =~= Seq::empty());
    while i < chars.len()
        invariant
            i <= chars.len(),
            chars@ == s@,
            lexed(s@, i as nat, tokens(out)) == lexed(s@, 0, Seq::empty()),
        decreases chars.len() - i,
    {
        let c = chars[i];
        let ghost before = out;
        if is_numeric(c) {
            let mut j: usize = i + 1;
            while j < chars.len() && is_numeric(chars[j])
                invariant
                    i < j <= chars.len(),
                    number_end(s@, j as nat) == number_end(s@, (i + 1) as nat),
                decreases chars.len() - j,
            {
                j += 1;
            }
            let digits = slice(&chars, i, j);
            match Number::parse(&digits) {
                Some(n) => {
                    out.push(Token::Number(n));
                    proof {
                        lemma_tokens_push(before, out, Token::Number(n));
                    }
                    i = j;
                },
                None => {
                    return Err(LexError { index: i });
                },
            }
        } else if c == '"' {
            let mut j: usize = i + 1;
            let text = read_quoted(&chars, &mut j);
            push_literal(&mut out, &text);
            i = j;
        } else {
            match keyword_at(&chars, i) {
                Some((word, n)) => {
                    out.push(Token::Control(word));
                    proof {
                        lemma_tokens_push(before, out, Token::Control(word));
                    }
                    i = i + n;
                },
                None => {
                    match single_token(c) {
                        Some(token) => {
                            let ghost last = token;
                            out.push(token);
                            proof {
                                lemma_tokens_push(before, out, last);
                            }
                            i = i + 1;
                        },
                        None => {
                            if c.is_uppercase() {
                                let mut j: usize = i + 1;
                                while j < chars.len() && chars[j].is_uppercase()
                                    invariant
                                        i < j <= chars.len(),
                                        name_end(s@, j as nat) == name_end(s@, (i + 1) as nat),
                                    decreases chars.len() - j,
                                {
                                    j += 1;
                                }
                                let letters = slice(&chars, i, j);
                                let token = Token::Variable(text_of(&letters));
                                let ghost last = token;
                                out.push(token);
                                proof {
                                    lemma_tokens_push(before, out, last);
                                }
                                i = j;
                            } else {
                                i = i + 1;
                            }
                        },
                    }
                },
            }
        }
    }
    Ok(out)
}

} // verus!
