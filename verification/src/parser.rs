//! Tokens, expression trees and statements, and the parser that builds the
//! statements from the tokens.
//!
//! An expression is built token by token. At every moment it is one tree,
//! which has at most one empty place: a value that arrives goes there, and
//! an operator that arrives finds its own place by its precedence.
use crate::number::Number;
use vstd::prelude::*;

pub use crate::lexer::{tokenize, LexError};

verus! {

/// The four control keywords of the language.
#[derive(PartialEq, Eq, Structural, Clone, Copy, Debug)]
pub enum Control {
    If,
    Else,
    While,
    For,
}

/// One token of the source text.
#[derive(Clone, Debug, PartialEq)]
pub enum Token {
    Number(Number),
    Operator(char),
    Variable(String),
    Control(Control),
    /// `$`: the value of the expression that follows is written as numbers.
    Output,
    /// `~`: the value of the expression that follows is written as text.
    StringOutput,
    LParen,
    RParen,
    LBracket,
    RBracket,
    LBraces,
    RBraces,
    Comma,
    /// No token. The lexer never hands it out.
    Empty,
}

/// A token with its name as a sequence of characters.
pub enum TokenView {
    Number(Number),
    Operator(char),
    Variable(Seq<char>),
    Control(Control),
    Output,
    StringOutput,
    LParen,
    RParen,
    LBracket,
    RBracket,
    LBraces,
    RBraces,
    Comma,
    Empty,
}

impl View for Token {
    type V = TokenView;

    open spec fn view(&self) -> TokenView {
        match self {
            Token::Number(n) => TokenView::Number(*n),
            Token::Operator(o) => TokenView::Operator(*o),
            Token::Variable(name) => TokenView::Variable(name@),
            Token::Control(c) => TokenView::Control(*c),
            Token::Output => TokenView::Output,
            Token::StringOutput => TokenView::StringOutput,
            Token::LParen => TokenView::LParen,
            Token::RParen => TokenView::RParen,
            Token::LBracket => TokenView::LBracket,
            Token::RBracket => TokenView::RBracket,
            Token::LBraces => TokenView::LBraces,
            Token::RBraces => TokenView::RBraces,
            Token::Comma => TokenView::Comma,
            Token::Empty => TokenView::Empty,
        }
    }
}

/// The tokens of a list, each by its view.
pub open spec fn tokens(t: Vec<Token>) -> Seq<TokenView> {
    Seq::new(t.len() as nat, |i: int| t[i]@)
}

/// An expression tree. A binary node holds its operator's code between its
/// operands; the node of a unary operator holds the literal 0 on the right.
/// `Empty` marks the place of an operand that has not arrived yet: it
/// stands in trees under construction only, and in none that the parser
/// hands out.
#[derive(Debug, PartialEq)]
pub enum Expr {
    Array(Array),
    Val(Number),
    Var(String),
    Operation(Box<Expr>, char, Box<Expr>),
    Call(String, Vec<Expr>),
    Empty,
}

/// The elements of an array literal.
#[derive(Debug, PartialEq)]
pub struct Array(pub Vec<Expr>);

/// A statement. A block that has not been parsed yet is absent; in what the
/// parser hands out, every control statement has its body.
#[derive(Debug, PartialEq)]
pub enum Stmt {
    Bind(String, Expr),
    Out(Expr),
    StringOut(Expr),
    Condition(Expr, Option<Vec<Stmt>>, Option<Vec<Stmt>>),
    While(Expr, Option<Vec<Stmt>>),
    For(Option<String>, Expr, Option<Vec<Stmt>>),
    Empty,
}

/// An expression tree as a mathematical value.
pub enum ExprView {
    Array(Seq<ExprView>),
    Val(Number),
    Var(Seq<char>),
    Operation(Box<ExprView>, char, Box<ExprView>),
    Call(Seq<char>, Seq<ExprView>),
    Empty,
}

/// A statement as a mathematical value.
pub enum StmtView {
    Bind(Seq<char>, ExprView),
    Out(ExprView),
    StringOut(ExprView),
    Condition(ExprView, Option<Seq<StmtView>>, Option<Seq<StmtView>>),
    While(ExprView, Option<Seq<StmtView>>),
    For(Option<Seq<char>>, ExprView, Option<Seq<StmtView>>),
    Empty,
}

/// The tree that an expression stands for.
pub open spec fn tree(e: Expr) -> ExprView
    decreases e,
{
    match e {
        Expr::Array(a) => ExprView::Array(trees(a.0)),
        Expr::Val(n) => ExprView::Val(n),
        Expr::Var(name) => ExprView::Var(name@),
        Expr::Operation(a, o, b) => ExprView::Operation(Box::new(tree(*a)), o, Box::new(tree(*b))),
        Expr::Call(name, args) => ExprView::Call(name@, trees(args)),
        Expr::Empty => ExprView::Empty,
    }
}

/// The trees of a list of expressions.
pub open spec fn trees(v: Vec<Expr>) -> Seq<ExprView>
    decreases v,
{
    Seq::new(
        v.len() as nat,
        |i: int|
            if 0 <= i < v.len() {
                tree(v[i])
            } else {
                ExprView::Empty
            },
    )
}

/// The statement that a `Stmt` stands for.
pub open spec fn plan(s: Stmt) -> StmtView
    decreases s,
{
    match s {
        Stmt::Bind(name, e) => StmtView::Bind(name@, e@),
        Stmt::Out(e) => StmtView::Out(e@),
        Stmt::StringOut(e) => StmtView::StringOut(e@),
        Stmt::Condition(e, first, second) => StmtView::Condition(
            e@,
            match first {
                Some(b) => Some(plans(b)),
                None => None,
            },
            match second {
                Some(b) => Some(plans(b)),
                None => None,
            },
        ),
        Stmt::While(e, body) => StmtView::While(
            e@,
            match body {
                Some(b) => Some(plans(b)),
                None => None,
            },
        ),
        Stmt::For(name, e, body) => StmtView::For(
            match name {
                Some(n) => Some(n@),
                None => None,
            },
            e@,
            match body {
                Some(b) => Some(plans(b)),
                None => None,
            },
        ),
        Stmt::Empty => StmtView::Empty,
    }
}

/// The statements of a block.
pub open spec fn plans(v: Vec<Stmt>) -> Seq<StmtView>
    decreases v,
{
    Seq::new(
        v.len() as nat,
        |i: int|
            if 0 <= i < v.len() {
                plan(v[i])
            } else {
                StmtView::Empty
            },
    )
}

impl View for Stmt {
    type V = StmtView;

    open spec fn view(&self) -> StmtView {
        plan(*self)
    }
}

impl View for Expr {
    type V = ExprView;

    open spec fn view(&self) -> ExprView {
        tree(*self)
    }
}

impl Expr {
    #[verifier::loop_isolation(false)]
    pub fn duplicate(&self) -> (r: Expr)
        ensures
            r@ == self@,
        decreases self,
    {
        match self {
            Expr::Array(a) => {
                let mut v: Vec<Expr> = Vec::new();
                let mut i: usize = 0;
                while i < a.0.len()
                    invariant
                        i <= a.0.len(),
                        v.len() == i,
                        forall|k: int| 0 <= k < i ==> v[k]@ == a.0[k]@,
                    decreases a.0.len() - i,
                {
                    v.push(a.0[i].duplicate());
                    i += 1;
                }
                assert(trees(v) =~= trees(a.0));
                let r = Expr::Array(Array(v));
                r
            },
            Expr::Val(n) => Expr::Val(*n),
            Expr::Var(name) => Expr::Var(name.clone()),
            Expr::Operation(a, o, b) => Expr::Operation(Box::new(a.duplicate()), *o, Box::new(b.duplicate())),
            Expr::Call(name, args) => {
                let mut v: Vec<Expr> = Vec::new();
                let mut i: usize = 0;
                while i < args.len()
                    invariant
                        i <= args.len(),
                        v.len() == i,
                        forall|k: int| 0 <= k < i ==> v[k]@ == args[k]@,
                    decreases args.len() - i,
                {
                    v.push(args[i].duplicate());
                    i += 1;
                }
                assert(trees(v) =~= trees(*args));
                let r = Expr::Call(name.clone(), v);
                r
            },
            Expr::Empty => Expr::Empty,
        }
    }
}

impl Clone for Array {
    fn clone(&self) -> (r: Array)
        ensures
            trees(r.0) == trees(self.0),
    {
        Array(self.into_inner())
    }
}

/// A copy of the statements of a block.
#[verifier::loop_isolation(false)]
fn duplicate_block(b: &Vec<Stmt>) -> (r: Vec<Stmt>)
    ensures
        plans(r) == plans(*b),
    decreases b,
{
    let mut v: Vec<Stmt> = Vec::new();
    let mut i: usize = 0;
    while i < b.len()
        invariant
            i <= b.len(),
            v.len() == i,
            forall|k: int| 0 <= k < i ==> v[k]@ == b[k]@,
        decreases b.len() - i,
    {
        v.push(b[i].duplicate());
        i += 1;
    }
    assert(plans(v) =~= plans(*b));
    v
}

/// A copy of a block that may be absent.
fn duplicate_body(b: &Option<Vec<Stmt>>) -> (r: Option<Vec<Stmt>>)
    ensures
        body_view(r) == body_view(*b),
    decreases b,
{
    match b {
        Some(v) => Some(duplicate_block(v)),
        None => None,
    }
}

impl Stmt {
    /// A copy of the statement.
    pub fn duplicate(&self) -> (r: Stmt)
        ensures
            r@ == self@,
        decreases self,
    {
        match self {
            Stmt::Bind(name, e) => Stmt::Bind(name.clone(), e.duplicate()),
            Stmt::Out(e) => Stmt::Out(e.duplicate()),
            Stmt::StringOut(e) => Stmt::StringOut(e.duplicate()),
            Stmt::Condition(e, first, second) => Stmt::Condition(
                e.duplicate(),
                duplicate_body(first),
                duplicate_body(second),
            ),
            Stmt::While(e, body) => Stmt::While(e.duplicate(), duplicate_body(body)),
            Stmt::For(name, e, body) => Stmt::For(
                match name {
                    Some(n) => Some(n.clone()),
                    None => None,
                },
                e.duplicate(),
                duplicate_body(body),
            ),
            Stmt::Empty => Stmt::Empty,
        }
    }
}

impl Clone for Stmt {
    fn clone(&self) -> (r: Stmt)
        ensures
            r@ == self@,
    {
        self.duplicate()
    }
}

impl Clone for Expr {
    fn clone(&self) -> (r: Expr)
        ensures
            r@ == self@,
    {
        self.duplicate()
    }
}

/// What is wrong with a token.
#[derive(PartialEq, Eq, Structural, Clone, Copy, Debug)]
pub enum ParseErrorKind {
    /// A value where the expression misses no operand.
    MisplacedValue,
    /// An operator with no operand before it: at the beginning of an
    /// expression, or directly behind another operator that takes two
    /// operands.
    MisplacedOperator,
    /// A character that is no operator, used as one.
    UnknownOperator,
    /// A token that cannot stand where it stands.
    Unexpected,
    /// Something other than `=` right after the variable that opens a
    /// statement.
    ExpectedAssign,
    /// A comma directly before the closing bracket.
    TrailingComma,
    /// The tokens end before the bracket that is open is closed.
    Unclosed,
    /// An expression ends while it misses an operand, or a statement while it
    /// misses its expression, its variable or its block.
    Unfinished,
}

/// A token that the parser refuses, by its place in the token list. Where
/// the tokens end too early, the place is the length of the list.
#[derive(PartialEq, Eq, Structural, Clone, Copy, Debug)]
pub struct ParseError {
    pub kind: ParseErrorKind,
    pub index: usize,
}

impl ParseError {
    /// The token that was refused: the one at the error's place in the token
    /// list that was parsed, and none where the tokens ended too early.
    pub fn token<'a>(&self, t: &'a Vec<Token>) -> (r: Option<&'a Token>)
        ensures
            match r {
                Some(tok) => self.index < t.len() && *tok == t[self.index as int],
                None => self.index >= t.len(),
            },
    {
        if self.index < t.len() {
            Some(&t[self.index])
        } else {
            None
        }
    }
}

/// The characters that the lexer turns into operator tokens.
pub open spec fn operator(c: char) -> bool {
    c == 'd' || c == '+' || c == '-' || c == '*' || c == '/' || c == '^' || c == '<' || c == '>'
        || c == '=' || c == '|' || c == '&' || c == '@' || c == 'x' || c == 'l' || c == 'h' || c
        == '_' || c == 's'
}

/// The operators that take one operand, which stands before them.
pub open spec fn unary(c: char) -> bool {
    c == '_' || c == 's' || c == '!'
}

/// How loosely an operator binds: the dice roll binds tightest, then
/// indexing, power, multiplication and division, addition and subtraction,
/// keep-low and keep-high, the unary operators, repetition, the two
/// comparisons, equality, and last the logical and, and the logical or. A
/// character that is no operator binds tighter than all of them.
pub open spec fn precedence(c: char) -> nat {
    if c == 'd' {
        1
    } else if c == '@' {
        2
    } else if c == '^' {
        3
    } else if c == '*' || c == '/' {
        4
    } else if c == '+' || c == '-' {
        5
    } else if c == 'l' || c == 'h' {
        6
    } else if c == '_' || c == 's' || c == '!' {
        7
    } else if c == 'x' {
        8
    } else if c == '<' || c == '>' {
        9
    } else if c == '=' {
        10
    } else if c == '&' {
        11
    } else if c == '|' {
        12
    } else {
        0
    }
}

pub fn is_operator(c: char) -> (r: bool)
    ensures
        r == operator(c),
{
    c == 'd' || c == '+' || c == '-' || c == '*' || c == '/' || c == '^' || c == '<' || c == '>'
        || c == '=' || c == '|' || c == '&' || c == '@' || c == 'x' || c == 'l' || c == 'h' || c
        == '_' || c == 's'
}

/// The precedence of an operator.
pub fn get_precedence(c: char) -> (r: usize)
    requires
        operator(c),
    ensures
        r == precedence(c),
{
    binding(c)
}

/// The precedence of any character.
fn binding(c: char) -> (r: usize)
    ensures
        r == precedence(c),
{
    if c == 'd' {
        1
    } else if c == '@' {
        2
    } else if c == '^' {
        3
    } else if c == '*' || c == '/' {
        4
    } else if c == '+' || c == '-' {
        5
    } else if c == 'l' || c == 'h' {
        6
    } else if c == '_' || c == 's' || c == '!' {
        7
    } else if c == 'x' {
        8
    } else if c == '<' || c == '>' {
        9
    } else if c == '=' {
        10
    } else if c == '&' {
        11
    } else if c == '|' {
        12
    } else {
        0
    }
}

/// The tree has a place for one more value: the last leaf on its right edge
/// is empty.
pub open spec fn open_slot(t: ExprView) -> bool
    decreases t,
{
    match t {
        ExprView::Empty => true,
        ExprView::Operation(_, _, right) => open_slot(*right),
        _ => false,
    }
}

/// The tree with `v` in its empty place, if it has one.
pub open spec fn fill(t: ExprView, v: ExprView) -> Option<ExprView>
    decreases t,
{
    match t {
        ExprView::Empty => Some(v),
        ExprView::Operation(left, o, right) => match fill(*right, v) {
            Some(r) => Some(ExprView::Operation(left, o, Box::new(r))),
            None => None,
        },
        _ => None,
    }
}

/// What a new node of operator `o` holds on its right: nothing yet, or the
/// literal 0 where the operator is unary.
pub open spec fn right_of(o: char) -> ExprView {
    if unary(o) {
        ExprView::Val(Number::nought())
    } else {
        ExprView::Empty
    }
}

/// The tree after the operator `o` has arrived: where the tree still misses
/// an operand there is no place for an operator, and else the operator
/// finds its place by `walked`.
pub open spec fn attach(t: ExprView, o: char) -> Option<ExprView> {
    if open_slot(t) {
        None
    } else {
        walked(t, o)
    }
}

/// The walk of the operator `o` through a tree. It goes down the right
/// edge for as long as the node's operator binds more loosely than `o`, and
/// makes what it stops at the left operand of a new node. It stops at a node
/// that binds as tightly as `o`, so equal operators group to the left.
///
/// The walk knows nodes only: an expression that stood in parentheses is
/// part of the tree like any other, and the walk goes through it as well.
pub open spec fn walked(t: ExprView, o: char) -> Option<ExprView>
    decreases t,
{
    match t {
        ExprView::Empty => None,
        ExprView::Operation(left, b, right) => if precedence(b) > precedence(o) {
            match walked(*right, o) {
                Some(r) => Some(ExprView::Operation(left, b, Box::new(r))),
                None => None,
            }
        } else {
            Some(ExprView::Operation(Box::new(t), o, Box::new(right_of(o))))
        },
        _ => Some(ExprView::Operation(Box::new(t), o, Box::new(right_of(o)))),
    }
}

impl Expr {
    /// The tree has an empty place on its right edge.
    pub fn is_open(&self) -> (r: bool)
        ensures
            r == open_slot(self@),
        decreases self,
    {
        match self {
            Expr::Empty => true,
            Expr::Operation(_, _, right) => right.is_open(),
            _ => false,
        }
    }

    /// Puts the expression `i` into the empty place.
    pub fn add_expr(self, i: Expr) -> (r: Result<Expr, ParseErrorKind>)
        ensures
            match r {
                Ok(e) => fill(self@, i@) == Some(e@),
                Err(k) => fill(self@, i@) is None && k == ParseErrorKind::MisplacedValue,
            },
        decreases self,
    {
        match self {
            Expr::Empty => Ok(i),
            Expr::Operation(left, o, right) => {
                match (*right).add_expr(i) {
                    Ok(r) => Ok(Expr::Operation(left, o, Box::new(r))),
                    Err(k) => Err(k),
                }
            },
            _ => Err(ParseErrorKind::MisplacedValue),
        }
    }

    /// Puts the number `n` into the empty place.
    pub fn add_f(self, n: Number) -> (r: Result<Expr, ParseErrorKind>)
        ensures
            match r {
                Ok(e) => fill(self@, ExprView::Val(n)) == Some(e@),
                Err(k) => fill(self@, ExprView::Val(n)) is None && k
                    == ParseErrorKind::MisplacedValue,
            },
    {
        self.add_expr(Expr::Val(n))
    }

    /// Puts the variable `v` into the empty place.
    pub fn add_var(self, v: String) -> (r: Result<Expr, ParseErrorKind>)
        ensures
            match r {
                Ok(e) => fill(self@, ExprView::Var(v@)) == Some(e@),
                Err(k) => fill(self@, ExprView::Var(v@)) is None && k
                    == ParseErrorKind::MisplacedValue,
            },
    {
        self.add_expr(Expr::Var(v))
    }

    /// Puts the array literal `a` into the empty place.
    pub fn add_arr(self, a: Array) -> (r: Result<Expr, ParseErrorKind>)
        ensures
            match r {
                Ok(e) => fill(self@, ExprView::Array(trees(a.0))) == Some(e@),
                Err(k) => fill(self@, ExprView::Array(trees(a.0))) is None && k
                    == ParseErrorKind::MisplacedValue,
            },
    {
        self.add_expr(Expr::Array(a))
    }

    /// Lets the operator `o` take its place in the tree.
    pub fn add_op(self, o: char) -> (r: Result<Expr, ParseErrorKind>)
        ensures
            match r {
                Ok(e) => operator(o) && attach(self@, o) == Some(e@),
                Err(k) => if operator(o) {
                    attach(self@, o) is None && k == ParseErrorKind::MisplacedOperator
                } else {
                    k == ParseErrorKind::UnknownOperator
                },
            },
    {
        if !is_operator(o) {
            return Err(ParseErrorKind::UnknownOperator);
        }
        if self.is_open() {
            return Err(ParseErrorKind::MisplacedOperator);
        }
        self.insert_operator(o)
    }

    fn insert_operator(self, o: char) -> (r: Result<Expr, ParseErrorKind>)
        ensures
            match r {
                Ok(e) => walked(self@, o) == Some(e@),
                Err(k) => walked(self@, o) is None && k == ParseErrorKind::MisplacedOperator,
            },
        decreases self,
    {
        let blank = if o == '_' || o == 's' || o == '!' {
            Expr::Val(Number { bits: 0 })
        } else {
            Expr::Empty
        };
        assert(blank@ == right_of(o));
        match self {
            Expr::Empty => Err(ParseErrorKind::MisplacedOperator),
            Expr::Operation(left, b, right) => {
                if binding(b) > binding(o) {
                    match (*right).insert_operator(o) {
                        Ok(r) => Ok(Expr::Operation(left, b, Box::new(r))),
                        Err(k) => Err(k),
                    }
                } else {
                    let whole = Expr::Operation(left, b, right);
                    assert(whole@ == self@);
                    Ok(Expr::Operation(Box::new(whole), o, Box::new(blank)))
                }
            },
            other => {
                assert(other@ == self@);
                assert(!(self@ is Empty) && !(self@ is Operation));
                Ok(Expr::Operation(Box::new(other), o, Box::new(blank)))
            },
        }
    }
}

impl Array {
    /// A copy of the elements.
    pub fn into_inner(&self) -> (r: Vec<Expr>)
        ensures
            trees(r) == trees(self.0),
    {
        let mut v: Vec<Expr> = Vec::new();
        let mut i: usize = 0;
        while i < self.0.len()
            invariant
                i <= self.0.len(),
                v.len() == i,
                forall|k: int| 0 <= k < i ==> v[k]@ == self.0[k]@,
            decreases self.0.len() - i,
        {
            v.push(self.0[i].duplicate());
            i += 1;
        }
        assert(trees(v) =~= trees(self.0));
        v
    }
}

/// The error at place `i`.
pub open spec fn fault(kind: ParseErrorKind, i: nat) -> ParseError {
    ParseError { kind, index: i as usize }
}

/// A token with which an operand or an operator begins.
pub open spec fn operand_token(t: TokenView) -> bool {
    t is Number || t is Operator || t is Variable || t is LParen || t is LBracket
}

/// The token that ends a list: `)` for the arguments of a call, `]` for an
/// array literal.
pub open spec fn closes(t: TokenView, call: bool) -> bool {
    if call {
        t is RParen
    } else {
        t is RBracket
    }
}

/// The outcome of putting a value that began at token `at` into a tree.
pub open spec fn placed(slot: Option<ExprView>, at: nat, next: nat) -> Result<
    (ExprView, nat),
    ParseError,
> {
    match slot {
        Some(e) => Ok((e, next)),
        None => Err(fault(ParseErrorKind::MisplacedValue, at)),
    }
}

/// Takes one operand or operator, which begins at token `i`, into the tree
/// `cur`. A number, a variable, a parenthesised expression, an array literal
/// and a call are values; a variable directly before `(` is the name of a
/// call. The result holds the new tree and the place of the token after
/// the last one that was read.
pub open spec fn operand(t: Seq<TokenView>, i: nat, cur: ExprView) -> Result<
    (ExprView, nat),
    ParseError,
>
    decreases t.len() - i, 0nat,
{
    if i >= t.len() {
        Err(fault(ParseErrorKind::Unclosed, i))
    } else {
        match t[i as int] {
            TokenView::Number(n) => placed(fill(cur, ExprView::Val(n)), i, i + 1),
            TokenView::Operator(o) => if !operator(o) {
                Err(fault(ParseErrorKind::UnknownOperator, i))
            } else {
                match attach(cur, o) {
                    Some(e) => Ok((e, i + 1)),
                    None => Err(fault(ParseErrorKind::MisplacedOperator, i)),
                }
            },
            TokenView::Variable(name) => if i + 1 < t.len() && t[i + 1 as int] is LParen {
                match listed(t, i + 2, true, Seq::empty(), ExprView::Empty) {
                    Ok((args, j)) => placed(fill(cur, ExprView::Call(name, args)), i, j + 1),
                    Err(e) => Err(e),
                }
            } else {
                placed(fill(cur, ExprView::Var(name)), i, i + 1)
            },
            TokenView::LParen => match grouped(t, i + 1, ExprView::Empty) {
                Ok((inner, j)) => placed(fill(cur, inner), i, j + 1),
                Err(e) => Err(e),
            },
            TokenView::LBracket => match listed(t, i + 1, false, Seq::empty(), ExprView::Empty) {
                Ok((items, j)) => placed(fill(cur, ExprView::Array(items)), i, j + 1),
                Err(e) => Err(e),
            },
            _ => Err(fault(ParseErrorKind::Unexpected, i)),
        }
    }
}

/// The expression between parentheses: the tokens from `i` on are taken into
/// `cur` up to the `)` that closes it, where the expression must miss no
/// operand. The result holds the tree and the place of that `)`.
pub open spec fn grouped(t: Seq<TokenView>, i: nat, cur: ExprView) -> Result<
    (ExprView, nat),
    ParseError,
>
    decreases t.len() - i, 1nat,
{
    if i >= t.len() {
        Err(fault(ParseErrorKind::Unclosed, i))
    } else if t[i as int] is RParen {
        if open_slot(cur) {
            Err(fault(ParseErrorKind::Unfinished, i))
        } else {
            Ok((cur, i))
        }
    } else if operand_token(t[i as int]) {
        match operand(t, i, cur) {
            Ok((e, j)) => if i < j <= t.len() {
                grouped(t, j, e)
            } else {
                Err(fault(ParseErrorKind::Unclosed, j))
            },
            Err(e) => Err(e),
        }
    } else {
        Err(fault(ParseErrorKind::Unexpected, i))
    }
}

/// A list of expressions with commas between them: the tokens from `i` on
/// are read up to the token that closes the list, after the items `items`
/// and into the item `cur`. An empty list is in order; an empty item
/// is not, neither before a comma nor before the end, and neither is an
/// item that misses an operand. The result holds the items and the place
/// of the closing token.
pub open spec fn listed(
    t: Seq<TokenView>,
    i: nat,
    call: bool,
    items: Seq<ExprView>,
    cur: ExprView,
) -> Result<(Seq<ExprView>, nat), ParseError>
    decreases t.len() - i, 1nat,
{
    if i >= t.len() {
        Err(fault(ParseErrorKind::Unclosed, i))
    } else if closes(t[i as int], call) {
        if cur is Empty {
            if items.len() == 0 {
                Ok((items, i))
            } else {
                Err(fault(ParseErrorKind::TrailingComma, i))
            }
        } else if open_slot(cur) {
            Err(fault(ParseErrorKind::Unfinished, i))
        } else {
            Ok((items.push(cur), i))
        }
    } else if t[i as int] is Comma {
        if cur is Empty {
            Err(fault(ParseErrorKind::Unexpected, i))
        } else if open_slot(cur) {
            Err(fault(ParseErrorKind::Unfinished, i))
        } else {
            listed(t, i + 1, call, items.push(cur), ExprView::Empty)
        }
    } else if operand_token(t[i as int]) {
        match operand(t, i, cur) {
            Ok((e, j)) => if i < j <= t.len() {
                listed(t, j, call, items, e)
            } else {
                Err(fault(ParseErrorKind::Unclosed, j))
            },
            Err(e) => Err(e),
        }
    } else {
        Err(fault(ParseErrorKind::Unexpected, i))
    }
}

/// The expression that a statement is still taking tokens into: that of a
/// binding or an output, and that of a control statement that has no block
/// yet (for a loop over a collection, once it has its variable).
pub open spec fn slot(s: StmtView) -> Option<ExprView> {
    match s {
        StmtView::Bind(_, e) => Some(e),
        StmtView::Out(e) => Some(e),
        StmtView::StringOut(e) => Some(e),
        StmtView::Condition(e, None, None) => Some(e),
        StmtView::While(e, None) => Some(e),
        StmtView::For(Some(_), e, None) => Some(e),
        _ => None,
    }
}

/// The statement with `e` as its expression.
pub open spec fn with_slot(s: StmtView, e: ExprView) -> StmtView {
    match s {
        StmtView::Bind(name, _) => StmtView::Bind(name, e),
        StmtView::Out(_) => StmtView::Out(e),
        StmtView::StringOut(_) => StmtView::StringOut(e),
        StmtView::Condition(_, first, second) => StmtView::Condition(e, first, second),
        StmtView::While(_, body) => StmtView::While(e, body),
        StmtView::For(name, _, body) => StmtView::For(name, e, body),
        StmtView::Empty => StmtView::Empty,
    }
}

/// The statement can take a block: a control statement that misses its
/// body, or a conditional that has its first block and no second one.
pub open spec fn takes_block(s: StmtView) -> bool {
    match s {
        StmtView::Condition(_, _, None) => true,
        StmtView::While(_, None) => true,
        StmtView::For(_, _, None) => true,
        _ => false,
    }
}

/// The head of a control statement is finished: its expression misses no
/// operand, and a loop over a collection has its variable.
pub open spec fn headed(s: StmtView) -> bool {
    match s {
        StmtView::Condition(e, _, _) => !open_slot(e),
        StmtView::While(e, _) => !open_slot(e),
        StmtView::For(Some(_), e, _) => !open_slot(e),
        _ => false,
    }
}

/// The statement under construction can be closed: there is none, or its
/// expression misses no operand and, where it is a control statement, it
/// has its body.
pub open spec fn ready(s: StmtView) -> bool {
    match s {
        StmtView::Empty => true,
        StmtView::Bind(_, e) => !open_slot(e),
        StmtView::Out(e) => !open_slot(e),
        StmtView::StringOut(e) => !open_slot(e),
        StmtView::Condition(e, Some(_), _) => !open_slot(e),
        StmtView::While(e, Some(_)) => !open_slot(e),
        StmtView::For(Some(_), e, Some(_)) => !open_slot(e),
        _ => false,
    }
}

/// The statement that a token opens.
pub open spec fn opened(t: TokenView) -> Option<StmtView> {
    match t {
        TokenView::Output => Some(StmtView::Out(ExprView::Empty)),
        TokenView::StringOutput => Some(StmtView::StringOut(ExprView::Empty)),
        TokenView::Control(Control::If) => Some(StmtView::Condition(ExprView::Empty, None, None)),
        TokenView::Control(Control::While) => Some(StmtView::While(ExprView::Empty, None)),
        TokenView::Control(Control::For) => Some(StmtView::For(None, ExprView::Empty, None)),
        _ => None,
    }
}

/// The statement with `body` as its next block.
pub open spec fn with_block(s: StmtView, body: Seq<StmtView>) -> StmtView {
    match s {
        StmtView::Condition(e, None, second) => StmtView::Condition(e, Some(body), second),
        StmtView::Condition(e, Some(first), _) => StmtView::Condition(e, Some(first), Some(body)),
        StmtView::While(e, _) => StmtView::While(e, Some(body)),
        StmtView::For(name, e, _) => StmtView::For(name, e, Some(body)),
        other => other,
    }
}

/// The statements so far, with the one under construction at their end if
/// there is one.
pub open spec fn finished(out: Seq<StmtView>, cur: StmtView) -> Seq<StmtView> {
    if cur is Empty {
        out
    } else {
        out.push(cur)
    }
}

/// The statements of a block: the tokens from `i` on are read after the
/// statements `out` and into the statement `cur`. A nested block ends at
/// the `}` that closes it, and the result holds the place of that `}`; the
/// outermost one ends with the tokens, and a `}` in it is refused.
///
/// `$`, `~`, `if`, `while` and `for` open a statement. So does a variable
/// that the statement before it has no place for; directly after `for` a
/// variable is the loop's variable. `else` asks only that a conditional
/// is under construction. `{` opens the next block of the control
/// statement under construction. Every other token goes into the
/// expression of the statement under construction; the `=` after the
/// variable of a binding is passed over.
///
/// Where a statement opens or the block ends, the statement under
/// construction is closed, and that is an error unless it is `ready`. A
/// block is an error too after a head that is not finished.
pub open spec fn block(
    t: Seq<TokenView>,
    i: nat,
    nested: bool,
    out: Seq<StmtView>,
    cur: StmtView,
) -> Result<(Seq<StmtView>, nat), ParseError>
    decreases t.len() - i, 1nat,
{
    if i >= t.len() {
        if nested {
            Err(fault(ParseErrorKind::Unclosed, i))
        } else if !ready(cur) {
            Err(fault(ParseErrorKind::Unfinished, i))
        } else {
            Ok((finished(out, cur), i))
        }
    } else {
        match opened(t[i as int]) {
            Some(next) => if ready(cur) {
                block(t, i + 1, nested, finished(out, cur), next)
            } else {
                Err(fault(ParseErrorKind::Unfinished, i))
            },
            None => match t[i as int] {
                TokenView::RBraces => if !nested {
                    Err(fault(ParseErrorKind::Unexpected, i))
                } else if !ready(cur) {
                    Err(fault(ParseErrorKind::Unfinished, i))
                } else {
                    Ok((finished(out, cur), i))
                },
                TokenView::Control(Control::Else) => if cur is Condition {
                    block(t, i + 1, nested, out, cur)
                } else {
                    Err(fault(ParseErrorKind::Unexpected, i))
                },
                TokenView::LBraces => if !takes_block(cur) {
                    Err(fault(ParseErrorKind::Unexpected, i))
                } else if !headed(cur) {
                    Err(fault(ParseErrorKind::Unfinished, i))
                } else {
                    match block(t, i + 1, true, Seq::empty(), StmtView::Empty) {
                        Ok((body, j)) => if i < j < t.len() {
                            block(t, j + 1, nested, out, with_block(cur, body))
                        } else {
                            Err(fault(ParseErrorKind::Unclosed, j))
                        },
                        Err(e) => Err(e),
                    }
                },
                TokenView::Variable(name) => if cur is Empty {
                    block(t, i + 1, nested, out, StmtView::Bind(name, ExprView::Empty))
                } else if cur == StmtView::For(None, ExprView::Empty, None) {
                    block(
                        t,
                        i + 1,
                        nested,
                        out,
                        StmtView::For(Some(name), ExprView::Empty, None),
                    )
                } else {
                    match slot(cur) {
                        Some(e) => if open_slot(e) {
                            into_slot(t, i, nested, out, cur)
                        } else if cur is Bind || cur is Out || cur is StringOut {
                            block(
                                t,
                                i + 1,
                                nested,
                                out.push(cur),
                                StmtView::Bind(name, ExprView::Empty),
                            )
                        } else {
                            Err(fault(ParseErrorKind::MisplacedValue, i))
                        },
                        None => if ready(cur) {
                            block(
                                t,
                                i + 1,
                                nested,
                                out.push(cur),
                                StmtView::Bind(name, ExprView::Empty),
                            )
                        } else {
                            Err(fault(ParseErrorKind::Unfinished, i))
                        },
                    }
                },
                TokenView::Operator(o) => if cur matches StmtView::Bind(_, ExprView::Empty) {
                    if o == '=' {
                        block(t, i + 1, nested, out, cur)
                    } else {
                        Err(fault(ParseErrorKind::ExpectedAssign, i))
                    }
                } else {
                    into_slot(t, i, nested, out, cur)
                },
                TokenView::Number(_) => into_slot(t, i, nested, out, cur),
                TokenView::LParen => into_slot(t, i, nested, out, cur),
                TokenView::LBracket => into_slot(t, i, nested, out, cur),
                _ => Err(fault(ParseErrorKind::Unexpected, i)),
            },
        }
    }
}

/// The rest of a block where the token at `i` goes into the expression of
/// the statement under construction.
pub open spec fn into_slot(
    t: Seq<TokenView>,
    i: nat,
    nested: bool,
    out: Seq<StmtView>,
    cur: StmtView,
) -> Result<(Seq<StmtView>, nat), ParseError>
    decreases t.len() - i, 0nat,
{
    match slot(cur) {
        Some(e) => match operand(t, i, e) {
            Ok((e2, j)) => if i < j <= t.len() {
                block(t, j, nested, out, with_slot(cur, e2))
            } else {
                Err(fault(ParseErrorKind::Unclosed, j))
            },
            Err(err) => Err(err),
        },
        None => Err(fault(ParseErrorKind::Unexpected, i)),
    }
}

/// Adding an expression at the end of a list adds its tree at the end of
/// the list's trees.
pub proof fn lemma_trees_push(before: Vec<Expr>, after: Vec<Expr>, e: Expr)
    requires
        after@ == before@.push(e),
    ensures
        trees(after) == trees(before).push(e@),
{
    assert(trees(after) =~= trees(before).push(e@));
}

/// Adding a statement at the end of a block adds its view at the end of the
/// block's views.
pub proof fn lemma_plans_push(before: Vec<Stmt>, after: Vec<Stmt>, s: Stmt)
    requires
        after@ == before@.push(s),
    ensures
        plans(after) == plans(before).push(s@),
{
    assert(plans(after) =~= plans(before).push(s@));
}

fn starts_operand(tok: &Token) -> (r: bool)
    ensures
        r == operand_token(tok@),
{
    match tok {
        Token::Number(_) => true,
        Token::Operator(_) => true,
        Token::Variable(_) => true,
        Token::LParen => true,
        Token::LBracket => true,
        _ => false,
    }
}

fn is_closer(tok: &Token, call: bool) -> (r: bool)
    ensures
        r == closes(tok@, call),
{
    match tok {
        Token::RParen => call,
        Token::RBracket => !call,
        _ => false,
    }
}

fn is_left_paren(tok: &Token) -> (r: bool)
    ensures
        r == (tok@ is LParen),
{
    match tok {
        Token::LParen => true,
        _ => false,
    }
}

fn is_comma(tok: &Token) -> (r: bool)
    ensures
        r == (tok@ is Comma),
{
    match tok {
        Token::Comma => true,
        _ => false,
    }
}

fn is_empty_expr(e: &Expr) -> (r: bool)
    ensures
        r == (e@ is Empty),
{
    match e {
        Expr::Empty => true,
        _ => false,
    }
}

/// Puts a value that began at token `at` into the tree.
fn place(current: Expr, value: Expr, at: usize) -> (r: Result<Expr, ParseError>)
    ensures
        match r {
            Ok(e) => fill(current@, value@) == Some(e@),
            Err(err) => fill(current@, value@) is None && err == fault(
                ParseErrorKind::MisplacedValue,
                at as nat,
            ),
        },
{
    match current.add_expr(value) {
        Ok(e) => Ok(e),
        Err(kind) => Err(ParseError { kind, index: at }),
    }
}

/// Reads the operand or operator that begins at token `*i` into `current`,
/// and leaves `*i` after it.
fn parse_operand(t: &Vec<Token>, i: &mut usize, current: Expr) -> (r: Result<Expr, ParseError>)
    requires
        *old(i) < t.len(),
    ensures
        match r {
            Ok(e) => operand(tokens(*t), *old(i) as nat, current@) == Ok::<
                (ExprView, nat),
                ParseError,
            >((e@, *final(i) as nat)) && *old(i) < *final(i) <= t.len(),
            Err(err) => operand(tokens(*t), *old(i) as nat, current@) == Err::<
                (ExprView, nat),
                ParseError,
            >(err),
        },
    decreases t.len() - *old(i), 0nat,
{
    let at: usize = *i;
    let ghost ts = tokens(*t);
    assert(ts[at as int] == t[at as int]@);
    match &t[at] {
        Token::Number(n) => {
            *i = at + 1;
            place(current, Expr::Val(*n), at)
        },
        Token::Operator(o) => {
            *i = at + 1;
            match current.add_op(*o) {
                Ok(e) => Ok(e),
                Err(kind) => Err(ParseError { kind, index: at }),
            }
        },
        Token::Variable(name) => {
            if at + 1 < t.len() && is_left_paren(&t[at + 1]) {
                assert(ts[at + 1] == t[at + 1]@);
                *i = at + 2;
                match parse_list(t, i, true) {
                    Ok(args) => {
                        *i = *i + 1;
                        place(current, Expr::Call(name.clone(), args), at)
                    },
                    Err(err) => Err(err),
                }
            } else {
                assert(at + 1 < t.len() ==> ts[at + 1] == t[at + 1]@);
                *i = at + 1;
                place(current, Expr::Var(name.clone()), at)
            }
        },
        Token::LParen => {
            *i = at + 1;
            match parse_parenthesis(t, i) {
                Ok(inner) => {
                    *i = *i + 1;
                    place(current, inner, at)
                },
                Err(err) => Err(err),
            }
        },
        Token::LBracket => {
            *i = at + 1;
            match parse_list(t, i, false) {
                Ok(items) => {
                    *i = *i + 1;
                    place(current, Expr::Array(Array(items)), at)
                },
                Err(err) => Err(err),
            }
        },
        _ => Err(ParseError { kind: ParseErrorKind::Unexpected, index: at }),
    }
}

/// Reads the expression between parentheses, from the token after the `(`
/// on, and leaves `*i` at the `)` that closes it. The expression misses no
/// operand at any depth.
#[verifier::loop_isolation(false)]
pub fn parse_parenthesis(t: &Vec<Token>, i: &mut usize) -> (r: Result<Expr, ParseError>)
    ensures
        match r {
            Ok(e) => grouped(tokens(*t), *old(i) as nat, ExprView::Empty) == Ok::<
                (ExprView, nat),
                ParseError,
            >((e@, *final(i) as nat)) && *old(i) <= *final(i) < t.len() && crate::laws::complete(
                e@,
            ),
            Err(err) => grouped(tokens(*t), *old(i) as nat, ExprView::Empty) == Err::<
                (ExprView, nat),
                ParseError,
            >(err),
        },
    decreases t.len() - *old(i), 1nat,
{
    let ghost ts = tokens(*t);
    proof {
        crate::laws::law_parts_are_complete(ts, *i as nat, true);
    }
    let mut out = Expr::Empty;
    loop
        invariant
            *old(i) <= *i,
            grouped(ts, *i as nat, out@) == grouped(ts, *old(i) as nat, ExprView::Empty),
        decreases t.len() - *i,
    {
        if *i >= t.len() {
            return Err(ParseError { kind: ParseErrorKind::Unclosed, index: *i });
        }
        let at: usize = *i;
        assert(ts[at as int] == t[at as int]@);
        if is_closer(&t[at], true) {
            if out.is_open() {
                return Err(ParseError { kind: ParseErrorKind::Unfinished, index: at });
            }
            return Ok(out);
        } else if starts_operand(&t[at]) {
            match parse_operand(t, i, out) {
                Ok(e) => {
                    out = e;
                },
                Err(err) => {
                    return Err(err);
                },
            }
        } else {
            return Err(ParseError { kind: ParseErrorKind::Unexpected, index: at });
        }
    }
}

/// Reads the items of a list, from the token after the opening bracket on,
/// and leaves `*i` at the token that closes the list.
#[verifier::loop_isolation(false)]
fn parse_list(t: &Vec<Token>, i: &mut usize, call: bool) -> (r: Result<Vec<Expr>, ParseError>)
    ensures
        match r {
            Ok(v) => listed(tokens(*t), *old(i) as nat, call, Seq::empty(), ExprView::Empty)
                == Ok::<(Seq<ExprView>, nat), ParseError>((trees(v), *final(i) as nat)) && *old(i)
                <= *final(i) < t.len(),
            Err(err) => listed(tokens(*t), *old(i) as nat, call, Seq::empty(), ExprView::Empty)
                == Err::<(Seq<ExprView>, nat), ParseError>(err),
        },
    decreases t.len() - *old(i), 1nat,
{
    let ghost ts = tokens(*t);
    let mut out: Vec<Expr> = Vec::new();
    let mut current = Expr::Empty;
    assert(trees(out) =~= Seq::empty());
    loop
        invariant
            *old(i) <= *i,
            listed(ts, *i as nat, call, trees(out), current@) == listed(
                ts,
                *old(i) as nat,
                call,
                Seq::empty(),
                ExprView::Empty,
            ),
        decreases t.len() - *i,
    {
        if *i >= t.len() {
            return Err(ParseError { kind: ParseErrorKind::Unclosed, index: *i });
        }
        let at: usize = *i;
        assert(ts[at as int] == t[at as int]@);
        if is_closer(&t[at], call) {
            if is_empty_expr(&current) {
                if out.len() == 0 {
                    return Ok(out);
                } else {
                    return Err(ParseError { kind: ParseErrorKind::TrailingComma, index: at });
                }
            } else if current.is_open() {
                return Err(ParseError { kind: ParseErrorKind::Unfinished, index: at });
            } else {
                let ghost before = out;
                let ghost item = current;
                out.push(current);
                proof {
                    lemma_trees_push(before, out, item);
                }
                return Ok(out);
            }
        } else if is_comma(&t[at]) {
            if is_empty_expr(&current) {
                return Err(ParseError { kind: ParseErrorKind::Unexpected, index: at });
            } else if current.is_open() {
                return Err(ParseError { kind: ParseErrorKind::Unfinished, index: at });
            } else {
                let ghost before = out;
                let ghost item = current;
                out.push(current);
                proof {
                    lemma_trees_push(before, out, item);
                }
                current = Expr::Empty;
                *i = at + 1;
            }
        } else if starts_operand(&t[at]) {
            match parse_operand(t, i, current) {
                Ok(e) => {
                    current = e;
                },
                Err(err) => {
                    return Err(err);
                },
            }
        } else {
            return Err(ParseError { kind: ParseErrorKind::Unexpected, index: at });
        }
    }
}

/// Reads an array literal, from the token after the `[` on, and leaves `*i`
/// at the `]` that closes it. No item misses an operand at any depth.
pub fn parse_array(t: &Vec<Token>, i: &mut usize) -> (r: Result<Array, ParseError>)
    ensures
        match r {
            Ok(a) => listed(tokens(*t), *old(i) as nat, false, Seq::empty(), ExprView::Empty)
                == Ok::<(Seq<ExprView>, nat), ParseError>((trees(a.0), *final(i) as nat)) && *old(
                i,
            ) <= *final(i) < t.len() && crate::laws::all_complete(trees(a.0)),
            Err(err) => listed(tokens(*t), *old(i) as nat, false, Seq::empty(), ExprView::Empty)
                == Err::<(Seq<ExprView>, nat), ParseError>(err),
        },
{
    proof {
        crate::laws::law_parts_are_complete(tokens(*t), *i as nat, false);
    }
    match parse_list(t, i, false) {
        Ok(items) => Ok(Array(items)),
        Err(err) => Err(err),
    }
}

/// Reads the arguments of a call, from the token after the `(` on, and
/// leaves `*i` at the `)` that closes them. No argument misses an operand
/// at any depth.
pub fn parse_call_args(t: &Vec<Token>, i: &mut usize) -> (r: Result<Vec<Expr>, ParseError>)
    ensures
        match r {
            Ok(v) => listed(tokens(*t), *old(i) as nat, true, Seq::empty(), ExprView::Empty)
                == Ok::<(Seq<ExprView>, nat), ParseError>((trees(v), *final(i) as nat)) && *old(i)
                <= *final(i) < t.len() && crate::laws::all_complete(trees(v)),
            Err(err) => listed(tokens(*t), *old(i) as nat, true, Seq::empty(), ExprView::Empty)
                == Err::<(Seq<ExprView>, nat), ParseError>(err),
        },
{
    proof {
        crate::laws::law_parts_are_complete(tokens(*t), *i as nat, true);
    }
    parse_list(t, i, true)
}

/// The block as an optional sequence of statements.
pub open spec fn body_view(b: Option<Vec<Stmt>>) -> Option<Seq<StmtView>> {
    match b {
        Some(v) => Some(plans(v)),
        None => None,
    }
}

fn has_slot(s: &Stmt) -> (r: bool)
    ensures
        r == (slot(s@) is Some),
{
    match s {
        Stmt::Bind(_, _) => true,
        Stmt::Out(_) => true,
        Stmt::StringOut(_) => true,
        Stmt::Condition(_, None, None) => true,
        Stmt::While(_, None) => true,
        Stmt::For(Some(_), _, None) => true,
        _ => false,
    }
}

/// The statement's expression has an empty place.
fn slot_is_open(s: &Stmt) -> (r: bool)
    requires
        slot(s@) is Some,
    ensures
        r == open_slot(slot(s@)->0),
{
    match s {
        Stmt::Bind(_, e) => e.is_open(),
        Stmt::Out(e) => e.is_open(),
        Stmt::StringOut(e) => e.is_open(),
        Stmt::Condition(e, _, _) => e.is_open(),
        Stmt::While(e, _) => e.is_open(),
        Stmt::For(_, e, _) => e.is_open(),
        Stmt::Empty => false,
    }
}

/// Takes the expression out of the statement and leaves an empty one.
fn take_slot(s: Stmt) -> (r: (Stmt, Expr))
    requires
        slot(s@) is Some,
    ensures
        r.1@ == slot(s@)->0,
        r.0@ == with_slot(s@, ExprView::Empty),
{
    match s {
        Stmt::Bind(name, e) => (Stmt::Bind(name, Expr::Empty), e),
        Stmt::Out(e) => (Stmt::Out(Expr::Empty), e),
        Stmt::StringOut(e) => (Stmt::StringOut(Expr::Empty), e),
        Stmt::Condition(e, first, second) => (Stmt::Condition(Expr::Empty, first, second), e),
        Stmt::While(e, body) => (Stmt::While(Expr::Empty, body), e),
        Stmt::For(name, e, body) => (Stmt::For(name, Expr::Empty, body), e),
        Stmt::Empty => (Stmt::Empty, Expr::Empty),
    }
}

fn put_slot(s: Stmt, e: Expr) -> (r: Stmt)
    ensures
        r@ == with_slot(s@, e@),
{
    match s {
        Stmt::Bind(name, _) => Stmt::Bind(name, e),
        Stmt::Out(_) => Stmt::Out(e),
        Stmt::StringOut(_) => Stmt::StringOut(e),
        Stmt::Condition(_, first, second) => Stmt::Condition(e, first, second),
        Stmt::While(_, body) => Stmt::While(e, body),
        Stmt::For(name, _, body) => Stmt::For(name, e, body),
        Stmt::Empty => Stmt::Empty,
    }
}

fn can_take_block(s: &Stmt) -> (r: bool)
    ensures
        r == takes_block(s@),
{
    match s {
        Stmt::Condition(_, _, None) => true,
        Stmt::While(_, None) => true,
        Stmt::For(_, _, None) => true,
        _ => false,
    }
}

fn is_headed(s: &Stmt) -> (r: bool)
    ensures
        r == headed(s@),
{
    match s {
        Stmt::Condition(e, _, _) => !e.is_open(),
        Stmt::While(e, _) => !e.is_open(),
        Stmt::For(Some(_), e, _) => !e.is_open(),
        _ => false,
    }
}

fn is_ready(s: &Stmt) -> (r: bool)
    ensures
        r == ready(s@),
{
    match s {
        Stmt::Empty => true,
        Stmt::Bind(_, e) => !e.is_open(),
        Stmt::Out(e) => !e.is_open(),
        Stmt::StringOut(e) => !e.is_open(),
        Stmt::Condition(e, Some(_), _) => !e.is_open(),
        Stmt::While(e, Some(_)) => !e.is_open(),
        Stmt::For(Some(_), e, Some(_)) => !e.is_open(),
        _ => false,
    }
}

/// The statement that the token opens.
fn opens(tok: &Token) -> (r: Option<Stmt>)
    ensures
        match r {
            Some(next) => opened(tok@) == Some(next@),
            None => opened(tok@) is None,
        },
{
    match tok {
        Token::Output => Some(Stmt::Out(Expr::Empty)),
        Token::StringOutput => Some(Stmt::StringOut(Expr::Empty)),
        Token::Control(Control::If) => Some(Stmt::Condition(Expr::Empty, None, None)),
        Token::Control(Control::While) => Some(Stmt::While(Expr::Empty, None)),
        Token::Control(Control::For) => Some(Stmt::For(None, Expr::Empty, None)),
        _ => None,
    }
}

fn put_block(s: Stmt, body: Vec<Stmt>) -> (r: Stmt)
    ensures
        r@ == with_block(s@, plans(body)),
{
    match s {
        Stmt::Condition(e, None, second) => Stmt::Condition(e, Some(body), second),
        Stmt::Condition(e, Some(first), _) => Stmt::Condition(e, Some(first), Some(body)),
        Stmt::While(e, _) => Stmt::While(e, Some(body)),
        Stmt::For(name, e, _) => Stmt::For(name, e, Some(body)),
        other => other,
    }
}

/// Closes the statement under construction: it goes to the end of `out`
/// unless it is empty.
fn finish(out: Vec<Stmt>, current: Stmt) -> (r: Vec<Stmt>)
    ensures
        plans(r) == finished(plans(out), current@),
{
    match current {
        Stmt::Empty => out,
        other => {
            let mut out = out;
            let ghost before = out;
            let ghost last = other;
            out.push(other);
            proof {
                lemma_plans_push(before, out, last);
            }
            out
        },
    }
}

/// The kinds of statement that a variable which finds no place closes.
fn is_plain(s: &Stmt) -> (r: bool)
    ensures
        r == (s@ is Bind || s@ is Out || s@ is StringOut),
{
    match s {
        Stmt::Bind(_, _) => true,
        Stmt::Out(_) => true,
        Stmt::StringOut(_) => true,
        _ => false,
    }
}

fn awaits_variable(s: &Stmt) -> (r: bool)
    ensures
        r == (s@ == StmtView::For(None, ExprView::Empty, None)),
{
    match s {
        Stmt::For(None, Expr::Empty, None) => true,
        _ => false,
    }
}

fn awaits_assign(s: &Stmt) -> (r: bool)
    ensures
        r == (s@ matches StmtView::Bind(_, ExprView::Empty)),
{
    match s {
        Stmt::Bind(_, Expr::Empty) => true,
        _ => false,
    }
}

/// Reads a whole program: the statements from token `*i` to the end of the
/// tokens. Where it succeeds, every token has been read, and the
/// statements are finished at every depth: no expression misses an operand,
/// and no control statement its body.
pub fn parse(t: &Vec<Token>, i: &mut usize) -> (r: Result<Vec<Stmt>, ParseError>)
    ensures
        match r {
            Ok(v) => block(tokens(*t), *old(i) as nat, false, Seq::empty(), StmtView::Empty)
                == Ok::<(Seq<StmtView>, nat), ParseError>((plans(v), *final(i) as nat))
                && crate::laws::all_whole(plans(v)) && (*old(i) <= t.len() ==> *final(i)
                == t.len()),
            Err(err) => block(tokens(*t), *old(i) as nat, false, Seq::empty(), StmtView::Empty)
                == Err::<(Seq<StmtView>, nat), ParseError>(err),
        },
{
    proof {
        crate::laws::law_parsed_is_whole(
            tokens(*t),
            *i as nat,
            false,
            Seq::empty(),
            StmtView::Empty,
        );
        crate::laws::law_block_ends(tokens(*t), *i as nat, false, Seq::empty(), StmtView::Empty);
    }
    parse_block(t, i, false)
}

/// Reads the statements of a block. A nested block is read from the token
/// after its `{` on, and `*i` is left at the `}` that closes it.
#[verifier::loop_isolation(false)]
fn parse_block(t: &Vec<Token>, i: &mut usize, nested: bool) -> (r: Result<Vec<Stmt>, ParseError>)
    ensures
        match r {
            Ok(v) => block(tokens(*t), *old(i) as nat, nested, Seq::empty(), StmtView::Empty)
                == Ok::<(Seq<StmtView>, nat), ParseError>((plans(v), *final(i) as nat)) && (nested
                ==> *old(i) <= *final(i) < t.len()),
            Err(err) => block(tokens(*t), *old(i) as nat, nested, Seq::empty(), StmtView::Empty)
                == Err::<(Seq<StmtView>, nat), ParseError>(err),
        },
    decreases t.len() - *old(i), 1nat,
{
    let ghost ts = tokens(*t);
    let mut out: Vec<Stmt> = Vec::new();
    let mut current = Stmt::Empty;
    assert(plans(out) =~= Seq::empty());
    loop
        invariant
            *old(i) <= *i,
            block(ts, *i as nat, nested, plans(out), current@) == block(
                ts,
                *old(i) as nat,
                nested,
                Seq::empty(),
                StmtView::Empty,
            ),
        decreases t.len() - *i,
    {
        if *i >= t.len() {
            if nested {
                return Err(ParseError { kind: ParseErrorKind::Unclosed, index: *i });
            } else if !is_ready(&current) {
                return Err(ParseError { kind: ParseErrorKind::Unfinished, index: *i });
            } else {
                return Ok(finish(out, current));
            }
        }
        let at: usize = *i;
        assert(ts[at as int] == t[at as int]@);
        let ghost rest = into_slot(ts, at as nat, nested, plans(out), current@);
        match opens(&t[at]) {
            Some(next) => {
                if !is_ready(&current) {
                    return Err(ParseError { kind: ParseErrorKind::Unfinished, index: at });
                }
                out = finish(out, current);
                current = next;
                *i = at + 1;
                continue ;
            },
            None => {},
        }
        match &t[at] {
            Token::RBraces => {
                if !nested {
                    return Err(ParseError { kind: ParseErrorKind::Unexpected, index: at });
                } else if !is_ready(&current) {
                    return Err(ParseError { kind: ParseErrorKind::Unfinished, index: at });
                } else {
                    return Ok(finish(out, current));
                }
            },
            Token::Control(Control::Else) => {
                match &current {
                    Stmt::Condition(_, _, _) => {
                        *i = at + 1;
                    },
                    _ => {
                        return Err(ParseError { kind: ParseErrorKind::Unexpected, index: at });
                    },
                }
            },
            Token::LBraces => {
                if !can_take_block(&current) {
                    return Err(ParseError { kind: ParseErrorKind::Unexpected, index: at });
                } else if !is_headed(&current) {
                    return Err(ParseError { kind: ParseErrorKind::Unfinished, index: at });
                } else {
                    *i = at + 1;
                    match parse_block(t, i, true) {
                        Ok(body) => {
                            current = put_block(current, body);
                            *i = *i + 1;
                        },
                        Err(err) => {
                            return Err(err);
                        },
                    }
                }
            },
            Token::Variable(name) => {
                if awaits_variable(&current) {
                    current = Stmt::For(Some(name.clone()), Expr::Empty, None);
                    *i = at + 1;
                } else if !has_slot(&current) {
                    if !is_ready(&current) {
                        return Err(ParseError { kind: ParseErrorKind::Unfinished, index: at });
                    }
                    out = finish(out, current);
                    current = Stmt::Bind(name.clone(), Expr::Empty);
                    *i = at + 1;
                } else if slot_is_open(&current) {
                    let (shell, e) = take_slot(current);
                    match parse_operand(t, i, e) {
                        Ok(e2) => {
                            current = put_slot(shell, e2);
                        },
                        Err(err) => {
                            return Err(err);
                        },
                    }
                } else if is_plain(&current) {
                    out = finish(out, current);
                    current = Stmt::Bind(name.clone(), Expr::Empty);
                    *i = at + 1;
                } else {
                    return Err(ParseError { kind: ParseErrorKind::MisplacedValue, index: at });
                }
            },
            Token::Operator(o) => {
                if awaits_assign(&current) {
                    if *o == '=' {
                        *i = at + 1;
                    } else {
                        return Err(
                            ParseError { kind: ParseErrorKind::ExpectedAssign, index: at },
                        );
                    }
                } else if has_slot(&current) {
                    let (shell, e) = take_slot(current);
                    match parse_operand(t, i, e) {
                        Ok(e2) => {
                            current = put_slot(shell, e2);
                        },
                        Err(err) => {
                            return Err(err);
                        },
                    }
                } else {
                    return Err(ParseError { kind: ParseErrorKind::Unexpected, index: at });
                }
            },
            Token::Number(_) | Token::LParen | Token::LBracket => {
                if has_slot(&current) {
                    let (shell, e) = take_slot(current);
                    match parse_operand(t, i, e) {
                        Ok(e2) => {
                            current = put_slot(shell, e2);
                        },
                        Err(err) => {
                            return Err(err);
                        },
                    }
                } else {
                    return Err(ParseError { kind: ParseErrorKind::Unexpected, index: at });
                }
            },
            _ => {
                return Err(ParseError { kind: ParseErrorKind::Unexpected, index: at });
            },
        }
    }
}

} // verus!
