//! Runtime values: a scalar, or an array of values, nested to any depth.
use crate::number::Number;
use vstd::prelude::*;
use vstd::string::StringExecFns;

verus! {

/// Why an evaluation stops.
#[derive(PartialEq, Eq, Structural, Clone, Copy, Debug)]
pub enum EvalError {
    /// A variable that has no value yet.
    UnboundVariable,
    /// An operator or a function met an operand of the wrong shape: an array
    /// where it takes a scalar, or a scalar where it takes an array.
    TypeMismatch,
    /// A function called with the wrong number of arguments.
    ArityMismatch,
    /// A division by zero.
    DivisionByZero,
    /// A negative index or count.
    Negative,
    /// An index or a count beyond the length of the array.
    OutOfRange,
    /// Two arrays of different lengths under an arithmetic operator.
    SizeMismatch,
    /// A number that is no Unicode scalar value, where text is written.
    InvalidCodePoint,
    /// A draw from a die without faces or from an empty pool.
    NothingToDraw,
    /// A call of a function that does not exist.
    UnknownFunction,
    /// An operator code that the language does not have, with the code.
    UnknownOperator(char),
    /// An empty place in an expression, or a control statement without its
    /// body or its variable. The parser hands out no such tree; one built by
    /// hand may hold them.
    Unfinished,
    /// The `while` loops have gone round more often than the caller allows.
    StepLimit,
}

/// A value as the evaluator holds it.
#[derive(Debug, PartialEq)]
pub enum EvArray {
    F(Number),
    A(Vec<EvArray>),
}

/// A value as a mathematical object.
pub enum Value {
    Scalar(Number),
    Array(Seq<Value>),
}

/// The value that an `EvArray` holds.
pub open spec fn value(v: EvArray) -> Value
    decreases v,
{
    match v {
        EvArray::F(n) => Value::Scalar(n),
        EvArray::A(items) => Value::Array(values(items)),
    }
}

/// The values of a list.
pub open spec fn values(v: Vec<EvArray>) -> Seq<Value>
    decreases v,
{
    Seq::new(
        v.len() as nat,
        |i: int|
            if 0 <= i < v.len() {
                value(v[i])
            } else {
                Value::Scalar(Number::nought())
            },
    )
}

impl View for EvArray {
    type V = Value;

    open spec fn view(&self) -> Value {
        value(*self)
    }
}

/// Adding a value at the end of a list adds its view at the end of the
/// list's views.
pub proof fn lemma_values_push(before: Vec<EvArray>, after: Vec<EvArray>, v: EvArray)
    requires
        after@ == before@.push(v),
    ensures
        values(after) == values(before).push(v@),
{
    assert(values(after) =~= values(before).push(v@));
}

/// The views of an empty list.
pub proof fn lemma_values_empty(v: Vec<EvArray>)
    requires
        v.len() == 0,
    ensures
        values(v) == Seq::<Value>::empty(),
{
    assert(values(v) =~= Seq::<Value>::empty());
}

/// Two values are equal as the language sees it: two scalars that are equal
/// as numbers, or two arrays of one length whose items are equal pair by
/// pair. A scalar never equals an array.
pub open spec fn alike(a: Value, b: Value) -> bool
    decreases a,
{
    match (a, b) {
        (Value::Scalar(x), Value::Scalar(y)) => x.same(y),
        (Value::Array(f), Value::Array(s)) => f.len() == s.len() && forall|i: int|
            0 <= i < f.len() ==> alike(f[i], #[trigger] s[i]),
        _ => false,
    }
}

/// No number in the value is a NaN.
pub open spec fn numeric(a: Value) -> bool
    decreases a,
{
    match a {
        Value::Scalar(x) => !x.nan(),
        Value::Array(items) => forall|i: int| 0 <= i < items.len() ==> numeric(#[trigger] items[i]),
    }
}

/// Truth, as `if` and `while` see it: every array is true, and so is every
/// scalar but zero.
pub open spec fn truthy(a: Value) -> bool {
    match a {
        Value::Scalar(x) => !x.zero(),
        Value::Array(_) => true,
    }
}

/// The texts of the first `n` items, each followed by a comma but the last.
pub open spec fn joined(items: Seq<Value>, n: nat) -> Seq<char>
    decreases items, n,
{
    if n == 0 || n > items.len() {
        Seq::empty()
    } else if n == 1 {
        rendered(items[0])
    } else {
        joined(items, (n - 1) as nat).push(',') + rendered(items[n - 1])
    }
}

/// The text of a value as numbers: a scalar by its decimal text, an array
/// as `[`, its items with commas between them, and `]`.
pub open spec fn rendered(a: Value) -> Seq<char>
    decreases a,
{
    match a {
        Value::Scalar(x) => crate::number::decimal_text(x.bits),
        Value::Array(items) => seq!['['] + joined(items, items.len()) + seq![']'],
    }
}

/// A number that `char` can hold: a Unicode scalar value.
pub open spec fn code_point(n: u32) -> bool {
    n < 0xD800 || (0xE000 <= n && n <= 0x10FFFF)
}

/// The character that a value stands for when it is written as text: the
/// one whose code is the scalar, cut off to a whole number. A scalar that
/// is a NaN, below zero, a surrogate or beyond the last code point stands
/// for no character, and neither does an array.
pub open spec fn letter(a: Value) -> Result<char, EvalError> {
    match a {
        Value::Scalar(x) => if x.nan() || x.below(Number::nought()) || !code_point(x.code()) {
            Err(EvalError::InvalidCodePoint)
        } else {
            Ok(x.code() as char)
        },
        Value::Array(_) => Err(EvalError::TypeMismatch),
    }
}

/// The characters of the first `n` items, or the error of the first item
/// that is no character.
pub open spec fn letters(items: Seq<Value>, n: nat) -> Result<Seq<char>, EvalError>
    decreases n,
{
    if n == 0 {
        Ok(Seq::empty())
    } else {
        match letters(items, (n - 1) as nat) {
            Ok(text) => match letter(items[n - 1]) {
                Ok(c) => Ok(text.push(c)),
                Err(e) => Err(e),
            },
            Err(e) => Err(e),
        }
    }
}

/// The text of a value as characters: a scalar is one character, an array
/// of scalars one character for each. Nothing is flattened: an array inside
/// the array is refused.
pub open spec fn spelled(a: Value) -> Result<Seq<char>, EvalError> {
    match a {
        Value::Scalar(_) => match letter(a) {
            Ok(c) => Ok(seq![c]),
            Err(e) => Err(e),
        },
        Value::Array(items) => letters(items, items.len()),
    }
}

/// `char::from_u32` of std: the character with the given code, and none
/// where the code is a surrogate or lies beyond the last code point.
pub assume_specification[ char::from_u32 ](n: u32) -> (r: Option<char>)
    ensures
        r == if code_point(n) {
            Some(n as char)
        } else {
            None::<char>
        },
;

/// `String::push` of std: the character goes to the end of the string.
pub assume_specification[ String::push ](s: &mut String, c: char)
    ensures
        final(s)@ == old(s)@.push(c),
;

/// The character that a scalar stands for.
fn letter_of(n: Number) -> (r: Result<char, EvalError>)
    ensures
        r == letter(Value::Scalar(n)),
{
    if n.is_nan() || n.is_negative() {
        return Err(EvalError::InvalidCodePoint);
    }
    match char::from_u32(n.to_code()) {
        Some(c) => Ok(c),
        None => Err(EvalError::InvalidCodePoint),
    }
}

impl EvArray {
    /// A copy of the value.
    #[verifier::loop_isolation(false)]
    pub fn duplicate(&self) -> (r: EvArray)
        ensures
            r@ == self@,
        decreases self,
    {
        match self {
            EvArray::F(n) => EvArray::F(*n),
            EvArray::A(items) => {
                let mut v: Vec<EvArray> = Vec::new();
                let mut i: usize = 0;
                while i < items.len()
                    invariant
                        i <= items.len(),
                        v.len() == i,
                        forall|k: int| 0 <= k < i ==> v[k]@ == items[k]@,
                    decreases items.len() - i,
                {
                    v.push(items[i].duplicate());
                    i += 1;
                }
                assert(values(v) =~= values(*items));
                EvArray::A(v)
            },
        }
    }

    /// Truth, as `if` and `while` see it.
    pub fn is_true(&self) -> (r: bool)
        ensures
            r == truthy(self@),
    {
        match self {
            EvArray::F(n) => !n.is_zero(),
            EvArray::A(_) => true,
        }
    }

    /// Equality as the language sees it.
    #[verifier::loop_isolation(false)]
    pub fn equals(&self, other: &EvArray) -> (r: bool)
        ensures
            r == alike(self@, other@),
        decreases self,
    {
        match (self, other) {
            (EvArray::F(x), EvArray::F(y)) => x.equals(*y),
            (EvArray::A(f), EvArray::A(s)) => {
                if f.len() != s.len() {
                    return false;
                }
                let mut i: usize = 0;
                while i < f.len()
                    invariant
                        i <= f.len(),
                        forall|k: int| 0 <= k < i ==> alike(values(*f)[k], #[trigger] values(*s)[k]),
                    decreases f.len() - i,
                {
                    if !f[i].equals(&s[i]) {
                        assert(!alike(values(*f)[i as int], values(*s)[i as int]));
                        return false;
                    }
                    i += 1;
                }
                true
            },
            _ => false,
        }
    }

    /// Writes the value as numbers at the end of `out`.
    #[verifier::loop_isolation(false)]
    pub fn write(&self, out: &mut String)
        ensures
            final(out)@ == old(out)@ + rendered(self@),
        decreases self,
    {
        match self {
            EvArray::F(n) => {
                let text = n.text();
                out.append(text.as_str());
            },
            EvArray::A(items) => {
                out.push('[');
                let ghost start = out@;
                let mut i: usize = 0;
                while i < items.len()
                    invariant
                        i <= items.len(),
                        out@ == start + joined(values(*items), i as nat),
                    decreases items.len() - i,
                {
                    if i > 0 {
                        out.push(',');
                    }
                    let ghost before = out@;
                    items[i].write(out);
                    assert(out@ == before + rendered(values(*items)[i as int]));
                    assert(out@ =~= start + joined(values(*items), (i + 1) as nat));
                    i += 1;
                }
                out.push(']');
                assert(out@ =~= old(out)@ + rendered(self@));
            },
        }
    }

    /// The text of the value as numbers.
    pub fn to_string(&self) -> (r: String)
        ensures
            r@ == rendered(self@),
    {
        let mut out = String::new();
        self.write(&mut out);
        assert(out@ =~= rendered(self@));
        out
    }

    /// The text of the value as characters.
    #[verifier::loop_isolation(false)]
    pub fn stringify(&self) -> (r: Result<String, EvalError>)
        ensures
            match r {
                Ok(text) => spelled(self@) == Ok::<Seq<char>, EvalError>(text@),
                Err(e) => spelled(self@) == Err::<Seq<char>, EvalError>(e),
            },
    {
        let mut out = String::new();
        match self {
            EvArray::F(n) => {
                match letter_of(*n) {
                    Ok(c) => {
                        out.push(c);
                        assert(out@ =~= seq![c]);
                        Ok(out)
                    },
                    Err(e) => Err(e),
                }
            },
            EvArray::A(items) => {
                let mut i: usize = 0;
                while i < items.len()
                    invariant
                        i <= items.len(),
                        letters(values(*items), i as nat) == Ok::<Seq<char>, EvalError>(out@),
                    decreases items.len() - i,
                {
                    match &items[i] {
                        EvArray::F(n) => {
                            match letter_of(*n) {
                                Ok(c) => {
                                    out.push(c);
                                },
                                Err(_) => {
                                    assert(letters(values(*items), (i + 1) as nat) == Err::<
                                        Seq<char>,
                                        EvalError,
                                    >(EvalError::InvalidCodePoint));
                                    proof {
                                        lemma_letters_fail(
                                            values(*items),
                                            (i + 1) as nat,
                                            items.len() as nat,
                                        );
                                    }
                                    return Err(EvalError::InvalidCodePoint);
                                },
                            }
                        },
                        EvArray::A(_) => {
                            assert(letters(values(*items), (i + 1) as nat) == Err::<
                                Seq<char>,
                                EvalError,
                            >(EvalError::TypeMismatch));
                            proof {
                                lemma_letters_fail(
                                    values(*items),
                                    (i + 1) as nat,
                                    items.len() as nat,
                                );
                            }
                            return Err(EvalError::TypeMismatch);
                        },
                    }
                    i += 1;
                }
                Ok(out)
            },
        }
    }
}

impl Clone for EvArray {
    fn clone(&self) -> (r: EvArray)
        ensures
            r@ == self@,
    {
        self.duplicate()
    }
}

/// Once an item is no character, every longer run of items fails with the
/// same error.
pub proof fn lemma_letters_fail(items: Seq<Value>, n: nat, m: nat)
    requires
        n <= m,
        letters(items, n) is Err,
    ensures
        letters(items, m) == letters(items, n),
    decreases m,
{
    if n < m {
        lemma_letters_fail(items, n, (m - 1) as nat);
    }
}

} // verus!
