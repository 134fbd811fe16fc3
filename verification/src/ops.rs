//! The operators and functions of the language that compute their result
//! from their operands alone.
use crate::number::Number;
use crate::value::{
    alike, lemma_values_empty, lemma_values_push, value, values, EvArray, EvalError, Value,
};
use vstd::prelude::*;

verus! {

/// The four arithmetic operators whose result is a function of the
/// operands.
pub open spec fn arithmetic(op: char) -> bool {
    op == '+' || op == '-' || op == '*' || op == '/'
}

/// An arithmetic operator on two scalars. Only the division can fail: on a
/// divisor that is zero.
pub open spec fn combined(op: char, x: Number, y: Number) -> Result<Number, EvalError> {
    if op == '+' {
        Ok(x.sum(y))
    } else if op == '-' {
        Ok(x.difference(y))
    } else if op == '*' {
        Ok(x.product(y))
    } else if y.zero() {
        Err(EvalError::DivisionByZero)
    } else {
        Ok(x.quotient(y))
    }
}

/// How many item pairs an operator that spreads has to work through: the
/// length of the operand that is an array.
pub open spec fn span(a: Value, b: Value) -> nat {
    match (a, b) {
        (Value::Array(f), _) => f.len(),
        (_, Value::Array(s)) => s.len(),
        _ => 0,
    }
}

/// Item `k` of an operand that spreads: the item of an array, or the
/// scalar itself.
pub open spec fn item(a: Value, k: int) -> Value {
    match a {
        Value::Array(items) => items[k],
        Value::Scalar(_) => a,
    }
}

/// Two operands that an operator can spread over: not two arrays of
/// different lengths.
pub open spec fn fitting(a: Value, b: Value) -> bool {
    match (a, b) {
        (Value::Array(f), Value::Array(s)) => f.len() == s.len(),
        _ => true,
    }
}

/// An arithmetic operator on two values. Two scalars are combined; a scalar
/// and an array give the array of the scalar combined with each item; two
/// arrays of one length are combined item by item; and so on into the
/// items. The first failure, in the order of the items, is the result.
pub open spec fn spread(op: char, a: Value, b: Value) -> Result<Value, EvalError>
    decreases a, b, 1nat, 0nat,
{
    match (a, b) {
        (Value::Scalar(x), Value::Scalar(y)) => match combined(op, x, y) {
            Ok(n) => Ok(Value::Scalar(n)),
            Err(e) => Err(e),
        },
        _ => if fitting(a, b) {
            match spread_items(op, a, b, span(a, b)) {
                Ok(items) => Ok(Value::Array(items)),
                Err(e) => Err(e),
            }
        } else {
            Err(EvalError::SizeMismatch)
        },
    }
}

/// The results for the first `n` item pairs of two operands of which one at
/// least is an array.
pub open spec fn spread_items(op: char, a: Value, b: Value, n: nat) -> Result<
    Seq<Value>,
    EvalError,
>
    decreases a, b, 0nat, n,
{
    if n == 0 || n > span(a, b) || !fitting(a, b) || (a is Scalar && b is Scalar) {
        Ok(Seq::empty())
    } else {
        match spread_items(op, a, b, (n - 1) as nat) {
            Ok(before) => match spread(op, item(a, n - 1), item(b, n - 1)) {
                Ok(v) => Ok(before.push(v)),
                Err(e) => Err(e),
            },
            Err(e) => Err(e),
        }
    }
}

/// Once an item pair has failed, every longer run of pairs fails with the
/// same error.
pub proof fn lemma_spread_fail(op: char, a: Value, b: Value, n: nat, m: nat)
    requires
        n <= m <= span(a, b),
        spread_items(op, a, b, n) is Err,
    ensures
        spread_items(op, a, b, m) == spread_items(op, a, b, n),
    decreases m,
{
    if n < m {
        lemma_spread_fail(op, a, b, n, (m - 1) as nat);
    }
}

/// `<` on two scalars: 1 or 0.
pub open spec fn lesser(a: Value, b: Value) -> Result<Value, EvalError> {
    match (a, b) {
        (Value::Scalar(x), Value::Scalar(y)) => Ok(Value::Scalar(Number::truth(x.below(y)))),
        _ => Err(EvalError::TypeMismatch),
    }
}

/// `>` on two scalars: 1 or 0.
pub open spec fn greater(a: Value, b: Value) -> Result<Value, EvalError> {
    match (a, b) {
        (Value::Scalar(x), Value::Scalar(y)) => Ok(Value::Scalar(Number::truth(y.below(x)))),
        _ => Err(EvalError::TypeMismatch),
    }
}

/// The logical and of two scalars, each true unless it is zero: 1 or 0.
pub open spec fn both(a: Value, b: Value) -> Result<Value, EvalError> {
    match (a, b) {
        (Value::Scalar(x), Value::Scalar(y)) => Ok(
            Value::Scalar(Number::truth(!x.zero() && !y.zero())),
        ),
        _ => Err(EvalError::TypeMismatch),
    }
}

/// The logical or of two scalars: 1 or 0.
pub open spec fn either(a: Value, b: Value) -> Result<Value, EvalError> {
    match (a, b) {
        (Value::Scalar(x), Value::Scalar(y)) => Ok(
            Value::Scalar(Number::truth(!x.zero() || !y.zero())),
        ),
        _ => Err(EvalError::TypeMismatch),
    }
}

/// Equality of two values of any shape: 1 or 0.
pub open spec fn equal(a: Value, b: Value) -> Value {
    Value::Scalar(Number::truth(alike(a, b)))
}

/// The item of the array `b` at the index `a`.
pub open spec fn indexed(a: Value, b: Value) -> Result<Value, EvalError> {
    match (a, b) {
        (Value::Scalar(x), Value::Array(items)) => if x.below(Number::nought()) {
            Err(EvalError::Negative)
        } else if x.count() >= items.len() {
            Err(EvalError::OutOfRange)
        } else {
            Ok(items[x.count() as int])
        },
        _ => Err(EvalError::TypeMismatch),
    }
}

/// `x` does not come after `y` in the order that the keep operators sort by:
/// the order of the numbers, with every NaN after all numbers.
pub open spec fn ordered(x: Number, y: Number) -> bool {
    if y.nan() {
        true
    } else if x.nan() {
        false
    } else {
        x.rank() <= y.rank()
    }
}

/// `x` may stand before `y` in a sorted row: it does not come after it,
/// where the row is ascending, and not before it, where it is descending.
pub open spec fn in_order(x: Number, y: Number, descending: bool) -> bool {
    if descending {
        ordered(y, x)
    } else {
        ordered(x, y)
    }
}

/// The sorted row `row` with `x` added: `x` stands behind every number that
/// may stand before it, so numbers that tie keep the order in which they
/// came.
pub open spec fn inserted(row: Seq<Number>, x: Number, descending: bool) -> Seq<Number>
    decreases row.len(),
{
    if row.len() == 0 {
        seq![x]
    } else if in_order(row.last(), x, descending) {
        row.push(x)
    } else {
        inserted(row.drop_last(), x, descending).push(row.last())
    }
}

/// The first `n` numbers of `s`, sorted, with ties in the order in which
/// they came.
pub open spec fn sorted(s: Seq<Number>, n: nat, descending: bool) -> Seq<Number>
    decreases n,
{
    if n == 0 || n > s.len() {
        Seq::empty()
    } else {
        inserted(sorted(s, (n - 1) as nat, descending), s[n - 1], descending)
    }
}

/// The scalars of the first `n` items, or none if one of them is an array.
pub open spec fn scalars(items: Seq<Value>, n: nat) -> Option<Seq<Number>>
    decreases n,
{
    if n == 0 || n > items.len() {
        Some(Seq::empty())
    } else {
        match (scalars(items, (n - 1) as nat), items[n - 1]) {
            (Some(before), Value::Scalar(x)) => Some(before.push(x)),
            _ => None,
        }
    }
}

/// Each number as a scalar value.
pub open spec fn as_values(s: Seq<Number>) -> Seq<Value> {
    Seq::new(s.len(), |i: int| Value::Scalar(s[i]))
}

/// The `b` lowest items of the array `a` in ascending order, or the `b`
/// highest in descending order.
pub open spec fn kept(a: Value, b: Value, descending: bool) -> Result<Value, EvalError> {
    match (a, b) {
        (Value::Array(items), Value::Scalar(x)) => if x.below(Number::nought()) {
            Err(EvalError::Negative)
        } else if x.count() > items.len() {
            Err(EvalError::OutOfRange)
        } else {
            match scalars(items, items.len()) {
                Some(numbers) => Ok(
                    Value::Array(
                        as_values(
                            sorted(numbers, numbers.len(), descending).take(x.count() as int),
                        ),
                    ),
                ),
                None => Err(EvalError::TypeMismatch),
            }
        },
        _ => Err(EvalError::TypeMismatch),
    }
}

/// The scalars of a value in the order in which they stand, whatever the
/// nesting.
pub open spec fn leaves(a: Value) -> Seq<Value>
    decreases a, 1nat, 0nat,
{
    match a {
        Value::Scalar(_) => seq![a],
        Value::Array(items) => leaves_of(items, items.len()),
    }
}

/// The scalars of the first `n` items.
pub open spec fn leaves_of(items: Seq<Value>, n: nat) -> Seq<Value>
    decreases items, 0nat, n,
{
    if n == 0 || n > items.len() {
        Seq::empty()
    } else {
        leaves_of(items, (n - 1) as nat) + leaves(items[n - 1])
    }
}

/// A value without its nesting: a scalar stays what it is, an array becomes
/// the array of its scalars.
pub open spec fn flattened(a: Value) -> Value {
    match a {
        Value::Scalar(_) => a,
        Value::Array(_) => Value::Array(leaves(a)),
    }
}

/// The first `n` items with one level of nesting taken away: the items of
/// an item that is an array stand in its place.
pub open spec fn unwrapped(items: Seq<Value>, n: nat) -> Seq<Value>
    decreases n,
{
    if n == 0 || n > items.len() {
        Seq::empty()
    } else {
        unwrapped(items, (n - 1) as nat) + match items[n - 1] {
            Value::Array(inner) => inner,
            Value::Scalar(_) => seq![items[n - 1]],
        }
    }
}

/// A value with one level of nesting taken away; a scalar stays what it is.
pub open spec fn shallow(a: Value) -> Value {
    match a {
        Value::Scalar(_) => a,
        Value::Array(items) => Value::Array(unwrapped(items, items.len())),
    }
}

/// The sum of the first `n` items, added one after the other to 0, or the
/// error of the first item that is an array.
pub open spec fn total(items: Seq<Value>, n: nat) -> Result<Number, EvalError>
    decreases n,
{
    if n == 0 || n > items.len() {
        Ok(Number::nought())
    } else {
        match total(items, (n - 1) as nat) {
            Ok(sum) => match items[n - 1] {
                Value::Scalar(x) => Ok(sum.sum(x)),
                Value::Array(_) => Err(EvalError::TypeMismatch),
            },
            Err(e) => Err(e),
        }
    }
}

/// The sum of an array of scalars; a scalar stays what it is.
pub open spec fn summed(a: Value) -> Result<Value, EvalError> {
    match a {
        Value::Scalar(_) => Ok(a),
        Value::Array(items) => match total(items, items.len()) {
            Ok(sum) => Ok(Value::Scalar(sum)),
            Err(e) => Err(e),
        },
    }
}

/// `CONTAINS`: whether the scalar `a` equals `v`, or whether an item of the
/// array `a` does. Only the items themselves are looked at, not what is
/// nested in them.
pub open spec fn contained(a: Value, v: Value) -> Value {
    match a {
        Value::Scalar(_) => equal(a, v),
        Value::Array(items) => Value::Scalar(
            Number::truth(exists|i: int| 0 <= i < items.len() && alike(#[trigger] items[i], v)),
        ),
    }
}

/// `PUSH`: the array `a` with `v` added at its end.
pub open spec fn pushed(a: Value, v: Value) -> Result<Value, EvalError> {
    match a {
        Value::Array(items) => Ok(Value::Array(items.push(v))),
        Value::Scalar(_) => Err(EvalError::TypeMismatch),
    }
}

/// A call of one of the two functions of the language.
pub open spec fn called(name: Seq<char>, args: Seq<Value>) -> Result<Value, EvalError> {
    if name == "CONTAINS"@ {
        if args.len() != 2 {
            Err(EvalError::ArityMismatch)
        } else {
            Ok(contained(args[0], args[1]))
        }
    } else if name == "PUSH"@ {
        if args.len() != 2 {
            Err(EvalError::ArityMismatch)
        } else {
            pushed(args[0], args[1])
        }
    } else {
        Err(EvalError::UnknownFunction)
    }
}

/// Once an item is an array, no longer run of items is all scalars.
pub proof fn lemma_scalars_fail(items: Seq<Value>, n: nat, m: nat)
    requires
        n <= m <= items.len(),
        scalars(items, n) is None,
    ensures
        scalars(items, m) is None,
    decreases m,
{
    if n < m {
        lemma_scalars_fail(items, n, (m - 1) as nat);
    }
}

/// An arithmetic operator on two values.
#[verifier::loop_isolation(false)]
pub(crate) fn arithmetic_op(op: char, first: &EvArray, second: &EvArray) -> (r: Result<
    EvArray,
    EvalError,
>)
    requires
        arithmetic(op),
    ensures
        match r {
            Ok(v) => spread(op, first@, second@) == Ok::<Value, EvalError>(v@),
            Err(e) => spread(op, first@, second@) == Err::<Value, EvalError>(e),
        },
    decreases first, second,
{
    match (first, second) {
        (EvArray::F(x), EvArray::F(y)) => {
            if op == '+' {
                Ok(EvArray::F(x.plus(*y)))
            } else if op == '-' {
                Ok(EvArray::F(x.minus(*y)))
            } else if op == '*' {
                Ok(EvArray::F(x.times(*y)))
            } else if y.is_zero() {
                Err(EvalError::DivisionByZero)
            } else {
                Ok(EvArray::F(x.divided_by(*y)))
            }
        },
        (EvArray::F(_), EvArray::A(s)) => {
            let mut out: Vec<EvArray> = Vec::new();
            let mut i: usize = 0;
            proof {
                lemma_values_empty(out);
            }
            while i < s.len()
                invariant
                    i <= s.len(),
                    spread_items(op, first@, second@, i as nat) == Ok::<Seq<Value>, EvalError>(
                        values(out),
                    ),
                decreases s.len() - i,
            {
                assert(item(second@, i as int) == s[i as int]@);
                match arithmetic_op(op, first, &s[i]) {
                    Ok(v) => {
                        let ghost before = out;
                        let ghost last = v;
                        out.push(v);
                        proof {
                            lemma_values_push(before, out, last);
                        }
                    },
                    Err(e) => {
                        proof {
                            lemma_spread_fail(
                                op,
                                first@,
                                second@,
                                (i + 1) as nat,
                                s.len() as nat,
                            );
                        }
                        return Err(e);
                    },
                }
                i += 1;
            }
            Ok(EvArray::A(out))
        },
        (EvArray::A(f), EvArray::F(_)) => {
            let mut out: Vec<EvArray> = Vec::new();
            let mut i: usize = 0;
            proof {
                lemma_values_empty(out);
            }
            while i < f.len()
                invariant
                    i <= f.len(),
                    spread_items(op, first@, second@, i as nat) == Ok::<Seq<Value>, EvalError>(
                        values(out),
                    ),
                decreases f.len() - i,
            {
                assert(item(first@, i as int) == f[i as int]@);
                match arithmetic_op(op, &f[i], second) {
                    Ok(v) => {
                        let ghost before = out;
                        let ghost last = v;
                        out.push(v);
                        proof {
                            lemma_values_push(before, out, last);
                        }
                    },
                    Err(e) => {
                        proof {
                            lemma_spread_fail(
                                op,
                                first@,
                                second@,
                                (i + 1) as nat,
                                f.len() as nat,
                            );
                        }
                        return Err(e);
                    },
                }
                i += 1;
            }
            Ok(EvArray::A(out))
        },
        (EvArray::A(f), EvArray::A(s)) => {
            if f.len() != s.len() {
                return Err(EvalError::SizeMismatch);
            }
            let mut out: Vec<EvArray> = Vec::new();
            let mut i: usize = 0;
            proof {
                lemma_values_empty(out);
            }
            while i < f.len()
                invariant
                    i <= f.len(),
                    spread_items(op, first@, second@, i as nat) == Ok::<Seq<Value>, EvalError>(
                        values(out),
                    ),
                decreases f.len() - i,
            {
                assert(item(first@, i as int) == f[i as int]@);
                assert(item(second@, i as int) == s[i as int]@);
                match arithmetic_op(op, &f[i], &s[i]) {
                    Ok(v) => {
                        let ghost before = out;
                        let ghost last = v;
                        out.push(v);
                        proof {
                            lemma_values_push(before, out, last);
                        }
                    },
                    Err(e) => {
                        proof {
                            lemma_spread_fail(
                                op,
                                first@,
                                second@,
                                (i + 1) as nat,
                                f.len() as nat,
                            );
                        }
                        return Err(e);
                    },
                }
                i += 1;
            }
            Ok(EvArray::A(out))
        },
    }
}

/// `+` on two values.
pub fn plus_op(first: EvArray, second: EvArray) -> (r: Result<EvArray, EvalError>)
    ensures
        match r {
            Ok(v) => spread('+', first@, second@) == Ok::<Value, EvalError>(v@),
            Err(e) => spread('+', first@, second@) == Err::<Value, EvalError>(e),
        },
{
    arithmetic_op('+', &first, &second)
}

/// `-` on two values.
pub fn minus_op(first: EvArray, second: EvArray) -> (r: Result<EvArray, EvalError>)
    ensures
        match r {
            Ok(v) => spread('-', first@, second@) == Ok::<Value, EvalError>(v@),
            Err(e) => spread('-', first@, second@) == Err::<Value, EvalError>(e),
        },
{
    arithmetic_op('-', &first, &second)
}

/// `*` on two values.
pub fn times_op(first: EvArray, second: EvArray) -> (r: Result<EvArray, EvalError>)
    ensures
        match r {
            Ok(v) => spread('*', first@, second@) == Ok::<Value, EvalError>(v@),
            Err(e) => spread('*', first@, second@) == Err::<Value, EvalError>(e),
        },
{
    arithmetic_op('*', &first, &second)
}

/// `/` on two values.
pub fn divide_op(first: EvArray, second: EvArray) -> (r: Result<EvArray, EvalError>)
    ensures
        match r {
            Ok(v) => spread('/', first@, second@) == Ok::<Value, EvalError>(v@),
            Err(e) => spread('/', first@, second@) == Err::<Value, EvalError>(e),
        },
{
    arithmetic_op('/', &first, &second)
}

/// `<` on two scalars.
pub fn less_op(first: EvArray, second: EvArray) -> (r: Result<EvArray, EvalError>)
    ensures
        match r {
            Ok(v) => lesser(first@, second@) == Ok::<Value, EvalError>(v@),
            Err(e) => lesser(first@, second@) == Err::<Value, EvalError>(e),
        },
{
    match (first, second) {
        (EvArray::F(x), EvArray::F(y)) => Ok(EvArray::F(Number::from_bool(x.less_than(y)))),
        _ => Err(EvalError::TypeMismatch),
    }
}

/// `>` on two scalars.
pub fn more_op(first: EvArray, second: EvArray) -> (r: Result<EvArray, EvalError>)
    ensures
        match r {
            Ok(v) => greater(first@, second@) == Ok::<Value, EvalError>(v@),
            Err(e) => greater(first@, second@) == Err::<Value, EvalError>(e),
        },
{
    match (first, second) {
        (EvArray::F(x), EvArray::F(y)) => Ok(EvArray::F(Number::from_bool(y.less_than(x)))),
        _ => Err(EvalError::TypeMismatch),
    }
}

/// `&` on two scalars.
pub fn and_op(first: EvArray, second: EvArray) -> (r: Result<EvArray, EvalError>)
    ensures
        match r {
            Ok(v) => both(first@, second@) == Ok::<Value, EvalError>(v@),
            Err(e) => both(first@, second@) == Err::<Value, EvalError>(e),
        },
{
    match (first, second) {
        (EvArray::F(x), EvArray::F(y)) => Ok(
            EvArray::F(Number::from_bool(!x.is_zero() && !y.is_zero())),
        ),
        _ => Err(EvalError::TypeMismatch),
    }
}

/// `|` on two scalars.
pub fn or_op(first: EvArray, second: EvArray) -> (r: Result<EvArray, EvalError>)
    ensures
        match r {
            Ok(v) => either(first@, second@) == Ok::<Value, EvalError>(v@),
            Err(e) => either(first@, second@) == Err::<Value, EvalError>(e),
        },
{
    match (first, second) {
        (EvArray::F(x), EvArray::F(y)) => Ok(
            EvArray::F(Number::from_bool(!x.is_zero() || !y.is_zero())),
        ),
        _ => Err(EvalError::TypeMismatch),
    }
}

/// `=` on two values of any shape. It never fails.
pub fn equal_op(first: EvArray, second: EvArray) -> (r: Result<EvArray, EvalError>)
    ensures
        r is Ok,
        r->Ok_0@ == equal(first@, second@),
{
    Ok(EvArray::F(Number::from_bool(first.equals(&second))))
}

/// `@`: the item of the array `second` at the index `first`.
pub fn at_op(first: EvArray, second: EvArray) -> (r: Result<EvArray, EvalError>)
    ensures
        match r {
            Ok(v) => indexed(first@, second@) == Ok::<Value, EvalError>(v@),
            Err(e) => indexed(first@, second@) == Err::<Value, EvalError>(e),
        },
{
    match (first, second) {
        (EvArray::F(x), EvArray::A(items)) => {
            if x.is_negative() {
                Err(EvalError::Negative)
            } else if x.to_count() >= items.len() {
                Err(EvalError::OutOfRange)
            } else {
                Ok(items[x.to_count()].duplicate())
            }
        },
        _ => Err(EvalError::TypeMismatch),
    }
}

/// Once an item is an array, every longer run of items fails to add up.
pub proof fn lemma_total_fail(items: Seq<Value>, n: nat, m: nat)
    requires
        n <= m <= items.len(),
        total(items, n) is Err,
    ensures
        total(items, m) == total(items, n),
    decreases m,
{
    if n < m {
        lemma_total_fail(items, n, (m - 1) as nat);
    }
}

/// Where `x` goes in a sorted row: behind the last number that may stand
/// before it.
pub proof fn lemma_inserted_at(row: Seq<Number>, x: Number, descending: bool, j: int)
    requires
        0 <= j <= row.len(),
        j > 0 ==> in_order(row[j - 1], x, descending),
        forall|k: int| j <= k < row.len() ==> !in_order(#[trigger] row[k], x, descending),
    ensures
        inserted(row, x, descending) == row.insert(j, x),
    decreases row.len(),
{
    if row.len() == 0 {
        assert(seq![x] =~= row.insert(j, x));
    } else if j == row.len() {
        assert(row.push(x) =~= row.insert(j, x));
    } else {
        assert(!in_order(row[row.len() - 1], x, descending));
        let front = row.drop_last();
        assert forall|k: int| j <= k < front.len() implies !in_order(
            #[trigger] front[k],
            x,
            descending,
        ) by {
            assert(front[k] == row[k]);
        }
        lemma_inserted_at(front, x, descending, j);
        assert(front.insert(j, x).push(row.last()) =~= row.insert(j, x));
    }
}

/// `x` may stand before `y`.
fn stands_before(x: Number, y: Number, descending: bool) -> (r: bool)
    ensures
        r == in_order(x, y, descending),
{
    if descending {
        if x.is_nan() {
            true
        } else if y.is_nan() {
            false
        } else {
            !x.less_than(y)
        }
    } else {
        if y.is_nan() {
            true
        } else if x.is_nan() {
            false
        } else {
            !y.less_than(x)
        }
    }
}

/// The numbers of `s`, sorted, with ties in the order in which they came.
#[verifier::loop_isolation(false)]
pub fn sort_numbers(s: &Vec<Number>, descending: bool) -> (row: Vec<Number>)
    ensures
        row@ == sorted(s@, s.len() as nat, descending),
{
    let mut row: Vec<Number> = Vec::new();
    let mut k: usize = 0;
    while k < s.len()
        invariant
            k <= s.len(),
            row.len() == k,
            row@ == sorted(s@, k as nat, descending),
        decreases s.len() - k,
    {
        let x = s[k];
        let mut j: usize = row.len();
        while j > 0 && !stands_before(row[j - 1], x, descending)
            invariant
                j <= row.len(),
                forall|m: int| j <= m < row.len() ==> !in_order(#[trigger] row@[m], x, descending),
            decreases j,
        {
            j -= 1;
        }
        proof {
            lemma_inserted_at(row@, x, descending, j as int);
        }
        row.insert(j, x);
        k += 1;
    }
    row
}

/// The scalars of an array, or none if an item of it is an array.
#[verifier::loop_isolation(false)]
fn numbers_of(items: &Vec<EvArray>) -> (r: Option<Vec<Number>>)
    ensures
        match r {
            Some(v) => scalars(values(*items), items.len() as nat) == Some(v@),
            None => scalars(values(*items), items.len() as nat) is None,
        },
{
    let mut out: Vec<Number> = Vec::new();
    let mut i: usize = 0;
    while i < items.len()
        invariant
            i <= items.len(),
            scalars(values(*items), i as nat) == Some(out@),
        decreases items.len() - i,
    {
        match &items[i] {
            EvArray::F(x) => {
                out.push(*x);
            },
            EvArray::A(_) => {
                assert(scalars(values(*items), (i + 1) as nat) is None);
                proof {
                    lemma_scalars_fail(values(*items), (i + 1) as nat, items.len() as nat);
                }
                return None;
            },
        }
        i += 1;
    }
    Some(out)
}

/// The keep operators: the `second` first items of the array `first` once
/// it is sorted.
#[verifier::loop_isolation(false)]
pub fn keep_op(first: &EvArray, second: &EvArray, descending: bool) -> (r: Result<
    EvArray,
    EvalError,
>)
    ensures
        match r {
            Ok(v) => kept(first@, second@, descending) == Ok::<Value, EvalError>(v@),
            Err(e) => kept(first@, second@, descending) == Err::<Value, EvalError>(e),
        },
{
    match (first, second) {
        (EvArray::A(items), EvArray::F(x)) => {
            if x.is_negative() {
                return Err(EvalError::Negative);
            }
            let count: usize = x.to_count();
            if count > items.len() {
                return Err(EvalError::OutOfRange);
            }
            match numbers_of(items) {
                Some(numbers) => {
                    proof {
                        lemma_scalars_len(values(*items), items.len() as nat);
                    }
                    let row = sort_numbers(&numbers, descending);
                    proof {
                        lemma_sorted_len(numbers@, numbers.len() as nat, descending);
                    }
                    let mut out: Vec<EvArray> = Vec::new();
                    let mut i: usize = 0;
                    while i < count
                        invariant
                            i <= count,
                            count <= row.len(),
                            out.len() == i,
                            forall|k: int| 0 <= k < i ==> out[k]@ == Value::Scalar(row[k]),
                        decreases count - i,
                    {
                        out.push(EvArray::F(row[i]));
                        i += 1;
                    }
                    assert(values(out) =~= as_values(row@.take(count as int)));
                    Ok(EvArray::A(out))
                },
                None => Err(EvalError::TypeMismatch),
            }
        },
        _ => Err(EvalError::TypeMismatch),
    }
}

/// As many scalars come out as items went in.
pub proof fn lemma_scalars_len(items: Seq<Value>, n: nat)
    requires
        n <= items.len(),
    ensures
        scalars(items, n) matches Some(s) ==> s.len() == n,
    decreases n,
{
    if n > 0 {
        lemma_scalars_len(items, (n - 1) as nat);
    }
}

/// Adding a number to a row makes it one longer.
pub proof fn lemma_inserted_len(row: Seq<Number>, x: Number, descending: bool)
    ensures
        inserted(row, x, descending).len() == row.len() + 1,
    decreases row.len(),
{
    if row.len() > 0 && !in_order(row.last(), x, descending) {
        lemma_inserted_len(row.drop_last(), x, descending);
    }
}

/// Sorting keeps the length.
pub proof fn lemma_sorted_len(s: Seq<Number>, n: nat, descending: bool)
    requires
        n <= s.len(),
    ensures
        sorted(s, n, descending).len() == n,
    decreases n,
{
    if n > 0 {
        lemma_sorted_len(s, (n - 1) as nat, descending);
        lemma_inserted_len(sorted(s, (n - 1) as nat, descending), s[n - 1], descending);
    }
}

/// `l`: the `second` lowest items of the array `first`, lowest first.
pub fn keeplow_op(first: EvArray, second: EvArray) -> (r: Result<EvArray, EvalError>)
    ensures
        match r {
            Ok(v) => kept(first@, second@, false) == Ok::<Value, EvalError>(v@),
            Err(e) => kept(first@, second@, false) == Err::<Value, EvalError>(e),
        },
{
    keep_op(&first, &second, false)
}

/// `h`: the `second` highest items of the array `first`, highest first.
pub fn keephigh_op(first: EvArray, second: EvArray) -> (r: Result<EvArray, EvalError>)
    ensures
        match r {
            Ok(v) => kept(first@, second@, true) == Ok::<Value, EvalError>(v@),
            Err(e) => kept(first@, second@, true) == Err::<Value, EvalError>(e),
        },
{
    keep_op(&first, &second, true)
}

/// Adds the scalars of `v` at the end of `out`.
#[verifier::loop_isolation(false)]
fn collect_leaves(v: &EvArray, out: &mut Vec<EvArray>)
    ensures
        values(*final(out)) == values(*old(out)) + leaves(v@),
    decreases v,
{
    match v {
        EvArray::F(x) => {
            let ghost before = *out;
            let ghost last = EvArray::F(*x);
            out.push(EvArray::F(*x));
            proof {
                lemma_values_push(before, *out, last);
            }
            assert(values(*out) =~= values(*old(out)) + leaves(v@));
        },
        EvArray::A(items) => {
            let mut i: usize = 0;
            assert(values(*out) =~= values(*old(out)) + leaves_of(values(*items), 0));
            while i < items.len()
                invariant
                    i <= items.len(),
                    values(*out) == values(*old(out)) + leaves_of(values(*items), i as nat),
                decreases items.len() - i,
            {
                let ghost before = values(*out);
                collect_leaves(&items[i], out);
                assert(values(*out) =~= values(*old(out)) + leaves_of(
                    values(*items),
                    (i + 1) as nat,
                ));
                i += 1;
            }
        },
    }
}

/// `_`: the value without its nesting. It never fails.
pub fn flatten_op(operand: EvArray) -> (r: Result<EvArray, EvalError>)
    ensures
        r is Ok,
        r->Ok_0@ == flattened(operand@),
{
    match operand {
        EvArray::F(x) => Ok(EvArray::F(x)),
        EvArray::A(items) => {
            let whole = EvArray::A(items);
            let mut out: Vec<EvArray> = Vec::new();
            proof {
                lemma_values_empty(out);
            }
            collect_leaves(&whole, &mut out);
            assert(values(out) =~= leaves(whole@));
            Ok(EvArray::A(out))
        },
    }
}

/// `!`: the value with one level of nesting taken away. It never fails.
#[verifier::loop_isolation(false)]
pub fn shallow_flatten_op(operand: EvArray) -> (r: Result<EvArray, EvalError>)
    ensures
        r is Ok,
        r->Ok_0@ == shallow(operand@),
{
    match operand {
        EvArray::F(x) => Ok(EvArray::F(x)),
        EvArray::A(items) => {
            let mut out: Vec<EvArray> = Vec::new();
            proof {
                lemma_values_empty(out);
            }
            let mut i: usize = 0;
            while i < items.len()
                invariant
                    i <= items.len(),
                    values(out) == unwrapped(values(items), i as nat),
                decreases items.len() - i,
            {
                match &items[i] {
                    EvArray::A(inner) => {
                        let ghost start = values(out);
                        let mut j: usize = 0;
                        assert(values(out) =~= start + values(*inner).take(0));
                        while j < inner.len()
                            invariant
                                j <= inner.len(),
                                values(out) == start + values(*inner).take(j as int),
                            decreases inner.len() - j,
                        {
                            let ghost before = out;
                            let copy = inner[j].duplicate();
                            let ghost last = copy;
                            out.push(copy);
                            proof {
                                lemma_values_push(before, out, last);
                            }
                            assert(values(out) =~= start + values(*inner).take(j + 1));
                            j += 1;
                        }
                        assert(values(*inner).take(inner.len() as int) =~= values(*inner));
                    },
                    EvArray::F(x) => {
                        let ghost before = out;
                        let ghost last = EvArray::F(*x);
                        out.push(EvArray::F(*x));
                        proof {
                            lemma_values_push(before, out, last);
                        }
                        assert(values(out) =~= values(before) + seq![values(items)[i as int]]);
                    },
                }
                i += 1;
            }
            Ok(EvArray::A(out))
        },
    }
}

/// `s`: the sum of an array of scalars.
#[verifier::loop_isolation(false)]
pub fn sum_op(operand: EvArray) -> (r: Result<EvArray, EvalError>)
    ensures
        match r {
            Ok(v) => summed(operand@) == Ok::<Value, EvalError>(v@),
            Err(e) => summed(operand@) == Err::<Value, EvalError>(e),
        },
{
    match operand {
        EvArray::F(x) => Ok(EvArray::F(x)),
        EvArray::A(items) => {
            let mut sum = Number::from_bits(0);
            let mut i: usize = 0;
            while i < items.len()
                invariant
                    i <= items.len(),
                    total(values(items), i as nat) == Ok::<Number, EvalError>(sum),
                decreases items.len() - i,
            {
                match &items[i] {
                    EvArray::F(x) => {
                        sum = sum.plus(*x);
                    },
                    EvArray::A(_) => {
                        assert(total(values(items), (i + 1) as nat) is Err);
                        proof {
                            lemma_total_fail(values(items), (i + 1) as nat, items.len() as nat);
                        }
                        return Err(EvalError::TypeMismatch);
                    },
                }
                i += 1;
            }
            Ok(EvArray::F(sum))
        },
    }
}

/// `CONTAINS`. It never fails.
#[verifier::loop_isolation(false)]
pub fn contains_op(first: &EvArray, v: &EvArray) -> (r: EvArray)
    ensures
        r@ == contained(first@, v@),
{
    match first {
        EvArray::F(_) => EvArray::F(Number::from_bool(first.equals(v))),
        EvArray::A(items) => {
            let mut i: usize = 0;
            while i < items.len()
                invariant
                    i <= items.len(),
                    forall|k: int| 0 <= k < i ==> !alike(#[trigger] values(*items)[k], v@),
                decreases items.len() - i,
            {
                if items[i].equals(v) {
                    assert(alike(values(*items)[i as int], v@));
                    return EvArray::F(Number::from_bool(true));
                }
                i += 1;
            }
            EvArray::F(Number::from_bool(false))
        },
    }
}

/// `PUSH`.
pub fn push_op(first: EvArray, v: EvArray) -> (r: Result<EvArray, EvalError>)
    ensures
        match r {
            Ok(out) => pushed(first@, v@) == Ok::<Value, EvalError>(out@),
            Err(e) => pushed(first@, v@) == Err::<Value, EvalError>(e),
        },
{
    match first {
        EvArray::A(items) => {
            let mut items = items;
            let ghost before = items;
            let ghost last = v;
            items.push(v);
            proof {
                lemma_values_push(before, items, last);
            }
            Ok(EvArray::A(items))
        },
        EvArray::F(_) => Err(EvalError::TypeMismatch),
    }
}

/// A call of the function `name` on arguments that have their values.
pub fn call(name: &String, args: Vec<EvArray>) -> (r: Result<EvArray, EvalError>)
    ensures
        match r {
            Ok(v) => called(name@, values(args)) == Ok::<Value, EvalError>(v@),
            Err(e) => called(name@, values(args)) == Err::<Value, EvalError>(e),
        },
{
    let contains_name = "CONTAINS".to_owned();
    let push_name = "PUSH".to_owned();
    if *name == contains_name {
        if args.len() != 2 {
            Err(EvalError::ArityMismatch)
        } else {
            Ok(contains_op(&args[0], &args[1]))
        }
    } else if *name == push_name {
        if args.len() != 2 {
            Err(EvalError::ArityMismatch)
        } else {
            let mut args = args;
            let ghost all = values(args);
            let v = args.pop().unwrap();
            let first = args.pop().unwrap();
            assert(first@ == all[0] && v@ == all[1]);
            push_op(first, v)
        }
    } else {
        Err(EvalError::UnknownFunction)
    }
}

} // verus!
