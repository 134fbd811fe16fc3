//! The evaluator: what an expression is worth and what a program writes.
//!
//! The meaning of a program is given by the spec functions `eval` and `ran`.
//! Both take a tape, which holds what the evaluation takes from outside
//! (see the module `chance`), and are functions of their arguments. The
//! executable functions make the draws themselves; their contracts say
//! that the result is the meaning of the program on the tape that records
//! what was drawn.
use crate::chance::{
    extends, lemma_extends_further, outcome, raise_values, raised, roll, rolled,
};
use crate::environment::Environment;
use crate::ops::{
    and_op, arithmetic, arithmetic_op, at_op, both, call, called, either, equal, equal_op,
    flatten_op, flattened, greater, indexed, keep_op, kept, less_op, lesser, more_op, or_op,
    shallow, shallow_flatten_op, spread, sum_op, summed,
};
use crate::parser::{plans, trees, Expr, ExprView, Stmt, StmtView};
use crate::value::{
    lemma_values_empty, lemma_values_push, rendered, spelled, truthy, value, values, EvalError,
    Value,
};
use vstd::prelude::*;
use vstd::string::StringExecFns;

pub use crate::value::EvArray;

verus! {

/// The operators that work on the values of both operands.
pub open spec fn binary(op: char) -> bool {
    op == 'd' || op == '^' || arithmetic(op) || op == '<' || op == '>' || op == '=' || op == '|'
        || op == '&' || op == '@' || op == 'l' || op == 'h'
}

/// The operators that work on the value of the left operand alone.
pub open spec fn postfix(op: char) -> bool {
    op == '_' || op == '!' || op == 's'
}

/// A binary operator on two values, with the place on the tape behind what
/// it took from there.
pub open spec fn applied(op: char, a: Value, b: Value, tape: Seq<nat>, pos: nat) -> (
    Result<Value, EvalError>,
    nat,
) {
    if op == 'd' {
        rolled(a, b, tape, pos)
    } else if op == '^' {
        raised(a, b, tape, pos)
    } else if arithmetic(op) {
        (spread(op, a, b), pos)
    } else if op == '<' {
        (lesser(a, b), pos)
    } else if op == '>' {
        (greater(a, b), pos)
    } else if op == '=' {
        (Ok(equal(a, b)), pos)
    } else if op == '|' {
        (either(a, b), pos)
    } else if op == '&' {
        (both(a, b), pos)
    } else if op == '@' {
        (indexed(a, b), pos)
    } else if op == 'l' {
        (kept(a, b, false), pos)
    } else if op == 'h' {
        (kept(a, b, true), pos)
    } else {
        (Err(EvalError::UnknownOperator(op)), pos)
    }
}

/// A unary operator on a value.
pub open spec fn altered(op: char, a: Value) -> Result<Value, EvalError> {
    if op == '_' {
        Ok(flattened(a))
    } else if op == '!' {
        Ok(shallow(a))
    } else if op == 's' {
        summed(a)
    } else {
        Err(EvalError::UnknownOperator(op))
    }
}

/// The items of an array, `n` times over.
pub open spec fn copies(items: Seq<Value>, n: nat) -> Seq<Value>
    decreases n,
{
    if n == 0 {
        Seq::empty()
    } else {
        copies(items, (n - 1) as nat) + items
    }
}

/// The value of an expression in the environment `env`, on the tape `tape`
/// from the place `pos` on, with the place behind what the evaluation took
/// from the tape. The operands of an operator are evaluated from left to
/// right, and the first error ends the evaluation. A unary operator does not
/// look at its right operand, and an unknown one at neither.
pub open spec fn eval(e: ExprView, env: Map<Seq<char>, Value>, tape: Seq<nat>, pos: nat) -> (
    Result<Value, EvalError>,
    nat,
)
    decreases e, 0nat, 0nat,
{
    match e {
        ExprView::Array(items) => match evaluated(items, env, tape, pos, items.len()) {
            (Ok(vs), next) => (Ok(Value::Array(vs)), next),
            (Err(err), next) => (Err(err), next),
        },
        ExprView::Val(n) => (Ok(Value::Scalar(n)), pos),
        ExprView::Var(name) => if env.contains_key(name) {
            (Ok(env[name]), pos)
        } else {
            (Err(EvalError::UnboundVariable), pos)
        },
        ExprView::Operation(first, op, second) => if op == 'x' {
            match eval(*first, env, tape, pos) {
                (Ok(a), next) => multiplied(a, *second, env, tape, next),
                (Err(err), next) => (Err(err), next),
            }
        } else if postfix(op) {
            match eval(*first, env, tape, pos) {
                (Ok(a), next) => (altered(op, a), next),
                (Err(err), next) => (Err(err), next),
            }
        } else if binary(op) {
            match eval(*first, env, tape, pos) {
                (Ok(a), next) => match eval(*second, env, tape, next) {
                    (Ok(b), after) => applied(op, a, b, tape, after),
                    (Err(err), after) => (Err(err), after),
                },
                (Err(err), next) => (Err(err), next),
            }
        } else {
            (Err(EvalError::UnknownOperator(op)), pos)
        },
        ExprView::Call(name, args) => match evaluated(args, env, tape, pos, args.len()) {
            (Ok(vs), next) => (called(name, vs), next),
            (Err(err), next) => (Err(err), next),
        },
        ExprView::Empty => (Err(EvalError::Unfinished), pos),
    }
}

/// The values of the first `n` expressions of a list, evaluated one after
/// the other.
pub open spec fn evaluated(
    items: Seq<ExprView>,
    env: Map<Seq<char>, Value>,
    tape: Seq<nat>,
    pos: nat,
    n: nat,
) -> (Result<Seq<Value>, EvalError>, nat)
    decreases items, 0nat, n,
{
    if n == 0 || n > items.len() {
        (Ok(Seq::empty()), pos)
    } else {
        match evaluated(items, env, tape, pos, (n - 1) as nat) {
            (Ok(before), next) => match eval(items[n - 1], env, tape, next) {
                (Ok(v), after) => (Ok(before.push(v)), after),
                (Err(err), after) => (Err(err), after),
            },
            (Err(err), next) => (Err(err), next),
        }
    }
}

/// The values of `n` evaluations of one expression, one after the other.
/// Each evaluation takes its own draws from the tape.
pub open spec fn repeated(
    e: ExprView,
    env: Map<Seq<char>, Value>,
    tape: Seq<nat>,
    pos: nat,
    n: nat,
) -> (Result<Seq<Value>, EvalError>, nat)
    decreases e, 1nat, n,
{
    if n == 0 {
        (Ok(Seq::empty()), pos)
    } else {
        match repeated(e, env, tape, pos, (n - 1) as nat) {
            (Ok(before), next) => match eval(e, env, tape, next) {
                (Ok(v), after) => (Ok(before.push(v)), after),
                (Err(err), after) => (Err(err), after),
            },
            (Err(err), next) => (Err(err), next),
        }
    }
}

/// The operator `x` on the value `a` of its left operand and on its right
/// operand, which is not evaluated yet. A scalar on the left has the right
/// operand evaluated that many times, and the results make an array. An
/// array on the left has it evaluated once, to a scalar, and is repeated
/// that many times.
pub open spec fn multiplied(
    a: Value,
    e: ExprView,
    env: Map<Seq<char>, Value>,
    tape: Seq<nat>,
    pos: nat,
) -> (Result<Value, EvalError>, nat)
    decreases e, 2nat, 0nat,
{
    match a {
        Value::Scalar(x) => match repeated(e, env, tape, pos, x.count() as nat) {
            (Ok(vs), next) => (Ok(Value::Array(vs)), next),
            (Err(err), next) => (Err(err), next),
        },
        Value::Array(items) => match eval(e, env, tape, pos) {
            (Ok(Value::Scalar(x)), next) => (
                Ok(Value::Array(copies(items, x.count() as nat))),
                next,
            ),
            (Ok(Value::Array(_)), next) => (Err(EvalError::TypeMismatch), next),
            (Err(err), next) => (Err(err), next),
        },
    }
}

/// Once an expression of a list has failed, every longer run of the list
/// fails with the same error at the same place of the tape.
pub proof fn lemma_evaluated_fail(
    items: Seq<ExprView>,
    env: Map<Seq<char>, Value>,
    tape: Seq<nat>,
    pos: nat,
    n: nat,
    m: nat,
)
    requires
        n <= m <= items.len(),
        evaluated(items, env, tape, pos, n).0 is Err,
    ensures
        evaluated(items, env, tape, pos, m) == evaluated(items, env, tape, pos, n),
    decreases m,
{
    if n < m {
        lemma_evaluated_fail(items, env, tape, pos, n, (m - 1) as nat);
    }
}

/// Once an evaluation has failed, every longer run of evaluations fails
/// with the same error at the same place of the tape.
pub proof fn lemma_repeated_fail(
    e: ExprView,
    env: Map<Seq<char>, Value>,
    tape: Seq<nat>,
    pos: nat,
    n: nat,
    m: nat,
)
    requires
        n <= m,
        repeated(e, env, tape, pos, n).0 is Err,
    ensures
        repeated(e, env, tape, pos, m) == repeated(e, env, tape, pos, n),
    decreases m,
{
    if n < m {
        lemma_repeated_fail(e, env, tape, pos, n, (m - 1) as nat);
    }
}

/// The values of a list by their views.
pub open spec fn outcomes(r: Result<Vec<EvArray>, EvalError>) -> Result<Seq<Value>, EvalError> {
    match r {
        Ok(vs) => Ok(values(vs)),
        Err(e) => Err(e),
    }
}

fn is_binary(op: char) -> (r: bool)
    ensures
        r == binary(op),
{
    op == 'd' || op == '^' || op == '+' || op == '-' || op == '*' || op == '/' || op == '<' || op
        == '>' || op == '=' || op == '|' || op == '&' || op == '@' || op == 'l' || op == 'h'
}

/// Applies a binary operator to two values and records what it draws.
fn apply(op: char, a: EvArray, b: EvArray, log: &mut Ghost<Seq<nat>>) -> (r: Result<
    EvArray,
    EvalError,
>)
    requires
        binary(op),
    ensures
        extends(final(log)@, old(log)@),
        forall|tape: Seq<nat>| #[trigger]
            extends(tape, final(log)@) ==> applied(op, a@, b@, tape, old(log)@.len()) == (
                outcome(r),
                final(log)@.len(),
            ),
{
    if op == 'd' {
        roll(&a, &b, log)
    } else if op == '^' {
        raise_values(&a, &b, log)
    } else if op == '+' || op == '-' || op == '*' || op == '/' {
        arithmetic_op(op, &a, &b)
    } else if op == '<' {
        less_op(a, b)
    } else if op == '>' {
        more_op(a, b)
    } else if op == '=' {
        equal_op(a, b)
    } else if op == '|' {
        or_op(a, b)
    } else if op == '&' {
        and_op(a, b)
    } else if op == '@' {
        at_op(a, b)
    } else if op == 'l' {
        keep_op(&a, &b, false)
    } else {
        keep_op(&a, &b, true)
    }
}

/// Applies a unary operator to a value.
fn alter(op: char, a: EvArray) -> (r: Result<EvArray, EvalError>)
    requires
        postfix(op),
    ensures
        outcome(r) == altered(op, a@),
{
    if op == '_' {
        flatten_op(a)
    } else if op == '!' {
        shallow_flatten_op(a)
    } else {
        sum_op(a)
    }
}

/// Evaluates an expression and records what the evaluation draws.
fn eval_expr(e: &Expr, mem: &Environment, log: &mut Ghost<Seq<nat>>) -> (r: Result<
    EvArray,
    EvalError,
>)
    ensures
        extends(final(log)@, old(log)@),
        forall|tape: Seq<nat>| #[trigger]
            extends(tape, final(log)@) ==> eval(e@, mem@, tape, old(log)@.len()) == (
                outcome(r),
                final(log)@.len(),
            ),
    decreases e, 0nat, 0nat,
{
    let ghost start = log@.len();
    match e {
        Expr::Array(a) => {
            match eval_items(&a.0, mem, log) {
                Ok(vs) => Ok(EvArray::A(vs)),
                Err(err) => Err(err),
            }
        },
        Expr::Val(n) => Ok(EvArray::F(*n)),
        Expr::Var(name) => {
            match mem.get(name) {
                Some(v) => Ok(v),
                None => Err(EvalError::UnboundVariable),
            }
        },
        Expr::Operation(first, op, second) => {
            let op: char = *op;
            if op == 'x' {
                match eval_expr(first, mem, log) {
                    Ok(a) => {
                        let ghost log1 = log@;
                        let r = repeat(a, second, mem, log);
                        proof {
                            assert forall|tape: Seq<nat>| #[trigger]
                                extends(tape, log@) implies eval(e@, mem@, tape, start) == (
                                outcome(r),
                                log@.len(),
                            ) by {
                                lemma_extends_further(tape, log@, log1);
                            }
                        }
                        r
                    },
                    Err(err) => Err(err),
                }
            } else if op == '_' || op == '!' || op == 's' {
                match eval_expr(first, mem, log) {
                    Ok(a) => alter(op, a),
                    Err(err) => Err(err),
                }
            } else if is_binary(op) {
                match eval_expr(first, mem, log) {
                    Ok(a) => {
                        let ghost log1 = log@;
                        match eval_expr(second, mem, log) {
                            Ok(b) => {
                                let ghost log2 = log@;
                                let r = apply(op, a, b, log);
                                proof {
                                    assert forall|tape: Seq<nat>| #[trigger]
                                        extends(tape, log@) implies eval(e@, mem@, tape, start)
                                        == (outcome(r), log@.len()) by {
                                        lemma_extends_further(tape, log@, log2);
                                        lemma_extends_further(tape, log2, log1);
                                    }
                                }
                                r
                            },
                            Err(err) => {
                                proof {
                                    assert forall|tape: Seq<nat>| #[trigger]
                                        extends(tape, log@) implies eval(e@, mem@, tape, start)
                                        == (Err::<Value, EvalError>(err), log@.len()) by {
                                        lemma_extends_further(tape, log@, log1);
                                    }
                                }
                                Err(err)
                            },
                        }
                    },
                    Err(err) => Err(err),
                }
            } else {
                Err(EvalError::UnknownOperator(op))
            }
        },
        Expr::Call(name, args) => {
            match eval_items(args, mem, log) {
                Ok(vs) => call(name, vs),
                Err(err) => Err(err),
            }
        },
        Expr::Empty => Err(EvalError::Unfinished),
    }
}

/// Evaluates the expressions of a list one after the other.
#[verifier::loop_isolation(false)]
fn eval_items(items: &Vec<Expr>, mem: &Environment, log: &mut Ghost<Seq<nat>>) -> (r: Result<
    Vec<EvArray>,
    EvalError,
>)
    ensures
        extends(final(log)@, old(log)@),
        forall|tape: Seq<nat>| #[trigger]
            extends(tape, final(log)@) ==> evaluated(
                trees(*items),
                mem@,
                tape,
                old(log)@.len(),
                items.len() as nat,
            ) == (outcomes(r), final(log)@.len()),
    decreases items, 0nat, 0nat,
{
    let ghost start = log@.len();
    let mut out: Vec<EvArray> = Vec::new();
    proof {
        lemma_values_empty(out);
    }
    let mut i: usize = 0;
    while i < items.len()
        invariant
            i <= items.len(),
            extends(log@, old(log)@),
            forall|tape: Seq<nat>| #[trigger]
                extends(tape, log@) ==> evaluated(trees(*items), mem@, tape, start, i as nat) == (
                    Ok::<Seq<Value>, EvalError>(values(out)),
                    log@.len(),
                ),
        decreases items.len() - i,
    {
        let ghost log1 = log@;
        let ghost before = out;
        assert(trees(*items)[i as int] == items[i as int]@);
        match eval_expr(&items[i], mem, log) {
            Ok(v) => {
                let ghost last = v;
                out.push(v);
                proof {
                    lemma_values_push(before, out, last);
                    assert forall|tape: Seq<nat>| #[trigger] extends(tape, log@) implies evaluated(
                        trees(*items),
                        mem@,
                        tape,
                        start,
                        (i + 1) as nat,
                    ) == (Ok::<Seq<Value>, EvalError>(values(out)), log@.len()) by {
                        lemma_extends_further(tape, log@, log1);
                    }
                }
            },
            Err(err) => {
                proof {
                    assert forall|tape: Seq<nat>| #[trigger] extends(tape, log@) implies evaluated(
                        trees(*items),
                        mem@,
                        tape,
                        start,
                        items.len() as nat,
                    ) == (Err::<Seq<Value>, EvalError>(err), log@.len()) by {
                        lemma_extends_further(tape, log@, log1);
                        lemma_evaluated_fail(
                            trees(*items),
                            mem@,
                            tape,
                            start,
                            (i + 1) as nat,
                            items.len() as nat,
                        );
                    }
                }
                return Err(err);
            },
        }
        i += 1;
    }
    Ok(out)
}

/// `x`: repetition. `first` is the value of the left operand; the right
/// operand is evaluated here, as often as the operator asks.
#[verifier::loop_isolation(false)]
fn repeat(first: EvArray, second: &Expr, mem: &Environment, log: &mut Ghost<Seq<nat>>) -> (r: Result<
    EvArray,
    EvalError,
>)
    ensures
        extends(final(log)@, old(log)@),
        forall|tape: Seq<nat>| #[trigger]
            extends(tape, final(log)@) ==> multiplied(
                first@,
                second@,
                mem@,
                tape,
                old(log)@.len(),
            ) == (outcome(r), final(log)@.len()),
    decreases second, 2nat, 0nat,
{
    let ghost start = log@.len();
    match first {
        EvArray::F(x) => {
            let count: usize = x.to_count();
            let mut out: Vec<EvArray> = Vec::new();
            proof {
                lemma_values_empty(out);
            }
            let mut i: usize = 0;
            while i < count
                invariant
                    i <= count,
                    extends(log@, old(log)@),
                    forall|tape: Seq<nat>| #[trigger]
                        extends(tape, log@) ==> repeated(second@, mem@, tape, start, i as nat) == (
                            Ok::<Seq<Value>, EvalError>(values(out)),
                            log@.len(),
                        ),
                decreases count - i,
            {
                let ghost log1 = log@;
                let ghost before = out;
                match eval_expr(second, mem, log) {
                    Ok(v) => {
                        let ghost last = v;
                        out.push(v);
                        proof {
                            lemma_values_push(before, out, last);
                            assert forall|tape: Seq<nat>| #[trigger]
                                extends(tape, log@) implies repeated(
                                second@,
                                mem@,
                                tape,
                                start,
                                (i + 1) as nat,
                            ) == (Ok::<Seq<Value>, EvalError>(values(out)), log@.len()) by {
                                lemma_extends_further(tape, log@, log1);
                            }
                        }
                    },
                    Err(err) => {
                        proof {
                            assert forall|tape: Seq<nat>| #[trigger]
                                extends(tape, log@) implies repeated(
                                second@,
                                mem@,
                                tape,
                                start,
                                count as nat,
                            ) == (Err::<Seq<Value>, EvalError>(err), log@.len()) by {
                                lemma_extends_further(tape, log@, log1);
                                lemma_repeated_fail(
                                    second@,
                                    mem@,
                                    tape,
                                    start,
                                    (i + 1) as nat,
                                    count as nat,
                                );
                            }
                        }
                        return Err(err);
                    },
                }
                i += 1;
            }
            Ok(EvArray::A(out))
        },
        EvArray::A(items) => {
            match eval_expr(second, mem, log) {
                Ok(EvArray::F(x)) => {
                    let count: usize = x.to_count();
                    let mut out: Vec<EvArray> = Vec::new();
                    proof {
                        lemma_values_empty(out);
                    }
                    let mut i: usize = 0;
                    while i < count
                        invariant
                            i <= count,
                            values(out) == copies(values(items), i as nat),
                        decreases count - i,
                    {
                        let ghost round = values(out);
                        let mut j: usize = 0;
                        assert(values(out) =~= round + values(items).take(0));
                        while j < items.len()
                            invariant
                                j <= items.len(),
                                values(out) == round + values(items).take(j as int),
                            decreases items.len() - j,
                        {
                            let ghost before = out;
                            let copy = items[j].duplicate();
                            let ghost last = copy;
                            out.push(copy);
                            proof {
                                lemma_values_push(before, out, last);
                            }
                            assert(values(out) =~= round + values(items).take(j + 1));
                            j += 1;
                        }
                        assert(values(items).take(items.len() as int) =~= values(items));
                        i += 1;
                    }
                    Ok(EvArray::A(out))
                },
                Ok(EvArray::A(_)) => Err(EvalError::TypeMismatch),
                Err(err) => Err(err),
            }
        },
    }
}

/// How far the run of a program has come.
pub struct Progress {
    /// The values of the variables.
    pub env: Map<Seq<char>, Value>,
    /// What has been written.
    pub out: Seq<char>,
    /// The place on the tape.
    pub pos: nat,
    /// How many more times a `while` loop may go round.
    pub fuel: nat,
    /// The error that has ended the run, if one has.
    pub fault: Option<EvalError>,
}

/// The run, ended by the error `e` at the place `pos` of the tape.
pub open spec fn failed(p: Progress, e: EvalError, pos: nat) -> Progress {
    Progress { fault: Some(e), pos, ..p }
}

/// The run after one statement.
///
/// A binding gives its variable the value of its expression. The two
/// outputs write that value, as numbers or as text, and a line feed. A
/// conditional runs its first block where its test is true, and its second
/// block, if it has one, where it is not. A loop over a collection
/// evaluates its source once and runs its body once for a scalar, once for
/// each item of an array, with the variable bound to it. A control
/// statement that misses a block, or its variable, has not been finished.
pub open spec fn executed(s: StmtView, p: Progress, tape: Seq<nat>) -> Progress
    decreases p.fuel, s, 0nat, 0nat,
{
    match s {
        StmtView::Bind(name, e) => match eval(e, p.env, tape, p.pos) {
            (Ok(v), pos) => Progress { env: p.env.insert(name, v), pos, ..p },
            (Err(err), pos) => failed(p, err, pos),
        },
        StmtView::Out(e) => match eval(e, p.env, tape, p.pos) {
            (Ok(v), pos) => Progress { out: (p.out + rendered(v)).push('\n'), pos, ..p },
            (Err(err), pos) => failed(p, err, pos),
        },
        StmtView::StringOut(e) => match eval(e, p.env, tape, p.pos) {
            (Ok(v), pos) => match spelled(v) {
                Ok(text) => Progress { out: (p.out + text).push('\n'), pos, ..p },
                Err(err) => failed(p, err, pos),
            },
            (Err(err), pos) => failed(p, err, pos),
        },
        StmtView::Condition(test, Some(first), second) => match eval(test, p.env, tape, p.pos) {
            (Ok(v), pos) => if truthy(v) {
                ran(first, 0, Progress { pos, ..p }, tape)
            } else {
                match second {
                    Some(other) => ran(other, 0, Progress { pos, ..p }, tape),
                    None => Progress { pos, ..p },
                }
            },
            (Err(err), pos) => failed(p, err, pos),
        },
        StmtView::While(test, Some(body)) => looped(test, body, p, tape),
        StmtView::For(Some(name), source, Some(body)) => match eval(source, p.env, tape, p.pos) {
            (Ok(Value::Scalar(x)), pos) => ran(
                body,
                0,
                Progress { env: p.env.insert(name, Value::Scalar(x)), pos, ..p },
                tape,
            ),
            (Ok(Value::Array(items)), pos) => iterated(
                name,
                items,
                0,
                body,
                Progress { pos, ..p },
                tape,
            ),
            (Err(err), pos) => failed(p, err, pos),
        },
        _ => failed(p, EvalError::Unfinished, p.pos),
    }
}

/// The run after the statements of a block from the `k`th on. An error
/// ends it.
pub open spec fn ran(stmts: Seq<StmtView>, k: nat, p: Progress, tape: Seq<nat>) -> Progress
    decreases p.fuel, stmts, 0nat, stmts.len() - k,
{
    if p.fault is Some || k >= stmts.len() {
        p
    } else {
        let q = executed(stmts[k as int], p, tape);
        if q.fuel <= p.fuel {
            ran(stmts, k + 1, q, tape)
        } else {
            q
        }
    }
}

/// The run after a `while` loop. The test is evaluated before each round.
/// Each round takes one unit of fuel; where the test is true and no fuel
/// is left, the run ends with `StepLimit`.
pub open spec fn looped(test: ExprView, body: Seq<StmtView>, p: Progress, tape: Seq<nat>) -> Progress
    decreases p.fuel, body, 1nat, 0nat,
{
    match eval(test, p.env, tape, p.pos) {
        (Ok(v), pos) => if !truthy(v) {
            Progress { pos, ..p }
        } else if p.fuel == 0 {
            failed(p, EvalError::StepLimit, pos)
        } else {
            let q = ran(body, 0, Progress { pos, fuel: (p.fuel - 1) as nat, ..p }, tape);
            if q.fault is Some || q.fuel >= p.fuel {
                q
            } else {
                looped(test, body, q, tape)
            }
        },
        (Err(err), pos) => failed(p, err, pos),
    }
}

/// The run after the rounds of a loop over the items of an array, from the
/// `k`th item on.
pub open spec fn iterated(
    name: Seq<char>,
    items: Seq<Value>,
    k: nat,
    body: Seq<StmtView>,
    p: Progress,
    tape: Seq<nat>,
) -> Progress
    decreases p.fuel, body, 1nat, items.len() - k,
{
    if p.fault is Some || k >= items.len() {
        p
    } else {
        let q = ran(body, 0, Progress { env: p.env.insert(name, items[k as int]), ..p }, tape);
        if q.fuel <= p.fuel {
            iterated(name, items, k + 1, body, q, tape)
        } else {
            q
        }
    }
}

/// The fault of a result.
pub open spec fn fault_of(r: Result<(), EvalError>) -> Option<EvalError> {
    match r {
        Ok(_) => None,
        Err(e) => Some(e),
    }
}

/// Where a run stands, from what the executable code holds.
pub open spec fn standing(
    mem: Environment,
    out: String,
    log: Seq<nat>,
    budget: u64,
    r: Result<(), EvalError>,
) -> Progress {
    Progress { env: mem@, out: out@, pos: log.len(), fuel: budget as nat, fault: fault_of(r) }
}

/// Runs a `while` loop.
#[verifier::loop_isolation(false)]
fn run_while(
    test: &Expr,
    body: &Vec<Stmt>,
    mem: &mut Environment,
    out: &mut String,
    budget: &mut u64,
    log: &mut Ghost<Seq<nat>>,
) -> (r: Result<(), EvalError>)
    ensures
        extends(final(log)@, old(log)@),
        *final(budget) <= *old(budget),
        forall|tape: Seq<nat>| #[trigger]
            extends(tape, final(log)@) ==> looped(
                test@,
                plans(*body),
                standing(*old(mem), *old(out), old(log)@, *old(budget), Ok(())),
                tape,
            ) == standing(*final(mem), *final(out), final(log)@, *final(budget), r),
    decreases *old(budget), body, 2nat,
{
    let ghost initial = standing(*mem, *out, log@, *budget, Ok(()));
    loop
        invariant
            extends(log@, old(log)@),
            *budget <= *old(budget),
            forall|tape: Seq<nat>| #[trigger]
                extends(tape, log@) ==> looped(test@, plans(*body), initial, tape) == looped(
                    test@,
                    plans(*body),
                    standing(*mem, *out, log@, *budget, Ok(())),
                    tape,
                ),
        decreases *budget,
    {
        let ghost log0 = log@;
        match eval_expr(test, mem, log) {
            Ok(v) => {
                let ghost log1 = log@;
                if !v.is_true() {
                    proof {
                        assert forall|tape: Seq<nat>| #[trigger] extends(tape, log@) implies looped(
                            test@,
                            plans(*body),
                            initial,
                            tape,
                        ) == standing(*mem, *out, log@, *budget, Ok(())) by {
                            lemma_extends_further(tape, log@, log0);
                        }
                    }
                    return Ok(());
                }
                if *budget == 0 {
                    proof {
                        assert forall|tape: Seq<nat>| #[trigger] extends(tape, log@) implies looped(
                            test@,
                            plans(*body),
                            initial,
                            tape,
                        ) == standing(*mem, *out, log@, *budget, Err(EvalError::StepLimit)) by {
                            lemma_extends_further(tape, log@, log0);
                        }
                    }
                    return Err(EvalError::StepLimit);
                }
                *budget = *budget - 1;
                match run_block(body, mem, out, budget, log) {
                    Ok(()) => {
                        proof {
                            assert forall|tape: Seq<nat>| #[trigger]
                                extends(tape, log@) implies looped(test@, plans(*body), initial, tape)
                                == looped(
                                test@,
                                plans(*body),
                                standing(*mem, *out, log@, *budget, Ok(())),
                                tape,
                            ) by {
                                lemma_extends_further(tape, log@, log1);
                                lemma_extends_further(tape, log1, log0);
                            }
                        }
                    },
                    Err(err) => {
                        proof {
                            assert forall|tape: Seq<nat>| #[trigger]
                                extends(tape, log@) implies looped(test@, plans(*body), initial, tape)
                                == standing(*mem, *out, log@, *budget, Err(err)) by {
                                lemma_extends_further(tape, log@, log1);
                                lemma_extends_further(tape, log1, log0);
                            }
                        }
                        return Err(err);
                    },
                }
            },
            Err(err) => {
                proof {
                    assert forall|tape: Seq<nat>| #[trigger] extends(tape, log@) implies looped(
                        test@,
                        plans(*body),
                        initial,
                        tape,
                    ) == standing(*mem, *out, log@, *budget, Err(err)) by {
                        lemma_extends_further(tape, log@, log0);
                    }
                }
                return Err(err);
            },
        }
    }
}

/// Runs the body of a loop once for each item of an array, with the
/// loop's variable bound to the item.
#[verifier::loop_isolation(false)]
fn run_each(
    name: &String,
    items: &Vec<EvArray>,
    body: &Vec<Stmt>,
    mem: &mut Environment,
    out: &mut String,
    budget: &mut u64,
    log: &mut Ghost<Seq<nat>>,
) -> (r: Result<(), EvalError>)
    ensures
        extends(final(log)@, old(log)@),
        *final(budget) <= *old(budget),
        forall|tape: Seq<nat>| #[trigger]
            extends(tape, final(log)@) ==> iterated(
                name@,
                values(*items),
                0,
                plans(*body),
                standing(*old(mem), *old(out), old(log)@, *old(budget), Ok(())),
                tape,
            ) == standing(*final(mem), *final(out), final(log)@, *final(budget), r),
    decreases *old(budget), body, 2nat,
{
    let ghost initial = standing(*mem, *out, log@, *budget, Ok(()));
    let mut k: usize = 0;
    while k < items.len()
        invariant
            k <= items.len(),
            extends(log@, old(log)@),
            *budget <= *old(budget),
            forall|tape: Seq<nat>| #[trigger]
                extends(tape, log@) ==> iterated(name@, values(*items), 0, plans(*body), initial, tape)
                    == iterated(
                    name@,
                    values(*items),
                    k as nat,
                    plans(*body),
                    standing(*mem, *out, log@, *budget, Ok(())),
                    tape,
                ),
        decreases items.len() - k,
    {
        let ghost log1 = log@;
        assert(values(*items)[k as int] == items[k as int]@);
        mem.insert(name.clone(), items[k].duplicate());
        match run_block(body, mem, out, budget, log) {
            Ok(()) => {
                proof {
                    assert forall|tape: Seq<nat>| #[trigger] extends(tape, log@) implies iterated(
                        name@,
                        values(*items),
                        0,
                        plans(*body),
                        initial,
                        tape,
                    ) == iterated(
                        name@,
                        values(*items),
                        (k + 1) as nat,
                        plans(*body),
                        standing(*mem, *out, log@, *budget, Ok(())),
                        tape,
                    ) by {
                        lemma_extends_further(tape, log@, log1);
                    }
                }
            },
            Err(err) => {
                proof {
                    let q = standing(*mem, *out, log@, *budget, Err(err));
                    assert forall|tape: Seq<nat>| #[trigger] extends(tape, log@) implies iterated(
                        name@,
                        values(*items),
                        0,
                        plans(*body),
                        initial,
                        tape,
                    ) == q by {
                        lemma_extends_further(tape, log@, log1);
                        assert(iterated(
                            name@,
                            values(*items),
                            (k + 1) as nat,
                            plans(*body),
                            q,
                            tape,
                        ) == q);
                    }
                }
                return Err(err);
            },
        }
        k += 1;
    }
    Ok(())
}

/// Runs one statement.
fn run_statement(
    s: &Stmt,
    mem: &mut Environment,
    out: &mut String,
    budget: &mut u64,
    log: &mut Ghost<Seq<nat>>,
) -> (r: Result<(), EvalError>)
    ensures
        extends(final(log)@, old(log)@),
        *final(budget) <= *old(budget),
        forall|tape: Seq<nat>| #[trigger]
            extends(tape, final(log)@) ==> executed(
                s@,
                standing(*old(mem), *old(out), old(log)@, *old(budget), Ok(())),
                tape,
            ) == standing(*final(mem), *final(out), final(log)@, *final(budget), r),
    decreases *old(budget), s, 0nat,
{
    let ghost initial = standing(*mem, *out, log@, *budget, Ok(()));
    match s {
        Stmt::Bind(name, e) => {
            match eval_expr(e, mem, log) {
                Ok(v) => {
                    mem.insert(name.clone(), v);
                    Ok(())
                },
                Err(err) => Err(err),
            }
        },
        Stmt::Out(e) => {
            match eval_expr(e, mem, log) {
                Ok(v) => {
                    v.write(out);
                    out.push('\n');
                    Ok(())
                },
                Err(err) => Err(err),
            }
        },
        Stmt::StringOut(e) => {
            match eval_expr(e, mem, log) {
                Ok(v) => {
                    match v.stringify() {
                        Ok(text) => {
                            out.append(text.as_str());
                            out.push('\n');
                            Ok(())
                        },
                        Err(err) => Err(err),
                    }
                },
                Err(err) => Err(err),
            }
        },
        Stmt::Condition(test, Some(first), second) => {
            match eval_expr(test, mem, log) {
                Ok(v) => {
                    let ghost log1 = log@;
                    if v.is_true() {
                        let r = run_block(first, mem, out, budget, log);
                        proof {
                            assert forall|tape: Seq<nat>| #[trigger]
                                extends(tape, log@) implies executed(s@, initial, tape) == standing(
                                *mem,
                                *out,
                                log@,
                                *budget,
                                r,
                            ) by {
                                lemma_extends_further(tape, log@, log1);
                            }
                        }
                        r
                    } else {
                        match second {
                            Some(other) => {
                                let r = run_block(other, mem, out, budget, log);
                                proof {
                                    assert forall|tape: Seq<nat>| #[trigger]
                                        extends(tape, log@) implies executed(s@, initial, tape)
                                        == standing(*mem, *out, log@, *budget, r) by {
                                        lemma_extends_further(tape, log@, log1);
                                    }
                                }
                                r
                            },
                            None => Ok(()),
                        }
                    }
                },
                Err(err) => Err(err),
            }
        },
        Stmt::While(test, Some(body)) => run_while(test, body, mem, out, budget, log),
        Stmt::For(Some(name), source, Some(body)) => {
            match eval_expr(source, mem, log) {
                Ok(EvArray::F(x)) => {
                    let ghost log1 = log@;
                    mem.insert(name.clone(), EvArray::F(x));
                    let r = run_block(body, mem, out, budget, log);
                    proof {
                        assert forall|tape: Seq<nat>| #[trigger]
                            extends(tape, log@) implies executed(s@, initial, tape) == standing(
                            *mem,
                            *out,
                            log@,
                            *budget,
                            r,
                        ) by {
                            lemma_extends_further(tape, log@, log1);
                        }
                    }
                    r
                },
                Ok(EvArray::A(items)) => {
                    let ghost log1 = log@;
                    let r = run_each(name, &items, body, mem, out, budget, log);
                    proof {
                        assert forall|tape: Seq<nat>| #[trigger]
                            extends(tape, log@) implies executed(s@, initial, tape) == standing(
                            *mem,
                            *out,
                            log@,
                            *budget,
                            r,
                        ) by {
                            lemma_extends_further(tape, log@, log1);
                        }
                    }
                    r
                },
                Err(err) => Err(err),
            }
        },
        _ => Err(EvalError::Unfinished),
    }
}

/// Runs the statements of a block in their order, up to the first error.
#[verifier::loop_isolation(false)]
fn run_block(
    t: &Vec<Stmt>,
    mem: &mut Environment,
    out: &mut String,
    budget: &mut u64,
    log: &mut Ghost<Seq<nat>>,
) -> (r: Result<(), EvalError>)
    ensures
        extends(final(log)@, old(log)@),
        *final(budget) <= *old(budget),
        forall|tape: Seq<nat>| #[trigger]
            extends(tape, final(log)@) ==> ran(
                plans(*t),
                0,
                standing(*old(mem), *old(out), old(log)@, *old(budget), Ok(())),
                tape,
            ) == standing(*final(mem), *final(out), final(log)@, *final(budget), r),
    decreases *old(budget), t, 1nat,
{
    let ghost initial = standing(*mem, *out, log@, *budget, Ok(()));
    let mut k: usize = 0;
    while k < t.len()
        invariant
            k <= t.len(),
            extends(log@, old(log)@),
            *budget <= *old(budget),
            forall|tape: Seq<nat>| #[trigger]
                extends(tape, log@) ==> ran(plans(*t), 0, initial, tape) == ran(
                    plans(*t),
                    k as nat,
                    standing(*mem, *out, log@, *budget, Ok(())),
                    tape,
                ),
        decreases t.len() - k,
    {
        let ghost log1 = log@;
        assert(plans(*t)[k as int] == t[k as int]@);
        match run_statement(&t[k], mem, out, budget, log) {
            Ok(()) => {
                proof {
                    assert forall|tape: Seq<nat>| #[trigger] extends(tape, log@) implies ran(
                        plans(*t),
                        0,
                        initial,
                        tape,
                    ) == ran(
                        plans(*t),
                        (k + 1) as nat,
                        standing(*mem, *out, log@, *budget, Ok(())),
                        tape,
                    ) by {
                        lemma_extends_further(tape, log@, log1);
                    }
                }
            },
            Err(err) => {
                proof {
                    let q = standing(*mem, *out, log@, *budget, Err(err));
                    assert forall|tape: Seq<nat>| #[trigger] extends(tape, log@) implies ran(
                        plans(*t),
                        0,
                        initial,
                        tape,
                    ) == q by {
                        lemma_extends_further(tape, log@, log1);
                        assert(ran(plans(*t), (k + 1) as nat, q, tape) == q);
                    }
                }
                return Err(err);
            },
        }
        k += 1;
    }
    Ok(())
}

/// `x`: repetition. `first` is the value of the left operand; the right
/// operand is evaluated here, as often as the operator asks: as many times
/// as the scalar `first` says, each time anew and with draws of its own, or
/// once where `first` is an array. What is drawn is random: the result is
/// what `multiplied` gives on the tape of what was drawn.
pub fn x_op(first: EvArray, second: &Expr, mem: &Environment) -> (r: Result<EvArray, EvalError>)
    ensures
        exists|tape: Seq<nat>|
            multiplied(first@, second@, mem@, tape, 0) == (outcome(r), tape.len()),
{
    let mut log: Ghost<Seq<nat>> = Ghost(Seq::empty());
    let ghost a = first@;
    let r = repeat(first, second, mem, &mut log);
    assert(extends(log@, log@));
    assert(multiplied(a, second@, mem@, log@, 0) == (outcome(r), log@.len()));
    r
}

/// The value of an expression. What the evaluation draws is random: the
/// result is the value that `eval` gives on the tape of what was drawn. An
/// expression without an empty place never gives `Unfinished`.
pub fn evaluate_expr(e: &Expr, mem: &Environment) -> (r: Result<EvArray, EvalError>)
    ensures
        exists|tape: Seq<nat>| eval(e@, mem@, tape, 0) == (outcome(r), tape.len()),
        crate::laws::complete(e@) ==> r != Err::<EvArray, EvalError>(EvalError::Unfinished),
{
    let mut log: Ghost<Seq<nat>> = Ghost(Seq::empty());
    let r = eval_expr(e, mem, &mut log);
    assert(extends(log@, log@));
    proof {
        if crate::laws::complete(e@) {
            crate::laws::law_complete_evaluates(e@, mem@, log@, 0);
        }
    }
    r
}

/// Where the run of a program begins.
pub open spec fn beginning(env: Map<Seq<char>, Value>, limit: u64) -> Progress {
    Progress { env, out: Seq::empty(), pos: 0, fuel: limit as nat, fault: None }
}

/// Runs a program in the environment `mem` and gives back what it wrote, or
/// the first error. The `while` loops of the program may go round `limit`
/// times in all; after that the run ends with `StepLimit`.
///
/// What the run draws is random: the result is that of `ran` on the tape of
/// what was drawn, all of which was used. The environment is left as
/// the run left it, also where an error has ended the run. A program
/// without a `while` loop never ends with `StepLimit`, and a program that
/// is finished at every depth, as the parser hands it out, never with
/// `Unfinished`.
pub fn evaluate(t: &Vec<Stmt>, mem: &mut Environment, limit: u64) -> (r: Result<String, EvalError>)
    ensures
        exists|tape: Seq<nat>|
            {
                let end = #[trigger] ran(plans(*t), 0, beginning(old(mem)@, limit), tape);
                &&& end.pos == tape.len()
                &&& end.env == final(mem)@
                &&& match r {
                    Ok(text) => end.fault is None && end.out == text@,
                    Err(e) => end.fault == Some(e),
                }
            },
        crate::laws::all_loop_free(plans(*t)) ==> r != Err::<String, EvalError>(
            EvalError::StepLimit,
        ),
        crate::laws::all_whole(plans(*t)) ==> r != Err::<String, EvalError>(
            EvalError::Unfinished,
        ),
{
    let mut log: Ghost<Seq<nat>> = Ghost(Seq::empty());
    let mut out = String::new();
    let mut budget: u64 = limit;
    let ghost initial = standing(*mem, out, log@, budget, Ok(()));
    assert(initial == beginning(mem@, limit));
    let r = run_block(t, mem, &mut out, &mut budget, &mut log);
    assert(extends(log@, log@));
    let ghost end = ran(plans(*t), 0, beginning(old(mem)@, limit), log@);
    assert(end == standing(*mem, out, log@, budget, r));
    proof {
        if crate::laws::all_loop_free(plans(*t)) {
            crate::laws::law_no_loop_no_limit(plans(*t), beginning(old(mem)@, limit), log@);
        }
        if crate::laws::all_whole(plans(*t)) {
            crate::laws::law_whole_runs(plans(*t), beginning(old(mem)@, limit), log@);
        }
    }
    match r {
        Ok(()) => Ok(out),
        Err(e) => Err(e),
    }
}

} // verus!
