//! What an evaluation takes from outside: random draws, and the results of
//! the power function.
//!
//! None of them is a function of what the program holds. Each is recorded,
//! in the order in which it was taken, as one entry of a tape; what an
//! evaluation computes is then a function of the program and of the tape.
use crate::number::Number;
use crate::ops::{fitting, item, span};
use crate::value::{lemma_values_empty, lemma_values_push, value, values, EvArray, EvalError, Value};
use rand::Rng;
use vstd::arithmetic::div_mod::lemma_small_mod;
use vstd::prelude::*;

verus! {

/// Entry `pos` of a tape; 0 behind its end.
pub open spec fn entry(tape: Seq<nat>, pos: nat) -> nat {
    if pos < tape.len() {
        tape[pos as int]
    } else {
        0
    }
}

/// `tape` begins with the entries of `log`.
pub open spec fn extends(tape: Seq<nat>, log: Seq<nat>) -> bool {
    log.len() <= tape.len() && forall|i: int| 0 <= i < log.len() ==> tape[i] == log[i]
}

/// The integer between `low` and `high` that entry `pos` of the tape
/// stands for.
pub open spec fn drawn(tape: Seq<nat>, pos: nat, low: nat, high: nat) -> nat {
    low + entry(tape, pos) % ((high - low + 1) as nat)
}

/// The number that entry `pos` of the tape stands for as a result of the
/// power function.
pub open spec fn powered(tape: Seq<nat>, pos: nat) -> Number {
    Number::settled((entry(tape, pos) % 0x1_0000_0000_0000_0000) as u64)
}

/// A tape that begins with a tape that begins with `log` begins with `log`.
pub proof fn lemma_extends_further(tape: Seq<nat>, longer: Seq<nat>, log: Seq<nat>)
    requires
        extends(tape, longer),
        extends(longer, log),
    ensures
        extends(tape, log),
{
}

/// `gen_range` of rand on the generator of the current thread, over the
/// inclusive range from `low` to `high`: some integer of the range. It
/// panics on an empty range, which `requires` leaves out.
#[verifier::external_body]
fn random_between(low: usize, high: usize) -> (n: usize)
    requires
        low <= high,
    ensures
        low <= n <= high,
{
    rand::thread_rng().gen_range(low..=high)
}

/// Draws an integer between `low` and `high` and records the draw.
pub(crate) fn draw(low: usize, high: usize, log: &mut Ghost<Seq<nat>>) -> (n: usize)
    requires
        low <= high,
    ensures
        low <= n <= high,
        final(log)@.len() == old(log)@.len() + 1,
        extends(final(log)@, old(log)@),
        forall|tape: Seq<nat>| #[trigger]
            extends(tape, final(log)@) ==> drawn(tape, old(log)@.len(), low as nat, high as nat)
                == n,
{
    let n = random_between(low, high);
    proof {
        let taken = (n - low) as nat;
        lemma_small_mod(taken, (high - low + 1) as nat);
        *log = Ghost(log@.push(taken));
    }
    n
}

/// Raises `x` to the power `y` and records the result.
pub(crate) fn raise(x: Number, y: Number, log: &mut Ghost<Seq<nat>>) -> (r: Number)
    ensures
        final(log)@.len() == old(log)@.len() + 1,
        extends(final(log)@, old(log)@),
        forall|tape: Seq<nat>| #[trigger]
            extends(tape, final(log)@) ==> powered(tape, old(log)@.len()) == r,
{
    let r = x.to_power(y);
    proof {
        let raw = choose|raw: u64| r == Number::settled(raw);
        lemma_small_mod(raw as nat, 0x1_0000_0000_0000_0000);
        *log = Ghost(log@.push(raw as nat));
    }
    r
}

/// The first `n` draws of a roll, from entry `pos` of the tape on: integers
/// between 1 and `faces`, each as a scalar.
pub open spec fn faces_rolled(tape: Seq<nat>, pos: nat, faces: nat, n: nat) -> Seq<Value> {
    Seq::new(
        n,
        |k: int| Value::Scalar(Number::of_count(drawn(tape, (pos + k) as nat, 1, faces) as u64)),
    )
}

/// A scalar that is an integer between 1 and `faces`.
pub open spec fn face(v: Value, faces: nat) -> bool {
    exists|n: u64| 1 <= n <= faces && v == Value::Scalar(#[trigger] Number::of_count(n))
}

/// What holds of the result `v` of every roll of `a` dice on `b`: it is an
/// array of `a` items; each is an integer between 1 and `b`, where `b` is a
/// number of faces, and an item of `b`, where `b` is a pool.
pub open spec fn well_rolled(a: Value, b: Value, v: Value) -> bool {
    &&& a matches Value::Scalar(x)
    &&& v matches Value::Array(items)
    &&& items.len() == x.count()
    &&& b matches Value::Scalar(y) ==> forall|k: int|
        0 <= k < items.len() ==> face(#[trigger] items[k], y.count() as nat)
    &&& b matches Value::Array(pool) ==> forall|k: int|
        0 <= k < items.len() ==> pool.contains(#[trigger] items[k])
}

/// The first `n` picks from a pool, from entry `pos` of the tape on. An
/// item may be picked more than once.
pub open spec fn picked(tape: Seq<nat>, pos: nat, pool: Seq<Value>, n: nat) -> Seq<Value> {
    Seq::new(n, |k: int| pool[drawn(tape, (pos + k) as nat, 0, (pool.len() - 1) as nat) as int])
}

/// The dice roll. With a number of faces on the right, `a` draws between 1
/// and that number; with an array on the right, `a` picks from it. Nothing
/// is drawn where the count is zero; with a count, a die without faces and
/// an empty pool are refused. The result comes with the place on the
/// tape behind the draws.
pub open spec fn rolled(a: Value, b: Value, tape: Seq<nat>, pos: nat) -> (
    Result<Value, EvalError>,
    nat,
) {
    match (a, b) {
        (Value::Scalar(x), Value::Scalar(y)) => if x.count() == 0 {
            (Ok(Value::Array(Seq::empty())), pos)
        } else if y.count() == 0 {
            (Err(EvalError::NothingToDraw), pos)
        } else {
            (
                Ok(Value::Array(faces_rolled(tape, pos, y.count() as nat, x.count() as nat))),
                pos + x.count() as nat,
            )
        },
        (Value::Scalar(x), Value::Array(pool)) => if x.count() == 0 {
            (Ok(Value::Array(Seq::empty())), pos)
        } else if pool.len() == 0 {
            (Err(EvalError::NothingToDraw), pos)
        } else {
            (Ok(Value::Array(picked(tape, pos, pool, x.count() as nat))), pos + x.count() as nat)
        },
        _ => (Err(EvalError::TypeMismatch), pos),
    }
}

/// Rolls the dice and records the draws.
#[verifier::loop_isolation(false)]
pub(crate) fn roll(first: &EvArray, second: &EvArray, log: &mut Ghost<Seq<nat>>) -> (r: Result<
    EvArray,
    EvalError,
>)
    ensures
        extends(final(log)@, old(log)@),
        forall|tape: Seq<nat>| #[trigger]
            extends(tape, final(log)@) ==> rolled(first@, second@, tape, old(log)@.len()) == (
                outcome(r),
                final(log)@.len(),
            ),
{
    match (first, second) {
        (EvArray::F(x), EvArray::F(y)) => {
            let count: usize = x.to_count();
            let faces: usize = y.to_count();
            let mut out: Vec<EvArray> = Vec::new();
            proof {
                lemma_values_empty(out);
            }
            if count == 0 {
                return Ok(EvArray::A(out));
            }
            if faces == 0 {
                return Err(EvalError::NothingToDraw);
            }
            let mut i: usize = 0;
            while i < count
                invariant
                    i <= count,
                    out.len() == i,
                    log@.len() == old(log)@.len() + i,
                    extends(log@, old(log)@),
                    forall|tape: Seq<nat>| #[trigger]
                        extends(tape, log@) ==> values(out) == faces_rolled(
                            tape,
                            old(log)@.len(),
                            faces as nat,
                            i as nat,
                        ),
                decreases count - i,
            {
                let ghost log_before = log@;
                let ghost before = out;
                let n = draw(1, faces, log);
                let roll = EvArray::F(Number::from_count(n));
                let ghost last = roll;
                out.push(roll);
                proof {
                    lemma_values_push(before, out, last);
                    assert forall|tape: Seq<nat>| #[trigger] extends(tape, log@) implies values(out)
                        == faces_rolled(tape, old(log)@.len(), faces as nat, (i + 1) as nat) by {
                        lemma_extends_further(tape, log@, log_before);
                        assert(values(out) =~= faces_rolled(
                            tape,
                            old(log)@.len(),
                            faces as nat,
                            (i + 1) as nat,
                        ));
                    }
                }
                i += 1;
            }
            Ok(EvArray::A(out))
        },
        (EvArray::F(x), EvArray::A(pool)) => {
            let count: usize = x.to_count();
            let mut out: Vec<EvArray> = Vec::new();
            proof {
                lemma_values_empty(out);
            }
            if count == 0 {
                return Ok(EvArray::A(out));
            }
            if pool.len() == 0 {
                return Err(EvalError::NothingToDraw);
            }
            let mut i: usize = 0;
            while i < count
                invariant
                    i <= count,
                    out.len() == i,
                    log@.len() == old(log)@.len() + i,
                    extends(log@, old(log)@),
                    forall|tape: Seq<nat>| #[trigger]
                        extends(tape, log@) ==> values(out) == picked(
                            tape,
                            old(log)@.len(),
                            values(*pool),
                            i as nat,
                        ),
                decreases count - i,
            {
                let ghost log_before = log@;
                let ghost before = out;
                let n = draw(0, pool.len() - 1, log);
                let pick = pool[n].duplicate();
                let ghost last = pick;
                out.push(pick);
                proof {
                    lemma_values_push(before, out, last);
                    assert forall|tape: Seq<nat>| #[trigger] extends(tape, log@) implies values(out)
                        == picked(tape, old(log)@.len(), values(*pool), (i + 1) as nat) by {
                        lemma_extends_further(tape, log@, log_before);
                        assert(values(out) =~= picked(
                            tape,
                            old(log)@.len(),
                            values(*pool),
                            (i + 1) as nat,
                        ));
                    }
                }
                i += 1;
            }
            Ok(EvArray::A(out))
        },
        _ => Err(EvalError::TypeMismatch),
    }
}

/// The power operator on two values. It spreads as the arithmetic
/// operators do; each pair of scalars takes one result of the power
/// function from the tape. The result comes with the place on the tape
/// behind the entries that were taken.
pub open spec fn raised(a: Value, b: Value, tape: Seq<nat>, pos: nat) -> (
    Result<Value, EvalError>,
    nat,
)
    decreases a, b, 1nat, 0nat,
{
    match (a, b) {
        (Value::Scalar(_), Value::Scalar(_)) => (Ok(Value::Scalar(powered(tape, pos))), pos + 1),
        _ => if fitting(a, b) {
            match raised_items(a, b, tape, pos, span(a, b)) {
                (Ok(items), next) => (Ok(Value::Array(items)), next),
                (Err(e), next) => (Err(e), next),
            }
        } else {
            (Err(EvalError::SizeMismatch), pos)
        },
    }
}

/// The results for the first `n` item pairs of two operands of the power
/// operator of which one at least is an array.
pub open spec fn raised_items(a: Value, b: Value, tape: Seq<nat>, pos: nat, n: nat) -> (
    Result<Seq<Value>, EvalError>,
    nat,
)
    decreases a, b, 0nat, n,
{
    if n == 0 || n > span(a, b) || !fitting(a, b) || (a is Scalar && b is Scalar) {
        (Ok(Seq::empty()), pos)
    } else {
        match raised_items(a, b, tape, pos, (n - 1) as nat) {
            (Ok(before), next) => match raised(item(a, n - 1), item(b, n - 1), tape, next) {
                (Ok(v), after) => (Ok(before.push(v)), after),
                (Err(e), after) => (Err(e), after),
            },
            (Err(e), next) => (Err(e), next),
        }
    }
}

/// Once an item pair has failed, every longer run of pairs fails with the
/// same error at the same place of the tape.
pub proof fn lemma_raised_fail(a: Value, b: Value, tape: Seq<nat>, pos: nat, n: nat, m: nat)
    requires
        n <= m <= span(a, b),
        raised_items(a, b, tape, pos, n).0 is Err,
    ensures
        raised_items(a, b, tape, pos, m) == raised_items(a, b, tape, pos, n),
    decreases m,
{
    if n < m {
        lemma_raised_fail(a, b, tape, pos, n, (m - 1) as nat);
    }
}

/// The outcome of an evaluation step as the contracts state it: the value
/// by its view.
pub open spec fn outcome(r: Result<EvArray, EvalError>) -> Result<Value, EvalError> {
    match r {
        Ok(v) => Ok(v@),
        Err(e) => Err(e),
    }
}

/// Raises to the power and records the results of the power function.
#[verifier::loop_isolation(false)]
pub(crate) fn raise_values(first: &EvArray, second: &EvArray, log: &mut Ghost<Seq<nat>>) -> (r: Result<
    EvArray,
    EvalError,
>)
    ensures
        extends(final(log)@, old(log)@),
        forall|tape: Seq<nat>| #[trigger]
            extends(tape, final(log)@) ==> raised(first@, second@, tape, old(log)@.len()) == (
                outcome(r),
                final(log)@.len(),
            ),
    decreases first, second,
{
    match (first, second) {
        (EvArray::F(x), EvArray::F(y)) => Ok(EvArray::F(raise(*x, *y, log))),
        (EvArray::A(f), EvArray::A(s)) if f.len() != s.len() => Err(EvalError::SizeMismatch),
        _ => {
            let n: usize = match first {
                EvArray::A(f) => f.len(),
                EvArray::F(_) => match second {
                    EvArray::A(s) => s.len(),
                    EvArray::F(_) => 0,
                },
            };
            assert(n == span(first@, second@));
            let mut out: Vec<EvArray> = Vec::new();
            proof {
                lemma_values_empty(out);
            }
            let mut i: usize = 0;
            while i < n
                invariant
                    i <= n,
                    extends(log@, old(log)@),
                    forall|tape: Seq<nat>| #[trigger]
                        extends(tape, log@) ==> raised_items(
                            first@,
                            second@,
                            tape,
                            old(log)@.len(),
                            i as nat,
                        ) == (Ok::<Seq<Value>, EvalError>(values(out)), log@.len()),
                decreases n - i,
            {
                let left: &EvArray = match first {
                    EvArray::A(f) => &f[i],
                    EvArray::F(_) => first,
                };
                let right: &EvArray = match second {
                    EvArray::A(s) => &s[i],
                    EvArray::F(_) => second,
                };
                assert(left@ == item(first@, i as int));
                assert(right@ == item(second@, i as int));
                let ghost log_before = log@;
                let ghost before = out;
                let step = raise_values(left, right, log);
                match step {
                    Ok(v) => {
                        let ghost last = v;
                        out.push(v);
                        proof {
                            lemma_values_push(before, out, last);
                            assert forall|tape: Seq<nat>| #[trigger]
                                extends(tape, log@) implies raised_items(
                                first@,
                                second@,
                                tape,
                                old(log)@.len(),
                                (i + 1) as nat,
                            ) == (Ok::<Seq<Value>, EvalError>(values(out)), log@.len()) by {
                                lemma_extends_further(tape, log@, log_before);
                            }
                        }
                    },
                    Err(e) => {
                        proof {
                            assert forall|tape: Seq<nat>| #[trigger]
                                extends(tape, log@) implies raised(
                                first@,
                                second@,
                                tape,
                                old(log)@.len(),
                            ) == (Err::<Value, EvalError>(e), log@.len()) by {
                                lemma_extends_further(tape, log@, log_before);
                                lemma_raised_fail(
                                    first@,
                                    second@,
                                    tape,
                                    old(log)@.len(),
                                    (i + 1) as nat,
                                    n as nat,
                                );
                            }
                        }
                        return Err(e);
                    },
                }
                i += 1;
            }
            Ok(EvArray::A(out))
        },
    }
}

/// `d`: the dice roll. The draws are random: the result is what the roll
/// gives for the draws that were made, one entry of the tape for each. In
/// a roll with faces, every item of the result is an integer between 1 and
/// the number of faces; in a roll on a pool, every item is an item of the
/// pool.
pub fn dice_op(first: EvArray, second: EvArray) -> (r: Result<EvArray, EvalError>)
    ensures
        exists|tape: Seq<nat>| rolled(first@, second@, tape, 0) == (outcome(r), tape.len()),
        r matches Ok(v) ==> well_rolled(first@, second@, v@),
{
    let mut log: Ghost<Seq<nat>> = Ghost(Seq::empty());
    let r = roll(&first, &second, &mut log);
    assert(extends(log@, log@));
    proof {
        crate::laws::law_roll_within_bounds(first@, second@, log@, 0);
    }
    r
}

/// `^`: the power operator. The power function is only as precise as the
/// platform makes it: the result is what the operator gives for the
/// results of the power function that were taken, one entry of the tape
/// for each pair of scalars.
pub fn power_op(first: EvArray, second: EvArray) -> (r: Result<EvArray, EvalError>)
    ensures
        exists|tape: Seq<nat>| raised(first@, second@, tape, 0) == (outcome(r), tape.len()),
{
    let mut log: Ghost<Seq<nat>> = Ghost(Seq::empty());
    let r = raise_values(&first, &second, &mut log);
    assert(extends(log@, log@));
    r
}

} // verus!
