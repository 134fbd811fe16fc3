//! What holds of the language as a whole.
use crate::chance::{
    drawn, entry, face, faces_rolled, picked, raised, raised_items, rolled, well_rolled,
};
use crate::evaluator::{
    altered, applied, eval, evaluated, executed, iterated, multiplied, ran, repeated, Progress,
};
use crate::lexer::{
    code_number, keyword, lexed, literal, name_end, number_end, quoted, single, spelled_out,
    uppercase,
};
use crate::number::{lemma_exact_round_trip, Number};
use crate::ops::{
    equal, flattened, in_order, inserted, leaves, leaves_of, lemma_inserted_at, sorted, spread,
    spread_items, total,
};
use crate::evaluator::looped;
use crate::parser::{
    block, closes, grouped, into_slot, listed, operand, operand_token, slot, takes_block,
    with_block, with_slot, ExprView, StmtView, TokenView,
};
use crate::value::{alike, code_point, letter, letters, numeric, spelled, EvalError, Value};
use vstd::arithmetic::div_mod::lemma_mod_bound;
use vstd::prelude::*;

verus! {

/// Whatever is drawn, a roll of dice is an array of as many items as there
/// are dice. On a number of faces each item is an integer between 1 and
/// that number; on a pool each item is an item of the pool.
pub proof fn law_roll_within_bounds(a: Value, b: Value, tape: Seq<nat>, pos: nat)
    ensures
        rolled(a, b, tape, pos).0 matches Ok(v) ==> well_rolled(a, b, v),
{
    if let Value::Scalar(x) = a {
        if x.count() != 0 {
            match b {
                Value::Scalar(y) => {
                    if y.count() != 0 {
                        let faces = y.count() as nat;
                        let items = faces_rolled(tape, pos, faces, x.count() as nat);
                        assert forall|k: int| 0 <= k < items.len() implies face(
                            #[trigger] items[k],
                            faces,
                        ) by {
                            let n = drawn(tape, (pos + k) as nat, 1, faces);
                            lemma_mod_bound(entry(tape, (pos + k) as nat) as int, faces as int);
                            assert(1 <= n <= faces);
                            assert(items[k] == Value::Scalar(Number::of_count(n as u64)));
                        }
                    }
                },
                Value::Array(pool) => {
                    if pool.len() != 0 {
                        let items = picked(tape, pos, pool, x.count() as nat);
                        assert forall|k: int| 0 <= k < items.len() implies pool.contains(
                            #[trigger] items[k],
                        ) by {
                            let n = drawn(tape, (pos + k) as nat, 0, (pool.len() - 1) as nat);
                            lemma_mod_bound(
                                entry(tape, (pos + k) as nat) as int,
                                pool.len() as int,
                            );
                            assert(items[k] == pool[n as int]);
                        }
                    }
                },
            }
        }
    }
}

/// A value that holds no NaN equals itself. (A NaN equals nothing, itself
/// included, and so does every array that holds one.)
pub proof fn law_equal_to_itself(a: Value)
    requires
        numeric(a),
    ensures
        alike(a, a),
        equal(a, a) == Value::Scalar(Number::unit()),
    decreases a,
{
    match a {
        Value::Scalar(_) => {},
        Value::Array(items) => {
            assert forall|i: int| 0 <= i < items.len() implies alike(items[i], #[trigger] items[i]) by {
                law_equal_to_itself(items[i]);
            }
        },
    }
}

/// Equality does not depend on the side a value stands on.
pub proof fn law_equality_is_symmetric(a: Value, b: Value)
    ensures
        alike(a, b) == alike(b, a),
    decreases a,
{
    match (a, b) {
        (Value::Array(f), Value::Array(s)) => {
            if f.len() == s.len() {
                assert forall|i: int| 0 <= i < f.len() implies alike(f[i], s[i]) == alike(
                    s[i],
                    f[i],
                ) by {
                    law_equality_is_symmetric(f[i], s[i]);
                }
            }
        },
        _ => {},
    }
}

/// Only scalars are left of a value once it is flattened.
pub proof fn law_leaves_are_scalars(a: Value)
    ensures
        forall|i: int| 0 <= i < leaves(a).len() ==> #[trigger] leaves(a)[i] is Scalar,
    decreases a, 1nat, 0nat,
{
    if let Value::Array(items) = a {
        lemma_leaves_of_are_scalars(items, items.len());
    }
}

proof fn lemma_leaves_of_are_scalars(items: Seq<Value>, n: nat)
    ensures
        forall|i: int| 0 <= i < leaves_of(items, n).len() ==> #[trigger] leaves_of(items, n)[i]
            is Scalar,
    decreases items, 0nat, n,
{
    if n == 0 || n > items.len() {
    } else {
        lemma_leaves_of_are_scalars(items, (n - 1) as nat);
        law_leaves_are_scalars(items[n - 1]);
    }
}

/// The scalars of a row of scalars are the row.
proof fn lemma_leaves_of_scalars(items: Seq<Value>, n: nat)
    requires
        n <= items.len(),
        forall|i: int| 0 <= i < items.len() ==> #[trigger] items[i] is Scalar,
    ensures
        leaves_of(items, n) == items.take(n as int),
    decreases n,
{
    if n == 0 {
        assert(leaves_of(items, n) =~= items.take(n as int));
    } else {
        lemma_leaves_of_scalars(items, (n - 1) as nat);
        assert(items[n - 1] is Scalar);
        assert(leaves(items[n - 1]) == seq![items[n - 1]]);
        assert(items.take(n - 1) + seq![items[n - 1]] =~= items.take(n as int));
    }
}

/// A flattened value has no nesting left: to flatten it once more changes
/// nothing.
pub proof fn law_flattened_is_flat(a: Value)
    ensures
        flattened(flattened(a)) == flattened(a),
{
    if let Value::Array(_) = a {
        let flat = leaves(a);
        law_leaves_are_scalars(a);
        lemma_leaves_of_scalars(flat, flat.len());
        assert(flat.take(flat.len() as int) =~= flat);
    }
}

/// The array of the numbers of some code points.
pub open spec fn code_array(codes: Seq<u32>) -> Seq<Value> {
    Seq::new(codes.len(), |i: int| Value::Scalar(Number::of_count(codes[i] as u64)))
}

/// The array of the code points of a text.
pub open spec fn encoded(text: Seq<char>) -> Seq<Value> {
    Seq::new(text.len(), |i: int| Value::Scalar(code_number(text[i])))
}

/// The first `n` code points of an array of code points are written as the
/// characters that have these codes.
proof fn lemma_letters_of_codes(codes: Seq<u32>, n: nat)
    requires
        n <= codes.len(),
        forall|i: int| 0 <= i < codes.len() ==> code_point(#[trigger] codes[i]),
    ensures
        letters(code_array(codes), n) == Ok::<Seq<char>, EvalError>(
            Seq::new(n, |i: int| codes[i] as char),
        ),
    decreases n,
{
    if n == 0 {
        assert(Seq::new(n, |i: int| codes[i] as char) =~= Seq::<char>::empty());
    } else {
        lemma_letters_of_codes(codes, (n - 1) as nat);
        let c = codes[n - 1];
        assert(code_point(c));
        lemma_exact_round_trip(c as u64);
        assert(code_array(codes)[n - 1] == Value::Scalar(Number::of_count(c as u64)));
        assert(Number::of_count(c as u64).code() == c);
        assert(0u64 & 0x7fff_ffff_ffff_ffff == 0) by (bit_vector);
        assert(!Number::of_count(c as u64).below(Number::nought()));
        assert(letter(code_array(codes)[n - 1]) == Ok::<char, EvalError>(c as char));
        assert(Seq::new((n - 1) as nat, |i: int| codes[i] as char).push(c as char) =~= Seq::new(
            n,
            |i: int| codes[i] as char,
        ));
    }
}

/// An array of code points, written as text and read back character by
/// character, is the array it was.
pub proof fn law_text_round_trip(codes: Seq<u32>)
    requires
        forall|i: int| 0 <= i < codes.len() ==> code_point(#[trigger] codes[i]),
    ensures
        spelled(Value::Array(code_array(codes))) matches Ok(text) && encoded(text) == code_array(
            codes,
        ),
{
    lemma_letters_of_codes(codes, codes.len());
    let text = Seq::new(codes.len(), |i: int| codes[i] as char);
    assert forall|i: int| 0 <= i < codes.len() implies #[trigger] encoded(text)[i] == code_array(
        codes,
    )[i] by {
        assert(code_point(codes[i]));
        assert((codes[i] as char) as u64 == codes[i] as u64);
    }
    assert(encoded(text) =~= code_array(codes));
}

/// No `while` loop stands in the statement or in its blocks.
pub open spec fn loop_free(s: StmtView) -> bool
    decreases s,
{
    match s {
        StmtView::While(_, _) => false,
        StmtView::Condition(_, first, second) => (first matches Some(b) ==> forall|i: int|
            0 <= i < b.len() ==> loop_free(#[trigger] b[i])) && (second matches Some(b)
            ==> forall|i: int| 0 <= i < b.len() ==> loop_free(#[trigger] b[i])),
        StmtView::For(_, _, body) => body matches Some(b) ==> forall|i: int|
            0 <= i < b.len() ==> loop_free(#[trigger] b[i]),
        _ => true,
    }
}

/// No `while` loop stands in the block.
pub open spec fn all_loop_free(stmts: Seq<StmtView>) -> bool {
    forall|i: int| 0 <= i < stmts.len() ==> loop_free(#[trigger] stmts[i])
}

/// The run has not ended for want of steps.
pub open spec fn within_limit(p: Progress) -> bool {
    p.fault != Some(EvalError::StepLimit)
}

proof fn lemma_spread_within(op: char, a: Value, b: Value)
    ensures
        spread(op, a, b) != Err::<Value, EvalError>(EvalError::StepLimit),
        spread(op, a, b) != Err::<Value, EvalError>(EvalError::Unfinished),
    decreases a, b, 1nat, 0nat,
{
    if !(a is Scalar && b is Scalar) {
        lemma_spread_items_within(op, a, b, crate::ops::span(a, b));
    }
}

proof fn lemma_spread_items_within(op: char, a: Value, b: Value, n: nat)
    ensures
        spread_items(op, a, b, n) != Err::<Seq<Value>, EvalError>(EvalError::StepLimit),
        spread_items(op, a, b, n) != Err::<Seq<Value>, EvalError>(EvalError::Unfinished),
    decreases a, b, 0nat, n,
{
    if n == 0 || n > crate::ops::span(a, b) || !crate::ops::fitting(a, b) || (a is Scalar
        && b is Scalar) {
    } else {
        lemma_spread_items_within(op, a, b, (n - 1) as nat);
        lemma_spread_within(op, crate::ops::item(a, n - 1), crate::ops::item(b, n - 1));
    }
}

proof fn lemma_raised_within(a: Value, b: Value, tape: Seq<nat>, pos: nat)
    ensures
        raised(a, b, tape, pos).0 != Err::<Value, EvalError>(EvalError::StepLimit),
        raised(a, b, tape, pos).0 != Err::<Value, EvalError>(EvalError::Unfinished),
    decreases a, b, 1nat, 0nat,
{
    if !(a is Scalar && b is Scalar) {
        lemma_raised_items_within(a, b, tape, pos, crate::ops::span(a, b));
    }
}

proof fn lemma_raised_items_within(a: Value, b: Value, tape: Seq<nat>, pos: nat, n: nat)
    ensures
        raised_items(a, b, tape, pos, n).0 != Err::<Seq<Value>, EvalError>(EvalError::StepLimit),
        raised_items(a, b, tape, pos, n).0 != Err::<Seq<Value>, EvalError>(EvalError::Unfinished),
    decreases a, b, 0nat, n,
{
    if n == 0 || n > crate::ops::span(a, b) || !crate::ops::fitting(a, b) || (a is Scalar
        && b is Scalar) {
    } else {
        lemma_raised_items_within(a, b, tape, pos, (n - 1) as nat);
        let next = raised_items(a, b, tape, pos, (n - 1) as nat).1;
        lemma_raised_within(crate::ops::item(a, n - 1), crate::ops::item(b, n - 1), tape, next);
    }
}

proof fn lemma_total_within(items: Seq<Value>, n: nat)
    ensures
        total(items, n) != Err::<Number, EvalError>(EvalError::StepLimit),
        total(items, n) != Err::<Number, EvalError>(EvalError::Unfinished),
    decreases n,
{
    if n == 0 || n > items.len() {
    } else {
        lemma_total_within(items, (n - 1) as nat);
    }
}

proof fn lemma_letters_within(items: Seq<Value>, n: nat)
    ensures
        letters(items, n) != Err::<Seq<char>, EvalError>(EvalError::StepLimit),
        letters(items, n) != Err::<Seq<char>, EvalError>(EvalError::Unfinished),
    decreases n,
{
    if n > 0 {
        lemma_letters_within(items, (n - 1) as nat);
    }
}

proof fn lemma_applied_within(op: char, a: Value, b: Value, tape: Seq<nat>, pos: nat)
    ensures
        applied(op, a, b, tape, pos).0 != Err::<Value, EvalError>(EvalError::StepLimit),
        applied(op, a, b, tape, pos).0 != Err::<Value, EvalError>(EvalError::Unfinished),
{
    lemma_spread_within(op, a, b);
    lemma_raised_within(a, b, tape, pos);
}

proof fn lemma_altered_within(op: char, a: Value)
    ensures
        altered(op, a) != Err::<Value, EvalError>(EvalError::StepLimit),
        altered(op, a) != Err::<Value, EvalError>(EvalError::Unfinished),
{
    if let Value::Array(items) = a {
        lemma_total_within(items, items.len());
    }
}

proof fn lemma_eval_within(e: ExprView, env: Map<Seq<char>, Value>, tape: Seq<nat>, pos: nat)
    ensures
        eval(e, env, tape, pos).0 != Err::<Value, EvalError>(EvalError::StepLimit),
    decreases e, 0nat, 0nat,
{
    match e {
        ExprView::Array(items) => {
            lemma_evaluated_within(items, env, tape, pos, items.len());
        },
        ExprView::Operation(first, op, second) => {
            lemma_eval_within(*first, env, tape, pos);
            let (a, next) = eval(*first, env, tape, pos);
            if let Ok(a) = a {
                if op == 'x' {
                    lemma_multiplied_within(a, *second, env, tape, next);
                } else {
                    lemma_altered_within(op, a);
                    lemma_eval_within(*second, env, tape, next);
                    let (b, after) = eval(*second, env, tape, next);
                    if let Ok(b) = b {
                        lemma_applied_within(op, a, b, tape, after);
                    }
                }
            }
        },
        ExprView::Call(name, args) => {
            lemma_evaluated_within(args, env, tape, pos, args.len());
        },
        _ => {},
    }
}

proof fn lemma_evaluated_within(
    items: Seq<ExprView>,
    env: Map<Seq<char>, Value>,
    tape: Seq<nat>,
    pos: nat,
    n: nat,
)
    ensures
        evaluated(items, env, tape, pos, n).0 != Err::<Seq<Value>, EvalError>(
            EvalError::StepLimit,
        ),
    decreases items, 0nat, n,
{
    if n == 0 || n > items.len() {
    } else {
        lemma_evaluated_within(items, env, tape, pos, (n - 1) as nat);
        let next = evaluated(items, env, tape, pos, (n - 1) as nat).1;
        lemma_eval_within(items[n - 1], env, tape, next);
    }
}

proof fn lemma_repeated_within(
    e: ExprView,
    env: Map<Seq<char>, Value>,
    tape: Seq<nat>,
    pos: nat,
    n: nat,
)
    ensures
        repeated(e, env, tape, pos, n).0 != Err::<Seq<Value>, EvalError>(EvalError::StepLimit),
    decreases e, 1nat, n,
{
    if n > 0 {
        lemma_repeated_within(e, env, tape, pos, (n - 1) as nat);
        let next = repeated(e, env, tape, pos, (n - 1) as nat).1;
        lemma_eval_within(e, env, tape, next);
    }
}

proof fn lemma_multiplied_within(
    a: Value,
    e: ExprView,
    env: Map<Seq<char>, Value>,
    tape: Seq<nat>,
    pos: nat,
)
    ensures
        multiplied(a, e, env, tape, pos).0 != Err::<Value, EvalError>(EvalError::StepLimit),
    decreases e, 2nat, 0nat,
{
    match a {
        Value::Scalar(x) => lemma_repeated_within(e, env, tape, pos, x.count() as nat),
        Value::Array(_) => lemma_eval_within(e, env, tape, pos),
    }
}

/// A statement without a `while` loop uses no fuel and does not end the
/// run for want of steps.
proof fn lemma_executed_within(s: StmtView, p: Progress, tape: Seq<nat>)
    requires
        loop_free(s),
        within_limit(p),
    ensures
        within_limit(executed(s, p, tape)),
        executed(s, p, tape).fuel == p.fuel,
    decreases p.fuel, s, 0nat, 0nat,
{
    match s {
        StmtView::Bind(_, e) => lemma_eval_within(e, p.env, tape, p.pos),
        StmtView::Out(e) => lemma_eval_within(e, p.env, tape, p.pos),
        StmtView::StringOut(e) => {
            lemma_eval_within(e, p.env, tape, p.pos);
            if let (Ok(Value::Array(items)), _) = eval(e, p.env, tape, p.pos) {
                lemma_letters_within(items, items.len());
            }
        },
        StmtView::Condition(test, Some(first), second) => {
            lemma_eval_within(test, p.env, tape, p.pos);
            if let (Ok(v), pos) = eval(test, p.env, tape, p.pos) {
                lemma_ran_within(first, 0, Progress { pos, ..p }, tape);
                if let Some(other) = second {
                    lemma_ran_within(other, 0, Progress { pos, ..p }, tape);
                }
            }
        },
        StmtView::For(Some(name), source, Some(body)) => {
            lemma_eval_within(source, p.env, tape, p.pos);
            match eval(source, p.env, tape, p.pos) {
                (Ok(Value::Scalar(x)), pos) => lemma_ran_within(
                    body,
                    0,
                    Progress { env: p.env.insert(name, Value::Scalar(x)), pos, ..p },
                    tape,
                ),
                (Ok(Value::Array(items)), pos) => lemma_iterated_within(
                    name,
                    items,
                    0,
                    body,
                    Progress { pos, ..p },
                    tape,
                ),
                _ => {},
            }
        },
        _ => {},
    }
}

proof fn lemma_ran_within(stmts: Seq<StmtView>, k: nat, p: Progress, tape: Seq<nat>)
    requires
        all_loop_free(stmts),
        within_limit(p),
    ensures
        within_limit(ran(stmts, k, p, tape)),
        ran(stmts, k, p, tape).fuel == p.fuel,
    decreases p.fuel, stmts, 0nat, stmts.len() - k,
{
    if p.fault is Some || k >= stmts.len() {
    } else {
        lemma_executed_within(stmts[k as int], p, tape);
        lemma_ran_within(stmts, k + 1, executed(stmts[k as int], p, tape), tape);
    }
}

proof fn lemma_iterated_within(
    name: Seq<char>,
    items: Seq<Value>,
    k: nat,
    body: Seq<StmtView>,
    p: Progress,
    tape: Seq<nat>,
)
    requires
        all_loop_free(body),
        within_limit(p),
    ensures
        within_limit(iterated(name, items, k, body, p, tape)),
        iterated(name, items, k, body, p, tape).fuel == p.fuel,
    decreases p.fuel, body, 1nat, items.len() - k,
{
    if p.fault is Some || k >= items.len() {
    } else {
        let q = ran(body, 0, Progress { env: p.env.insert(name, items[k as int]), ..p }, tape);
        lemma_ran_within(body, 0, Progress { env: p.env.insert(name, items[k as int]), ..p }, tape);
        lemma_iterated_within(name, items, k + 1, body, q, tape);
    }
}

/// A program without a `while` loop runs to its end whatever the limit
/// on the steps is, and be it zero: it uses no step, and its run does not
/// end with `StepLimit`.
pub proof fn law_no_loop_no_limit(stmts: Seq<StmtView>, p: Progress, tape: Seq<nat>)
    requires
        all_loop_free(stmts),
        p.fault is None,
    ensures
        ran(stmts, 0, p, tape).fault != Some(EvalError::StepLimit),
        ran(stmts, 0, p, tape).fuel == p.fuel,
{
    lemma_ran_within(stmts, 0, p, tape);
}

/// Where a number goes in a sorted row: behind the last number that may
/// stand before it.
pub open spec fn place_of(row: Seq<Number>, x: Number, descending: bool) -> nat
    decreases row.len(),
{
    if row.len() == 0 {
        0
    } else if in_order(row.last(), x, descending) {
        row.len()
    } else {
        place_of(row.drop_last(), x, descending)
    }
}

proof fn lemma_place_of(row: Seq<Number>, x: Number, descending: bool)
    ensures
        place_of(row, x, descending) <= row.len(),
        place_of(row, x, descending) > 0 ==> in_order(
            row[place_of(row, x, descending) - 1],
            x,
            descending,
        ),
        forall|k: int|
            place_of(row, x, descending) <= k < row.len() ==> !in_order(
                #[trigger] row[k],
                x,
                descending,
            ),
        inserted(row, x, descending) == row.insert(place_of(row, x, descending) as int, x),
    decreases row.len(),
{
    let j = place_of(row, x, descending);
    if row.len() > 0 && !in_order(row.last(), x, descending) {
        let front = row.drop_last();
        lemma_place_of(front, x, descending);
        assert forall|k: int| j <= k < row.len() implies !in_order(
            #[trigger] row[k],
            x,
            descending,
        ) by {
            if k < front.len() {
                assert(front[k] == row[k]);
            }
        }
        if j > 0 {
            assert(front[j - 1] == row[j - 1]);
        }
    }
    lemma_inserted_at(row, x, descending, j as int);
}

/// Each number of the row may stand before every number behind it.
pub open spec fn in_sequence(row: Seq<Number>, descending: bool) -> bool {
    forall|i: int, j: int| 0 <= i < j < row.len() ==> in_order(row[i], row[j], descending)
}

proof fn lemma_inserted_in_sequence(row: Seq<Number>, x: Number, descending: bool)
    requires
        in_sequence(row, descending),
    ensures
        in_sequence(inserted(row, x, descending), descending),
{
    lemma_place_of(row, x, descending);
    let p = place_of(row, x, descending) as int;
    let after = row.insert(p, x);
    assert forall|i: int, j: int| 0 <= i < j < after.len() implies in_order(
        after[i],
        after[j],
        descending,
    ) by {
        if j < p {
            assert(after[i] == row[i] && after[j] == row[j]);
        } else if j == p {
            assert(after[i] == row[i]);
            if i < p - 1 {
                assert(in_order(row[i], row[p - 1], descending));
            }
        } else if i < p {
            assert(after[i] == row[i] && after[j] == row[j - 1]);
        } else if i == p {
            assert(after[j] == row[j - 1]);
            assert(!in_order(row[j - 1], x, descending));
        } else {
            assert(after[i] == row[i - 1] && after[j] == row[j - 1]);
        }
    }
}

/// What the keep operators sort is in order afterwards: ascending for the
/// lowest, descending for the highest.
pub proof fn law_sorted_in_sequence(s: Seq<Number>, n: nat, descending: bool)
    requires
        n <= s.len(),
    ensures
        in_sequence(sorted(s, n, descending), descending),
    decreases n,
{
    if n > 0 {
        law_sorted_in_sequence(s, (n - 1) as nat, descending);
        lemma_inserted_in_sequence(sorted(s, (n - 1) as nat, descending), s[n - 1], descending);
    }
}

/// Sorting neither loses a number nor adds one.
pub proof fn law_sorted_same_numbers(s: Seq<Number>, n: nat, descending: bool)
    requires
        n <= s.len(),
    ensures
        sorted(s, n, descending).to_multiset() == s.take(n as int).to_multiset(),
    decreases n,
{
    if n == 0 {
        assert(sorted(s, n, descending) =~= s.take(n as int));
    } else {
        law_sorted_same_numbers(s, (n - 1) as nat, descending);
        let before = sorted(s, (n - 1) as nat, descending);
        lemma_place_of(before, s[n - 1], descending);
        vstd::seq_lib::to_multiset_insert(
            before,
            place_of(before, s[n - 1], descending) as int,
            s[n - 1],
        );
        vstd::seq_lib::to_multiset_build(s.take(n - 1), s[n - 1]);
        assert(s.take(n - 1).push(s[n - 1]) =~= s.take(n as int));
    }
}

/// No token of the list is the empty token.
pub open spec fn all_tokens(list: Seq<TokenView>) -> bool {
    forall|i: int| 0 <= i < list.len() ==> !(#[trigger] list[i] is Empty)
}

proof fn lemma_spelled_out_tokens(text: Seq<char>, n: nat)
    ensures
        all_tokens(spelled_out(text, n)),
    decreases n,
{
    if n > 1 && n <= text.len() {
        lemma_spelled_out_tokens(text, (n - 1) as nat);
    }
}

/// The lexer hands out no empty token.
pub proof fn law_no_empty_token(s: Seq<char>, i: nat, found: Seq<TokenView>)
    requires
        all_tokens(found),
    ensures
        lexed(s, i, found) matches Ok(list) ==> all_tokens(list),
    decreases s.len() - i,
{
    if i < s.len() {
        let c = s[i as int];
        if crate::lexer::numeric(c) {
            let j = number_end(s, i + 1);
            if i < j <= s.len() {
                if let Some(n) = Number::parsed(s.subrange(i as int, j as int)) {
                    law_no_empty_token(s, j, found.push(TokenView::Number(n)));
                }
            }
        } else if c == '"' {
            let (text, j) = quoted(s, i + 1, Seq::empty());
            if i < j <= s.len() {
                lemma_spelled_out_tokens(text, text.len());
                law_no_empty_token(s, j, found + literal(text));
            }
        } else {
            match keyword(s, i) {
                Some((word, n)) => law_no_empty_token(
                    s,
                    i + n,
                    found.push(TokenView::Control(word)),
                ),
                None => match single(c) {
                    Some(token) => law_no_empty_token(s, i + 1, found.push(token)),
                    None => if uppercase(c) {
                        let j = name_end(s, i + 1);
                        if i < j <= s.len() {
                            law_no_empty_token(
                                s,
                                j,
                                found.push(TokenView::Variable(s.subrange(i as int, j as int))),
                            );
                        }
                    } else {
                        law_no_empty_token(s, i + 1, found);
                    },
                },
            }
        }
    }
}

/// A run of digits, a run of letters and a quoted text end behind their
/// beginning and within the text.
pub proof fn law_runs_end_within(s: Seq<char>, i: nat, text: Seq<char>)
    requires
        i <= s.len(),
    ensures
        i <= number_end(s, i) <= s.len(),
        i <= name_end(s, i) <= s.len(),
        i <= quoted(s, i, text).1 <= s.len(),
    decreases s.len() - i,
{
    if i < s.len() {
        law_runs_end_within(s, i + 1, text);
        law_runs_end_within(s, i + 1, text.push(s[i as int]));
        if i + 1 < s.len() {
            law_runs_end_within(s, i + 2, text.push(s[i + 1 as int]));
        }
    }
}

/// An operand or an operator takes at least one token, and no token from
/// behind the end.
pub proof fn law_operand_advances(t: Seq<TokenView>, i: nat, cur: ExprView)
    ensures
        operand(t, i, cur) matches Ok((_, j)) ==> i < j <= t.len(),
    decreases t.len() - i, 0nat,
{
    if i < t.len() {
        match t[i as int] {
            TokenView::Variable(_) => {
                if i + 1 < t.len() && t[i + 1 as int] is LParen {
                    law_listed_ends_at_its_closer(t, i + 2, true, Seq::empty(), ExprView::Empty);
                }
            },
            TokenView::LParen => {
                law_grouped_ends_at_its_closer(t, i + 1, ExprView::Empty);
            },
            TokenView::LBracket => {
                law_listed_ends_at_its_closer(t, i + 1, false, Seq::empty(), ExprView::Empty);
            },
            _ => {},
        }
    }
}

/// A parenthesised expression ends at a `)`.
pub proof fn law_grouped_ends_at_its_closer(t: Seq<TokenView>, i: nat, cur: ExprView)
    ensures
        grouped(t, i, cur) matches Ok((_, j)) ==> i <= j < t.len() && t[j as int] is RParen,
    decreases t.len() - i, 1nat,
{
    if i < t.len() && !(t[i as int] is RParen) && operand_token(t[i as int]) {
        law_operand_advances(t, i, cur);
        if let Ok((e, j)) = operand(t, i, cur) {
            law_grouped_ends_at_its_closer(t, j, e);
        }
    }
}

/// A list ends at the token that closes it.
pub proof fn law_listed_ends_at_its_closer(
    t: Seq<TokenView>,
    i: nat,
    call: bool,
    items: Seq<ExprView>,
    cur: ExprView,
)
    ensures
        listed(t, i, call, items, cur) matches Ok((_, j)) ==> i <= j < t.len() && closes(
            t[j as int],
            call,
        ),
    decreases t.len() - i, 1nat,
{
    if i < t.len() && !closes(t[i as int], call) {
        if t[i as int] is Comma {
            if !(cur is Empty) {
                law_listed_ends_at_its_closer(t, i + 1, call, items.push(cur), ExprView::Empty);
            }
        } else if operand_token(t[i as int]) {
            law_operand_advances(t, i, cur);
            if let Ok((e, j)) = operand(t, i, cur) {
                law_listed_ends_at_its_closer(t, j, call, items, e);
            }
        }
    }
}

/// Where a block ends: a nested one at a `}`, the outermost one with the
/// tokens.
pub open spec fn block_end(t: Seq<TokenView>, i: nat, nested: bool, j: nat) -> bool {
    if nested {
        i <= j < t.len() && t[j as int] is RBraces
    } else if i <= t.len() {
        j == t.len()
    } else {
        j == i
    }
}

/// A nested block ends at a `}`, and the outermost block takes every token.
pub proof fn law_block_ends(
    t: Seq<TokenView>,
    i: nat,
    nested: bool,
    out: Seq<StmtView>,
    cur: StmtView,
)
    ensures
        block(t, i, nested, out, cur) matches Ok((_, j)) ==> block_end(t, i, nested, j),
    decreases t.len() - i, 1nat,
{
    if i < t.len() {
        match t[i as int] {
            TokenView::Output => law_block_ends(
                t,
                i + 1,
                nested,
                crate::parser::finished(out, cur),
                StmtView::Out(ExprView::Empty),
            ),
            TokenView::StringOutput => law_block_ends(
                t,
                i + 1,
                nested,
                crate::parser::finished(out, cur),
                StmtView::StringOut(ExprView::Empty),
            ),
            TokenView::Control(crate::parser::Control::If) => law_block_ends(
                t,
                i + 1,
                nested,
                crate::parser::finished(out, cur),
                StmtView::Condition(ExprView::Empty, None, None),
            ),
            TokenView::Control(crate::parser::Control::While) => law_block_ends(
                t,
                i + 1,
                nested,
                crate::parser::finished(out, cur),
                StmtView::While(ExprView::Empty, None),
            ),
            TokenView::Control(crate::parser::Control::For) => law_block_ends(
                t,
                i + 1,
                nested,
                crate::parser::finished(out, cur),
                StmtView::For(None, ExprView::Empty, None),
            ),
            TokenView::Control(crate::parser::Control::Else) => law_block_ends(
                t,
                i + 1,
                nested,
                out,
                cur,
            ),
            TokenView::LBraces => {
                if takes_block(cur) {
                    law_block_ends(t, i + 1, true, Seq::empty(), StmtView::Empty);
                    if let Ok((body, j)) = block(t, i + 1, true, Seq::empty(), StmtView::Empty) {
                        law_block_ends(t, j + 1, nested, out, with_block(cur, body));
                    }
                }
            },
            TokenView::Variable(name) => {
                law_block_ends(t, i + 1, nested, out, StmtView::Bind(name, ExprView::Empty));
                law_block_ends(
                    t,
                    i + 1,
                    nested,
                    out,
                    StmtView::For(Some(name), ExprView::Empty, None),
                );
                law_block_ends(
                    t,
                    i + 1,
                    nested,
                    out.push(cur),
                    StmtView::Bind(name, ExprView::Empty),
                );
                law_into_slot_ends(t, i, nested, out, cur);
            },
            TokenView::Operator(_) => {
                law_block_ends(t, i + 1, nested, out, cur);
                law_into_slot_ends(t, i, nested, out, cur);
            },
            TokenView::Number(_) => law_into_slot_ends(t, i, nested, out, cur),
            TokenView::LParen => law_into_slot_ends(t, i, nested, out, cur),
            TokenView::LBracket => law_into_slot_ends(t, i, nested, out, cur),
            _ => {},
        }
    }
}

/// The same, where the next token goes into an expression.
pub proof fn law_into_slot_ends(
    t: Seq<TokenView>,
    i: nat,
    nested: bool,
    out: Seq<StmtView>,
    cur: StmtView,
)
    requires
        i < t.len(),
    ensures
        into_slot(t, i, nested, out, cur) matches Ok((_, j)) ==> block_end(t, i, nested, j),
    decreases t.len() - i, 0nat,
{
    if let Some(e) = slot(cur) {
        law_operand_advances(t, i, e);
        if let Ok((e2, j)) = operand(t, i, e) {
            law_block_ends(t, j, nested, out, with_slot(cur, e2));
        }
    }
}

/// No statement gives fuel back.
pub proof fn law_fuel_never_grows(s: StmtView, p: Progress, tape: Seq<nat>)
    ensures
        executed(s, p, tape).fuel <= p.fuel,
    decreases p.fuel, s, 0nat, 0nat,
{
    match s {
        StmtView::Condition(test, Some(first), second) => {
            if let (Ok(v), pos) = eval(test, p.env, tape, p.pos) {
                lemma_ran_fuel(first, 0, Progress { pos, ..p }, tape);
                if let Some(other) = second {
                    lemma_ran_fuel(other, 0, Progress { pos, ..p }, tape);
                }
            }
        },
        StmtView::While(test, Some(body)) => lemma_looped_fuel(test, body, p, tape),
        StmtView::For(Some(name), source, Some(body)) => {
            match eval(source, p.env, tape, p.pos) {
                (Ok(Value::Scalar(x)), pos) => lemma_ran_fuel(
                    body,
                    0,
                    Progress { env: p.env.insert(name, Value::Scalar(x)), pos, ..p },
                    tape,
                ),
                (Ok(Value::Array(items)), pos) => lemma_iterated_fuel(
                    name,
                    items,
                    0,
                    body,
                    Progress { pos, ..p },
                    tape,
                ),
                _ => {},
            }
        },
        _ => {},
    }
}

proof fn lemma_ran_fuel(stmts: Seq<StmtView>, k: nat, p: Progress, tape: Seq<nat>)
    ensures
        ran(stmts, k, p, tape).fuel <= p.fuel,
    decreases p.fuel, stmts, 0nat, stmts.len() - k,
{
    if p.fault is Some || k >= stmts.len() {
    } else {
        law_fuel_never_grows(stmts[k as int], p, tape);
        lemma_ran_fuel(stmts, k + 1, executed(stmts[k as int], p, tape), tape);
    }
}

proof fn lemma_looped_fuel(test: ExprView, body: Seq<StmtView>, p: Progress, tape: Seq<nat>)
    ensures
        looped(test, body, p, tape).fuel <= p.fuel,
    decreases p.fuel, body, 1nat, 0nat,
{
    if let (Ok(v), pos) = eval(test, p.env, tape, p.pos) {
        if crate::value::truthy(v) && p.fuel > 0 {
            let start = Progress { pos, fuel: (p.fuel - 1) as nat, ..p };
            lemma_ran_fuel(body, 0, start, tape);
            let q = ran(body, 0, start, tape);
            if !(q.fault is Some) {
                lemma_looped_fuel(test, body, q, tape);
            }
        }
    }
}

proof fn lemma_iterated_fuel(
    name: Seq<char>,
    items: Seq<Value>,
    k: nat,
    body: Seq<StmtView>,
    p: Progress,
    tape: Seq<nat>,
)
    ensures
        iterated(name, items, k, body, p, tape).fuel <= p.fuel,
    decreases p.fuel, body, 1nat, items.len() - k,
{
    if p.fault is Some || k >= items.len() {
    } else {
        let start = Progress { env: p.env.insert(name, items[k as int]), ..p };
        lemma_ran_fuel(body, 0, start, tape);
        lemma_iterated_fuel(name, items, k + 1, body, ran(body, 0, start, tape), tape);
    }
}

/// No place of the expression is empty, at any depth.
pub open spec fn complete(e: ExprView) -> bool
    decreases e,
{
    match e {
        ExprView::Empty => false,
        ExprView::Val(_) => true,
        ExprView::Var(_) => true,
        ExprView::Array(items) => forall|i: int|
            0 <= i < items.len() ==> complete(#[trigger] items[i]),
        ExprView::Call(_, args) => forall|i: int|
            0 <= i < args.len() ==> complete(#[trigger] args[i]),
        ExprView::Operation(left, _, right) => complete(*left) && complete(*right),
    }
}

/// Every expression of the list is complete.
pub open spec fn all_complete(items: Seq<ExprView>) -> bool {
    forall|i: int| 0 <= i < items.len() ==> complete(#[trigger] items[i])
}

/// An expression under construction: nothing is empty in it but, at most,
/// the last place on its right edge.
pub open spec fn growing(e: ExprView) -> bool
    decreases e,
{
    match e {
        ExprView::Empty => true,
        ExprView::Operation(left, _, right) => complete(*left) && growing(*right),
        _ => complete(e),
    }
}

/// A statement that is finished at every depth: its expression is complete,
/// a control statement has its body, a loop over a collection has its
/// variable, and the statements of its blocks are finished.
pub open spec fn whole(s: StmtView) -> bool
    decreases s,
{
    match s {
        StmtView::Bind(_, e) => complete(e),
        StmtView::Out(e) => complete(e),
        StmtView::StringOut(e) => complete(e),
        StmtView::Condition(e, Some(first), second) => complete(e) && (forall|i: int|
            0 <= i < first.len() ==> whole(#[trigger] first[i])) && (second matches Some(b)
            ==> forall|i: int| 0 <= i < b.len() ==> whole(#[trigger] b[i])),
        StmtView::While(e, Some(body)) => complete(e) && forall|i: int|
            0 <= i < body.len() ==> whole(#[trigger] body[i]),
        StmtView::For(Some(_), e, Some(body)) => complete(e) && forall|i: int|
            0 <= i < body.len() ==> whole(#[trigger] body[i]),
        _ => false,
    }
}

/// Every statement of the list is finished at every depth.
pub open spec fn all_whole(list: Seq<StmtView>) -> bool {
    forall|i: int| 0 <= i < list.len() ==> whole(#[trigger] list[i])
}

/// A block that is absent, or whose statements are finished.
pub open spec fn whole_body(body: Option<Seq<StmtView>>) -> bool {
    body matches Some(b) ==> all_whole(b)
}

/// A statement under construction: its expression is growing, and the
/// blocks that it has are finished.
pub open spec fn building(s: StmtView) -> bool {
    match s {
        StmtView::Empty => true,
        StmtView::Bind(_, e) => growing(e),
        StmtView::Out(e) => growing(e),
        StmtView::StringOut(e) => growing(e),
        StmtView::Condition(e, first, second) => growing(e) && whole_body(first) && whole_body(
            second,
        ),
        StmtView::While(e, body) => growing(e) && whole_body(body),
        StmtView::For(_, e, body) => growing(e) && whole_body(body),
    }
}

/// A complete expression is one under construction that misses nothing.
pub proof fn lemma_complete_is_closed(e: ExprView)
    ensures
        complete(e) <==> growing(e) && !crate::parser::open_slot(e),
    decreases e,
{
    if let ExprView::Operation(_, _, right) = e {
        lemma_complete_is_closed(*right);
    }
}

/// A value that goes into the empty place completes the expression.
proof fn lemma_fill_completes(t: ExprView, v: ExprView)
    requires
        growing(t),
        complete(v),
    ensures
        crate::parser::fill(t, v) matches Some(r) ==> complete(r),
    decreases t,
{
    if let ExprView::Operation(_, _, right) = t {
        lemma_fill_completes(*right, v);
    }
}

/// An operator leaves a complete expression under construction.
proof fn lemma_walked_grows(t: ExprView, o: char)
    requires
        complete(t),
    ensures
        crate::parser::walked(t, o) matches Some(r) ==> growing(r),
    decreases t,
{
    let blank = crate::parser::right_of(o);
    assert(growing(blank));
    let wrapped = ExprView::Operation(Box::new(t), o, Box::new(blank));
    assert(growing(wrapped));
    if let ExprView::Operation(left, b, right) = t {
        if crate::parser::precedence(b) > crate::parser::precedence(o) {
            lemma_walked_grows(*right, o);
            if let Some(r) = crate::parser::walked(*right, o) {
                assert(growing(ExprView::Operation(left, b, Box::new(r))));
            }
        }
    }
}

/// What an operand or an operator is taken into stays under construction.
proof fn lemma_operand_grows(t: Seq<TokenView>, i: nat, cur: ExprView)
    requires
        growing(cur),
    ensures
        operand(t, i, cur) matches Ok((e, _)) ==> growing(e),
    decreases t.len() - i, 0nat,
{
    if i < t.len() {
        match t[i as int] {
            TokenView::Number(n) => {
                lemma_fill_completes(cur, ExprView::Val(n));
                if let Some(r) = crate::parser::fill(cur, ExprView::Val(n)) {
                    lemma_complete_is_closed(r);
                }
            },
            TokenView::Operator(o) => {
                lemma_complete_is_closed(cur);
                if !crate::parser::open_slot(cur) {
                    lemma_walked_grows(cur, o);
                }
            },
            TokenView::Variable(name) => {
                if i + 1 < t.len() && t[i + 1 as int] is LParen {
                    lemma_listed_complete(t, i + 2, true, Seq::empty(), ExprView::Empty);
                    if let Ok((args, _)) = listed(t, i + 2, true, Seq::empty(), ExprView::Empty) {
                        let v = ExprView::Call(name, args);
                        lemma_fill_completes(cur, v);
                        if let Some(r) = crate::parser::fill(cur, v) {
                            lemma_complete_is_closed(r);
                        }
                    }
                } else {
                    lemma_fill_completes(cur, ExprView::Var(name));
                    if let Some(r) = crate::parser::fill(cur, ExprView::Var(name)) {
                        lemma_complete_is_closed(r);
                    }
                }
            },
            TokenView::LParen => {
                lemma_grouped_complete(t, i + 1, ExprView::Empty);
                if let Ok((inner, _)) = grouped(t, i + 1, ExprView::Empty) {
                    lemma_fill_completes(cur, inner);
                    if let Some(r) = crate::parser::fill(cur, inner) {
                        lemma_complete_is_closed(r);
                    }
                }
            },
            TokenView::LBracket => {
                lemma_listed_complete(t, i + 1, false, Seq::empty(), ExprView::Empty);
                if let Ok((items, _)) = listed(t, i + 1, false, Seq::empty(), ExprView::Empty) {
                    let v = ExprView::Array(items);
                    lemma_fill_completes(cur, v);
                    if let Some(r) = crate::parser::fill(cur, v) {
                        lemma_complete_is_closed(r);
                    }
                }
            },
            _ => {},
        }
    }
}

/// A parenthesised expression is complete.
proof fn lemma_grouped_complete(t: Seq<TokenView>, i: nat, cur: ExprView)
    requires
        growing(cur),
    ensures
        grouped(t, i, cur) matches Ok((e, _)) ==> complete(e),
    decreases t.len() - i, 1nat,
{
    if i < t.len() {
        if t[i as int] is RParen {
            lemma_complete_is_closed(cur);
        } else if operand_token(t[i as int]) {
            lemma_operand_grows(t, i, cur);
            if let Ok((e, j)) = operand(t, i, cur) {
                if i < j <= t.len() {
                    lemma_grouped_complete(t, j, e);
                }
            }
        }
    }
}

/// The items of a list are complete.
proof fn lemma_listed_complete(
    t: Seq<TokenView>,
    i: nat,
    call: bool,
    items: Seq<ExprView>,
    cur: ExprView,
)
    requires
        all_complete(items),
        growing(cur),
    ensures
        listed(t, i, call, items, cur) matches Ok((list, _)) ==> all_complete(list),
    decreases t.len() - i, 1nat,
{
    if i < t.len() {
        lemma_complete_is_closed(cur);
        if closes(t[i as int], call) {
        } else if t[i as int] is Comma {
            if !(cur is Empty) && !crate::parser::open_slot(cur) {
                lemma_listed_complete(t, i + 1, call, items.push(cur), ExprView::Empty);
            }
        } else if operand_token(t[i as int]) {
            lemma_operand_grows(t, i, cur);
            if let Ok((e, j)) = operand(t, i, cur) {
                if i < j <= t.len() {
                    lemma_listed_complete(t, j, call, items, e);
                }
            }
        }
    }
}

/// A statement that is ready to be closed is finished at every depth.
proof fn lemma_ready_is_whole(cur: StmtView)
    requires
        building(cur),
        crate::parser::ready(cur),
    ensures
        cur is Empty || whole(cur),
        all_whole(Seq::<StmtView>::empty()),
{
    if let Some(e) = slot_or_head(cur) {
        lemma_complete_is_closed(e);
    }
}

/// The expression of a statement.
pub open spec fn slot_or_head(s: StmtView) -> Option<ExprView> {
    match s {
        StmtView::Bind(_, e) => Some(e),
        StmtView::Out(e) => Some(e),
        StmtView::StringOut(e) => Some(e),
        StmtView::Condition(e, _, _) => Some(e),
        StmtView::While(e, _) => Some(e),
        StmtView::For(_, e, _) => Some(e),
        StmtView::Empty => None,
    }
}

/// The statements that the parser hands out are finished at every depth: no
/// expression misses an operand, no control statement its body.
pub proof fn law_parsed_is_whole(
    t: Seq<TokenView>,
    i: nat,
    nested: bool,
    out: Seq<StmtView>,
    cur: StmtView,
)
    requires
        all_whole(out),
        building(cur),
    ensures
        block(t, i, nested, out, cur) matches Ok((list, _)) ==> all_whole(list),
    decreases t.len() - i, 1nat,
{
    let closed = crate::parser::finished(out, cur);
    if crate::parser::ready(cur) {
        lemma_ready_is_whole(cur);
        assert(all_whole(closed));
        if !(cur is Empty) {
            assert(all_whole(out.push(cur)));
        }
    }
    if i < t.len() {
        match crate::parser::opened(t[i as int]) {
            Some(next) => {
                if crate::parser::ready(cur) {
                    law_parsed_is_whole(t, i + 1, nested, closed, next);
                }
            },
            None => match t[i as int] {
                TokenView::Control(crate::parser::Control::Else) => law_parsed_is_whole(
                    t,
                    i + 1,
                    nested,
                    out,
                    cur,
                ),
                TokenView::LBraces => {
                    if takes_block(cur) && crate::parser::headed(cur) {
                        law_parsed_is_whole(t, i + 1, true, Seq::empty(), StmtView::Empty);
                        if let Ok((body, j)) = block(
                            t,
                            i + 1,
                            true,
                            Seq::empty(),
                            StmtView::Empty,
                        ) {
                            if i < j < t.len() {
                                law_parsed_is_whole(t, j + 1, nested, out, with_block(cur, body));
                            }
                        }
                    }
                },
                TokenView::Variable(name) => {
                    law_parsed_is_whole(
                        t,
                        i + 1,
                        nested,
                        out,
                        StmtView::Bind(name, ExprView::Empty),
                    );
                    law_parsed_is_whole(
                        t,
                        i + 1,
                        nested,
                        out,
                        StmtView::For(Some(name), ExprView::Empty, None),
                    );
                    if let Some(e) = slot(cur) {
                        lemma_complete_is_closed(e);
                        if !crate::parser::open_slot(e) && (cur is Bind || cur is Out
                            || cur is StringOut) {
                            assert(whole(cur));
                            assert(all_whole(out.push(cur)));
                            law_parsed_is_whole(
                                t,
                                i + 1,
                                nested,
                                out.push(cur),
                                StmtView::Bind(name, ExprView::Empty),
                            );
                        }
                    } else if crate::parser::ready(cur) && !(cur is Empty) {
                        law_parsed_is_whole(
                            t,
                            i + 1,
                            nested,
                            out.push(cur),
                            StmtView::Bind(name, ExprView::Empty),
                        );
                    }
                    lemma_into_slot_whole(t, i, nested, out, cur);
                },
                TokenView::Operator(_) => {
                    law_parsed_is_whole(t, i + 1, nested, out, cur);
                    lemma_into_slot_whole(t, i, nested, out, cur);
                },
                TokenView::Number(_) => lemma_into_slot_whole(t, i, nested, out, cur),
                TokenView::LParen => lemma_into_slot_whole(t, i, nested, out, cur),
                TokenView::LBracket => lemma_into_slot_whole(t, i, nested, out, cur),
                _ => {},
            },
        }
    }
}

proof fn lemma_into_slot_whole(
    t: Seq<TokenView>,
    i: nat,
    nested: bool,
    out: Seq<StmtView>,
    cur: StmtView,
)
    requires
        all_whole(out),
        building(cur),
        i < t.len(),
    ensures
        into_slot(t, i, nested, out, cur) matches Ok((list, _)) ==> all_whole(list),
    decreases t.len() - i, 0nat,
{
    if let Some(e) = slot(cur) {
        lemma_operand_grows(t, i, e);
        if let Ok((e2, j)) = operand(t, i, e) {
            if i < j <= t.len() {
                law_parsed_is_whole(t, j, nested, out, with_slot(cur, e2));
            }
        }
    }
}

/// A parenthesised expression, the items of an array and the arguments of a
/// call miss no operand at any depth.
pub proof fn law_parts_are_complete(t: Seq<TokenView>, i: nat, call: bool)
    ensures
        grouped(t, i, ExprView::Empty) matches Ok((e, _)) ==> complete(e),
        listed(t, i, call, Seq::empty(), ExprView::Empty) matches Ok((list, _)) ==> all_complete(
            list,
        ),
{
    lemma_grouped_complete(t, i, ExprView::Empty);
    lemma_listed_complete(t, i, call, Seq::empty(), ExprView::Empty);
}

/// The expression that rolls `dice` dice of `faces` faces.
pub open spec fn roll_of(dice: Number, faces: Number) -> ExprView {
    ExprView::Operation(Box::new(ExprView::Val(dice)), 'd', Box::new(ExprView::Val(faces)))
}

/// The results of `n` rolls of one die of `faces` faces, each from an entry
/// of its own: round `k` from entry `pos + k` of the tape.
pub open spec fn rolls_apart(tape: Seq<nat>, pos: nat, faces: nat, n: nat) -> Seq<Value> {
    Seq::new(
        n,
        |k: int|
            Value::Array(
                seq![Value::Scalar(Number::of_count(drawn(tape, (pos + k) as nat, 1, faces) as u64))],
            ),
    )
}

/// A roll of one die that is repeated is rolled anew each time: round `k`
/// takes entry `pos + k` of the tape, so no two rounds share a draw.
pub proof fn law_repetition_rolls_anew(
    dice: Number,
    faces: Number,
    env: Map<Seq<char>, Value>,
    tape: Seq<nat>,
    pos: nat,
    n: nat,
)
    requires
        dice.count() == 1,
        faces.count() >= 1,
    ensures
        repeated(roll_of(dice, faces), env, tape, pos, n) == (
            Ok::<Seq<Value>, EvalError>(rolls_apart(tape, pos, faces.count() as nat, n)),
            pos + n,
        ),
    decreases n,
{
    let e = roll_of(dice, faces);
    let f = faces.count() as nat;
    if n == 0 {
        assert(rolls_apart(tape, pos, f, n) =~= Seq::<Value>::empty());
    } else {
        law_repetition_rolls_anew(dice, faces, env, tape, pos, (n - 1) as nat);
        let next = (pos + n - 1) as nat;
        assert(eval(ExprView::Val(dice), env, tape, next) == (
            Ok::<Value, EvalError>(Value::Scalar(dice)),
            next,
        ));
        assert(eval(ExprView::Val(faces), env, tape, next) == (
            Ok::<Value, EvalError>(Value::Scalar(faces)),
            next,
        ));
        let one = faces_rolled(tape, next, f, 1);
        assert(one =~= seq![Value::Scalar(Number::of_count(drawn(tape, next, 1, f) as u64))]);
        assert(rolled(Value::Scalar(dice), Value::Scalar(faces), tape, next) == (
            Ok::<Value, EvalError>(Value::Array(one)),
            next + 1,
        ));
        assert(eval(e, env, tape, next) == (Ok::<Value, EvalError>(Value::Array(one)), next + 1));
        assert(rolls_apart(tape, pos, f, (n - 1) as nat).push(Value::Array(one)) =~= rolls_apart(
            tape,
            pos,
            f,
            n,
        ));
    }
}

/// The repetition operator on a count and a roll of one die gives one roll
/// for each round, each from its own entry of the tape.
pub proof fn law_repeated_roll(
    count: Number,
    dice: Number,
    faces: Number,
    env: Map<Seq<char>, Value>,
    tape: Seq<nat>,
    pos: nat,
)
    requires
        dice.count() == 1,
        faces.count() >= 1,
    ensures
        multiplied(Value::Scalar(count), roll_of(dice, faces), env, tape, pos) == (
            Ok::<Value, EvalError>(
                Value::Array(rolls_apart(tape, pos, faces.count() as nat, count.count() as nat)),
            ),
            pos + count.count() as nat,
        ),
{
    law_repetition_rolls_anew(dice, faces, env, tape, pos, count.count() as nat);
}

/// Two rounds of a repeated roll need not agree: with two faces or more
/// there is a tape on which the first two rounds differ.
pub proof fn law_rounds_can_differ(faces: nat, pos: nat)
    requires
        2 <= faces <= u64::MAX,
    ensures
        exists|tape: Seq<nat>| #[trigger]
            rolls_apart(tape, pos, faces, 2)[0] != rolls_apart(tape, pos, faces, 2)[1],
{
    let tape = Seq::new(pos + 2, |i: int| if i == pos { 0nat } else { 1nat });
    vstd::arithmetic::div_mod::lemma_small_mod(0, faces);
    vstd::arithmetic::div_mod::lemma_small_mod(1, faces);
    assert(drawn(tape, pos, 1, faces) == 1);
    assert(drawn(tape, (pos + 1) as nat, 1, faces) == 2);
    lemma_exact_round_trip(1);
    lemma_exact_round_trip(2);
    assert(Number::of_count(1) != Number::of_count(2));
    let rounds = rolls_apart(tape, pos, faces, 2);
    assert(rounds[0] == Value::Array(seq![Value::Scalar(Number::of_count(1))]));
    assert(rounds[1] == Value::Array(seq![Value::Scalar(Number::of_count(2))]));
    assert(seq![Value::Scalar(Number::of_count(1))][0] != seq![
        Value::Scalar(Number::of_count(2)),
    ][0]);
}

/// The run has not ended at an empty place.
pub open spec fn well_formed(p: Progress) -> bool {
    p.fault != Some(EvalError::Unfinished)
}

proof fn lemma_eval_finished(e: ExprView, env: Map<Seq<char>, Value>, tape: Seq<nat>, pos: nat)
    requires
        complete(e),
    ensures
        eval(e, env, tape, pos).0 != Err::<Value, EvalError>(EvalError::Unfinished),
    decreases e, 0nat, 0nat,
{
    match e {
        ExprView::Array(items) => {
            lemma_evaluated_finished(items, env, tape, pos, items.len());
        },
        ExprView::Operation(first, op, second) => {
            lemma_eval_finished(*first, env, tape, pos);
            let (a, next) = eval(*first, env, tape, pos);
            if let Ok(a) = a {
                if op == 'x' {
                    lemma_multiplied_finished(a, *second, env, tape, next);
                } else {
                    lemma_altered_within(op, a);
                    lemma_eval_finished(*second, env, tape, next);
                    let (b, after) = eval(*second, env, tape, next);
                    if let Ok(b) = b {
                        lemma_applied_within(op, a, b, tape, after);
                    }
                }
            }
        },
        ExprView::Call(name, args) => {
            lemma_evaluated_finished(args, env, tape, pos, args.len());
        },
        _ => {},
    }
}

proof fn lemma_evaluated_finished(
    items: Seq<ExprView>,
    env: Map<Seq<char>, Value>,
    tape: Seq<nat>,
    pos: nat,
    n: nat,
)
    requires
        all_complete(items),
    ensures
        evaluated(items, env, tape, pos, n).0 != Err::<Seq<Value>, EvalError>(
            EvalError::Unfinished,
        ),
    decreases items, 0nat, n,
{
    if n == 0 || n > items.len() {
    } else {
        lemma_evaluated_finished(items, env, tape, pos, (n - 1) as nat);
        let next = evaluated(items, env, tape, pos, (n - 1) as nat).1;
        lemma_eval_finished(items[n - 1], env, tape, next);
    }
}

proof fn lemma_repeated_finished(
    e: ExprView,
    env: Map<Seq<char>, Value>,
    tape: Seq<nat>,
    pos: nat,
    n: nat,
)
    requires
        complete(e),
    ensures
        repeated(e, env, tape, pos, n).0 != Err::<Seq<Value>, EvalError>(EvalError::Unfinished),
    decreases e, 1nat, n,
{
    if n > 0 {
        lemma_repeated_finished(e, env, tape, pos, (n - 1) as nat);
        let next = repeated(e, env, tape, pos, (n - 1) as nat).1;
        lemma_eval_finished(e, env, tape, next);
    }
}

proof fn lemma_multiplied_finished(
    a: Value,
    e: ExprView,
    env: Map<Seq<char>, Value>,
    tape: Seq<nat>,
    pos: nat,
)
    requires
        complete(e),
    ensures
        multiplied(a, e, env, tape, pos).0 != Err::<Value, EvalError>(EvalError::Unfinished),
    decreases e, 2nat, 0nat,
{
    match a {
        Value::Scalar(x) => lemma_repeated_finished(e, env, tape, pos, x.count() as nat),
        Value::Array(_) => lemma_eval_finished(e, env, tape, pos),
    }
}

proof fn lemma_executed_finished(s: StmtView, p: Progress, tape: Seq<nat>)
    requires
        whole(s),
        well_formed(p),
    ensures
        well_formed(executed(s, p, tape)),
    decreases p.fuel, s, 0nat, 0nat,
{
    match s {
        StmtView::Bind(_, e) => lemma_eval_finished(e, p.env, tape, p.pos),
        StmtView::Out(e) => lemma_eval_finished(e, p.env, tape, p.pos),
        StmtView::StringOut(e) => {
            lemma_eval_finished(e, p.env, tape, p.pos);
            if let (Ok(Value::Array(items)), _) = eval(e, p.env, tape, p.pos) {
                lemma_letters_within(items, items.len());
            }
        },
        StmtView::Condition(test, Some(first), second) => {
            lemma_eval_finished(test, p.env, tape, p.pos);
            if let (Ok(v), pos) = eval(test, p.env, tape, p.pos) {
                lemma_ran_finished(first, 0, Progress { pos, ..p }, tape);
                if let Some(other) = second {
                    lemma_ran_finished(other, 0, Progress { pos, ..p }, tape);
                }
            }
        },
        StmtView::While(test, Some(body)) => lemma_looped_finished(test, body, p, tape),
        StmtView::For(Some(name), source, Some(body)) => {
            lemma_eval_finished(source, p.env, tape, p.pos);
            match eval(source, p.env, tape, p.pos) {
                (Ok(Value::Scalar(x)), pos) => lemma_ran_finished(
                    body,
                    0,
                    Progress { env: p.env.insert(name, Value::Scalar(x)), pos, ..p },
                    tape,
                ),
                (Ok(Value::Array(items)), pos) => lemma_iterated_finished(
                    name,
                    items,
                    0,
                    body,
                    Progress { pos, ..p },
                    tape,
                ),
                _ => {},
            }
        },
        _ => {},
    }
}

proof fn lemma_ran_finished(stmts: Seq<StmtView>, k: nat, p: Progress, tape: Seq<nat>)
    requires
        all_whole(stmts),
        well_formed(p),
    ensures
        well_formed(ran(stmts, k, p, tape)),
    decreases p.fuel, stmts, 0nat, stmts.len() - k,
{
    if p.fault is Some || k >= stmts.len() {
    } else {
        lemma_executed_finished(stmts[k as int], p, tape);
        let q = executed(stmts[k as int], p, tape);
        if q.fuel <= p.fuel {
            lemma_ran_finished(stmts, k + 1, q, tape);
        }
    }
}

proof fn lemma_looped_finished(test: ExprView, body: Seq<StmtView>, p: Progress, tape: Seq<nat>)
    requires
        complete(test),
        all_whole(body),
        well_formed(p),
    ensures
        well_formed(looped(test, body, p, tape)),
    decreases p.fuel, body, 1nat, 0nat,
{
    lemma_eval_finished(test, p.env, tape, p.pos);
    if let (Ok(v), pos) = eval(test, p.env, tape, p.pos) {
        if crate::value::truthy(v) && p.fuel > 0 {
            let start = Progress { pos, fuel: (p.fuel - 1) as nat, ..p };
            lemma_ran_finished(body, 0, start, tape);
            let q = ran(body, 0, start, tape);
            if !(q.fault is Some || q.fuel >= p.fuel) {
                lemma_looped_finished(test, body, q, tape);
            }
        }
    }
}

proof fn lemma_iterated_finished(
    name: Seq<char>,
    items: Seq<Value>,
    k: nat,
    body: Seq<StmtView>,
    p: Progress,
    tape: Seq<nat>,
)
    requires
        all_whole(body),
        well_formed(p),
    ensures
        well_formed(iterated(name, items, k, body, p, tape)),
    decreases p.fuel, body, 1nat, items.len() - k,
{
    if p.fault is Some || k >= items.len() {
    } else {
        let start = Progress { env: p.env.insert(name, items[k as int]), ..p };
        lemma_ran_finished(body, 0, start, tape);
        let q = ran(body, 0, start, tape);
        if q.fuel <= p.fuel {
            lemma_iterated_finished(name, items, k + 1, body, q, tape);
        }
    }
}

/// The run of a program that is finished at every depth, as the parser
/// hands it out, never ends with `Unfinished`.
pub proof fn law_whole_runs(stmts: Seq<StmtView>, p: Progress, tape: Seq<nat>)
    requires
        all_whole(stmts),
        p.fault is None,
    ensures
        ran(stmts, 0, p, tape).fault != Some(EvalError::Unfinished),
{
    lemma_ran_finished(stmts, 0, p, tape);
}

/// A complete expression never evaluates to `Unfinished`.
pub proof fn law_complete_evaluates(
    e: ExprView,
    env: Map<Seq<char>, Value>,
    tape: Seq<nat>,
    pos: nat,
)
    requires
        complete(e),
    ensures
        eval(e, env, tape, pos).0 != Err::<Value, EvalError>(EvalError::Unfinished),
{
    lemma_eval_finished(e, env, tape, pos);
}

} // verus!
