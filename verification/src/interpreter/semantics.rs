//! What evaluation means: the result and the state after it, of every
//! construct, as functions of the state before it.
//!
//! Every function takes a budget. A construct that is handed a budget of zero
//! fails; otherwise it hands a smaller budget to its parts, so that constructs
//! and calls that nest deeper than the budget end in an error. A loop is
//! handed a number of turns as well and fails when it has used them up. So
//! every evaluation ends.
//!
//! The result of a statement or a block is a signal: `None` for a break,
//! `Some` of an empty list for normal completion, and `Some` of a list with
//! values for a return. A return of no values is the same signal as normal
//! completion.
use vstd::prelude::*;
use crate::ast::Block;
use crate::ast::Statement;
use crate::ast::Expression;
use crate::ast::Var;
use crate::ast::FunctionCall;
use crate::ast::Field;
use crate::interpreter::TableRef;
use crate::interpreter::Val;
use crate::interpreter::Closure;
use crate::interpreter::display_text;
use crate::interpreter::msg_cannot_compare;
use crate::interpreter::msg_inexact_float;
use crate::interpreter::msg_not_an_integer;
use crate::interpreter::environment::State;
use crate::interpreter::table::Key;
use crate::interpreter::table::int_key;
use crate::interpreter::table::msg_bad_key;
use crate::interpreter::table::border_of;
use crate::interpreter::number::payload_bits;
use crate::interpreter::number::int_as_bits;
use crate::interpreter::float::saturate;

verus! {

/// A list of values or an error message.
pub type Values = Result<Seq<Val>, Seq<char>>;

/// A control-flow signal or an error message.
pub type Signal = Result<Option<Seq<Val>>, Seq<char>>;

pub open spec fn msg_budget() -> Seq<char> {
    "Evaluation budget exhausted"@
}

pub open spec fn msg_turns() -> Seq<char> {
    "Loop ran out of turns"@
}

pub open spec fn msg_not_callable() -> Seq<char> {
    "Cannot call value (only functions can be called)"@
}

pub open spec fn msg_builtin() -> Seq<char> {
    "Cannot call builtin (only 'print' is available)"@
}

pub open spec fn msg_cannot_index() -> Seq<char> {
    "Cannot index value (only tables can be indexed)"@
}

pub open spec fn msg_no_length() -> Seq<char> {
    "Cannot take length of value (only tables have a length)"@
}

pub open spec fn msg_zero_step() -> Seq<char> {
    "'for' step is zero"@
}

/// The integer as a value.
pub open spec fn int_val(i: i64) -> Val {
    Val::Num(int_as_bits(i), false)
}

/// The signal of normal completion.
pub open spec fn done() -> Option<Seq<Val>> {
    Some(Seq::empty())
}

/// The first of a list of values, or `nil` when there is none.
pub open spec fn first_of(vals: Seq<Val>) -> Val {
    if vals.len() == 0 {
        Val::Nil
    } else {
        vals[0]
    }
}

/// The value at a position of a list, or `nil` past its end.
pub open spec fn nth_or_nil(vals: Seq<Val>, i: int) -> Val {
    if 0 <= i < vals.len() {
        vals[i]
    } else {
        Val::Nil
    }
}

/// The number as an integer, as the numeric loop reads its start and step.
pub open spec fn to_int(v: Val) -> Result<i64, Seq<char>> {
    if v.is_integral() {
        Ok(v.floor())
    } else if v is Num {
        Err(msg_inexact_float())
    } else {
        Err(msg_not_an_integer())
    }
}

/// Binds the parameters from position `i` on to the arguments at the same
/// positions, and to `nil` where the arguments have run out.
pub open spec fn bind_params(params: Seq<String>, args: Seq<Val>, i: int, s: State) -> State
    decreases params.len() - i,
{
    if i < 0 || i >= params.len() {
        s
    } else {
        bind_params(params, args, i + 1, s.declare(params[i]@, nth_or_nil(args, i)))
    }
}

/// Appends the text of each value from position `i` on to the output.
pub open spec fn emit_all(vals: Seq<Val>, i: int, s: State) -> State
    decreases vals.len() - i,
{
    if i < 0 || i >= vals.len() {
        s
    } else {
        emit_all(vals, i + 1, s.emit(display_text(vals[i])))
    }
}

/// Stores the values from position `i` on under the whole-number keys from
/// `next` on.
pub open spec fn store_all(vals: Seq<Val>, i: int, t: TableRef, next: i64, s: State) -> State
    decreases vals.len() - i,
{
    if i < 0 || i >= vals.len() {
        s
    } else {
        store_all(vals, i + 1, t, following(next), s.table_set(t, int_key(next), vals[i]))
    }
}

/// The next positional key; the last one stays.
pub open spec fn following(next: i64) -> i64 {
    if next < i64::MAX {
        (next + 1) as i64
    } else {
        next
    }
}

/// Reads `container[key]`.
pub open spec fn index_value(container: Val, key: Val, s: State) -> Result<Val, Seq<char>> {
    match container {
        Val::Table(t) => match key.as_key() {
            Some(k) => Ok(s.table_get(t, k)),
            None => Ok(Val::Nil),
        },
        _ => Err(msg_cannot_index()),
    }
}

/// Writes `container[key] = value`.
pub open spec fn store_value(container: Val, key: Val, value: Val, s: State) -> (State, Result<(), Seq<char>>) {
    match container {
        Val::Table(t) => match key.as_key() {
            Some(k) => (s.table_set(t, k, value), Ok(())),
            None => (s, Err(msg_bad_key(key))),
        },
        _ => (s, Err(msg_cannot_index())),
    }
}

/// The value of an expression: a list, since a call can give several.
pub open spec fn eval_exp(e: Expression, s: State, fuel: nat) -> (State, Values)
    decreases fuel, 0nat,
{
    if fuel == 0 {
        (s, Err(msg_budget()))
    } else {
        match e {
            Expression::Nil => (s, Ok(seq![Val::Nil])),
            Expression::False => (s, Ok(seq![Val::Bool(false)])),
            Expression::True => (s, Ok(seq![Val::Bool(true)])),
            Expression::Numeral(bytes, is_float) => (s, Ok(seq![Val::Num(payload_bits(bytes), is_float)])),
            Expression::LiteralString(text) => (s, Ok(seq![Val::Str(text@)])),
            Expression::FunctionDef(par_list, block) => {
                let closure = Closure { id: s.closures, par_list, block, captured: s.chain };
                (
                    s.count_closure().reopen_scope_without_clearing(),
                    Ok(seq![Val::Function(closure)]),
                )
            },
            Expression::Var(var) => eval_var(*var, s, (fuel - 1) as nat),
            Expression::Call(call) => eval_call(*call, s, (fuel - 1) as nat),
            Expression::TableConstructor(fields) => {
                let t = s.tables.len() as usize;
                let (s1, r) = fill_fields(fields@, 0, t, 1, s.new_table(), (fuel - 1) as nat);
                match r {
                    Err(m) => (s1, Err(m)),
                    Ok(_) => (s1, Ok(seq![Val::Table(t)])),
                }
            },
            Expression::Not(operand) => {
                let (s1, r) = eval_exp(*operand, s, (fuel - 1) as nat);
                match r {
                    Err(m) => (s1, Err(m)),
                    Ok(vals) => (s1, Ok(seq![Val::Bool(first_of(vals).is_false())])),
                }
            },
            Expression::Length(operand) => {
                let (s1, r) = eval_exp(*operand, s, (fuel - 1) as nat);
                match r {
                    Err(m) => (s1, Err(m)),
                    Ok(vals) => match first_of(vals) {
                        Val::Table(t) => if t < s1.tables.len() {
                            (s1, Ok(seq![int_val(saturate(border_of(s1.tables[t as int])))]))
                        } else {
                            (s1, Ok(seq![int_val(0)]))
                        },
                        _ => (s1, Err(msg_no_length())),
                    },
                }
            },
        }
    }
}

/// The value of a variable.
pub open spec fn eval_var(v: Var, s: State, fuel: nat) -> (State, Values)
    decreases fuel, 0nat,
{
    if fuel == 0 {
        (s, Err(msg_budget()))
    } else {
        match v {
            Var::NameVar(name) => (s, Ok(seq![s.lookup(name@)])),
            Var::BracketVar(container, key) => {
                let (s1, r1) = eval_exp(container, s, (fuel - 1) as nat);
                match r1 {
                    Err(m) => (s1, Err(m)),
                    Ok(c) => {
                        let (s2, r2) = eval_exp(key, s1, (fuel - 1) as nat);
                        match r2 {
                            Err(m) => (s2, Err(m)),
                            Ok(k) => match index_value(first_of(c), first_of(k), s2) {
                                Err(m) => (s2, Err(m)),
                                Ok(v) => (s2, Ok(seq![v])),
                            },
                        }
                    },
                }
            },
            Var::DotVar(container, name) => {
                let (s1, r1) = eval_exp(container, s, (fuel - 1) as nat);
                match r1 {
                    Err(m) => (s1, Err(m)),
                    Ok(c) => match index_value(first_of(c), Val::Str(name@), s1) {
                        Err(m) => (s1, Err(m)),
                        Ok(v) => (s1, Ok(seq![v])),
                    },
                }
            },
        }
    }
}

/// The values of a list of expressions from position `i` on, after `acc`:
/// every expression but the last gives its first value only, the last gives
/// all of its values.
pub open spec fn eval_list(es: Seq<Expression>, i: int, acc: Seq<Val>, s: State, fuel: nat) -> (State, Values)
    decreases fuel, es.len() - i + 1,
{
    if i < 0 || i >= es.len() {
        (s, Ok(acc))
    } else {
        let (s1, r) = eval_exp(es[i], s, fuel);
        match r {
            Err(m) => (s1, Err(m)),
            Ok(vals) => if i == es.len() - 1 {
                (s1, Ok(acc + vals))
            } else {
                eval_list(es, i + 1, acc.push(first_of(vals)), s1, fuel)
            },
        }
    }
}

/// Fills table `t` from the fields from position `i` on; `next` is the key
/// of the next positional field.
pub open spec fn fill_fields(fields: Seq<Field>, i: int, t: TableRef, next: i64, s: State, fuel: nat) -> (State, Result<(), Seq<char>>)
    decreases fuel, fields.len() - i + 1,
{
    if i < 0 || i >= fields.len() {
        (s, Ok(()))
    } else {
        match fields[i] {
            Field::BracketedAssign(key, value) => {
                let (s1, r1) = eval_exp(key, s, fuel);
                match r1 {
                    Err(m) => (s1, Err(m)),
                    Ok(k) => {
                        let (s2, r2) = eval_exp(value, s1, fuel);
                        match r2 {
                            Err(m) => (s2, Err(m)),
                            Ok(v) => match first_of(k).as_key() {
                                None => (s2, Err(msg_bad_key(first_of(k)))),
                                Some(slot) => fill_fields(
                                    fields,
                                    i + 1,
                                    t,
                                    next,
                                    s2.table_set(t, slot, first_of(v)),
                                    fuel,
                                ),
                            },
                        }
                    },
                }
            },
            Field::NameAssign(name, value) => {
                let (s1, r1) = eval_exp(value, s, fuel);
                match r1 {
                    Err(m) => (s1, Err(m)),
                    Ok(v) => fill_fields(
                        fields,
                        i + 1,
                        t,
                        next,
                        s1.table_set(t, Key::Str(name@), first_of(v)),
                        fuel,
                    ),
                }
            },
            Field::UnnamedAssign(value) => {
                let (s1, r1) = eval_exp(value, s, fuel);
                match r1 {
                    Err(m) => (s1, Err(m)),
                    Ok(v) => if i == fields.len() - 1 {
                        (store_all(v, 0, t, next, s1), Ok(()))
                    } else {
                        fill_fields(
                            fields,
                            i + 1,
                            t,
                            following(next),
                            s1.table_set(t, int_key(next), first_of(v)),
                            fuel,
                        )
                    },
                }
            },
        }
    }
}

/// The results of a call.
pub open spec fn eval_call(call: FunctionCall, s: State, fuel: nat) -> (State, Values)
    decreases fuel, 0nat,
{
    if fuel == 0 {
        (s, Err(msg_budget()))
    } else {
        let (s1, r1) = eval_exp(call.callee, s, (fuel - 1) as nat);
        match r1 {
            Err(m) => (s1, Err(m)),
            Ok(c) => {
                let (s2, r2) = eval_list(call.args@, 0, Seq::empty(), s1, (fuel - 1) as nat);
                match r2 {
                    Err(m) => (s2, Err(m)),
                    Ok(args) => apply(first_of(c), args, s2, (fuel - 1) as nat),
                }
            },
        }
    }
}

/// Applies a value to arguments. A closure runs its body in one new frame on
/// top of the chain it captured, with its parameters bound by position; the
/// caller's chain is back in place when it returns.
pub open spec fn apply(callee: Val, args: Seq<Val>, s: State, fuel: nat) -> (State, Values)
    decreases fuel, 0nat,
{
    if fuel == 0 {
        (s, Err(msg_budget()))
    } else {
        match callee {
            Val::Print => (emit_all(args, 0, s), Ok(Seq::empty())),
            Val::Function(f) => {
                let entered = bind_params(
                    f.par_list.0@,
                    args,
                    0,
                    s.enter_call(f.captured).push_scope(),
                );
                let (s1, r) = exec_block(f.block, entered, (fuel - 1) as nat);
                match r {
                    Err(m) => (s1, Err(m)),
                    Ok(None) => (s1.leave_call(s.chain, s.marks), Ok(Seq::empty())),
                    Ok(Some(vals)) => (s1.leave_call(s.chain, s.marks), Ok(vals)),
                }
            },
            Val::Read => (s, Err(msg_builtin())),
            Val::Random => (s, Err(msg_builtin())),
            _ => (s, Err(msg_not_callable())),
        }
    }
}

/// Runs a block in a scope of its own and leaves the scope open.
pub open spec fn exec_block_without_pop(b: Block, s: State, fuel: nat) -> (State, Signal)
    decreases fuel, 0nat,
{
    if fuel == 0 {
        (s, Err(msg_budget()))
    } else {
        let (s1, r) = exec_stmts(b.statements@, 0, s.push_scope(), (fuel - 1) as nat);
        match r {
            Err(m) => (s1, Err(m)),
            Ok(None) => (s1, Ok(None)),
            Ok(Some(vals)) => if vals.len() > 0 {
                (s1, Ok(Some(vals)))
            } else {
                match b.return_stat {
                    None => (s1, Ok(done())),
                    Some(list) => {
                        let (s2, r2) = eval_list(list@, 0, Seq::empty(), s1, (fuel - 1) as nat);
                        match r2 {
                            Err(m) => (s2, Err(m)),
                            Ok(vals) => (s2, Ok(Some(vals))),
                        }
                    },
                }
            },
        }
    }
}

/// Runs a block: in a scope of its own, which is left at the end; the
/// enclosing scope then goes on in a fresh frame.
pub open spec fn exec_block(b: Block, s: State, fuel: nat) -> (State, Signal)
    decreases fuel, 0nat,
{
    if fuel == 0 {
        (s, Err(msg_budget()))
    } else {
        let (s1, r) = exec_block_without_pop(b, s, (fuel - 1) as nat);
        match r {
            Err(m) => (s1, Err(m)),
            Ok(signal) => (s1.pop_scope().reopen_scope_without_clearing(), Ok(signal)),
        }
    }
}

/// Runs the statements from position `i` on; the first break or return ends
/// the run and is the result.
pub open spec fn exec_stmts(sts: Seq<Statement>, i: int, s: State, fuel: nat) -> (State, Signal)
    decreases fuel, sts.len() - i + 1,
{
    if i < 0 || i >= sts.len() {
        (s, Ok(done()))
    } else {
        let (s1, r) = exec_stmt(sts[i], s, fuel);
        match r {
            Err(m) => (s1, Err(m)),
            Ok(None) => (s1, Ok(None)),
            Ok(Some(vals)) => if vals.len() > 0 {
                (s1, Ok(Some(vals)))
            } else {
                exec_stmts(sts, i + 1, s1, fuel)
            },
        }
    }
}

/// Runs one statement.
pub open spec fn exec_stmt(st: Statement, s: State, fuel: nat) -> (State, Signal)
    decreases fuel, 0nat,
{
    if fuel == 0 {
        (s, Err(msg_budget()))
    } else {
        match st {
            Statement::Semicolon => (s, Ok(done())),
            Statement::Break => (s, Ok(None)),
            Statement::FunctionCall(call) => {
                let (s1, r) = eval_call(call, s, (fuel - 1) as nat);
                match r {
                    Err(m) => (s1, Err(m)),
                    Ok(_) => (s1, Ok(done())),
                }
            },
            Statement::DoBlock(block) => exec_block(block, s, (fuel - 1) as nat),
            Statement::Assignment(vars, exps, is_local) => {
                let (s1, r) = eval_list(exps@, 0, Seq::empty(), s, (fuel - 1) as nat);
                match r {
                    Err(m) => (s1, Err(m)),
                    Ok(vals) => {
                        let (s2, r2) = assign_all(vars@, 0, vals, is_local, s1, (fuel - 1) as nat);
                        match r2 {
                            Err(m) => (s2, Err(m)),
                            Ok(_) => (s2, Ok(done())),
                        }
                    },
                }
            },
            Statement::While(cond, body) => while_loop(
                cond,
                body,
                s,
                (fuel - 1) as nat,
                s.turns as nat,
            ),
            Statement::Repeat(body, cond) => repeat_loop(
                body,
                cond,
                s.marks.len(),
                s,
                (fuel - 1) as nat,
                s.turns as nat,
            ),
            Statement::If(cond, then_block, else_block) => {
                let (s1, r) = eval_exp(cond, s, (fuel - 1) as nat);
                match r {
                    Err(m) => (s1, Err(m)),
                    Ok(vals) => if first_of(vals).is_true() {
                        exec_block(then_block, s1, (fuel - 1) as nat)
                    } else {
                        match else_block {
                            Some(block) => exec_block(block, s1, (fuel - 1) as nat),
                            None => (s1, Ok(done())),
                        }
                    },
                }
            },
            Statement::ForNum(name, start, limit, step, body) => {
                let (s1, r1) = eval_exp(start, s, (fuel - 1) as nat);
                match r1 {
                    Err(m) => (s1, Err(m)),
                    Ok(v1) => {
                        let (s2, r2) = eval_exp(limit, s1, (fuel - 1) as nat);
                        match r2 {
                            Err(m) => (s2, Err(m)),
                            Ok(v2) => {
                                let (s3, r3) = match step {
                                    Some(e) => eval_exp(e, s2, (fuel - 1) as nat),
                                    None => (s2, Ok(seq![int_val(1)])),
                                };
                                match r3 {
                                    Err(m) => (s3, Err(m)),
                                    Ok(v3) => match to_int(first_of(v1)) {
                                        Err(m) => (s3, Err(m)),
                                        Ok(from) => match to_int(first_of(v3)) {
                                            Err(m) => (s3, Err(m)),
                                            Ok(by) => if first_of(v3).is_zero() {
                                                (s3, Err(msg_zero_step()))
                                            } else {
                                                for_loop(
                                                    name,
                                                    from,
                                                    first_of(v2),
                                                    by,
                                                    first_of(v3).is_positive(),
                                                    body,
                                                    s3,
                                                    (fuel - 1) as nat,
                                                    s3.turns as nat,
                                                )
                                            },
                                        },
                                    },
                                }
                            },
                        }
                    },
                }
            },
        }
    }
}

/// Assigns the values to the variables from position `i` on, by position;
/// a variable past the end of the values gets `nil`.
pub open spec fn assign_all(vars: Seq<Var>, i: int, vals: Seq<Val>, is_local: bool, s: State, fuel: nat) -> (State, Result<(), Seq<char>>)
    decreases fuel, vars.len() - i + 1,
{
    if i < 0 || i >= vars.len() {
        (s, Ok(()))
    } else {
        let (s1, r) = assign_var(vars[i], nth_or_nil(vals, i), is_local, s, fuel);
        match r {
            Err(m) => (s1, Err(m)),
            Ok(_) => assign_all(vars, i + 1, vals, is_local, s1, fuel),
        }
    }
}

/// Assigns one value to one variable. A local name is declared in the
/// innermost frame; another name is assigned where it resolves.
pub open spec fn assign_var(var: Var, value: Val, is_local: bool, s: State, fuel: nat) -> (State, Result<(), Seq<char>>)
    decreases fuel, 0nat,
{
    if fuel == 0 {
        (s, Err(msg_budget()))
    } else {
        match var {
            Var::NameVar(name) => if is_local {
                (s.declare(name@, value), Ok(()))
            } else {
                (s.assign(name@, value), Ok(()))
            },
            Var::BracketVar(container, key) => {
                let (s1, r1) = eval_exp(container, s, (fuel - 1) as nat);
                match r1 {
                    Err(m) => (s1, Err(m)),
                    Ok(c) => {
                        let (s2, r2) = eval_exp(key, s1, (fuel - 1) as nat);
                        match r2 {
                            Err(m) => (s2, Err(m)),
                            Ok(k) => store_value(first_of(c), first_of(k), value, s2),
                        }
                    },
                }
            },
            Var::DotVar(container, name) => {
                let (s1, r1) = eval_exp(container, s, (fuel - 1) as nat);
                match r1 {
                    Err(m) => (s1, Err(m)),
                    Ok(c) => store_value(first_of(c), Val::Str(name@), value, s1),
                }
            },
        }
    }
}

/// `while cond do body end`, for at most `turns` turns.
pub open spec fn while_loop(cond: Expression, body: Block, s: State, fuel: nat, turns: nat) -> (
    State,
    Signal,
)
    decreases fuel, turns,
{
    if fuel == 0 {
        (s, Err(msg_budget()))
    } else if turns == 0 {
        (s, Err(msg_turns()))
    } else {
        let (s1, r) = eval_exp(cond, s, (fuel - 1) as nat);
        match r {
            Err(m) => (s1, Err(m)),
            Ok(vals) => if first_of(vals).is_false() {
                (s1, Ok(done()))
            } else {
                let (s2, r2) = exec_block(body, s1, (fuel - 1) as nat);
                match r2 {
                    Err(m) => (s2, Err(m)),
                    Ok(None) => (s2, Ok(done())),
                    Ok(Some(vals)) => if vals.len() > 0 {
                        (s2, Ok(Some(vals)))
                    } else {
                        while_loop(cond, body, s2, fuel, (turns - 1) as nat)
                    },
                }
            },
        }
    }
}

/// Ends a loop that kept its bodies' scopes open: leaves them all, and lets
/// the enclosing scope go on in a fresh frame.
pub open spec fn close_loop(s: State, base: nat) -> State {
    s.pop_to(base).reopen_scope_without_clearing()
}

/// `repeat body until cond`. The condition sees the locals of the body: the
/// scope of each turn stays open until the loop as a whole ends.
pub open spec fn repeat_loop(
    body: Block,
    cond: Expression,
    base: nat,
    s: State,
    fuel: nat,
    turns: nat,
) -> (State, Signal)
    decreases fuel, turns,
{
    if fuel == 0 {
        (s, Err(msg_budget()))
    } else if turns == 0 {
        (s, Err(msg_turns()))
    } else {
        let (s1, r) = exec_block_without_pop(body, s, (fuel - 1) as nat);
        match r {
            Err(m) => (s1, Err(m)),
            Ok(None) => (close_loop(s1, base), Ok(done())),
            Ok(Some(vals)) => if vals.len() > 0 {
                (close_loop(s1, base), Ok(Some(vals)))
            } else {
                let (s2, r2) = eval_exp(cond, s1, (fuel - 1) as nat);
                match r2 {
                    Err(m) => (s2, Err(m)),
                    Ok(c) => if first_of(c).is_true() {
                        (close_loop(s2, base), Ok(done()))
                    } else {
                        repeat_loop(body, cond, base, s2, fuel, (turns - 1) as nat)
                    },
                }
            },
        }
    }
}

/// Whether the numeric loop goes on at `i`: going up while the limit,
/// rounded down, is at least `i`; going down while the limit, rounded up, is
/// at most `i`.
pub open spec fn in_bounds(limit: Val, i: i64, ascending: bool) -> Result<bool, Seq<char>> {
    if !(limit is Num) {
        Err(msg_cannot_compare())
    } else if ascending {
        Ok(limit.floor() >= i)
    } else {
        Ok(limit.ceil() <= i)
    }
}

/// The numeric loop from `i` on. Each turn runs the body in a scope that
/// binds the loop variable; the loop ends when the next `i` would not fit.
pub open spec fn for_loop(
    name: String,
    i: i64,
    limit: Val,
    by: i64,
    ascending: bool,
    body: Block,
    s: State,
    fuel: nat,
    turns: nat,
) -> (State, Signal)
    decreases fuel, turns,
{
    if fuel == 0 {
        (s, Err(msg_budget()))
    } else if turns == 0 {
        (s, Err(msg_turns()))
    } else {
        match in_bounds(limit, i, ascending) {
            Err(m) => (s, Err(m)),
            Ok(false) => (s, Ok(done())),
            Ok(true) => {
                let (s1, r) = exec_block(
                    body,
                    s.push_scope().declare(name@, int_val(i)),
                    (fuel - 1) as nat,
                );
                match r {
                    Err(m) => (s1, Err(m)),
                    Ok(None) => (s1.pop_scope().reopen_scope_without_clearing(), Ok(done())),
                    Ok(Some(vals)) => if vals.len() > 0 {
                        (s1.pop_scope().reopen_scope_without_clearing(), Ok(Some(vals)))
                    } else if i + by > i64::MAX || i + by < i64::MIN {
                        (s1.pop_scope().reopen_scope_without_clearing(), Ok(done()))
                    } else {
                        for_loop(
                            name,
                            (i + by) as i64,
                            limit,
                            by,
                            ascending,
                            body,
                            s1.pop_scope().reopen_scope_without_clearing(),
                            fuel,
                            (turns - 1) as nat,
                        )
                    },
                }
            },
        }
    }
}

/// The result of a list evaluation with the values `acc` put before it.
pub open spec fn with_before(acc: Seq<Val>, r: (State, Values)) -> (State, Values) {
    match r.1 {
        Ok(vals) => (r.0, Ok(acc + vals)),
        Err(m) => (r.0, Err(m)),
    }
}

/// What was gathered before position `i` stays in front of what the rest of
/// the list gives.
pub proof fn lemma_eval_list_gathers(es: Seq<Expression>, i: int, acc: Seq<Val>, s: State, fuel: nat)
    ensures
        eval_list(es, i, acc, s, fuel) == with_before(
            acc,
            eval_list(es, i, Seq::empty(), s, fuel),
        ),
    decreases es.len() - i,
{
    if i < 0 || i >= es.len() {
        assert(acc + Seq::<Val>::empty() =~= acc);
    } else {
        let (s1, r) = eval_exp(es[i], s, fuel);
        match r {
            Err(m) => {},
            Ok(vals) => {
                if i == es.len() - 1 {
                    assert(Seq::<Val>::empty() + vals =~= vals);
                } else {
                    let one = Seq::<Val>::empty().push(first_of(vals));
                    lemma_eval_list_gathers(es, i + 1, acc.push(first_of(vals)), s1, fuel);
                    lemma_eval_list_gathers(es, i + 1, one, s1, fuel);
                    let rest = eval_list(es, i + 1, Seq::empty(), s1, fuel);
                    match rest.1 {
                        Ok(more) => {
                            assert(acc.push(first_of(vals)) + more =~= acc + (one + more));
                        },
                        Err(m) => {},
                    }
                }
            },
        }
    }
}

/// In a list, an expression that is not the last gives its first value only
/// (`nil` when it has none), and the rest of the list follows.
pub proof fn lemma_list_truncates_all_but_last(es: Seq<Expression>, i: int, s: State, fuel: nat)
    requires
        0 <= i < es.len() - 1,
        eval_exp(es[i], s, fuel).1 is Ok,
    ensures
        eval_list(es, i, Seq::empty(), s, fuel) == with_before(
            seq![first_of(eval_exp(es[i], s, fuel).1->Ok_0)],
            eval_list(es, i + 1, Seq::empty(), eval_exp(es[i], s, fuel).0, fuel),
        ),
{
    let (s1, r) = eval_exp(es[i], s, fuel);
    let one = Seq::<Val>::empty().push(first_of(r->Ok_0));
    assert(one =~= seq![first_of(r->Ok_0)]);
    lemma_eval_list_gathers(es, i + 1, one, s1, fuel);
}

/// The last expression of a list gives all of its values.
pub proof fn lemma_list_keeps_all_of_last(es: Seq<Expression>, s: State, fuel: nat)
    requires
        es.len() > 0,
    ensures
        eval_list(es, es.len() - 1, Seq::empty(), s, fuel) == eval_exp(es[es.len() - 1], s, fuel),
{
    let (s1, r) = eval_exp(es[es.len() - 1], s, fuel);
    match r {
        Ok(vals) => {
            assert(Seq::<Val>::empty() + vals =~= vals);
        },
        Err(m) => {},
    }
}

/// A list of two expressions gives the first value of the first and all the
/// values of the second.
pub proof fn lemma_list_of_two(a: Expression, b: Expression, s: State, fuel: nat)
    requires
        eval_exp(a, s, fuel).1 is Ok,
        eval_exp(b, eval_exp(a, s, fuel).0, fuel).1 is Ok,
    ensures
        eval_list(seq![a, b], 0, Seq::empty(), s, fuel) == (
            eval_exp(b, eval_exp(a, s, fuel).0, fuel).0,
            Ok::<Seq<Val>, Seq<char>>(
                seq![first_of(eval_exp(a, s, fuel).1->Ok_0)] + eval_exp(
                    b,
                    eval_exp(a, s, fuel).0,
                    fuel,
                ).1->Ok_0,
            ),
        ),
{
    let es = seq![a, b];
    lemma_list_truncates_all_but_last(es, 0, s, fuel);
    lemma_list_keeps_all_of_last(es, eval_exp(a, s, fuel).0, fuel);
}

/// The state in which the expression at position `k` of a list is evaluated.
pub open spec fn list_state(es: Seq<Expression>, k: int, s: State, fuel: nat) -> State
    decreases k,
{
    if k <= 0 {
        s
    } else {
        eval_exp(es[k - 1], list_state(es, k - 1, s, fuel), fuel).0
    }
}

/// What the expression at position `k` of a list gives.
pub open spec fn list_item(es: Seq<Expression>, k: int, s: State, fuel: nat) -> (State, Values) {
    eval_exp(es[k], list_state(es, k, s, fuel), fuel)
}

/// Every expression of the list gives values.
pub open spec fn list_all_ok(es: Seq<Expression>, s: State, fuel: nat) -> bool {
    forall|k: int| 0 <= k < es.len() ==> (#[trigger] list_item(es, k, s, fuel)).1 is Ok
}

/// The first value of each of the first `i` expressions of a list.
pub open spec fn list_firsts(es: Seq<Expression>, i: int, s: State, fuel: nat) -> Seq<Val> {
    Seq::new(i as nat, |k: int| first_of(list_item(es, k, s, fuel).1->Ok_0))
}

/// From any position on, a list whose expressions all give values gives one
/// value for each expression before the last, and all the values of the last.
pub proof fn lemma_list_from(es: Seq<Expression>, i: int, s: State, fuel: nat)
    requires
        0 <= i < es.len(),
        list_all_ok(es, s, fuel),
    ensures
        eval_list(es, i, list_firsts(es, i, s, fuel), list_state(es, i, s, fuel), fuel) == (
            list_item(es, es.len() - 1, s, fuel).0,
            Ok::<Seq<Val>, Seq<char>>(
                list_firsts(es, es.len() - 1, s, fuel) + list_item(es, es.len() - 1, s, fuel).1->Ok_0,
            ),
        ),
    decreases es.len() - i,
{
    assert(list_item(es, i, s, fuel).1 is Ok);
    if i < es.len() - 1 {
        let vals = list_item(es, i, s, fuel).1->Ok_0;
        assert(list_firsts(es, i + 1, s, fuel) =~= list_firsts(es, i, s, fuel).push(first_of(vals)));
        assert(list_state(es, i + 1, s, fuel) == list_item(es, i, s, fuel).0);
        lemma_list_from(es, i + 1, s, fuel);
    }
}

/// A list whose expressions all give values gives, for each expression
/// before the last, its first value (`nil` when it has none), and after
/// these all the values of the last expression, in order.
pub proof fn lemma_list_shape(es: Seq<Expression>, s: State, fuel: nat)
    requires
        es.len() >= 1,
        list_all_ok(es, s, fuel),
    ensures
        ({
            let n = es.len() as int;
            let last = list_item(es, n - 1, s, fuel).1->Ok_0;
            let r = eval_list(es, 0, Seq::empty(), s, fuel);
            &&& r.0 == list_item(es, n - 1, s, fuel).0
            &&& r.1 matches Ok(vals) && vals.len() == n - 1 + last.len() && vals.skip(n - 1) == last
                && forall|k: int|
                0 <= k < n - 1 ==> vals[k] == first_of(#[trigger] list_item(es, k, s, fuel).1->Ok_0)
        }),
{
    let n = es.len() as int;
    assert(list_firsts(es, 0, s, fuel) =~= Seq::<Val>::empty());
    lemma_list_from(es, 0, s, fuel);
    let last = list_item(es, n - 1, s, fuel).1->Ok_0;
    let vals = list_firsts(es, n - 1, s, fuel) + last;
    assert(vals.skip(n - 1) =~= last);
}

/// A block with a budget whose statements all complete and whose return
/// list gives values returns one value for each expression of the list
/// before the last, its first, and all the values of the last expression.
pub proof fn lemma_block_return_list(b: Block, s: State, fuel: nat)
    requires
        fuel > 0,
        exec_stmts(b.statements@, 0, s.push_scope(), (fuel - 1) as nat).1 == Ok::<
            Option<Seq<Val>>,
            Seq<char>,
        >(done()),
        b.return_stat is Some,
        b.return_stat->Some_0@.len() >= 1,
        list_all_ok(
            b.return_stat->Some_0@,
            exec_stmts(b.statements@, 0, s.push_scope(), (fuel - 1) as nat).0,
            (fuel - 1) as nat,
        ),
    ensures
        ({
            let inner = (fuel - 1) as nat;
            let s1 = exec_stmts(b.statements@, 0, s.push_scope(), inner).0;
            let es = b.return_stat->Some_0@;
            let n = es.len() as int;
            let last = list_item(es, n - 1, s1, inner).1->Ok_0;
            let r = exec_block_without_pop(b, s, fuel);
            &&& r.0 == list_item(es, n - 1, s1, inner).0
            &&& r.1 matches Ok(Some(vals)) && vals.len() == n - 1 + last.len() && vals.skip(n - 1)
                == last && forall|k: int|
                0 <= k < n - 1 ==> vals[k] == first_of(#[trigger] list_item(es, k, s1, inner).1->Ok_0)
        }),
{
    let inner = (fuel - 1) as nat;
    let s1 = exec_stmts(b.statements@, 0, s.push_scope(), inner).0;
    lemma_list_shape(b.return_stat->Some_0@, s1, inner);
}

} // verus!
