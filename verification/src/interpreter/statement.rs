//! Execution of statements and loops.
use vstd::prelude::*;
use crate::ast::Block;
use crate::ast::Expression;
use crate::ast::Statement;
use crate::ast::Var;
use crate::interpreter::LuaVal;
use crate::interpreter::LuaValue;
use crate::interpreter::Val;
use crate::interpreter::ASTExecError;
use crate::interpreter::vals;
use crate::interpreter::signal_agree;
use crate::interpreter::unit_agree;
use crate::interpreter::environment::Env;
use crate::interpreter::expression::budget_error;
use crate::interpreter::expression::eval_list;
use crate::interpreter::expression::first;
use crate::interpreter::expression::nth;
use crate::interpreter::expression::none;
use crate::interpreter::expression::int_value;
use crate::interpreter::expression::store_value;
use crate::interpreter::semantics;

verus! {

/// The signal of normal completion.
pub fn completed<'a>() -> (signal: Option<Vec<LuaValue<'a>>>)
    ensures
        signal matches Some(list) && vals(list@) == Seq::<Val>::empty() && list@.len() == 0,
{
    Some(none())
}

/// The number as an integer, as the numeric loop reads its start and step.
pub fn to_int<'a>(v: &LuaValue<'a>) -> (r: Result<i64, ASTExecError>)
    ensures
        match r {
            Ok(i) => semantics::to_int(v@) == Ok::<i64, Seq<char>>(i),
            Err(e) => semantics::to_int(v@) == Err::<i64, Seq<char>>(e@),
        },
{
    v.clone_rc().into_int()
}

/// Whether the numeric loop goes on at `i`.
pub fn in_bounds<'a>(limit: &LuaValue<'a>, i: i64, ascending: bool) -> (r: Result<bool, ASTExecError>)
    ensures
        match r {
            Ok(b) => semantics::in_bounds(limit@, i, ascending) == Ok::<bool, Seq<char>>(b),
            Err(e) => semantics::in_bounds(limit@, i, ascending) == Err::<bool, Seq<char>>(e@),
        },
{
    if ascending {
        limit.is_greater_or_equal(i)
    } else {
        limit.is_less_or_equal(i)
    }
}

/// The error of a loop that has used up its turns.
pub fn turns_error() -> (e: ASTExecError)
    ensures
        e@ == semantics::msg_turns(),
{
    ASTExecError::new("Loop ran out of turns")
}

/// Assigns one value to one variable.
pub fn assign_var<'a>(
    var: &'a Var,
    value: LuaValue<'a>,
    is_local: bool,
    env: &mut Env<'a>,
    fuel: u64,
) -> (r: Result<(), ASTExecError>)
    ensures
        final(env)@ == semantics::assign_var(*var, value@, is_local, old(env)@, fuel as nat).0,
        unit_agree(r, semantics::assign_var(*var, value@, is_local, old(env)@, fuel as nat).1),
        old(env)@.output_kept_by(final(env)@),
    decreases fuel, 0nat,
{
    if fuel == 0 {
        return Err(budget_error());
    }
    match var {
        Var::NameVar(name) => {
            if is_local {
                env.declare(name.clone(), value);
            } else {
                env.assign(name.clone(), value);
            }
            Ok(())
        },
        Var::BracketVar(container, key) => {
            let c = first(container.eval(env, fuel - 1)?);
            let k = first(key.eval(env, fuel - 1)?);
            store_value(&c, &k, value, env)
        },
        Var::DotVar(container, name) => {
            let c = first(container.eval(env, fuel - 1)?);
            let k = LuaValue::new(LuaVal::LuaString(name.clone()));
            store_value(&c, &k, value, env)
        },
    }
}

/// Assigns the values to the variables by position.
pub fn assign_all<'a>(
    vars: &'a Vec<Var>,
    list: &Vec<LuaValue<'a>>,
    is_local: bool,
    env: &mut Env<'a>,
    fuel: u64,
) -> (r: Result<(), ASTExecError>)
    ensures
        final(env)@ == semantics::assign_all(vars@, 0, vals(list@), is_local, old(env)@, fuel as nat).0,
        unit_agree(
            r,
            semantics::assign_all(vars@, 0, vals(list@), is_local, old(env)@, fuel as nat).1,
        ),
        old(env)@.output_kept_by(final(env)@),
    decreases fuel, vars.len() + 1,
{
    let mut i: usize = 0;
    while i < vars.len()
        invariant
            0 <= i <= vars.len(),
            semantics::assign_all(vars@, 0, vals(list@), is_local, old(env)@, fuel as nat)
                == semantics::assign_all(vars@, i as int, vals(list@), is_local, env@, fuel as nat),
            old(env)@.output_kept_by(env@),
        decreases vars.len() - i,
    {
        assign_var(&vars[i], nth(list, i), is_local, env, fuel)?;
        i += 1;
    }
    Ok(())
}

/// `while cond do body end`.
pub fn while_loop<'a>(
    cond: &'a Expression,
    body: &'a Block,
    env: &mut Env<'a>,
    fuel: u64,
    turns: u64,
) -> (r: Result<Option<Vec<LuaValue<'a>>>, ASTExecError>)
    ensures
        final(env)@ == semantics::while_loop(*cond, *body, old(env)@, fuel as nat, turns as nat).0,
        signal_agree(
            r,
            semantics::while_loop(*cond, *body, old(env)@, fuel as nat, turns as nat).1,
        ),
        old(env)@.output_kept_by(final(env)@),
    decreases fuel, 1nat,
{
    if fuel == 0 {
        return Err(budget_error());
    }
    let mut left: u64 = turns;
    loop
        invariant
            fuel > 0,
            semantics::while_loop(*cond, *body, old(env)@, fuel as nat, turns as nat)
                == semantics::while_loop(*cond, *body, env@, fuel as nat, left as nat),
            old(env)@.output_kept_by(env@),
        decreases left,
    {
        if left == 0 {
            return Err(turns_error());
        }
        let c = first(cond.eval(env, fuel - 1)?);
        if c.is_false() {
            return Ok(completed());
        }
        match body.exec(env, fuel - 1)? {
            None => {
                return Ok(completed());
            },
            Some(list) => {
                if list.len() > 0 {
                    return Ok(Some(list));
                }
            },
        }
        left = left - 1;
    }
}

/// `repeat body until cond`; `base` is the number of scopes open around the
/// loop.
pub fn repeat_loop<'a>(
    body: &'a Block,
    cond: &'a Expression,
    base: usize,
    env: &mut Env<'a>,
    fuel: u64,
    turns: u64,
) -> (r: Result<Option<Vec<LuaValue<'a>>>, ASTExecError>)
    ensures
        final(env)@ == semantics::repeat_loop(
            *body,
            *cond,
            base as nat,
            old(env)@,
            fuel as nat,
            turns as nat,
        ).0,
        signal_agree(
            r,
            semantics::repeat_loop(
                *body,
                *cond,
                base as nat,
                old(env)@,
                fuel as nat,
                turns as nat,
            ).1,
        ),
        old(env)@.output_kept_by(final(env)@),
    decreases fuel, 1nat,
{
    if fuel == 0 {
        return Err(budget_error());
    }
    let mut left: u64 = turns;
    loop
        invariant
            fuel > 0,
            semantics::repeat_loop(*body, *cond, base as nat, old(env)@, fuel as nat, turns as nat)
                == semantics::repeat_loop(
                *body,
                *cond,
                base as nat,
                env@,
                fuel as nat,
                left as nat,
            ),
            old(env)@.output_kept_by(env@),
        decreases left,
    {
        if left == 0 {
            return Err(turns_error());
        }
        match body.exec_without_pop(env, fuel - 1)? {
            None => {
                close_loop(env, base);
                return Ok(completed());
            },
            Some(list) => {
                if list.len() > 0 {
                    close_loop(env, base);
                    return Ok(Some(list));
                }
            },
        }
        let c = first(cond.eval(env, fuel - 1)?);
        if c.is_true() {
            close_loop(env, base);
            return Ok(completed());
        }
        left = left - 1;
    }
}

/// Ends a loop that kept its bodies' scopes open.
pub fn close_loop<'a>(env: &mut Env<'a>, base: usize)
    ensures
        final(env)@ == semantics::close_loop(old(env)@, base as nat),
        final(env)@.output == old(env)@.output,
{
    env.pop_to(base);
    env.reopen_scope_without_clearing();
}

/// The numeric loop from `from` on.
pub fn for_loop<'a>(
    name: &'a String,
    from: i64,
    limit: &LuaValue<'a>,
    by: i64,
    ascending: bool,
    body: &'a Block,
    env: &mut Env<'a>,
    fuel: u64,
    turns: u64,
) -> (r: Result<Option<Vec<LuaValue<'a>>>, ASTExecError>)
    ensures
        final(env)@ == semantics::for_loop(
            *name,
            from,
            limit@,
            by,
            ascending,
            *body,
            old(env)@,
            fuel as nat,
            turns as nat,
        ).0,
        signal_agree(
            r,
            semantics::for_loop(
                *name,
                from,
                limit@,
                by,
                ascending,
                *body,
                old(env)@,
                fuel as nat,
                turns as nat,
            ).1,
        ),
        old(env)@.output_kept_by(final(env)@),
    decreases fuel, 1nat,
{
    if fuel == 0 {
        return Err(budget_error());
    }
    let mut left: u64 = turns;
    let mut i: i64 = from;
    loop
        invariant
            fuel > 0,
            semantics::for_loop(
                *name,
                from,
                limit@,
                by,
                ascending,
                *body,
                old(env)@,
                fuel as nat,
                turns as nat,
            ) == semantics::for_loop(
                *name,
                i,
                limit@,
                by,
                ascending,
                *body,
                env@,
                fuel as nat,
                left as nat,
            ),
            old(env)@.output_kept_by(env@),
        decreases left,
    {
        if left == 0 {
            return Err(turns_error());
        }
        if !in_bounds(limit, i, ascending)? {
            return Ok(completed());
        }
        env.push_scope();
        env.declare(name.clone(), int_value(i));
        let signal = body.exec(env, fuel - 1)?;
        env.pop_scope();
        env.reopen_scope_without_clearing();
        match signal {
            None => {
                return Ok(completed());
            },
            Some(list) => {
                if list.len() > 0 {
                    return Ok(Some(list));
                }
            },
        }
        match i.checked_add(by) {
            None => {
                return Ok(completed());
            },
            Some(next) => {
                i = next;
            },
        }
        left = left - 1;
    }
}

impl Statement {
    /// Runs the statement and gives its signal.
    pub fn exec<'a>(&'a self, env: &mut Env<'a>, fuel: u64) -> (r: Result<
        Option<Vec<LuaValue<'a>>>,
        ASTExecError,
    >)
        ensures
            final(env)@ == semantics::exec_stmt(*self, old(env)@, fuel as nat).0,
            signal_agree(r, semantics::exec_stmt(*self, old(env)@, fuel as nat).1),
            old(env)@.output_kept_by(final(env)@),
        decreases fuel, 0nat,
    {
        if fuel == 0 {
            return Err(budget_error());
        }
        match self {
            Statement::Semicolon => Ok(completed()),
            Statement::Break => Ok(None),
            Statement::FunctionCall(call) => {
                call.eval(env, fuel - 1)?;
                Ok(completed())
            },
            Statement::DoBlock(block) => block.exec(env, fuel - 1),
            Statement::Assignment(vars, exps, is_local) => {
                let list = eval_list(exps, env, fuel - 1)?;
                assign_all(vars, &list, *is_local, env, fuel - 1)?;
                Ok(completed())
            },
            Statement::While(cond, body) => {
                let turns: u64 = env.turns;
                while_loop(cond, body, env, fuel - 1, turns)
            },
            Statement::Repeat(body, cond) => {
                let base: usize = env.marks.len();
                let turns: u64 = env.turns;
                repeat_loop(body, cond, base, env, fuel - 1, turns)
            },
            Statement::If(cond, then_block, else_block) => {
                let c = first(cond.eval(env, fuel - 1)?);
                if c.is_true() {
                    then_block.exec(env, fuel - 1)
                } else {
                    match else_block {
                        Some(block) => block.exec(env, fuel - 1),
                        None => Ok(completed()),
                    }
                }
            },
            Statement::ForNum(name, start, limit, step, body) => {
                let v1 = first(start.eval(env, fuel - 1)?);
                let v2 = first(limit.eval(env, fuel - 1)?);
                let v3 = match step {
                    Some(e) => first(e.eval(env, fuel - 1)?),
                    None => int_value(1),
                };
                let from: i64 = to_int(&v1)?;
                let by: i64 = to_int(&v3)?;
                if v3.is_zero() {
                    return Err(ASTExecError::new("'for' step is zero"));
                }
                let turns: u64 = env.turns;
                for_loop(name, from, &v2, by, v3.is_positive(), body, env, fuel - 1, turns)
            },
        }
    }
}

} // verus!
