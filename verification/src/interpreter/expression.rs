//! Evaluation of expressions, variables and calls.
use vstd::prelude::*;
use crate::ast::Expression;
use crate::ast::Var;
use crate::ast::FunctionCall;
use crate::ast::Field;
use crate::interpreter::TableRef;
use crate::interpreter::LuaVal;
use crate::interpreter::LuaValue;
use crate::interpreter::LuaFunction;
use crate::interpreter::Val;
use crate::interpreter::ASTExecError;
use crate::interpreter::vals;
use crate::interpreter::values_agree;
use crate::interpreter::unit_agree;
use crate::interpreter::environment::Env;
use crate::interpreter::table::TableKey;
use crate::interpreter::table::key_of;
use crate::interpreter::table::describe_bad_key;
use crate::interpreter::number::bytes_from_int;
use crate::interpreter::semantics;
use crate::interpreter::semantics::first_of;
use crate::interpreter::semantics::nth_or_nil;
use crate::interpreter::semantics::int_val;

verus! {

/// The error of a construct that was handed no budget.
pub fn budget_error() -> (e: ASTExecError)
    ensures
        e@ == semantics::msg_budget(),
{
    ASTExecError::new("Evaluation budget exhausted")
}

/// A list of one value.
pub fn one<'a>(v: LuaValue<'a>) -> (list: Vec<LuaValue<'a>>)
    ensures
        vals(list@) == seq![v@],
{
    let list = vec![v];
    assert(vals(list@) =~= seq![v@]);
    list
}

/// An empty list of values.
pub fn none<'a>() -> (list: Vec<LuaValue<'a>>)
    ensures
        vals(list@) == Seq::<Val>::empty(),
        list@.len() == 0,
{
    let list: Vec<LuaValue<'a>> = Vec::new();
    assert(vals(list@) =~= Seq::<Val>::empty());
    list
}

/// The integer as a value.
pub fn int_value<'a>(i: i64) -> (v: LuaValue<'a>)
    ensures
        v@ == int_val(i),
{
    LuaValue::new(LuaVal::LuaNum(bytes_from_int(i), false))
}

/// The first of a list of values, or `nil`.
pub fn first<'a>(list: Vec<LuaValue<'a>>) -> (v: LuaValue<'a>)
    ensures
        v@ == first_of(vals(list@)),
{
    LuaValue::extract_first_return_val(list)
}

/// The value at a position of a list, or `nil` past its end.
pub fn nth<'a>(list: &Vec<LuaValue<'a>>, i: usize) -> (v: LuaValue<'a>)
    ensures
        v@ == nth_or_nil(vals(list@), i as int),
{
    if i < list.len() {
        list[i].clone_rc()
    } else {
        LuaValue::new(LuaVal::LuaNil)
    }
}

/// Reads `container[key]`.
pub fn index_value<'a>(container: &LuaValue<'a>, key: &LuaValue<'a>, env: &Env<'a>) -> (r: Result<
    LuaValue<'a>,
    ASTExecError,
>)
    ensures
        match r {
            Ok(v) => semantics::index_value(container@, key@, env@) == Ok::<Val, Seq<char>>(v@),
            Err(e) => semantics::index_value(container@, key@, env@) == Err::<Val, Seq<char>>(e@),
        },
{
    match &*container.0 {
        LuaVal::LuaTable(t) => match key_of(key) {
            Some(k) => Ok(env.table_get(*t, k)),
            None => Ok(LuaValue::new(LuaVal::LuaNil)),
        },
        _ => Err(ASTExecError::new("Cannot index value (only tables can be indexed)")),
    }
}

/// Writes `container[key] = value`.
pub fn store_value<'a>(
    container: &LuaValue<'a>,
    key: &LuaValue<'a>,
    value: LuaValue<'a>,
    env: &mut Env<'a>,
) -> (r: Result<(), ASTExecError>)
    ensures
        final(env)@ == semantics::store_value(container@, key@, value@, old(env)@).0,
        unit_agree(r, semantics::store_value(container@, key@, value@, old(env)@).1),
        old(env)@.output_kept_by(final(env)@),
{
    match &*container.0 {
        LuaVal::LuaTable(t) => match key_of(key) {
            Some(k) => {
                env.table_set(*t, k, value);
                Ok(())
            },
            None => Err(describe_bad_key(key)),
        },
        _ => Err(ASTExecError::new("Cannot index value (only tables can be indexed)")),
    }
}

/// Evaluates a list of expressions: every expression but the last gives its
/// first value only, the last gives all of its values.
pub fn eval_list<'a>(es: &'a Vec<Expression>, env: &mut Env<'a>, fuel: u64) -> (r: Result<
    Vec<LuaValue<'a>>,
    ASTExecError,
>)
    ensures
        final(env)@ == semantics::eval_list(es@, 0, Seq::empty(), old(env)@, fuel as nat).0,
        values_agree(r, semantics::eval_list(es@, 0, Seq::empty(), old(env)@, fuel as nat).1),
        old(env)@.output_kept_by(final(env)@),
    decreases fuel, es.len() + 1,
{
    let mut acc: Vec<LuaValue<'a>> = none();
    let mut i: usize = 0;
    while i < es.len()
        invariant
            0 <= i <= es.len(),
            semantics::eval_list(es@, 0, Seq::empty(), old(env)@, fuel as nat) == semantics::eval_list(
                es@,
                i as int,
                vals(acc@),
                env@,
                fuel as nat,
            ),
            old(env)@.output_kept_by(env@),
        decreases es.len() - i,
    {
        let ghost before = env@;
        let ghost seen = vals(acc@);
        let mut more = es[i].eval(env, fuel)?;
        if i == es.len() - 1 {
            acc.append(&mut more);
            assert(vals(acc@) =~= seen + semantics::eval_exp(es@[i as int], before, fuel as nat).1->Ok_0);
            return Ok(acc);
        }
        let v = first(more);
        acc.push(v);
        assert(vals(acc@) =~= seen.push(v@));
        i += 1;
    }
    Ok(acc)
}

/// Appends the text of each value to the output.
pub fn emit_all<'a>(args: &Vec<LuaValue<'a>>, env: &mut Env<'a>)
    ensures
        final(env)@ == semantics::emit_all(vals(args@), 0, old(env)@),
        old(env)@.output_kept_by(final(env)@),
{
    let mut i: usize = 0;
    while i < args.len()
        invariant
            0 <= i <= args.len(),
            semantics::emit_all(vals(args@), 0, old(env)@) == semantics::emit_all(
                vals(args@),
                i as int,
                env@,
            ),
            old(env)@.output_kept_by(env@),
        decreases args.len() - i,
    {
        let text = args[i].to_string();
        env.emit(text);
        i += 1;
    }
}

/// Binds the parameters to the arguments by position.
pub fn bind_params<'a>(params: &Vec<String>, args: &Vec<LuaValue<'a>>, env: &mut Env<'a>)
    ensures
        final(env)@ == semantics::bind_params(params@, vals(args@), 0, old(env)@),
        final(env)@.output == old(env)@.output,
{
    let mut i: usize = 0;
    while i < params.len()
        invariant
            0 <= i <= params.len(),
            semantics::bind_params(params@, vals(args@), 0, old(env)@) == semantics::bind_params(
                params@,
                vals(args@),
                i as int,
                env@,
            ),
            env@.output == old(env)@.output,
        decreases params.len() - i,
    {
        env.declare(params[i].clone(), nth(args, i));
        i += 1;
    }
}

/// Stores the values under the whole-number keys from `next` on.
pub fn store_all<'a>(list: &Vec<LuaValue<'a>>, t: TableRef, next: i64, env: &mut Env<'a>)
    ensures
        final(env)@ == semantics::store_all(vals(list@), 0, t, next, old(env)@),
        final(env)@.output == old(env)@.output,
{
    let mut i: usize = 0;
    let mut key: i64 = next;
    while i < list.len()
        invariant
            0 <= i <= list.len(),
            semantics::store_all(vals(list@), 0, t, next, old(env)@) == semantics::store_all(
                vals(list@),
                i as int,
                t,
                key,
                env@,
            ),
            env@.output == old(env)@.output,
        decreases list.len() - i,
    {
        env.table_set(t, TableKey::Number(bytes_from_int(key)), list[i].clone_rc());
        if key < i64::MAX {
            key = key + 1;
        }
        i += 1;
    }
}

/// Fills table `t` from the fields of a constructor.
pub fn fill_fields<'a>(fields: &'a Vec<Field>, t: TableRef, env: &mut Env<'a>, fuel: u64) -> (r:
    Result<(), ASTExecError>)
    ensures
        final(env)@ == semantics::fill_fields(fields@, 0, t, 1, old(env)@, fuel as nat).0,
        unit_agree(r, semantics::fill_fields(fields@, 0, t, 1, old(env)@, fuel as nat).1),
        old(env)@.output_kept_by(final(env)@),
    decreases fuel, fields.len() + 1,
{
    let mut i: usize = 0;
    let mut next: i64 = 1;
    while i < fields.len()
        invariant
            0 <= i <= fields.len(),
            semantics::fill_fields(fields@, 0, t, 1, old(env)@, fuel as nat) == semantics::fill_fields(
                fields@,
                i as int,
                t,
                next,
                env@,
                fuel as nat,
            ),
            old(env)@.output_kept_by(env@),
        decreases fields.len() - i,
    {
        match &fields[i] {
            Field::BracketedAssign(key, value) => {
                let k = first(key.eval(env, fuel)?);
                let v = first(value.eval(env, fuel)?);
                match key_of(&k) {
                    None => {
                        return Err(describe_bad_key(&k));
                    },
                    Some(slot) => {
                        env.table_set(t, slot, v);
                    },
                }
            },
            Field::NameAssign(name, value) => {
                let v = first(value.eval(env, fuel)?);
                env.table_set(t, TableKey::String(name.clone()), v);
            },
            Field::UnnamedAssign(value) => {
                let list = value.eval(env, fuel)?;
                if i == fields.len() - 1 {
                    store_all(&list, t, next, env);
                    return Ok(());
                }
                env.table_set(t, TableKey::Number(bytes_from_int(next)), first(list));
                if next < i64::MAX {
                    next = next + 1;
                }
            },
        }
        i += 1;
    }
    Ok(())
}

/// Applies a value to arguments.
pub fn apply<'a>(callee: &LuaValue<'a>, args: Vec<LuaValue<'a>>, env: &mut Env<'a>, fuel: u64) -> (r:
    Result<Vec<LuaValue<'a>>, ASTExecError>)
    ensures
        final(env)@ == semantics::apply(callee@, vals(args@), old(env)@, fuel as nat).0,
        values_agree(r, semantics::apply(callee@, vals(args@), old(env)@, fuel as nat).1),
        old(env)@.output_kept_by(final(env)@),
    decreases fuel, 0nat,
{
    if fuel == 0 {
        return Err(budget_error());
    }
    match &*callee.0 {
        LuaVal::Print => {
            emit_all(&args, env);
            Ok(none())
        },
        LuaVal::Function(f) => {
            let saved = env.enter_call(&f.captured_env);
            env.push_scope();
            bind_params(&f.par_list.0, &args, env);
            let signal = f.block.exec(env, fuel - 1)?;
            env.leave_call(saved.0, saved.1);
            match signal {
                None => Ok(none()),
                Some(list) => Ok(list),
            }
        },
        LuaVal::Read => Err(ASTExecError::new("Cannot call builtin (only 'print' is available)")),
        LuaVal::Random => Err(ASTExecError::new("Cannot call builtin (only 'print' is available)")),
        _ => Err(ASTExecError::new("Cannot call value (only functions can be called)")),
    }
}

impl FunctionCall {
    /// The results of the call.
    pub fn eval<'a>(&'a self, env: &mut Env<'a>, fuel: u64) -> (r: Result<
        Vec<LuaValue<'a>>,
        ASTExecError,
    >)
        ensures
            final(env)@ == semantics::eval_call(*self, old(env)@, fuel as nat).0,
            values_agree(r, semantics::eval_call(*self, old(env)@, fuel as nat).1),
            old(env)@.output_kept_by(final(env)@),
        decreases fuel, 0nat,
    {
        if fuel == 0 {
            return Err(budget_error());
        }
        let callee = first(self.callee.eval(env, fuel - 1)?);
        let args = eval_list(&self.args, env, fuel - 1)?;
        apply(&callee, args, env, fuel - 1)
    }
}

impl Var {
    /// The value of the variable.
    pub fn eval<'a>(&'a self, env: &mut Env<'a>, fuel: u64) -> (r: Result<
        Vec<LuaValue<'a>>,
        ASTExecError,
    >)
        ensures
            final(env)@ == semantics::eval_var(*self, old(env)@, fuel as nat).0,
            values_agree(r, semantics::eval_var(*self, old(env)@, fuel as nat).1),
            old(env)@.output_kept_by(final(env)@),
        decreases fuel, 0nat,
    {
        if fuel == 0 {
            return Err(budget_error());
        }
        match self {
            Var::NameVar(name) => Ok(one(env.lookup(name))),
            Var::BracketVar(container, key) => {
                let c = first(container.eval(env, fuel - 1)?);
                let k = first(key.eval(env, fuel - 1)?);
                let v = index_value(&c, &k, env)?;
                Ok(one(v))
            },
            Var::DotVar(container, name) => {
                let c = first(container.eval(env, fuel - 1)?);
                let k = LuaValue::new(LuaVal::LuaString(name.clone()));
                let v = index_value(&c, &k, env)?;
                Ok(one(v))
            },
        }
    }
}

impl Expression {
    /// The values of the expression.
    pub fn eval<'a>(&'a self, env: &mut Env<'a>, fuel: u64) -> (r: Result<
        Vec<LuaValue<'a>>,
        ASTExecError,
    >)
        ensures
            final(env)@ == semantics::eval_exp(*self, old(env)@, fuel as nat).0,
            values_agree(r, semantics::eval_exp(*self, old(env)@, fuel as nat).1),
            old(env)@.output_kept_by(final(env)@),
        decreases fuel, 0nat,
    {
        if fuel == 0 {
            return Err(budget_error());
        }
        match self {
            Expression::Nil => Ok(one(LuaValue::new(LuaVal::LuaNil))),
            Expression::False => Ok(one(LuaValue::new(LuaVal::LuaBool(false)))),
            Expression::True => Ok(one(LuaValue::new(LuaVal::LuaBool(true)))),
            Expression::Numeral(bytes, is_float) => Ok(
                one(LuaValue::new(LuaVal::LuaNum(*bytes, *is_float))),
            ),
            Expression::LiteralString(text) => Ok(
                one(LuaValue::new(LuaVal::LuaString(text.clone()))),
            ),
            Expression::FunctionDef(par_list, block) => {
                let captured_env = env.capture();
                let id: usize = env.count_closure();
                env.reopen_scope_without_clearing();
                Ok(
                    one(
                        LuaValue::new(
                            LuaVal::Function(LuaFunction { id, par_list, block, captured_env }),
                        ),
                    ),
                )
            },
            Expression::Var(var) => var.eval(env, fuel - 1),
            Expression::Call(call) => call.eval(env, fuel - 1),
            Expression::TableConstructor(fields) => {
                let t: usize = env.new_table();
                fill_fields(fields, t, env, fuel - 1)?;
                Ok(one(LuaValue::new(LuaVal::LuaTable(t))))
            },
            Expression::Not(operand) => {
                let v = first(operand.eval(env, fuel - 1)?);
                Ok(one(LuaValue::new(LuaVal::LuaBool(v.is_false()))))
            },
            Expression::Length(operand) => {
                let v = first(operand.eval(env, fuel - 1)?);
                match &*v.0 {
                    LuaVal::LuaTable(t) => {
                        if *t < env.tables.len() {
                            let border: usize = env.tables[*t].calculate_border();
                            let length: i64 = if border as u64 > 0x7fff_ffff_ffff_ffff {
                                i64::MAX
                            } else {
                                border as i64
                            };
                            Ok(one(int_value(length)))
                        } else {
                            Ok(one(int_value(0)))
                        }
                    },
                    _ => Err(
                        ASTExecError::new(
                            "Cannot take length of value (only tables have a length)",
                        ),
                    ),
                }
            },
        }
    }
}

} // verus!
