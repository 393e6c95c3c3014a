//! Runtime values and the evaluation engine.
use vstd::prelude::*;
use std::rc::Rc;
use crate::ast::AST;
use crate::ast::Block;
use crate::interpreter::environment::Env;
use crate::ast::ParList;
use crate::interpreter::number::payload_bits;
use crate::interpreter::number::bits_as_int;
use crate::interpreter::number::bits_from_bytes;
use crate::interpreter::number::int_from_bits;
use crate::interpreter::float::float_is_zero;
use crate::interpreter::float::float_is_nan;
use crate::interpreter::float::float_sign;
use crate::interpreter::float::float_has_fraction;
use crate::interpreter::float::float_floor_i64;
use crate::interpreter::float::float_ceil_i64;
use crate::interpreter::decimal::nat_text;
use crate::interpreter::decimal::int_text;
use crate::interpreter::decimal::append_nat;
use crate::interpreter::decimal::int_to_text;
use crate::interpreter::float_text::float_text;
use crate::interpreter::float_text::float_to_text;
use vstd::string::StringExecFns;

pub use table::LuaTable;
pub use table::TableKey;

pub mod number;
pub mod float;
pub mod decimal;
pub mod digits;
pub mod float_text;
pub mod bindings;
pub mod table;
pub mod environment;
pub mod semantics;
pub mod soundness;
pub mod expression;
pub mod statement;

verus! {

/// A handle to a table in the environment's table store.
pub type TableRef = usize;

/// A handle to a binding frame in the environment's frame store.
pub type FrameRef = usize;

/// The frames a closure sees, outermost first.
#[derive(Debug, PartialEq, Clone)]
pub struct LocalEnv(pub Vec<FrameRef>);

#[derive(Debug, PartialEq)]
pub enum LuaVal<'a> {
    /// A table, by its handle: every holder of the handle sees the same table.
    LuaTable(TableRef),
    LuaNil,
    LuaBool(bool),
    /// A number: eight big-endian bytes, and whether they spell a float.
    LuaNum([u8; 8], bool),
    LuaString(String),
    Function(LuaFunction<'a>),
    /// The builtin that appends to the output buffer.
    Print,
    Read,
    Random,
}

/// A function literal together with the scope chain it was created in.
#[derive(Debug, PartialEq)]
pub struct LuaFunction<'a> {
    pub id: usize,
    pub par_list: &'a ParList,
    pub block: &'a Block,
    pub captured_env: LocalEnv,
}

/// A value with shared ownership.
#[derive(Debug, PartialEq, Clone)]
pub struct LuaValue<'a>(pub Rc<LuaVal<'a>>);

/// What a closure is, as the contracts see it.
pub struct Closure {
    pub id: usize,
    pub par_list: ParList,
    pub block: Block,
    pub captured: Seq<FrameRef>,
}

/// What a value is, as the contracts see it.
pub enum Val {
    Nil,
    Bool(bool),
    /// The 64-bit payload and whether it is read as a float.
    Num(u64, bool),
    Str(Seq<char>),
    Table(TableRef),
    Function(Closure),
    Print,
    Read,
    Random,
}

impl<'a> View for LuaVal<'a> {
    type V = Val;

    open spec fn view(&self) -> Val {
        match *self {
            LuaVal::LuaTable(t) => Val::Table(t),
            LuaVal::LuaNil => Val::Nil,
            LuaVal::LuaBool(b) => Val::Bool(b),
            LuaVal::LuaNum(bytes, is_float) => Val::Num(payload_bits(bytes), is_float),
            LuaVal::LuaString(s) => Val::Str(s@),
            LuaVal::Function(f) => Val::Function(
                Closure {
                    id: f.id,
                    par_list: *f.par_list,
                    block: *f.block,
                    captured: f.captured_env.0@,
                },
            ),
            LuaVal::Print => Val::Print,
            LuaVal::Read => Val::Read,
            LuaVal::Random => Val::Random,
        }
    }
}

impl<'a> View for LuaValue<'a> {
    type V = Val;

    open spec fn view(&self) -> Val {
        (*self.0)@
    }
}

/// A runtime error: its message.
#[derive(Debug, PartialEq)]
pub struct ASTExecError(pub String);

impl View for ASTExecError {
    type V = Seq<char>;

    open spec fn view(&self) -> Seq<char> {
        self.0@
    }
}

impl ASTExecError {
    pub fn new(msg: &str) -> (e: Self)
        ensures
            e@ == msg@,
    {
        ASTExecError(String::from_str(msg))
    }

    /// The message.
    pub fn to_string(&self) -> (text: String)
        ensures
            text@ == self@,
    {
        self.0.clone()
    }
}

impl Val {
    /// Only `nil` and `false` test false.
    pub open spec fn is_false(self) -> bool {
        self == Val::Nil || self == Val::Bool(false)
    }

    pub open spec fn is_true(self) -> bool {
        !self.is_false()
    }

    /// A number that compares equal to zero.
    pub open spec fn is_zero(self) -> bool {
        match self {
            Val::Num(bits, true) => float_is_zero(bits),
            Val::Num(bits, false) => bits_as_int(bits) == 0,
            _ => false,
        }
    }

    /// A number that compares greater than zero.
    pub open spec fn is_positive(self) -> bool {
        match self {
            Val::Num(bits, true) => !float_is_nan(bits) && !float_sign(bits) && !float_is_zero(bits),
            Val::Num(bits, false) => bits_as_int(bits) > 0,
            _ => false,
        }
    }

    /// A number that compares less than zero.
    pub open spec fn is_negative(self) -> bool {
        match self {
            Val::Num(bits, true) => !float_is_nan(bits) && float_sign(bits) && !float_is_zero(bits),
            Val::Num(bits, false) => bits_as_int(bits) < 0,
            _ => false,
        }
    }

    /// The number rounded down to a 64-bit integer.
    pub open spec fn floor(self) -> i64
        recommends
            self is Num,
    {
        match self {
            Val::Num(bits, true) => float_floor_i64(bits),
            Val::Num(bits, false) => bits_as_int(bits),
            _ => 0,
        }
    }

    /// The number rounded up to a 64-bit integer.
    pub open spec fn ceil(self) -> i64
        recommends
            self is Num,
    {
        match self {
            Val::Num(bits, true) => float_ceil_i64(bits),
            Val::Num(bits, false) => bits_as_int(bits),
            _ => 0,
        }
    }

    /// Whether the value is a number whose floor and ceiling are equal: an
    /// integer, or a float that is whole or infinite.
    pub open spec fn is_integral(self) -> bool {
        match self {
            Val::Num(bits, true) => !float_is_nan(bits) && !float_has_fraction(bits),
            Val::Num(bits, false) => true,
            _ => false,
        }
    }
}

/// The text that stands for a value in output. A table or a function shows
/// as a token of its identity, not its contents.
pub open spec fn display_text(v: Val) -> Seq<char> {
    match v {
        Val::Nil => "nil"@,
        Val::Bool(b) => if b {
            "true"@
        } else {
            "false"@
        },
        Val::Num(bits, is_float) => if is_float {
            float_text(bits)
        } else {
            int_text(bits_as_int(bits) as int)
        },
        Val::Str(s) => s,
        Val::Table(t) => "table: "@ + nat_text(t as nat),
        Val::Function(f) => "function: "@ + nat_text(f.id as nat),
        Val::Print => "print"@,
        Val::Read => "read"@,
        Val::Random => "random"@,
    }
}

pub open spec fn msg_cannot_compare() -> Seq<char> {
    "Cannot compare values (types cannot be compared)"@
}

pub open spec fn msg_cannot_negate() -> Seq<char> {
    "Cannot negate value (only boolean can be negated)"@
}

pub open spec fn msg_inexact_float() -> Seq<char> {
    "Cannot convert float that does not have exact integer value to integer"@
}

pub open spec fn msg_not_an_integer() -> Seq<char> {
    "Cannot convert value to integer (types cannot be converted)"@
}

pub open spec fn msg_not_a_string() -> Seq<char> {
    "Cannot convert value to String (types cannot be converted)"@
}

/// What a list of values is, as the contracts see it.
pub open spec fn vals<'a>(v: Seq<LuaValue<'a>>) -> Seq<Val> {
    Seq::new(v.len(), |i: int| v[i]@)
}

/// Whether a list of values or an error is the one the semantics gives.
pub open spec fn values_agree<'a>(
    r: Result<Vec<LuaValue<'a>>, ASTExecError>,
    m: Result<Seq<Val>, Seq<char>>,
) -> bool {
    match r {
        Ok(v) => m == Ok::<Seq<Val>, Seq<char>>(vals(v@)),
        Err(e) => m == Err::<Seq<Val>, Seq<char>>(e@),
    }
}

/// Whether a signal or an error is the one the semantics gives.
pub open spec fn signal_agree<'a>(
    r: Result<Option<Vec<LuaValue<'a>>>, ASTExecError>,
    m: Result<Option<Seq<Val>>, Seq<char>>,
) -> bool {
    match r {
        Ok(None) => m == Ok::<Option<Seq<Val>>, Seq<char>>(None),
        Ok(Some(v)) => m == Ok::<Option<Seq<Val>>, Seq<char>>(Some(vals(v@))),
        Err(e) => m == Err::<Option<Seq<Val>>, Seq<char>>(e@),
    }
}

/// Whether success or an error is the one the semantics gives.
pub open spec fn unit_agree(r: Result<(), ASTExecError>, m: Result<(), Seq<char>>) -> bool {
    match r {
        Ok(_) => m is Ok,
        Err(e) => m == Err::<(), Seq<char>>(e@),
    }
}

/// Truth is a partition: `nil` and `false` are false and nothing else is;
/// every number, every string, every table and every function is true.
pub proof fn lemma_truth_partition(v: Val)
    ensures
        v.is_true() != v.is_false(),
        v.is_false() <==> (v == Val::Nil || v == Val::Bool(false)),
        (v == Val::Bool(true) || v is Num || v is Str || v is Table || v is Function)
            ==> v.is_true(),
{
}

/// Another owner of the same value. Calls `Rc::clone` of the standard
/// library, which gives a second pointer to the same allocation; the
/// contract says that what the new pointer holds is what the old one holds.
#[verifier::external_body]
fn share<'a>(value: &Rc<LuaVal<'a>>) -> (shared: Rc<LuaVal<'a>>)
    ensures
        shared == value,
{
    Rc::clone(value)
}

impl<'a> LuaValue<'a> {
    pub fn new(val: LuaVal<'a>) -> (value: Self)
        ensures
            *value.0 == val,
            value@ == val@,
    {
        LuaValue(Rc::new(val))
    }

    pub fn clone_rc(&self) -> (value: LuaValue<'a>)
        ensures
            value == *self,
    {
        LuaValue(share(&self.0))
    }

    pub fn is_false(&self) -> (r: bool)
        ensures
            r == self@.is_false(),
    {
        match &*self.0 {
            LuaVal::LuaNil => true,
            LuaVal::LuaBool(b) => !*b,
            _ => false,
        }
    }

    pub fn is_true(&self) -> (r: bool)
        ensures
            r == self@.is_true(),
            r == !self@.is_false(),
    {
        !self.is_false()
    }

    pub fn is_numeral(&self) -> (r: bool)
        ensures
            r == (self@ is Num),
    {
        match &*self.0 {
            LuaVal::LuaNum(_, _) => true,
            _ => false,
        }
    }

    pub fn is_string(&self) -> (r: bool)
        ensures
            r == (self@ is Str),
    {
        match &*self.0 {
            LuaVal::LuaString(_) => true,
            _ => false,
        }
    }

    pub fn is_nil(&self) -> (r: bool)
        ensures
            r == (self@ is Nil),
    {
        match &*self.0 {
            LuaVal::LuaNil => true,
            _ => false,
        }
    }

    pub fn is_zero(&self) -> (r: bool)
        ensures
            r == self@.is_zero(),
    {
        match &*self.0 {
            LuaVal::LuaNum(num, is_float) => {
                let bits: u64 = bits_from_bytes(num);
                if *is_float {
                    float::is_zero(bits)
                } else {
                    int_from_bits(bits) == 0
                }
            },
            _ => false,
        }
    }

    pub fn is_positive(&self) -> (r: bool)
        ensures
            r == self@.is_positive(),
    {
        match &*self.0 {
            LuaVal::LuaNum(num, is_float) => {
                let bits: u64 = bits_from_bytes(num);
                if *is_float {
                    !float::is_nan(bits) && !float::sign(bits) && !float::is_zero(bits)
                } else {
                    int_from_bits(bits) > 0
                }
            },
            _ => false,
        }
    }

    pub fn is_negative(&self) -> (r: bool)
        ensures
            r == self@.is_negative(),
    {
        match &*self.0 {
            LuaVal::LuaNum(num, is_float) => {
                let bits: u64 = bits_from_bytes(num);
                if *is_float {
                    !float::is_nan(bits) && float::sign(bits) && !float::is_zero(bits)
                } else {
                    int_from_bits(bits) < 0
                }
            },
            _ => false,
        }
    }

    /// Whether the number is at least `num`; a float is rounded down first.
    pub fn is_greater_or_equal(&self, num: i64) -> (r: Result<bool, ASTExecError>)
        ensures
            self@ is Num ==> (r matches Ok(b) && b == (self@.floor() >= num)),
            !(self@ is Num) ==> (r matches Err(e) && e@ == msg_cannot_compare()),
    {
        match &*self.0 {
            LuaVal::LuaNum(n, is_float) => {
                let bits: u64 = bits_from_bytes(n);
                if *is_float {
                    Ok(float::floor_i64(bits) >= num)
                } else {
                    Ok(int_from_bits(bits) >= num)
                }
            },
            _ => Err(ASTExecError::new("Cannot compare values (types cannot be compared)")),
        }
    }

    /// Whether the number is at most `num`; a float is rounded up first.
    pub fn is_less_or_equal(&self, num: i64) -> (r: Result<bool, ASTExecError>)
        ensures
            self@ is Num ==> (r matches Ok(b) && b == (self@.ceil() <= num)),
            !(self@ is Num) ==> (r matches Err(e) && e@ == msg_cannot_compare()),
    {
        match &*self.0 {
            LuaVal::LuaNum(n, is_float) => {
                let bits: u64 = bits_from_bytes(n);
                if *is_float {
                    Ok(float::ceil_i64(bits) <= num)
                } else {
                    Ok(int_from_bits(bits) <= num)
                }
            },
            _ => Err(ASTExecError::new("Cannot compare values (types cannot be compared)")),
        }
    }

    pub fn negate_bool(self) -> (r: Result<LuaValue<'a>, ASTExecError>)
        ensures
            match self@ {
                Val::Bool(b) => r matches Ok(v) && v@ == Val::Bool(!b),
                _ => r matches Err(e) && e@ == msg_cannot_negate(),
            },
    {
        match &*self.0 {
            LuaVal::LuaBool(b) => Ok(LuaValue::new(LuaVal::LuaBool(!*b))),
            _ => Err(ASTExecError::new("Cannot negate value (only boolean can be negated)")),
        }
    }

    /// The number as an integer: an integer as it is, a float only when it has
    /// no fractional part (what does not fit in 64 bits gives the nearest bound).
    pub fn into_int(self) -> (r: Result<i64, ASTExecError>)
        ensures
            self@.is_integral() ==> (r matches Ok(i) && i == self@.floor()),
            self@ is Num && !self@.is_integral() ==> (r matches Err(e) && e@ == msg_inexact_float()),
            !(self@ is Num) ==> (r matches Err(e) && e@ == msg_not_an_integer()),
    {
        match &*self.0 {
            LuaVal::LuaNum(n, is_float) => {
                let bits: u64 = bits_from_bytes(n);
                if *is_float {
                    if float::is_nan(bits) || float::has_fraction(bits) {
                        Err(
                            ASTExecError::new(
                                "Cannot convert float that does not have exact integer value to integer",
                            ),
                        )
                    } else {
                        Ok(float::floor_i64(bits))
                    }
                } else {
                    Ok(int_from_bits(bits))
                }
            },
            _ => Err(
                ASTExecError::new("Cannot convert value to integer (types cannot be converted)"),
            ),
        }
    }

    /// The text of a number or a string; other values have none.
    pub fn into_string(self) -> (r: Result<String, ASTExecError>)
        ensures
            self@ is Num || self@ is Str ==> (r matches Ok(s) && s@ == display_text(self@)),
            !(self@ is Num || self@ is Str) ==> (r matches Err(e) && e@ == msg_not_a_string()),
    {
        match &*self.0 {
            LuaVal::LuaNum(n, is_float) => {
                let bits: u64 = bits_from_bytes(n);
                if *is_float {
                    Ok(float_to_text(bits))
                } else {
                    Ok(int_to_text(int_from_bits(bits)))
                }
            },
            LuaVal::LuaString(s) => Ok(s.clone()),
            _ => Err(
                ASTExecError::new("Cannot convert value to String (types cannot be converted)"),
            ),
        }
    }

    /// The text that stands for the value in output.
    pub fn to_string(&self) -> (text: String)
        ensures
            text@ == display_text(self@),
    {
        match &*self.0 {
            LuaVal::LuaNil => String::from_str("nil"),
            LuaVal::LuaBool(b) => if *b {
                String::from_str("true")
            } else {
                String::from_str("false")
            },
            LuaVal::LuaNum(n, is_float) => {
                let bits: u64 = bits_from_bytes(n);
                if *is_float {
                    float_to_text(bits)
                } else {
                    int_to_text(int_from_bits(bits))
                }
            },
            LuaVal::LuaString(s) => s.clone(),
            LuaVal::LuaTable(t) => {
                let mut text = String::from_str("table: ");
                append_nat(&mut text, *t as u64);
                text
            },
            LuaVal::Function(func) => {
                let mut text = String::from_str("function: ");
                append_nat(&mut text, func.id as u64);
                text
            },
            LuaVal::Print => String::from_str("print"),
            LuaVal::Read => String::from_str("read"),
            LuaVal::Random => String::from_str("random"),
        }
    }

    /// The first value of a list of results, or `nil` when the list is empty.
    pub fn extract_first_return_val(return_vals: Vec<LuaValue<'a>>) -> (first: LuaValue<'a>)
        ensures
            return_vals.len() == 0 ==> first@ == Val::Nil,
            return_vals.len() > 0 ==> first == return_vals[0],
    {
        if return_vals.len() == 0 {
            LuaValue::new(LuaVal::LuaNil)
        } else {
            return_vals[0].clone_rc()
        }
    }
}

impl Block {
    /// Runs the block in a scope of its own; at the end the scope is left and
    /// the enclosing scope goes on in a fresh frame, so that what is declared
    /// after the block cannot be seen by a closure made inside it.
    pub fn exec<'a>(&'a self, env: &mut Env<'a>, fuel: u64) -> (r: Result<
        Option<Vec<LuaValue<'a>>>,
        ASTExecError,
    >)
        ensures
            final(env)@ == semantics::exec_block(*self, old(env)@, fuel as nat).0,
            signal_agree(r, semantics::exec_block(*self, old(env)@, fuel as nat).1),
            old(env)@.output_kept_by(final(env)@),
        decreases fuel, 0nat,
    {
        if fuel == 0 {
            return Err(expression::budget_error());
        }
        let return_vals = self.exec_without_pop(env, fuel - 1)?;
        env.pop_scope();
        env.reopen_scope_without_clearing();
        Ok(return_vals)
    }

    /// Runs the block in a scope of its own and leaves the scope open, for a
    /// loop whose condition reads the locals of its body.
    ///
    /// The statements run in order; the first break or return ends the block
    /// and is its signal. Otherwise the return list, if there is one, gives
    /// the signal: every expression but the last gives its first value only,
    /// the last gives all of its values.
    pub fn exec_without_pop<'a>(&'a self, env: &mut Env<'a>, fuel: u64) -> (r: Result<
        Option<Vec<LuaValue<'a>>>,
        ASTExecError,
    >)
        ensures
            final(env)@ == semantics::exec_block_without_pop(*self, old(env)@, fuel as nat).0,
            signal_agree(r, semantics::exec_block_without_pop(*self, old(env)@, fuel as nat).1),
            old(env)@.output_kept_by(final(env)@),
        decreases fuel, 0nat,
    {
        if fuel == 0 {
            return Err(expression::budget_error());
        }
        env.push_scope();
        let mut i: usize = 0;
        while i < self.statements.len()
            invariant
                0 <= i <= self.statements.len(),
                fuel > 0,
                semantics::exec_stmts(
                    self.statements@,
                    0,
                    old(env)@.push_scope(),
                    (fuel - 1) as nat,
                ) == semantics::exec_stmts(self.statements@, i as int, env@, (fuel - 1) as nat),
                old(env)@.output_kept_by(env@),
            decreases self.statements.len() - i,
        {
            match self.statements[i].exec(env, fuel - 1)? {
                None => {
                    return Ok(None);
                },
                Some(return_vals) => {
                    if return_vals.len() > 0 {
                        return Ok(Some(return_vals));
                    }
                },
            }
            i += 1;
        }
        match &self.return_stat {
            None => Ok(statement::completed()),
            Some(explist) => {
                let return_vals = expression::eval_list(explist, env, fuel - 1)?;
                Ok(Some(return_vals))
            },
        }
    }
}

impl AST {
    /// Runs the program in `env` with the budget that `env` holds. The values
    /// that the top-level block returns are dropped. A well formed state
    /// stays well formed.
    pub fn exec<'a>(&'a self, env: &mut Env<'a>) -> (r: Result<(), ASTExecError>)
        ensures
            final(env)@ == semantics::exec_block(self.0, old(env)@, old(env)@.budget as nat).0,
            unit_agree(
                r,
                match semantics::exec_block(self.0, old(env)@, old(env)@.budget as nat).1 {
                    Ok(_) => Ok(()),
                    Err(m) => Err(m),
                },
            ),
            old(env)@.output_kept_by(final(env)@),
            old(env)@.wf() ==> final(env)@.wf(),
    {
        let budget: u64 = env.budget;
        let result = self.0.exec(env, budget);
        let frames: usize = env.frames.len();
        let tables: usize = env.tables.len();
        proof {
            soundness::lemma_exec_block(self.0, old(env)@, budget as nat);
            soundness::lemma_live_lists(Seq::empty(), Seq::empty(), Val::Nil, old(env)@);
            assert(env@.roomy());
        }
        match result {
            Ok(_) => Ok(()),
            Err(e) => Err(e),
        }
    }
}

} // verus!
