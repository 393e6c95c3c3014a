//! Every state of a run is well formed.
//!
//! A state is well formed when every handle in it names something: the
//! frames of the chain exist, and so do the tables and the captured frames
//! of every value that a frame or a table holds. The stores only grow, so a
//! handle that names something goes on naming it. Evaluation starts in a well
//! formed state and, as the lemmas of this file show construct by
//! construct, keeps the state well formed and gives values that live in it.
use vstd::prelude::*;
use crate::ast::Block;
use crate::ast::Statement;
use crate::ast::Expression;
use crate::ast::Var;
use crate::ast::FunctionCall;
use crate::ast::Field;
use crate::interpreter::FrameRef;
use crate::interpreter::TableRef;
use crate::interpreter::Val;
use crate::interpreter::environment::State;
use crate::interpreter::bindings::assoc_get;
use crate::interpreter::bindings::assoc_set;
use crate::interpreter::bindings::assoc_index;
use crate::interpreter::bindings::lemma_assoc_index_from;
use crate::interpreter::table::Key;
use crate::interpreter::table::int_key;
use crate::interpreter::semantics::Values;
use crate::interpreter::semantics::Signal;
use crate::interpreter::semantics::first_of;
use crate::interpreter::semantics::nth_or_nil;
use crate::interpreter::semantics::following;
use crate::interpreter::semantics::to_int;
use crate::interpreter::semantics::in_bounds;
use crate::interpreter::semantics::int_val;
use crate::interpreter::semantics::bind_params;
use crate::interpreter::semantics::emit_all;
use crate::interpreter::semantics::store_all;
use crate::interpreter::semantics::index_value;
use crate::interpreter::semantics::store_value;
use crate::interpreter::semantics::eval_exp;
use crate::interpreter::semantics::eval_var;
use crate::interpreter::semantics::eval_list;
use crate::interpreter::semantics::fill_fields;
use crate::interpreter::semantics::eval_call;
use crate::interpreter::semantics::apply;
use crate::interpreter::semantics::exec_block;
use crate::interpreter::semantics::exec_block_without_pop;
use crate::interpreter::semantics::exec_stmts;
use crate::interpreter::semantics::exec_stmt;
use crate::interpreter::semantics::assign_all;
use crate::interpreter::semantics::assign_var;
use crate::interpreter::semantics::while_loop;
use crate::interpreter::semantics::repeat_loop;
use crate::interpreter::semantics::for_loop;
use crate::interpreter::semantics::close_loop;

verus! {

/// Whether every frame of a chain exists in the state.
pub open spec fn chain_lives(chain: Seq<FrameRef>, s: State) -> bool {
    forall|i: int| 0 <= i < chain.len() ==> #[trigger] chain[i] < s.frames.len()
}

impl Val {
    /// Whether every handle in the value names something in the state.
    pub open spec fn lives_in(self, s: State) -> bool {
        match self {
            Val::Table(t) => t < s.tables.len(),
            Val::Function(f) => chain_lives(f.captured, s),
            _ => true,
        }
    }
}

/// Whether every value of a list lives in the state.
pub open spec fn all_live(vals: Seq<Val>, s: State) -> bool {
    forall|i: int| 0 <= i < vals.len() ==> (#[trigger] vals[i]).lives_in(s)
}

/// Whether every value of an association list lives in the state.
pub open spec fn entries_live<K>(entries: Seq<(K, Val)>, s: State) -> bool {
    forall|i: int| 0 <= i < entries.len() ==> (#[trigger] entries[i]).1.lives_in(s)
}

impl State {
    /// Whether `later` has every frame and every table of `self`.
    pub open spec fn grown_to(self, later: State) -> bool {
        self.frames.len() <= later.frames.len() && self.tables.len() <= later.tables.len()
    }

    /// The state is well formed: the global frame exists, the frames of the
    /// chain exist, and every value in a frame or a table lives in the state.
    #[verifier::opaque]
    pub open spec fn wf(self) -> bool {
        &&& self.frames.len() > 0
        &&& chain_lives(self.chain, self)
        &&& forall|f: int| 0 <= f < self.frames.len() ==> entries_live(#[trigger] self.frames[f], self)
        &&& forall|t: int| 0 <= t < self.tables.len() ==> entries_live(#[trigger] self.tables[t], self)
    }

    /// `later` is well formed and has grown from `self`.
    pub open spec fn kept_by(self, later: State) -> bool {
        later.wf() && self.grown_to(later)
    }

    /// The stores fit the machine: every position in them is a handle.
    pub open spec fn roomy(self) -> bool {
        self.frames.len() <= usize::MAX && self.tables.len() <= usize::MAX
    }
}

/// What holds of a construct that starts in `s` with the values `given` and
/// ends in `end` with the values `got`: the stores have only grown; and if
/// the start was well formed, the given values lived in it and the stores
/// of the end fit the machine, then the end is well formed and the values
/// got live in it.
pub open spec fn kept(s: State, given: Seq<Val>, end: State, got: Seq<Val>) -> bool {
    &&& s.grown_to(end)
    &&& s.wf() && all_live(given, s) && end.roomy() ==> end.wf() && all_live(got, end)
}

/// The values of a result, none for an error.
pub open spec fn got_values(r: Values) -> Seq<Val> {
    match r {
        Ok(vals) => vals,
        Err(_) => Seq::empty(),
    }
}

/// The values of a signal, none for a break or an error.
pub open spec fn got_signal(r: Signal) -> Seq<Val> {
    match r {
        Ok(Some(vals)) => vals,
        _ => Seq::empty(),
    }
}

pub proof fn lemma_live_grows(v: Val, s: State, later: State)
    requires
        v.lives_in(s),
        s.grown_to(later),
    ensures
        v.lives_in(later),
{
    match v {
        Val::Function(f) => {
            assert forall|i: int| 0 <= i < f.captured.len() implies #[trigger] f.captured[i]
                < later.frames.len() by {
                assert(f.captured[i] < s.frames.len());
            }
        },
        _ => {},
    }
}

pub proof fn lemma_all_live_grows(vals: Seq<Val>, s: State, later: State)
    requires
        all_live(vals, s),
        s.grown_to(later),
    ensures
        all_live(vals, later),
{
    assert forall|i: int| 0 <= i < vals.len() implies (#[trigger] vals[i]).lives_in(later) by {
        lemma_live_grows(vals[i], s, later);
    }
}

pub proof fn lemma_entries_live_grow<K>(entries: Seq<(K, Val)>, s: State, later: State)
    requires
        entries_live(entries, s),
        s.grown_to(later),
    ensures
        entries_live(entries, later),
{
    assert forall|i: int| 0 <= i < entries.len() implies (#[trigger] entries[i]).1.lives_in(
        later,
    ) by {
        lemma_live_grows(entries[i].1, s, later);
    }
}

pub proof fn lemma_entries_live_set<K>(entries: Seq<(K, Val)>, key: K, v: Val, s: State)
    requires
        entries_live(entries, s),
        v.lives_in(s),
    ensures
        entries_live(assoc_set(entries, key, v), s),
{
    let after = assoc_set(entries, key, v);
    let at = assoc_index(entries, key);
    lemma_assoc_index_from(entries, key, 0);
    assert forall|i: int| 0 <= i < after.len() implies (#[trigger] after[i]).1.lives_in(s) by {
        if i != at {
            assert(after[i] == entries[i]);
        }
    }
}

pub proof fn lemma_entries_live_get<K>(entries: Seq<(K, Val)>, key: K, s: State)
    requires
        entries_live(entries, s),
    ensures
        assoc_get(entries, key) matches Some(v) ==> v.lives_in(s),
{
    lemma_assoc_index_from(entries, key, 0);
}

/// The initial state is well formed.
pub proof fn lemma_initial_wf()
    ensures
        State::initial().wf(),
{
    reveal(State::wf);
    let s = State::initial();
    assert forall|f: int| 0 <= f < s.frames.len() implies entries_live(
        #[trigger] s.frames[f],
        s,
    ) by {}
}

/// What a well formed state gives at once.
pub proof fn lemma_wf_chain(s: State)
    requires
        s.wf(),
    ensures
        s.frames.len() > 0,
        chain_lives(s.chain, s),
        s.chain_in_store(),
{
    reveal(State::wf);
}

/// A state that differs from a well formed one in neither store nor chain is
/// well formed.
pub proof fn lemma_wf_same_stores(s: State, other: State)
    requires
        s.wf(),
        other.frames == s.frames,
        other.tables == s.tables,
        other.chain == s.chain,
    ensures
        s.kept_by(other),
{
    reveal(State::wf);
    assert forall|f: int| 0 <= f < other.frames.len() implies entries_live(
        #[trigger] other.frames[f],
        other,
    ) by {
        lemma_entries_live_grow(s.frames[f], s, other);
    }
    assert forall|t: int| 0 <= t < other.tables.len() implies entries_live(
        #[trigger] other.tables[t],
        other,
    ) by {
        lemma_entries_live_grow(s.tables[t], s, other);
    }
}

/// A state that differs from a well formed one in its chain only, and whose
/// chain lives in it, is well formed.
pub proof fn lemma_wf_other_chain(s: State, other: State)
    requires
        s.wf(),
        other.frames == s.frames,
        other.tables == s.tables,
        chain_lives(other.chain, s),
    ensures
        s.kept_by(other),
{
    reveal(State::wf);
    assert forall|f: int| 0 <= f < other.frames.len() implies entries_live(
        #[trigger] other.frames[f],
        other,
    ) by {
        lemma_entries_live_grow(s.frames[f], s, other);
    }
    assert forall|t: int| 0 <= t < other.tables.len() implies entries_live(
        #[trigger] other.tables[t],
        other,
    ) by {
        lemma_entries_live_grow(s.tables[t], s, other);
    }
    assert forall|i: int| 0 <= i < other.chain.len() implies #[trigger] other.chain[i]
        < other.frames.len() by {}
}

/// A new empty frame, in the chain or not, keeps the state well formed.
pub proof fn lemma_wf_new_frame(s: State, other: State)
    requires
        s.wf(),
        s.frames.len() < usize::MAX,
        other.frames == s.frames.push(Seq::empty()),
        other.tables == s.tables,
        other.chain == s.chain || other.chain == s.chain.push(s.frames.len() as usize),
    ensures
        s.kept_by(other),
{
    reveal(State::wf);
    assert forall|f: int| 0 <= f < other.frames.len() implies entries_live(
        #[trigger] other.frames[f],
        other,
    ) by {
        if f < s.frames.len() {
            lemma_entries_live_grow(s.frames[f], s, other);
        }
    }
    assert forall|t: int| 0 <= t < other.tables.len() implies entries_live(
        #[trigger] other.tables[t],
        other,
    ) by {
        lemma_entries_live_grow(s.tables[t], s, other);
    }
    assert forall|i: int| 0 <= i < other.chain.len() implies #[trigger] other.chain[i]
        < other.frames.len() by {
        if i < s.chain.len() {
            assert(s.chain[i] < s.frames.len());
        }
    }
}

pub proof fn lemma_wf_push_scope(s: State)
    requires
        s.wf(),
        s.frames.len() < usize::MAX,
    ensures
        s.kept_by(s.push_scope()),
        s.kept_by(s.reopen_scope_without_clearing()),
{
    lemma_wf_new_frame(s, s.push_scope());
    lemma_wf_new_frame(s, s.reopen_scope_without_clearing());
}

pub proof fn lemma_wf_pop_scope(s: State)
    requires
        s.wf(),
    ensures
        s.kept_by(s.pop_scope()),
        s.pop_scope().frames.len() == s.frames.len(),
{
    lemma_wf_chain(s);
    let other = s.pop_scope();
    assert forall|i: int| 0 <= i < other.chain.len() implies #[trigger] other.chain[i]
        < s.frames.len() by {
        assert(other.chain[i] == s.chain[i]);
    }
    lemma_wf_other_chain(s, other);
}

pub proof fn lemma_wf_pop_to(s: State, base: nat)
    requires
        s.wf(),
    ensures
        s.kept_by(s.pop_to(base)),
        s.pop_to(base).frames.len() == s.frames.len(),
    decreases s.marks.len(),
{
    if s.marks.len() > base {
        lemma_wf_pop_scope(s);
        lemma_wf_pop_to(s.pop_scope(), base);
    }
}

pub proof fn lemma_wf_bind_in(s: State, f: FrameRef, name: Seq<char>, v: Val)
    requires
        s.wf(),
        v.lives_in(s),
    ensures
        s.kept_by(s.bind_in(f, name, v)),
        s.kept_by(s.declare(name, v)),
        s.kept_by(s.assign(name, v)),
{
    lemma_wf_bind_in_one(s, f, name, v);
    lemma_wf_bind_in_one(s, s.innermost(), name, v);
    lemma_wf_bind_in_one(s, s.resolve(name), name, v);
}

pub proof fn lemma_wf_bind_in_one(s: State, f: FrameRef, name: Seq<char>, v: Val)
    requires
        s.wf(),
        v.lives_in(s),
    ensures
        s.kept_by(s.bind_in(f, name, v)),
{
    reveal(State::wf);
    let other = s.bind_in(f, name, v);
    if f < s.frames.len() {
        assert forall|g: int| 0 <= g < other.frames.len() implies entries_live(
            #[trigger] other.frames[g],
            other,
        ) by {
            if g == f {
                lemma_entries_live_set(s.frames[g], name, v, s);
                lemma_entries_live_grow(other.frames[g], s, other);
            } else {
                lemma_entries_live_grow(s.frames[g], s, other);
            }
        }
        assert forall|t: int| 0 <= t < other.tables.len() implies entries_live(
            #[trigger] other.tables[t],
            other,
        ) by {
            lemma_entries_live_grow(s.tables[t], s, other);
        }
        assert forall|i: int| 0 <= i < other.chain.len() implies #[trigger] other.chain[i]
            < other.frames.len() by {
            assert(s.chain[i] < s.frames.len());
        }
    }
}

pub proof fn lemma_wf_table_set(s: State, t: TableRef, key: Key, v: Val)
    requires
        s.wf(),
        v.lives_in(s),
    ensures
        s.kept_by(s.table_set(t, key, v)),
{
    reveal(State::wf);
    let other = s.table_set(t, key, v);
    if t < s.tables.len() {
        assert forall|g: int| 0 <= g < other.frames.len() implies entries_live(
            #[trigger] other.frames[g],
            other,
        ) by {
            lemma_entries_live_grow(s.frames[g], s, other);
        }
        assert forall|u: int| 0 <= u < other.tables.len() implies entries_live(
            #[trigger] other.tables[u],
            other,
        ) by {
            if u == t {
                lemma_entries_live_set(s.tables[u], key, v, s);
                lemma_entries_live_grow(other.tables[u], s, other);
            } else {
                lemma_entries_live_grow(s.tables[u], s, other);
            }
        }
        assert forall|i: int| 0 <= i < other.chain.len() implies #[trigger] other.chain[i]
            < other.frames.len() by {
            assert(s.chain[i] < s.frames.len());
        }
    }
}

pub proof fn lemma_wf_new_table(s: State)
    requires
        s.wf(),
        s.tables.len() < usize::MAX,
    ensures
        s.kept_by(s.new_table()),
        Val::Table(s.tables.len() as usize).lives_in(s.new_table()),
{
    reveal(State::wf);
    let other = s.new_table();
    assert forall|g: int| 0 <= g < other.frames.len() implies entries_live(
        #[trigger] other.frames[g],
        other,
    ) by {
        lemma_entries_live_grow(s.frames[g], s, other);
    }
    assert forall|u: int| 0 <= u < other.tables.len() implies entries_live(
        #[trigger] other.tables[u],
        other,
    ) by {
        if u < s.tables.len() {
            lemma_entries_live_grow(s.tables[u], s, other);
        }
    }
    assert forall|i: int| 0 <= i < other.chain.len() implies #[trigger] other.chain[i]
        < other.frames.len() by {
        assert(s.chain[i] < s.frames.len());
    }
}

pub proof fn lemma_lookup_lives(s: State, name: Seq<char>)
    requires
        s.wf(),
    ensures
        s.lookup(name).lives_in(s),
{
    reveal(State::wf);
    let f = s.resolve(name);
    if s.frame_has(f, name) {
        lemma_entries_live_get(s.frames[f as int], name, s);
    }
}

pub proof fn lemma_table_get_lives(s: State, t: TableRef, key: Key)
    requires
        s.wf(),
    ensures
        s.table_get(t, key).lives_in(s),
{
    reveal(State::wf);
    if t < s.tables.len() {
        lemma_entries_live_get(s.tables[t as int], key, s);
    }
}

pub proof fn lemma_bind_params_wf(params: Seq<String>, args: Seq<Val>, i: int, s: State)
    requires
        s.wf(),
        all_live(args, s),
    ensures
        s.kept_by(bind_params(params, args, i, s)),
        bind_params(params, args, i, s).frames.len() == s.frames.len(),
    decreases params.len() - i,
{
    if 0 <= i < params.len() {
        let v = nth_or_nil(args, i);
        lemma_wf_bind_in(s, 0, params[i]@, v);
        let next = s.declare(params[i]@, v);
        lemma_all_live_grows(args, s, next);
        lemma_bind_params_wf(params, args, i + 1, next);
    }
}

pub proof fn lemma_emit_all_wf(vals: Seq<Val>, i: int, s: State)
    requires
        s.wf(),
    ensures
        s.kept_by(emit_all(vals, i, s)),
    decreases vals.len() - i,
{
    if 0 <= i < vals.len() {
        let next = s.emit(crate::interpreter::display_text(vals[i]));
        lemma_wf_same_stores(s, next);
        lemma_emit_all_wf(vals, i + 1, next);
    }
}

pub proof fn lemma_store_all_wf(vals: Seq<Val>, i: int, t: TableRef, next: i64, s: State)
    requires
        s.wf(),
        all_live(vals, s),
    ensures
        s.kept_by(store_all(vals, i, t, next, s)),
    decreases vals.len() - i,
{
    if 0 <= i < vals.len() {
        lemma_wf_table_set(s, t, int_key(next), vals[i]);
        let after = s.table_set(t, int_key(next), vals[i]);
        lemma_all_live_grows(vals, s, after);
        lemma_store_all_wf(vals, i + 1, t, following(next), after);
    }
}

pub proof fn lemma_index_value_lives(container: Val, key: Val, s: State)
    requires
        s.wf(),
    ensures
        index_value(container, key, s) matches Ok(v) ==> v.lives_in(s),
{
    match container {
        Val::Table(t) => match key.as_key() {
            Some(k) => {
                lemma_table_get_lives(s, t, k);
            },
            None => {},
        },
        _ => {},
    }
}

pub proof fn lemma_store_value_wf(container: Val, key: Val, value: Val, s: State)
    requires
        s.wf(),
        value.lives_in(s),
    ensures
        s.kept_by(store_value(container, key, value, s).0),
{
    lemma_wf_same_stores(s, s);
    match container {
        Val::Table(t) => match key.as_key() {
            Some(k) => {
                lemma_wf_table_set(s, t, k, value);
            },
            None => {},
        },
        _ => {},
    }
}

/// The first of live values is live.
pub proof fn lemma_first_lives(vals: Seq<Val>, s: State)
    requires
        all_live(vals, s),
    ensures
        first_of(vals).lives_in(s),
        forall|i: int| nth_or_nil(vals, i).lives_in(s),
{
    assert forall|i: int| nth_or_nil(vals, i).lives_in(s) by {
        if 0 <= i < vals.len() {
            assert(vals[i].lives_in(s));
        }
    }
    assert(first_of(vals) == nth_or_nil(vals, 0));
}

pub proof fn lemma_bind_params_grows(params: Seq<String>, args: Seq<Val>, i: int, s: State)
    ensures
        bind_params(params, args, i, s).frames.len() == s.frames.len(),
        bind_params(params, args, i, s).tables.len() == s.tables.len(),
    decreases params.len() - i,
{
    if 0 <= i < params.len() {
        lemma_bind_params_grows(params, args, i + 1, s.declare(params[i]@, nth_or_nil(args, i)));
    }
}

pub proof fn lemma_emit_all_grows(vals: Seq<Val>, i: int, s: State)
    ensures
        emit_all(vals, i, s).frames.len() == s.frames.len(),
        emit_all(vals, i, s).tables.len() == s.tables.len(),
    decreases vals.len() - i,
{
    if 0 <= i < vals.len() {
        lemma_emit_all_grows(vals, i + 1, s.emit(crate::interpreter::display_text(vals[i])));
    }
}

pub proof fn lemma_store_all_grows(vals: Seq<Val>, i: int, t: TableRef, next: i64, s: State)
    ensures
        store_all(vals, i, t, next, s).frames.len() == s.frames.len(),
        store_all(vals, i, t, next, s).tables.len() == s.tables.len(),
    decreases vals.len() - i,
{
    if 0 <= i < vals.len() {
        lemma_store_all_grows(vals, i + 1, t, following(next), s.table_set(t, int_key(next), vals[i]));
    }
}

pub proof fn lemma_pop_to_grows(s: State, base: nat)
    ensures
        s.pop_to(base).frames.len() == s.frames.len(),
        s.pop_to(base).tables.len() == s.tables.len(),
    decreases s.marks.len(),
{
    if s.marks.len() > base {
        lemma_pop_to_grows(s.pop_scope(), base);
    }
}

/// A list of one live value is live, and so are two live lists joined and a
/// live list with a live value pushed.
pub proof fn lemma_live_lists(a: Seq<Val>, b: Seq<Val>, v: Val, s: State)
    ensures
        all_live(Seq::<Val>::empty(), s),
        v.lives_in(s) ==> all_live(seq![v], s),
        all_live(a, s) && all_live(b, s) ==> all_live(a + b, s),
        all_live(a, s) && v.lives_in(s) ==> all_live(a.push(v), s),
{
    if v.lives_in(s) {
        assert forall|i: int| 0 <= i < seq![v].len() implies (#[trigger] seq![v][i]).lives_in(
            s,
        ) by {}
    }
    if all_live(a, s) && all_live(b, s) {
        assert forall|i: int| 0 <= i < (a + b).len() implies (#[trigger] (a + b)[i]).lives_in(
            s,
        ) by {
            if i < a.len() {
                assert(a[i].lives_in(s));
            } else {
                assert(b[i - a.len()].lives_in(s));
            }
        }
    }
    if all_live(a, s) && v.lives_in(s) {
        assert forall|i: int| 0 <= i < a.push(v).len() implies (#[trigger] a.push(v)[i]).lives_in(
            s,
        ) by {
            if i < a.len() {
                assert(a[i].lives_in(s));
            }
        }
    }
}

/// The end of a loop that kept its scopes open keeps the state well formed.
pub proof fn lemma_close_loop(s: State, base: nat)
    ensures
        s.grown_to(close_loop(s, base)),
        s.wf() && close_loop(s, base).roomy() ==> close_loop(s, base).wf(),
{
    lemma_pop_to_grows(s, base);
    if s.wf() && close_loop(s, base).roomy() {
        lemma_wf_pop_to(s, base);
        lemma_wf_push_scope(s.pop_to(base));
    }
}

/// The end of a block keeps the state well formed.
pub proof fn lemma_close_block(s: State)
    ensures
        s.grown_to(s.pop_scope().reopen_scope_without_clearing()),
        s.wf() && s.pop_scope().reopen_scope_without_clearing().roomy() ==> s.pop_scope().reopen_scope_without_clearing().wf(),
{
    if s.wf() && s.pop_scope().reopen_scope_without_clearing().roomy() {
        lemma_wf_pop_scope(s);
        lemma_wf_push_scope(s.pop_scope());
    }
}

pub proof fn lemma_eval_exp(e: Expression, s: State, fuel: nat)
    ensures
        kept(s, Seq::empty(), eval_exp(e, s, fuel).0, got_values(eval_exp(e, s, fuel).1)),
    decreases fuel, 0nat,
{
    let end = eval_exp(e, s, fuel).0;
    lemma_live_lists(Seq::empty(), Seq::empty(), Val::Nil, s);
    lemma_live_lists(Seq::empty(), Seq::empty(), Val::Bool(true), s);
    lemma_live_lists(Seq::empty(), Seq::empty(), Val::Bool(false), s);
    if fuel > 0 {
        match e {
            Expression::Numeral(bytes, is_float) => {
                lemma_live_lists(
                    Seq::empty(),
                    Seq::empty(),
                    Val::Num(crate::interpreter::number::payload_bits(bytes), is_float),
                    s,
                );
            },
            Expression::LiteralString(text) => {
                lemma_live_lists(Seq::empty(), Seq::empty(), Val::Str(text@), s);
            },
            Expression::FunctionDef(par_list, block) => {
                let made = Val::Function(
                    crate::interpreter::Closure { id: s.closures, par_list, block, captured: s.chain },
                );
                if s.wf() && end.roomy() {
                    lemma_wf_chain(s);
                    lemma_wf_same_stores(s, s.count_closure());
                    lemma_wf_push_scope(s.count_closure());
                    assert(chain_lives(s.chain, end)) by {
                        assert forall|i: int| 0 <= i < s.chain.len() implies #[trigger] s.chain[i]
                            < end.frames.len() by {
                            assert(s.chain[i] < s.frames.len());
                        }
                    }
                    lemma_live_lists(Seq::empty(), Seq::empty(), made, end);
                }
            },
            Expression::Var(var) => {
                lemma_eval_var(*var, s, (fuel - 1) as nat);
            },
            Expression::Call(call) => {
                lemma_eval_call(*call, s, (fuel - 1) as nat);
            },
            Expression::TableConstructor(fields) => {
                let t = s.tables.len() as usize;
                lemma_fill_fields(fields@, 0, t, 1, s.new_table(), (fuel - 1) as nat);
                if s.wf() && end.roomy() {
                    lemma_wf_new_table(s);
                    lemma_live_grows(Val::Table(t), s.new_table(), end);
                    lemma_live_lists(Seq::empty(), Seq::empty(), Val::Table(t), end);
                }
            },
            Expression::Not(operand) => {
                lemma_eval_exp(*operand, s, (fuel - 1) as nat);
                let r = eval_exp(*operand, s, (fuel - 1) as nat);
                lemma_live_lists(
                    Seq::empty(),
                    Seq::empty(),
                    Val::Bool(first_of(got_values(r.1)).is_false()),
                    end,
                );
            },
            Expression::Length(operand) => {
                lemma_eval_exp(*operand, s, (fuel - 1) as nat);
                let r = eval_exp(*operand, s, (fuel - 1) as nat);
                match r.1 {
                    Ok(vals) => {
                        match eval_exp(e, s, fuel).1 {
                            Ok(got) => {
                                lemma_live_lists(Seq::empty(), Seq::empty(), got[0], end);
                                assert(got =~= seq![got[0]]);
                            },
                            Err(_) => {},
                        }
                    },
                    Err(_) => {},
                }
            },
            _ => {},
        }
    }
}

pub proof fn lemma_eval_var(v: Var, s: State, fuel: nat)
    ensures
        kept(s, Seq::empty(), eval_var(v, s, fuel).0, got_values(eval_var(v, s, fuel).1)),
    decreases fuel, 0nat,
{
    let end = eval_var(v, s, fuel).0;
    lemma_live_lists(Seq::empty(), Seq::empty(), Val::Nil, s);
    if fuel > 0 {
        match v {
            Var::NameVar(name) => {
                if s.wf() {
                    lemma_lookup_lives(s, name@);
                    lemma_live_lists(Seq::empty(), Seq::empty(), s.lookup(name@), s);
                }
            },
            Var::BracketVar(container, key) => {
                lemma_eval_exp(container, s, (fuel - 1) as nat);
                let (s1, r1) = eval_exp(container, s, (fuel - 1) as nat);
                if let Ok(c) = r1 {
                    lemma_eval_exp(key, s1, (fuel - 1) as nat);
                    let (s2, r2) = eval_exp(key, s1, (fuel - 1) as nat);
                    if let Ok(k) = r2 {
                        if s.wf() && end.roomy() {
                            lemma_index_value_lives(first_of(c), first_of(k), s2);
                            if let Ok(found) = index_value(first_of(c), first_of(k), s2) {
                                lemma_live_lists(Seq::empty(), Seq::empty(), found, s2);
                            }
                        }
                    }
                }
            },
            Var::DotVar(container, name) => {
                lemma_eval_exp(container, s, (fuel - 1) as nat);
                let (s1, r1) = eval_exp(container, s, (fuel - 1) as nat);
                if let Ok(c) = r1 {
                    if s.wf() && end.roomy() {
                        lemma_index_value_lives(first_of(c), Val::Str(name@), s1);
                        if let Ok(found) = index_value(first_of(c), Val::Str(name@), s1) {
                            lemma_live_lists(Seq::empty(), Seq::empty(), found, s1);
                        }
                    }
                }
            },
        }
    }
}

pub proof fn lemma_eval_list(es: Seq<Expression>, i: int, acc: Seq<Val>, s: State, fuel: nat)
    ensures
        kept(s, acc, eval_list(es, i, acc, s, fuel).0, got_values(eval_list(es, i, acc, s, fuel).1)),
    decreases fuel, es.len() - i + 1,
{
    let end = eval_list(es, i, acc, s, fuel).0;
    lemma_live_lists(Seq::empty(), Seq::empty(), Val::Nil, end);
    if 0 <= i < es.len() {
        lemma_eval_exp(es[i], s, fuel);
        let (s1, r) = eval_exp(es[i], s, fuel);
        if let Ok(vals) = r {
            if i == es.len() - 1 {
                if s.wf() && all_live(acc, s) && end.roomy() {
                    lemma_all_live_grows(acc, s, s1);
                    lemma_live_lists(acc, vals, Val::Nil, s1);
                }
            } else {
                lemma_eval_list(es, i + 1, acc.push(first_of(vals)), s1, fuel);
                if s.wf() && all_live(acc, s) && end.roomy() {
                    lemma_all_live_grows(acc, s, s1);
                    lemma_first_lives(vals, s1);
                    lemma_live_lists(acc, Seq::empty(), first_of(vals), s1);
                }
            }
        }
    }
}

pub proof fn lemma_fill_fields(fields: Seq<Field>, i: int, t: TableRef, next: i64, s: State, fuel: nat)
    ensures
        kept(s, Seq::empty(), fill_fields(fields, i, t, next, s, fuel).0, Seq::empty()),
    decreases fuel, fields.len() - i + 1,
{
    let end = fill_fields(fields, i, t, next, s, fuel).0;
    lemma_live_lists(Seq::empty(), Seq::empty(), Val::Nil, end);
    lemma_live_lists(Seq::empty(), Seq::empty(), Val::Nil, s);
    if 0 <= i < fields.len() {
        match fields[i] {
            Field::BracketedAssign(key, value) => {
                lemma_eval_exp(key, s, fuel);
                let (s1, r1) = eval_exp(key, s, fuel);
                if let Ok(k) = r1 {
                    lemma_eval_exp(value, s1, fuel);
                    let (s2, r2) = eval_exp(value, s1, fuel);
                    if let Ok(v) = r2 {
                        if let Some(slot) = first_of(k).as_key() {
                            let s3 = s2.table_set(t, slot, first_of(v));
                            lemma_fill_fields(fields, i + 1, t, next, s3, fuel);
                            if s.wf() && end.roomy() {
                                lemma_first_lives(v, s2);
                                lemma_wf_table_set(s2, t, slot, first_of(v));
                                lemma_live_lists(Seq::empty(), Seq::empty(), Val::Nil, s3);
                            }
                        }
                    }
                }
            },
            Field::NameAssign(name, value) => {
                lemma_eval_exp(value, s, fuel);
                let (s1, r1) = eval_exp(value, s, fuel);
                if let Ok(v) = r1 {
                    let s2 = s1.table_set(t, Key::Str(name@), first_of(v));
                    lemma_fill_fields(fields, i + 1, t, next, s2, fuel);
                    if s.wf() && end.roomy() {
                        lemma_first_lives(v, s1);
                        lemma_wf_table_set(s1, t, Key::Str(name@), first_of(v));
                        lemma_live_lists(Seq::empty(), Seq::empty(), Val::Nil, s2);
                    }
                }
            },
            Field::UnnamedAssign(value) => {
                lemma_eval_exp(value, s, fuel);
                let (s1, r1) = eval_exp(value, s, fuel);
                if let Ok(v) = r1 {
                    if i == fields.len() - 1 {
                        lemma_store_all_grows(v, 0, t, next, s1);
                        if s.wf() && end.roomy() {
                            lemma_store_all_wf(v, 0, t, next, s1);
                        }
                    } else {
                        let s2 = s1.table_set(t, int_key(next), first_of(v));
                        lemma_fill_fields(fields, i + 1, t, following(next), s2, fuel);
                        if s.wf() && end.roomy() {
                            lemma_first_lives(v, s1);
                            lemma_wf_table_set(s1, t, int_key(next), first_of(v));
                            lemma_live_lists(Seq::empty(), Seq::empty(), Val::Nil, s2);
                        }
                    }
                }
            },
        }
    }
}

pub proof fn lemma_eval_call(call: FunctionCall, s: State, fuel: nat)
    ensures
        kept(s, Seq::empty(), eval_call(call, s, fuel).0, got_values(eval_call(call, s, fuel).1)),
    decreases fuel, 0nat,
{
    let end = eval_call(call, s, fuel).0;
    lemma_live_lists(Seq::empty(), Seq::empty(), Val::Nil, s);
    if fuel > 0 {
        lemma_eval_exp(call.callee, s, (fuel - 1) as nat);
        let (s1, r1) = eval_exp(call.callee, s, (fuel - 1) as nat);
        if let Ok(c) = r1 {
            lemma_eval_list(call.args@, 0, Seq::empty(), s1, (fuel - 1) as nat);
            let (s2, r2) = eval_list(call.args@, 0, Seq::empty(), s1, (fuel - 1) as nat);
            lemma_live_lists(Seq::empty(), Seq::empty(), Val::Nil, s1);
            if let Ok(args) = r2 {
                lemma_apply(first_of(c), args, s2, (fuel - 1) as nat);
                if s.wf() && end.roomy() {
                    lemma_first_lives(c, s1);
                    lemma_live_grows(first_of(c), s1, s2);
                    lemma_live_lists(args, Seq::empty(), first_of(c), s2);
                }
            } else {
                lemma_live_lists(Seq::empty(), Seq::empty(), Val::Nil, s2);
            }
        }
    }
}

pub proof fn lemma_apply(callee: Val, args: Seq<Val>, s: State, fuel: nat)
    ensures
        kept(s, args.push(callee), apply(callee, args, s, fuel).0, got_values(apply(callee, args, s, fuel).1)),
    decreases fuel, 0nat,
{
    let end = apply(callee, args, s, fuel).0;
    lemma_live_lists(Seq::empty(), Seq::empty(), Val::Nil, end);
    let given = args.push(callee);
    if all_live(given, s) {
        assert(given[args.len() as int].lives_in(s));
        assert forall|i: int| 0 <= i < args.len() implies (#[trigger] args[i]).lives_in(s) by {
            assert(given[i].lives_in(s));
        }
    }
    if fuel > 0 {
        match callee {
            Val::Print => {
                lemma_emit_all_grows(args, 0, s);
                if s.wf() {
                    lemma_emit_all_wf(args, 0, s);
                }
            },
            Val::Function(f) => {
                let e0 = s.enter_call(f.captured);
                let e1 = e0.push_scope();
                let e2 = bind_params(f.par_list.0@, args, 0, e1);
                lemma_bind_params_grows(f.par_list.0@, args, 0, e1);
                lemma_exec_block(f.block, e2, (fuel - 1) as nat);
                let (s1, r) = exec_block(f.block, e2, (fuel - 1) as nat);
                if s.wf() && all_live(given, s) && end.roomy() {
                    lemma_wf_chain(s);
                    lemma_wf_other_chain(s, e0);
                    lemma_wf_push_scope(e0);
                    lemma_all_live_grows(args, s, e1);
                    lemma_bind_params_wf(f.par_list.0@, args, 0, e1);
                    lemma_live_lists(Seq::empty(), Seq::empty(), Val::Nil, e2);
                    if r is Ok {
                        let back = s1.leave_call(s.chain, s.marks);
                        assert(chain_lives(s.chain, s1)) by {
                            assert forall|i: int| 0 <= i < s.chain.len() implies #[trigger] s.chain[i]
                                < s1.frames.len() by {
                                assert(s.chain[i] < s.frames.len());
                            }
                        }
                        lemma_wf_other_chain(s1, back);
                        lemma_all_live_grows(got_signal(r), s1, back);
                    }
                }
            },
            _ => {},
        }
    }
}

pub proof fn lemma_exec_block_without_pop(b: Block, s: State, fuel: nat)
    ensures
        kept(
            s,
            Seq::empty(),
            exec_block_without_pop(b, s, fuel).0,
            got_signal(exec_block_without_pop(b, s, fuel).1),
        ),
    decreases fuel, 0nat,
{
    let end = exec_block_without_pop(b, s, fuel).0;
    lemma_live_lists(Seq::empty(), Seq::empty(), Val::Nil, end);
    lemma_live_lists(Seq::empty(), Seq::empty(), Val::Nil, s);
    if fuel > 0 {
        let s0 = s.push_scope();
        lemma_exec_stmts(b.statements@, 0, s0, (fuel - 1) as nat);
        let (s1, r) = exec_stmts(b.statements@, 0, s0, (fuel - 1) as nat);
        lemma_live_lists(Seq::empty(), Seq::empty(), Val::Nil, s0);
        lemma_live_lists(Seq::empty(), Seq::empty(), Val::Nil, s1);
        if let Ok(Some(vals)) = r {
            if vals.len() == 0 {
                if let Some(list) = b.return_stat {
                    lemma_eval_list(list@, 0, Seq::empty(), s1, (fuel - 1) as nat);
                }
            }
        }
        if s.wf() && end.roomy() {
            lemma_wf_push_scope(s);
        }
    }
}

pub proof fn lemma_exec_block(b: Block, s: State, fuel: nat)
    ensures
        kept(s, Seq::empty(), exec_block(b, s, fuel).0, got_signal(exec_block(b, s, fuel).1)),
    decreases fuel, 0nat,
{
    let end = exec_block(b, s, fuel).0;
    lemma_live_lists(Seq::empty(), Seq::empty(), Val::Nil, end);
    lemma_live_lists(Seq::empty(), Seq::empty(), Val::Nil, s);
    if fuel > 0 {
        lemma_exec_block_without_pop(b, s, (fuel - 1) as nat);
        let (s1, r) = exec_block_without_pop(b, s, (fuel - 1) as nat);
        if r is Ok {
            lemma_close_block(s1);
            if s.wf() && end.roomy() {
                lemma_all_live_grows(got_signal(r), s1, end);
            }
        }
    }
}

pub proof fn lemma_exec_stmts(sts: Seq<Statement>, i: int, s: State, fuel: nat)
    ensures
        kept(s, Seq::empty(), exec_stmts(sts, i, s, fuel).0, got_signal(exec_stmts(sts, i, s, fuel).1)),
    decreases fuel, sts.len() - i + 1,
{
    let end = exec_stmts(sts, i, s, fuel).0;
    lemma_live_lists(Seq::empty(), Seq::empty(), Val::Nil, end);
    lemma_live_lists(Seq::empty(), Seq::empty(), Val::Nil, s);
    if 0 <= i < sts.len() {
        lemma_exec_stmt(sts[i], s, fuel);
        let (s1, r) = exec_stmt(sts[i], s, fuel);
        lemma_live_lists(Seq::empty(), Seq::empty(), Val::Nil, s1);
        if let Ok(Some(vals)) = r {
            if vals.len() == 0 {
                lemma_exec_stmts(sts, i + 1, s1, fuel);
            }
        }
    }
}

pub proof fn lemma_assign_var(var: Var, value: Val, is_local: bool, s: State, fuel: nat)
    ensures
        kept(s, seq![value], assign_var(var, value, is_local, s, fuel).0, Seq::empty()),
    decreases fuel, 0nat,
{
    let end = assign_var(var, value, is_local, s, fuel).0;
    lemma_live_lists(Seq::empty(), Seq::empty(), Val::Nil, end);
    lemma_live_lists(Seq::empty(), Seq::empty(), Val::Nil, s);
    if all_live(seq![value], s) {
        assert(seq![value][0].lives_in(s));
    }
    if fuel > 0 {
        match var {
            Var::NameVar(name) => {
                if s.wf() && value.lives_in(s) {
                    lemma_wf_bind_in(s, 0, name@, value);
                }
            },
            Var::BracketVar(container, key) => {
                lemma_eval_exp(container, s, (fuel - 1) as nat);
                let (s1, r1) = eval_exp(container, s, (fuel - 1) as nat);
                if let Ok(c) = r1 {
                    lemma_eval_exp(key, s1, (fuel - 1) as nat);
                    let (s2, r2) = eval_exp(key, s1, (fuel - 1) as nat);
                    lemma_live_lists(Seq::empty(), Seq::empty(), Val::Nil, s1);
                    if let Ok(k) = r2 {
                        if s.wf() && value.lives_in(s) && end.roomy() {
                            lemma_live_grows(value, s, s2);
                            lemma_store_value_wf(first_of(c), first_of(k), value, s2);
                        }
                    }
                }
            },
            Var::DotVar(container, name) => {
                lemma_eval_exp(container, s, (fuel - 1) as nat);
                let (s1, r1) = eval_exp(container, s, (fuel - 1) as nat);
                if let Ok(c) = r1 {
                    if s.wf() && value.lives_in(s) && end.roomy() {
                        lemma_live_grows(value, s, s1);
                        lemma_store_value_wf(first_of(c), Val::Str(name@), value, s1);
                    }
                }
            },
        }
    }
}

pub proof fn lemma_assign_all(vars: Seq<Var>, i: int, vals: Seq<Val>, is_local: bool, s: State, fuel: nat)
    ensures
        kept(s, vals, assign_all(vars, i, vals, is_local, s, fuel).0, Seq::empty()),
    decreases fuel, vars.len() - i + 1,
{
    let end = assign_all(vars, i, vals, is_local, s, fuel).0;
    lemma_live_lists(Seq::empty(), Seq::empty(), Val::Nil, end);
    if 0 <= i < vars.len() {
        let v = nth_or_nil(vals, i);
        lemma_assign_var(vars[i], v, is_local, s, fuel);
        let (s1, r) = assign_var(vars[i], v, is_local, s, fuel);
        if r is Ok {
            lemma_assign_all(vars, i + 1, vals, is_local, s1, fuel);
        }
        if s.wf() && all_live(vals, s) && end.roomy() {
            lemma_first_lives(vals, s);
            lemma_live_lists(Seq::empty(), Seq::empty(), v, s);
            lemma_all_live_grows(vals, s, s1);
        }
    }
}

pub proof fn lemma_while_loop(cond: Expression, body: Block, s: State, fuel: nat, turns: nat)
    ensures
        kept(
            s,
            Seq::empty(),
            while_loop(cond, body, s, fuel, turns).0,
            got_signal(while_loop(cond, body, s, fuel, turns).1),
        ),
    decreases fuel, turns,
{
    let end = while_loop(cond, body, s, fuel, turns).0;
    lemma_live_lists(Seq::empty(), Seq::empty(), Val::Nil, end);
    lemma_live_lists(Seq::empty(), Seq::empty(), Val::Nil, s);
    if fuel > 0 && turns > 0 {
        lemma_eval_exp(cond, s, (fuel - 1) as nat);
        let (s1, r) = eval_exp(cond, s, (fuel - 1) as nat);
        lemma_live_lists(Seq::empty(), Seq::empty(), Val::Nil, s1);
        if let Ok(vals) = r {
            if !first_of(vals).is_false() {
                lemma_exec_block(body, s1, (fuel - 1) as nat);
                let (s2, r2) = exec_block(body, s1, (fuel - 1) as nat);
                lemma_live_lists(Seq::empty(), Seq::empty(), Val::Nil, s2);
                if let Ok(Some(got)) = r2 {
                    if got.len() == 0 {
                        lemma_while_loop(cond, body, s2, fuel, (turns - 1) as nat);
                    }
                }
            }
        }
    }
}

pub proof fn lemma_repeat_loop(body: Block, cond: Expression, base: nat, s: State, fuel: nat, turns: nat)
    ensures
        kept(
            s,
            Seq::empty(),
            repeat_loop(body, cond, base, s, fuel, turns).0,
            got_signal(repeat_loop(body, cond, base, s, fuel, turns).1),
        ),
    decreases fuel, turns,
{
    let end = repeat_loop(body, cond, base, s, fuel, turns).0;
    lemma_live_lists(Seq::empty(), Seq::empty(), Val::Nil, end);
    lemma_live_lists(Seq::empty(), Seq::empty(), Val::Nil, s);
    if fuel > 0 && turns > 0 {
        lemma_exec_block_without_pop(body, s, (fuel - 1) as nat);
        let (s1, r) = exec_block_without_pop(body, s, (fuel - 1) as nat);
        lemma_live_lists(Seq::empty(), Seq::empty(), Val::Nil, s1);
        lemma_close_loop(s1, base);
        match r {
            Ok(None) => {},
            Ok(Some(vals)) => {
                if vals.len() > 0 {
                    if s.wf() && end.roomy() {
                        lemma_all_live_grows(vals, s1, end);
                    }
                } else {
                    lemma_eval_exp(cond, s1, (fuel - 1) as nat);
                    let (s2, r2) = eval_exp(cond, s1, (fuel - 1) as nat);
                    lemma_live_lists(Seq::empty(), Seq::empty(), Val::Nil, s2);
                    lemma_close_loop(s2, base);
                    if let Ok(c) = r2 {
                        if !first_of(c).is_true() {
                            lemma_repeat_loop(body, cond, base, s2, fuel, (turns - 1) as nat);
                        }
                    }
                }
            },
            Err(_) => {},
        }
    }
}

pub proof fn lemma_for_loop(
    name: String,
    i: i64,
    limit: Val,
    by: i64,
    ascending: bool,
    body: Block,
    s: State,
    fuel: nat,
    turns: nat,
)
    ensures
        kept(
            s,
            Seq::empty(),
            for_loop(name, i, limit, by, ascending, body, s, fuel, turns).0,
            got_signal(for_loop(name, i, limit, by, ascending, body, s, fuel, turns).1),
        ),
    decreases fuel, turns,
{
    let end = for_loop(name, i, limit, by, ascending, body, s, fuel, turns).0;
    lemma_live_lists(Seq::empty(), Seq::empty(), Val::Nil, end);
    lemma_live_lists(Seq::empty(), Seq::empty(), Val::Nil, s);
    if fuel > 0 && turns > 0 {
        if in_bounds(limit, i, ascending) == Ok::<bool, Seq<char>>(true) {
            let s0 = s.push_scope().declare(name@, int_val(i));
            lemma_exec_block(body, s0, (fuel - 1) as nat);
            let (s1, r) = exec_block(body, s0, (fuel - 1) as nat);
            lemma_live_lists(Seq::empty(), Seq::empty(), Val::Nil, s0);
            lemma_live_lists(Seq::empty(), Seq::empty(), Val::Nil, s1);
            let s2 = s1.pop_scope().reopen_scope_without_clearing();
            lemma_close_block(s1);
            lemma_live_lists(Seq::empty(), Seq::empty(), Val::Nil, s2);
            if let Ok(Some(vals)) = r {
                if vals.len() == 0 && !(i + by > i64::MAX || i + by < i64::MIN) {
                    lemma_for_loop(
                        name,
                        (i + by) as i64,
                        limit,
                        by,
                        ascending,
                        body,
                        s2,
                        fuel,
                        (turns - 1) as nat,
                    );
                }
            }
            if s.wf() && end.roomy() {
                lemma_wf_push_scope(s);
                lemma_wf_bind_in(s.push_scope(), 0, name@, int_val(i));
                if let Ok(Some(vals)) = r {
                    if vals.len() > 0 {
                        lemma_all_live_grows(vals, s1, s2);
                    }
                }
            }
        }
    }
}

pub proof fn lemma_exec_stmt(st: Statement, s: State, fuel: nat)
    ensures
        kept(s, Seq::empty(), exec_stmt(st, s, fuel).0, got_signal(exec_stmt(st, s, fuel).1)),
    decreases fuel, 0nat,
{
    let end = exec_stmt(st, s, fuel).0;
    lemma_live_lists(Seq::empty(), Seq::empty(), Val::Nil, end);
    lemma_live_lists(Seq::empty(), Seq::empty(), Val::Nil, s);
    if fuel > 0 {
        match st {
            Statement::Semicolon => {},
            Statement::Break => {},
            Statement::FunctionCall(call) => {
                lemma_eval_call(call, s, (fuel - 1) as nat);
            },
            Statement::DoBlock(block) => {
                lemma_exec_block(block, s, (fuel - 1) as nat);
            },
            Statement::Assignment(vars, exps, is_local) => {
                lemma_eval_list(exps@, 0, Seq::empty(), s, (fuel - 1) as nat);
                let (s1, r) = eval_list(exps@, 0, Seq::empty(), s, (fuel - 1) as nat);
                if let Ok(vals) = r {
                    lemma_assign_all(vars@, 0, vals, is_local, s1, (fuel - 1) as nat);
                }
            },
            Statement::While(cond, body) => {
                lemma_while_loop(cond, body, s, (fuel - 1) as nat, s.turns as nat);
            },
            Statement::Repeat(body, cond) => {
                lemma_repeat_loop(body, cond, s.marks.len(), s, (fuel - 1) as nat, s.turns as nat);
            },
            Statement::If(cond, then_block, else_block) => {
                lemma_eval_exp(cond, s, (fuel - 1) as nat);
                let (s1, r) = eval_exp(cond, s, (fuel - 1) as nat);
                lemma_live_lists(Seq::empty(), Seq::empty(), Val::Nil, s1);
                if let Ok(vals) = r {
                    if first_of(vals).is_true() {
                        lemma_exec_block(then_block, s1, (fuel - 1) as nat);
                    } else if let Some(block) = else_block {
                        lemma_exec_block(block, s1, (fuel - 1) as nat);
                    }
                }
            },
            Statement::ForNum(name, start, limit, step, body) => {
                lemma_eval_exp(start, s, (fuel - 1) as nat);
                let (s1, r1) = eval_exp(start, s, (fuel - 1) as nat);
                lemma_live_lists(Seq::empty(), Seq::empty(), Val::Nil, s1);
                if let Ok(v1) = r1 {
                    lemma_eval_exp(limit, s1, (fuel - 1) as nat);
                    let (s2, r2) = eval_exp(limit, s1, (fuel - 1) as nat);
                    lemma_live_lists(Seq::empty(), Seq::empty(), Val::Nil, s2);
                    if let Ok(v2) = r2 {
                        let (s3, r3) = match step {
                            Some(e) => eval_exp(e, s2, (fuel - 1) as nat),
                            None => (s2, Ok(seq![int_val(1)])),
                        };
                        if let Some(e) = step {
                            lemma_eval_exp(e, s2, (fuel - 1) as nat);
                        }
                        lemma_live_lists(Seq::empty(), Seq::empty(), Val::Nil, s3);
                        if let Ok(v3) = r3 {
                            if let Ok(from) = to_int(first_of(v1)) {
                                if let Ok(by) = to_int(first_of(v3)) {
                                    if !first_of(v3).is_zero() {
                                        lemma_for_loop(
                                            name,
                                            from,
                                            first_of(v2),
                                            by,
                                            first_of(v3).is_positive(),
                                            body,
                                            s3,
                                            (fuel - 1) as nat,
                                            s3.turns as nat,
                                        );
                                    }
                                }
                            }
                        }
                    }
                }
            },
        }
    }
}

/// A program that starts in the initial state ends in a well formed state,
/// provided that the stores of that state fit the machine.
pub proof fn lemma_run_keeps_well_formed(b: Block, fuel: nat)
    ensures
        exec_block(b, State::initial(), fuel).0.roomy() ==> exec_block(b, State::initial(), fuel).0.wf(),
{
    lemma_initial_wf();
    lemma_exec_block(b, State::initial(), fuel);
    lemma_live_lists(Seq::empty(), Seq::empty(), Val::Nil, State::initial());
}

} // verus!
