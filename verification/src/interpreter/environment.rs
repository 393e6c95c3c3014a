//! The scope chain, the table store and the output buffer of one run.
//!
//! Frames and tables live in stores that only grow and are named by their
//! position, so any number of closures and variables can share one frame or
//! one table and see each other's changes.
use vstd::prelude::*;
use vstd::string::StringExecFns;
use crate::interpreter::FrameRef;
use crate::interpreter::TableRef;
use crate::interpreter::LocalEnv;
use crate::interpreter::LuaVal;
use crate::interpreter::LuaValue;
use crate::interpreter::Val;
use crate::interpreter::bindings::Bindings;
use crate::interpreter::bindings::assoc_get;
use crate::interpreter::bindings::assoc_set;
use crate::interpreter::table::LuaTable;
use crate::interpreter::table::TableView;
use crate::interpreter::table::Key;

verus! {

/// One run's state as the contracts see it.
pub struct State {
    /// Every frame made so far; frame 0 holds the globals.
    pub frames: Seq<Seq<(Seq<char>, Val)>>,
    /// The local frames in sight, outermost first.
    pub chain: Seq<FrameRef>,
    /// For each open scope, the length the chain had when it was entered.
    pub marks: Seq<usize>,
    /// Every table made so far.
    pub tables: Seq<TableView>,
    /// The texts printed so far.
    pub output: Seq<Seq<char>>,
    /// How many closures were made so far.
    pub closures: usize,
    /// How deep constructs and calls may nest in one evaluation.
    pub budget: u64,
    /// How many turns one loop may take.
    pub turns: u64,
}

/// The nesting budget of a fresh state.
pub const DEFAULT_BUDGET: u64 = 4_000;

/// The turns that a fresh state gives each loop.
pub const DEFAULT_TURNS: u64 = 0xffff_ffff_ffff_ffff;

/// The frame of the builtin names.
pub open spec fn builtin_frame() -> Seq<(Seq<char>, Val)> {
    seq![("print"@, Val::Print), ("read"@, Val::Read), ("random"@, Val::Random)]
}

impl State {
    /// The state before anything ran: the globals hold the builtins.
    pub open spec fn initial() -> State {
        State {
            frames: seq![builtin_frame()],
            chain: Seq::empty(),
            marks: Seq::empty(),
            tables: Seq::empty(),
            output: Seq::empty(),
            closures: 0,
            budget: DEFAULT_BUDGET,
            turns: DEFAULT_TURNS,
        }
    }

    /// Leaves scopes until at most `base` are open.
    pub open spec fn pop_to(self, base: nat) -> State
        decreases self.marks.len(),
    {
        if self.marks.len() <= base {
            self
        } else {
            self.pop_scope().pop_to(base)
        }
    }

    /// Enters a scope: a new empty frame becomes the innermost one.
    pub open spec fn push_scope(self) -> State {
        State {
            frames: self.frames.push(Seq::empty()),
            chain: self.chain.push(self.frames.len() as usize),
            marks: self.marks.push(self.chain.len() as usize),
            ..self
        }
    }

    /// Leaves the innermost scope: every frame entered since it was opened
    /// goes out of sight.
    pub open spec fn pop_scope(self) -> State {
        if self.marks.len() == 0 {
            State { chain: Seq::empty(), ..self }
        } else if self.marks.last() <= self.chain.len() {
            State {
                chain: self.chain.subrange(0, self.marks.last() as int),
                marks: self.marks.drop_last(),
                ..self
            }
        } else {
            State { marks: self.marks.drop_last(), ..self }
        }
    }

    /// Puts a new empty frame on the innermost scope, so that what is declared
    /// from now on lands in a frame that no closure made so far can see.
    pub open spec fn reopen_scope_without_clearing(self) -> State {
        State {
            frames: self.frames.push(Seq::empty()),
            chain: self.chain.push(self.frames.len() as usize),
            ..self
        }
    }

    /// Whether the frame exists and binds the name.
    pub open spec fn frame_has(self, f: FrameRef, name: Seq<char>) -> bool {
        f < self.frames.len() && assoc_get(self.frames[f as int], name) is Some
    }

    /// The innermost of the first `depth` frames of the chain that binds the name.
    pub open spec fn holder(self, name: Seq<char>, depth: nat) -> Option<FrameRef>
        decreases depth,
    {
        if depth == 0 || depth > self.chain.len() {
            None
        } else if self.frame_has(self.chain[depth - 1], name) {
            Some(self.chain[depth - 1])
        } else {
            self.holder(name, (depth - 1) as nat)
        }
    }

    /// The frame that a use of the name refers to: the innermost local frame
    /// that binds it, or else the global frame.
    pub open spec fn resolve(self, name: Seq<char>) -> FrameRef {
        match self.holder(name, self.chain.len()) {
            Some(f) => f,
            None => 0,
        }
    }

    /// The value of a name; `nil` when nothing binds it.
    pub open spec fn lookup(self, name: Seq<char>) -> Val {
        let f = self.resolve(name);
        if self.frame_has(f, name) {
            assoc_get(self.frames[f as int], name)->Some_0
        } else {
            Val::Nil
        }
    }

    /// Binds the name in one frame.
    pub open spec fn bind_in(self, f: FrameRef, name: Seq<char>, value: Val) -> State {
        if f < self.frames.len() {
            State {
                frames: self.frames.update(f as int, assoc_set(self.frames[f as int], name, value)),
                ..self
            }
        } else {
            self
        }
    }

    /// Assigns to a name: in the frame it resolves to.
    pub open spec fn assign(self, name: Seq<char>, value: Val) -> State {
        self.bind_in(self.resolve(name), name, value)
    }

    /// The innermost frame: the last of the chain, or the globals.
    pub open spec fn innermost(self) -> FrameRef {
        if self.chain.len() > 0 {
            self.chain.last()
        } else {
            0
        }
    }

    /// Declares a local: always in the innermost frame.
    pub open spec fn declare(self, name: Seq<char>, value: Val) -> State {
        self.bind_in(self.innermost(), name, value)
    }

    /// Appends a text to the output.
    pub open spec fn emit(self, text: Seq<char>) -> State {
        State { output: self.output.push(text), ..self }
    }

    /// Adds an empty table; its handle is the number of tables before.
    pub open spec fn new_table(self) -> State {
        State { tables: self.tables.push(Seq::empty()), ..self }
    }

    /// Stores a value in a table; nothing changes when the handle names none.
    pub open spec fn table_set(self, t: TableRef, key: Key, value: Val) -> State {
        if t < self.tables.len() {
            State {
                tables: self.tables.update(t as int, assoc_set(self.tables[t as int], key, value)),
                ..self
            }
        } else {
            self
        }
    }

    /// Reads a table slot; `nil` when the slot or the table is absent.
    pub open spec fn table_get(self, t: TableRef, key: Key) -> Val {
        if t < self.tables.len() {
            match assoc_get(self.tables[t as int], key) {
                Some(v) => v,
                None => Val::Nil,
            }
        } else {
            Val::Nil
        }
    }

    /// Counts one more closure.
    pub open spec fn count_closure(self) -> State {
        State {
            closures: if self.closures < usize::MAX {
                (self.closures + 1) as usize
            } else {
                self.closures
            },
            ..self
        }
    }

    /// Switches to the chain a closure captured, with no scope open.
    pub open spec fn enter_call(self, captured: Seq<FrameRef>) -> State {
        State { chain: captured, marks: Seq::empty(), ..self }
    }

    /// Switches back to the chain and the scopes of the caller.
    pub open spec fn leave_call(self, chain: Seq<FrameRef>, marks: Seq<usize>) -> State {
        State { chain, marks, ..self }
    }

    /// Whether `later` can follow `self` in a run: what was printed is still
    /// there, in the same order.
    pub open spec fn output_kept_by(self, later: State) -> bool {
        &&& self.output.len() <= later.output.len()
        &&& forall|i: int| 0 <= i < self.output.len() ==> later.output[i] == self.output[i]
    }
}

impl State {
    /// Every frame of the chain exists.
    pub open spec fn chain_in_store(self) -> bool {
        forall|i: int| 0 <= i < self.chain.len() ==> self.chain[i] < self.frames.len()
    }

    /// What a name means to a closure that captured `captured`.
    pub open spec fn seen_from(self, captured: Seq<FrameRef>, name: Seq<char>) -> Val {
        self.enter_call(captured).lookup(name)
    }
}

/// The innermost holder of a name depends on the frames of the chain only.
pub proof fn lemma_holder_depends_on_seen_frames(
    a: State,
    b: State,
    name: Seq<char>,
    depth: nat,
)
    requires
        a.chain == b.chain,
        a.frames.len() <= b.frames.len(),
        forall|f: int| 0 <= f < a.frames.len() ==> a.frames[f] == b.frames[f],
        forall|i: int| 0 <= i < a.chain.len() ==> a.chain[i] < a.frames.len(),
    ensures
        a.holder(name, depth) == b.holder(name, depth),
    decreases depth,
{
    if depth > 0 && depth <= a.chain.len() {
        lemma_holder_depends_on_seen_frames(a, b, name, (depth - 1) as nat);
    }
}

/// A closure does not see what is declared after it was made: once the
/// scope was reopened, a declaration of any name leaves every frame that
/// existed before as it was, and so every name means to the closure what it
/// meant before.
pub proof fn lemma_later_declaration_is_unseen(
    s: State,
    declared: Seq<char>,
    value: Val,
    name: Seq<char>,
)
    requires
        s.frames.len() > 0,
        s.frames.len() < usize::MAX,
        s.chain_in_store(),
    ensures
        ({
            let later = s.reopen_scope_without_clearing().declare(declared, value);
            &&& forall|f: int| 0 <= f < s.frames.len() ==> later.frames[f] == s.frames[f]
            &&& later.seen_from(s.chain, name) == s.seen_from(s.chain, name)
        }),
{
    let later = s.reopen_scope_without_clearing().declare(declared, value);
    let a = s.enter_call(s.chain);
    let b = later.enter_call(s.chain);
    lemma_holder_depends_on_seen_frames(a, b, name, s.chain.len());
    let f = a.resolve(name);
    assert(f < s.frames.len()) by {
        lemma_holder_in_chain(a, name, s.chain.len());
    }
}

/// The holder of a name is a frame of the chain.
pub proof fn lemma_holder_in_chain(s: State, name: Seq<char>, depth: nat)
    ensures
        s.holder(name, depth) matches Some(f) ==> s.frame_has(f, name),
    decreases depth,
{
    if depth > 0 && depth <= s.chain.len() {
        lemma_holder_in_chain(s, name, (depth - 1) as nat);
    }
}

/// An assignment to a name that a closure sees changes what the closure
/// sees: the closure and the live chain share the frame.
pub proof fn lemma_later_assignment_is_seen(s: State, name: Seq<char>, value: Val)
    requires
        s.frames.len() > 0,
        s.frames.len() < usize::MAX,
        s.chain_in_store(),
        s.holder(name, s.chain.len()) is Some,
    ensures
        s.reopen_scope_without_clearing().assign(name, value).seen_from(s.chain, name) == value,
{
    let opened = s.reopen_scope_without_clearing();
    let later = opened.assign(name, value);
    let a = s.enter_call(s.chain);
    lemma_holder_in_chain(s, name, s.chain.len());
    let f = s.holder(name, s.chain.len())->Some_0;
    // the new frame is empty, so the name resolves as before
    assert(opened.holder(name, opened.chain.len()) == opened.holder(name, s.chain.len())) by {
        assert(opened.frames[s.frames.len() as int] =~= Seq::<(Seq<char>, Val)>::empty());
    }
    lemma_holder_depends_on_seen_frames(
        a,
        State { chain: s.chain, ..opened },
        name,
        s.chain.len(),
    );
    lemma_holder_prefix(opened, State { chain: s.chain, ..opened }, name, s.chain.len());
    lemma_holder_prefix(s, a, name, s.chain.len());
    assert(opened.resolve(name) == f);
    crate::interpreter::bindings::lemma_assoc_get_set(s.frames[f as int], name, value, name);
    let b = later.enter_call(s.chain);
    lemma_holder_after_bind(a, b, f, name, s.chain.len());
}

/// The holder among the first `depth` frames depends on those frames only.
pub proof fn lemma_holder_prefix(a: State, b: State, name: Seq<char>, depth: nat)
    requires
        a.frames == b.frames,
        depth <= a.chain.len(),
        depth <= b.chain.len(),
        forall|i: int| 0 <= i < depth ==> a.chain[i] == b.chain[i],
    ensures
        a.holder(name, depth) == b.holder(name, depth),
    decreases depth,
{
    if depth > 0 {
        lemma_holder_prefix(a, b, name, (depth - 1) as nat);
    }
}

/// Binding a name in a frame that already holds it does not change which
/// frame holds it.
pub proof fn lemma_holder_after_bind(a: State, b: State, f: FrameRef, name: Seq<char>, depth: nat)
    requires
        a.chain == b.chain,
        a.frames.len() <= b.frames.len(),
        a.frame_has(f, name),
        b.frame_has(f, name),
        forall|g: int| 0 <= g < a.frames.len() && g != f ==> a.frames[g] == b.frames[g],
        forall|i: int| 0 <= i < a.chain.len() ==> a.chain[i] < a.frames.len(),
    ensures
        a.holder(name, depth) == b.holder(name, depth),
    decreases depth,
{
    if depth > 0 && depth <= a.chain.len() {
        lemma_holder_after_bind(a, b, f, name, (depth - 1) as nat);
    }
}

/// One run's state.
#[derive(Debug)]
pub struct Env<'a> {
    pub frames: Vec<Bindings<'a>>,
    pub chain: Vec<FrameRef>,
    pub marks: Vec<usize>,
    pub tables: Vec<LuaTable<'a>>,
    pub output: Vec<String>,
    pub closures: usize,
    pub budget: u64,
    pub turns: u64,
}

impl<'a> View for Env<'a> {
    type V = State;

    open spec fn view(&self) -> State {
        State {
            frames: Seq::new(self.frames@.len(), |i: int| self.frames@[i]@),
            chain: self.chain@,
            marks: self.marks@,
            tables: Seq::new(self.tables@.len(), |i: int| self.tables@[i]@),
            output: Seq::new(self.output@.len(), |i: int| self.output@[i]@),
            closures: self.closures,
            budget: self.budget,
            turns: self.turns,
        }
    }
}

/// A copy of a list of handles.
pub fn copy_refs(refs: &Vec<usize>) -> (copy: Vec<usize>)
    ensures
        copy@ == refs@,
{
    let mut copy: Vec<usize> = Vec::new();
    let mut i: usize = 0;
    while i < refs.len()
        invariant
            0 <= i <= refs.len(),
            copy@ == refs@.subrange(0, i as int),
        decreases refs.len() - i,
    {
        copy.push(refs[i]);
        assert(copy@ =~= refs@.subrange(0, i + 1));
        i += 1;
    }
    assert(copy@ =~= refs@);
    copy
}

impl<'a> Env<'a> {
    /// A fresh state whose globals hold the builtins.
    pub fn new() -> (env: Self)
        ensures
            env@ == State::initial(),
            env@.wf(),
    {
        proof {
            crate::interpreter::soundness::lemma_initial_wf();
        }
        let mut globals = Bindings::new();
        globals.set(String::from_str("print"), LuaValue::new(LuaVal::Print));
        globals.set(String::from_str("read"), LuaValue::new(LuaVal::Read));
        globals.set(String::from_str("random"), LuaValue::new(LuaVal::Random));
        proof {
            reveal_strlit("print");
            reveal_strlit("read");
            reveal_strlit("random");
            assert("print"@ != "read"@) by {
                assert("print"@[0] != "read"@[0]);
            }
            assert("print"@ != "random"@) by {
                assert("print"@[0] != "random"@[0]);
            }
            assert("read"@ != "random"@) by {
                assert("read"@[1] != "random"@[1]);
            }
            reveal_with_fuel(crate::interpreter::bindings::assoc_index_from, 4);
            assert(globals@ =~= builtin_frame());
        }
        let mut frames: Vec<Bindings<'a>> = Vec::new();
        frames.push(globals);
        let env = Env {
            frames,
            chain: Vec::new(),
            marks: Vec::new(),
            tables: Vec::new(),
            output: Vec::new(),
            closures: 0,
            budget: DEFAULT_BUDGET,
            turns: DEFAULT_TURNS,
        };
        proof {
            assert(env@.frames =~= State::initial().frames);
            assert(env@.tables =~= State::initial().tables);
            assert(env@.output =~= State::initial().output);
        }
        env
    }

    /// The same state with another nesting budget.
    pub fn with_budget(self, budget: u64) -> (env: Self)
        ensures
            env@ == (State { budget, ..self@ }),
    {
        let env = Env { budget, ..self };
        proof {
            assert(env@.frames =~= self@.frames);
            assert(env@.tables =~= self@.tables);
            assert(env@.output =~= self@.output);
        }
        env
    }

    /// The same state with another limit on the turns of each loop.
    pub fn with_turns(self, turns: u64) -> (env: Self)
        ensures
            env@ == (State { turns, ..self@ }),
    {
        let env = Env { turns, ..self };
        proof {
            assert(env@.frames =~= self@.frames);
            assert(env@.tables =~= self@.tables);
            assert(env@.output =~= self@.output);
        }
        env
    }

    /// Leaves scopes until at most `base` are open.
    pub fn pop_to(&mut self, base: usize)
        ensures
            final(self)@ == old(self)@.pop_to(base as nat),
            final(self)@.output == old(self)@.output,
    {
        while self.marks.len() > base
            invariant
                old(self)@.pop_to(base as nat) == self@.pop_to(base as nat),
                self@.output == old(self)@.output,
            decreases self.marks.len(),
        {
            self.pop_scope();
        }
    }

    /// Enters a scope.
    pub fn push_scope(&mut self)
        ensures
            final(self)@ == old(self)@.push_scope(),
    {
        let frame: usize = self.frames.len();
        let mark: usize = self.chain.len();
        self.frames.push(Bindings::new());
        self.chain.push(frame);
        self.marks.push(mark);
        proof {
            assert(final(self)@.frames =~= old(self)@.push_scope().frames);
            assert(final(self)@.tables =~= old(self)@.tables);
            assert(final(self)@.output =~= old(self)@.output);
        }
    }

    /// Leaves the innermost scope.
    pub fn pop_scope(&mut self)
        ensures
            final(self)@ == old(self)@.pop_scope(),
    {
        match self.marks.pop() {
            None => {
                self.chain.truncate(0);
            },
            Some(mark) => {
                self.chain.truncate(mark);
            },
        }
        proof {
            assert(final(self)@.chain =~= old(self)@.pop_scope().chain);
            assert(final(self)@.marks =~= old(self)@.pop_scope().marks);
            assert(final(self)@.frames =~= old(self)@.frames);
            assert(final(self)@.tables =~= old(self)@.tables);
            assert(final(self)@.output =~= old(self)@.output);
        }
    }

    /// Puts a new empty frame on the innermost scope.
    pub fn reopen_scope_without_clearing(&mut self)
        ensures
            final(self)@ == old(self)@.reopen_scope_without_clearing(),
    {
        let frame: usize = self.frames.len();
        self.frames.push(Bindings::new());
        self.chain.push(frame);
        proof {
            assert(final(self)@.frames =~= old(self)@.reopen_scope_without_clearing().frames);
            assert(final(self)@.tables =~= old(self)@.tables);
            assert(final(self)@.output =~= old(self)@.output);
        }
    }

    /// The frame that a use of the name refers to.
    pub fn resolve(&self, name: &String) -> (f: FrameRef)
        ensures
            f == self@.resolve(name@),
    {
        let mut depth: usize = self.chain.len();
        while depth > 0
            invariant
                0 <= depth <= self.chain.len(),
                self@.holder(name@, self.chain@.len()) == self@.holder(name@, depth as nat),
            decreases depth,
        {
            let f: usize = self.chain[depth - 1];
            if f < self.frames.len() && self.frames[f].contains(name) {
                return f;
            }
            depth -= 1;
        }
        0
    }

    /// The value of a name; `nil` when nothing binds it.
    pub fn lookup(&self, name: &String) -> (value: LuaValue<'a>)
        ensures
            value@ == self@.lookup(name@),
    {
        let f: usize = self.resolve(name);
        if f < self.frames.len() {
            match self.frames[f].get(name) {
                Some(v) => v,
                None => LuaValue::new(LuaVal::LuaNil),
            }
        } else {
            LuaValue::new(LuaVal::LuaNil)
        }
    }

    /// Binds the name in one frame.
    fn bind_in(&mut self, f: FrameRef, name: String, value: LuaValue<'a>)
        ensures
            final(self)@ == old(self)@.bind_in(f, name@, value@),
    {
        if f < self.frames.len() {
            self.frames[f].set(name, value);
            proof {
                assert(final(self)@.frames =~= old(self)@.bind_in(f, name@, value@).frames);
                assert(final(self)@.tables =~= old(self)@.tables);
                assert(final(self)@.output =~= old(self)@.output);
            }
        }
    }

    /// Assigns to a name: in the innermost frame that binds it, or else in
    /// the globals.
    pub fn assign(&mut self, name: String, value: LuaValue<'a>)
        ensures
            final(self)@ == old(self)@.assign(name@, value@),
    {
        let f: usize = self.resolve(&name);
        self.bind_in(f, name, value);
    }

    /// Declares a local in the innermost frame.
    pub fn declare(&mut self, name: String, value: LuaValue<'a>)
        ensures
            final(self)@ == old(self)@.declare(name@, value@),
    {
        let f: usize = if self.chain.len() > 0 {
            self.chain[self.chain.len() - 1]
        } else {
            0
        };
        self.bind_in(f, name, value);
    }

    /// Appends a text to the output.
    pub fn emit(&mut self, text: String)
        ensures
            final(self)@ == old(self)@.emit(text@),
    {
        self.output.push(text);
        proof {
            assert(final(self)@.output =~= old(self)@.emit(text@).output);
            assert(final(self)@.frames =~= old(self)@.frames);
            assert(final(self)@.tables =~= old(self)@.tables);
        }
    }

    /// Adds an empty table and gives its handle.
    pub fn new_table(&mut self) -> (t: TableRef)
        ensures
            final(self)@ == old(self)@.new_table(),
            t == old(self)@.tables.len(),
    {
        let t: usize = self.tables.len();
        self.tables.push(LuaTable::new());
        proof {
            assert(final(self)@.tables =~= old(self)@.new_table().tables);
            assert(final(self)@.frames =~= old(self)@.frames);
            assert(final(self)@.output =~= old(self)@.output);
        }
        t
    }

    /// Stores a value in a table slot.
    pub fn table_set(&mut self, t: TableRef, key: crate::interpreter::table::TableKey, value: LuaValue<'a>)
        ensures
            final(self)@ == old(self)@.table_set(t, key@, value@),
    {
        if t < self.tables.len() {
            self.tables[t].put(key, value);
            proof {
                assert(final(self)@.tables =~= old(self)@.table_set(t, key@, value@).tables);
                assert(final(self)@.frames =~= old(self)@.frames);
                assert(final(self)@.output =~= old(self)@.output);
            }
        }
    }

    /// Reads a table slot; `nil` when the slot or the table is absent.
    pub fn table_get(&self, t: TableRef, key: crate::interpreter::table::TableKey) -> (value: LuaValue<'a>)
        ensures
            value@ == self@.table_get(t, key@),
    {
        if t < self.tables.len() {
            match self.tables[t].get(key) {
                Some(v) => v,
                None => LuaValue::new(LuaVal::LuaNil),
            }
        } else {
            LuaValue::new(LuaVal::LuaNil)
        }
    }

    /// Counts one more closure and gives the count before.
    pub fn count_closure(&mut self) -> (id: usize)
        ensures
            final(self)@ == old(self)@.count_closure(),
            id == old(self)@.closures,
    {
        let id: usize = self.closures;
        if self.closures < usize::MAX {
            self.closures = self.closures + 1;
        }
        proof {
            assert(final(self)@.frames =~= old(self)@.frames);
            assert(final(self)@.tables =~= old(self)@.tables);
            assert(final(self)@.output =~= old(self)@.output);
        }
        id
    }

    /// The frames in sight, for a closure to keep.
    pub fn capture(&self) -> (captured: LocalEnv)
        ensures
            captured.0@ == self@.chain,
    {
        LocalEnv(copy_refs(&self.chain))
    }

    /// Switches to the chain a closure captured and hands back the caller's
    /// chain and scopes.
    pub fn enter_call(&mut self, captured: &LocalEnv) -> (saved: (Vec<FrameRef>, Vec<usize>))
        ensures
            final(self)@ == old(self)@.enter_call(captured.0@),
            saved.0@ == old(self)@.chain,
            saved.1@ == old(self)@.marks,
    {
        let mut chain: Vec<usize> = copy_refs(&captured.0);
        let mut marks: Vec<usize> = Vec::new();
        core::mem::swap(&mut self.chain, &mut chain);
        core::mem::swap(&mut self.marks, &mut marks);
        proof {
            assert(final(self)@.frames =~= old(self)@.frames);
            assert(final(self)@.tables =~= old(self)@.tables);
            assert(final(self)@.output =~= old(self)@.output);
        }
        (chain, marks)
    }

    /// Switches back to the chain and the scopes of the caller.
    pub fn leave_call(&mut self, chain: Vec<FrameRef>, marks: Vec<usize>)
        ensures
            final(self)@ == old(self)@.leave_call(chain@, marks@),
    {
        self.chain = chain;
        self.marks = marks;
        proof {
            assert(final(self)@.frames =~= old(self)@.frames);
            assert(final(self)@.tables =~= old(self)@.tables);
            assert(final(self)@.output =~= old(self)@.output);
        }
    }
}

} // verus!
