//! A tree-walking evaluator for a small Lua-like language.
//!
//! The crate holds the runtime value model, the table store, the scope chain
//! and the executor that threads control-flow signals through nested blocks.
use vstd::prelude::*;
use vstd::string::StringExecFns;
use crate::interpreter::environment::Env;
use crate::interpreter::environment::State;
use crate::interpreter::environment::DEFAULT_BUDGET;
use crate::interpreter::semantics::exec_block;

pub mod ast;
pub mod interpreter;

pub use ast::AST;

verus! {

/// The lines joined by line feeds.
pub open spec fn join_lines(lines: Seq<Seq<char>>) -> Seq<char>
    decreases lines.len(),
{
    if lines.len() == 0 {
        Seq::empty()
    } else if lines.len() == 1 {
        lines[0]
    } else {
        join_lines(lines.drop_last()) + seq!['\n'] + lines.last()
    }
}

/// The texts joined by line feeds.
pub fn join_output(lines: &Vec<String>) -> (text: String)
    ensures
        text@ == join_lines(Seq::new(lines@.len(), |i: int| lines@[i]@)),
{
    let ghost all = Seq::new(lines@.len(), |i: int| lines@[i]@);
    if lines.len() == 0 {
        return String::new();
    }
    let mut text = lines[0].clone();
    let mut i: usize = 1;
    assert(all.take(1) =~= seq![all[0]]);
    while i < lines.len()
        invariant
            1 <= i <= lines.len(),
            all == Seq::new(lines@.len(), |k: int| lines@[k]@),
            text@ == join_lines(all.take(i as int)),
        decreases lines.len() - i,
    {
        proof {
            reveal_strlit("\n");
            assert(all.take(i + 1).drop_last() =~= all.take(i as int));
        }
        text.append("\n");
        text.append(lines[i].as_str());
        assert(text@ =~= join_lines(all.take(i + 1)));
        i += 1;
    }
    assert(all.take(lines@.len() as int) =~= all);
    text
}

/// Runs a program in a fresh state. When it completes, the result is what
/// it printed, one line for each text; when it fails, the result is the
/// message of the error, and what was printed before is dropped.
pub fn run(ast: &AST) -> (r: Result<String, String>)
    ensures
        match exec_block(ast.0, State::initial(), DEFAULT_BUDGET as nat) {
            (s, Ok(_)) => r matches Ok(text) && text@ == join_lines(s.output),
            (s, Err(m)) => r matches Err(e) && e@ == m,
        },
{
    let mut env = Env::new();
    match ast.exec(&mut env) {
        Err(e) => Err(e.0),
        Ok(_) => {
            assert(env@.output =~= Seq::new(env.output@.len(), |i: int| env.output@[i]@));
            Ok(join_output(&env.output))
        },
    }
}

} // verus!
