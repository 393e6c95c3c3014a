use moonrust::ast::Block;
use moonrust::ast::Expression;
use moonrust::ast::Field;
use moonrust::ast::FunctionCall;
use moonrust::ast::ParList;
use moonrust::ast::Statement;
use moonrust::ast::Var;
use moonrust::interpreter::environment::Env;
use moonrust::AST;

fn num(i: i64) -> Expression {
    Expression::Numeral(i.to_be_bytes(), false)
}

fn flt(f: f64) -> Expression {
    Expression::Numeral(f.to_be_bytes(), true)
}

fn lit(s: &str) -> Expression {
    Expression::LiteralString(s.to_string())
}

fn name(s: &str) -> Expression {
    Expression::Var(Box::new(Var::NameVar(s.to_string())))
}

fn index(table: Expression, key: Expression) -> Expression {
    Expression::Var(Box::new(Var::BracketVar(table, key)))
}

fn field(table: Expression, key: &str) -> Expression {
    Expression::Var(Box::new(Var::DotVar(table, key.to_string())))
}

fn call(callee: Expression, args: Vec<Expression>) -> Expression {
    Expression::Call(Box::new(FunctionCall { callee, args }))
}

fn call_stat(callee: Expression, args: Vec<Expression>) -> Statement {
    Statement::FunctionCall(FunctionCall { callee, args })
}

fn print(args: Vec<Expression>) -> Statement {
    call_stat(name("print"), args)
}

fn local(n: &str, e: Expression) -> Statement {
    Statement::Assignment(vec![Var::NameVar(n.to_string())], vec![e], true)
}

fn set(n: &str, e: Expression) -> Statement {
    Statement::Assignment(vec![Var::NameVar(n.to_string())], vec![e], false)
}

fn set_index(table: Expression, key: Expression, e: Expression) -> Statement {
    Statement::Assignment(vec![Var::BracketVar(table, key)], vec![e], false)
}

fn block(statements: Vec<Statement>) -> Block {
    Block { statements, return_stat: None }
}

fn returning(statements: Vec<Statement>, list: Vec<Expression>) -> Block {
    Block { statements, return_stat: Some(list) }
}

fn function(params: Vec<&str>, body: Block) -> Expression {
    Expression::FunctionDef(ParList(params.into_iter().map(|p| p.to_string()).collect()), body)
}

fn run(program: Block) -> (Result<(), String>, Vec<String>) {
    let ast = AST(program);
    let mut env = Env::new();
    let result = ast.exec(&mut env).map_err(|e| e.0);
    (result, env.output.clone())
}

fn output_of(program: Block) -> Vec<String> {
    let (result, output) = run(program);
    assert_eq!(result, Ok(()));
    output
}

fn returned(program: Block) -> Vec<String> {
    let mut env = Env::new();
    let signal = program.exec(&mut env, 1000).map_err(|e| e.0);
    signal.unwrap().unwrap().iter().map(|v| v.to_string()).collect()
}

#[test]
fn print_appends_each_argument() {
    let out = output_of(block(vec![
        print(vec![lit("a"), num(1), flt(2.5), flt(3.0)]),
        print(vec![]),
        print(vec![Expression::Nil, Expression::True, Expression::False]),
    ]));
    assert_eq!(out, vec!["a", "1", "2.5", "3.0", "nil", "true", "false"]);
}

#[test]
fn return_list_keeps_first_of_all_but_the_last() {
    let f = function(vec![], returning(vec![], vec![num(1), num(2)]));
    let g = function(vec![], returning(vec![], vec![num(3), num(4)]));
    let program = returning(
        vec![local("f", f), local("g", g)],
        vec![call(name("f"), vec![]), call(name("g"), vec![])],
    );
    assert_eq!(returned(program), vec!["1", "3", "4"]);
}

#[test]
fn return_list_of_one_call_keeps_all() {
    let f = function(vec![], returning(vec![], vec![num(1), num(2)]));
    let program = returning(vec![local("f", f)], vec![call(name("f"), vec![])]);
    assert_eq!(returned(program), vec!["1", "2"]);
}

#[test]
fn return_list_takes_nil_from_an_empty_call() {
    let f = function(vec![], block(vec![]));
    let program = returning(
        vec![local("f", f)],
        vec![call(name("f"), vec![]), num(7), call(name("f"), vec![])],
    );
    assert_eq!(returned(program), vec!["nil", "7"]);
}

#[test]
fn block_without_return_gives_no_values() {
    assert_eq!(returned(block(vec![local("x", num(1))])), Vec::<String>::new());
    assert_eq!(returned(returning(vec![], vec![])), Vec::<String>::new());
}

#[test]
fn closure_does_not_see_a_later_declaration() {
    let c = function(vec![], returning(vec![], vec![name("x")]));
    let out = output_of(block(vec![
        local("x", num(1)),
        local("c", c),
        local("x", num(2)),
        print(vec![call(name("c"), vec![])]),
        print(vec![name("x")]),
    ]));
    assert_eq!(out, vec!["1", "2"]);
}

#[test]
fn closure_sees_a_later_assignment() {
    let c = function(vec![], returning(vec![], vec![name("x")]));
    let out = output_of(block(vec![
        local("x", num(1)),
        local("c", c),
        set("x", num(5)),
        print(vec![call(name("c"), vec![])]),
    ]));
    assert_eq!(out, vec!["5"]);
}

#[test]
fn closure_made_in_a_block_does_not_see_what_follows_the_block() {
    let c = function(vec![], returning(vec![], vec![name("x")]));
    let out = output_of(block(vec![
        Statement::DoBlock(block(vec![set("c", c)])),
        local("x", num(2)),
        print(vec![call(name("c"), vec![])]),
    ]));
    assert_eq!(out, vec!["nil"]);
}

#[test]
fn closure_keeps_its_frame_after_the_block_ends() {
    let counter = function(vec![], returning(vec![], vec![name("hidden")]));
    let out = output_of(block(vec![
        Statement::DoBlock(block(vec![local("hidden", lit("kept")), set("get", counter)])),
        print(vec![name("hidden")]),
        print(vec![call(name("get"), vec![])]),
    ]));
    assert_eq!(out, vec!["nil", "kept"]);
}

#[test]
fn output_survives_an_error() {
    let (result, output) = run(block(vec![
        print(vec![lit("a")]),
        call_stat(Expression::True, vec![]),
        print(vec![lit("b")]),
    ]));
    assert_eq!(result, Err("Cannot call value (only functions can be called)".to_string()));
    assert_eq!(output, vec!["a"]);
}

#[test]
fn calling_a_boolean_fails() {
    let (result, _) = run(block(vec![local("b", Expression::False), call_stat(name("b"), vec![])]));
    assert_eq!(result, Err("Cannot call value (only functions can be called)".to_string()));
    let (result, _) = run(block(vec![call_stat(name("undefined"), vec![])]));
    assert!(result.is_err());
}

#[test]
fn read_and_random_are_placeholders() {
    let (result, _) = run(block(vec![call_stat(name("read"), vec![])]));
    assert_eq!(result, Err("Cannot call builtin (only 'print' is available)".to_string()));
    let (result, _) = run(block(vec![call_stat(name("random"), vec![])]));
    assert_eq!(result, Err("Cannot call builtin (only 'print' is available)".to_string()));
    assert_eq!(
        output_of(block(vec![print(vec![name("print"), name("read"), name("random")])])),
        vec!["print", "read", "random"]
    );
}

#[test]
fn table_or_function_as_key_fails() {
    let (result, _) = run(block(vec![
        local("t", Expression::TableConstructor(vec![])),
        set_index(name("t"), Expression::TableConstructor(vec![]), num(1)),
    ]));
    assert_eq!(result, Err("Cannot add 'table: 1' as key into a table".to_string()));
    let (result, _) = run(block(vec![
        local("t", Expression::TableConstructor(vec![])),
        set_index(name("t"), function(vec![], block(vec![])), num(1)),
    ]));
    assert_eq!(result, Err("Cannot add 'function: 0' as key into a table".to_string()));
    let (result, _) = run(block(vec![
        local("t", Expression::TableConstructor(vec![])),
        set_index(name("t"), Expression::Nil, num(1)),
    ]));
    assert_eq!(result, Err("Cannot add 'nil' as key into a table".to_string()));
    let (result, _) = run(block(vec![local(
        "t",
        Expression::TableConstructor(vec![Field::BracketedAssign(Expression::True, num(1))]),
    )]));
    assert_eq!(result, Err("Cannot add 'true' as key into a table".to_string()));
}

#[test]
fn whole_float_key_reads_the_integer_slot() {
    let out = output_of(block(vec![
        local("t", Expression::TableConstructor(vec![])),
        set_index(name("t"), num(1), lit("a")),
        print(vec![index(name("t"), flt(1.0))]),
        set_index(name("t"), flt(2.0), lit("b")),
        print(vec![index(name("t"), num(2))]),
        print(vec![index(name("t"), flt(2.5))]),
        print(vec![Expression::Length(Box::new(name("t")))]),
    ]));
    assert_eq!(out, vec!["a", "b", "nil", "2"]);
}

#[test]
fn tables_are_shared_between_their_holders() {
    let out = output_of(block(vec![
        local("a", Expression::TableConstructor(vec![])),
        local("b", name("a")),
        Statement::Assignment(
            vec![Var::DotVar(name("a"), "x".to_string())],
            vec![lit("seen")],
            false,
        ),
        print(vec![field(name("b"), "x")]),
        print(vec![field(name("b"), "y")]),
    ]));
    assert_eq!(out, vec!["seen", "nil"]);
}

#[test]
fn table_constructor_fills_fields() {
    let pair = function(vec![], returning(vec![], vec![lit("p"), lit("q")]));
    let out = output_of(block(vec![
        local("pair", pair),
        local(
            "t",
            Expression::TableConstructor(vec![
                Field::UnnamedAssign(call(name("pair"), vec![])),
                Field::NameAssign("n".to_string(), num(5)),
                Field::BracketedAssign(lit("k"), lit("v")),
                Field::UnnamedAssign(lit("second")),
                Field::UnnamedAssign(call(name("pair"), vec![])),
            ]),
        ),
        print(vec![
            index(name("t"), num(1)),
            index(name("t"), num(2)),
            index(name("t"), num(3)),
            index(name("t"), num(4)),
            index(name("t"), num(5)),
            field(name("t"), "n"),
            field(name("t"), "k"),
        ]),
    ]));
    assert_eq!(out, vec!["p", "second", "p", "q", "nil", "5", "v"]);
}

#[test]
fn indexing_what_is_not_a_table_fails() {
    let (result, _) = run(block(vec![print(vec![index(num(1), num(1))])]));
    assert_eq!(result, Err("Cannot index value (only tables can be indexed)".to_string()));
    let (result, _) = run(block(vec![set_index(lit("s"), num(1), num(1))]));
    assert_eq!(result, Err("Cannot index value (only tables can be indexed)".to_string()));
    let (result, _) = run(block(vec![print(vec![Expression::Length(Box::new(num(1)))])]));
    assert_eq!(
        result,
        Err("Cannot take length of value (only tables have a length)".to_string())
    );
}

#[test]
fn parameters_are_bound_by_position() {
    let f = function(vec!["a", "b"], block(vec![print(vec![name("a"), name("b")])]));
    let out = output_of(block(vec![
        local("f", f),
        call_stat(name("f"), vec![num(1)]),
        call_stat(name("f"), vec![num(1), num(2), num(3)]),
    ]));
    assert_eq!(out, vec!["1", "nil", "1", "2"]);
}

#[test]
fn call_runs_in_the_captured_chain() {
    let f = function(vec![], returning(vec![], vec![name("x")]));
    let out = output_of(block(vec![
        local("x", lit("outer")),
        local("f", f),
        Statement::DoBlock(block(vec![
            local("x", lit("inner")),
            print(vec![call(name("f"), vec![]), name("x")]),
        ])),
        print(vec![name("x")]),
    ]));
    assert_eq!(out, vec!["outer", "inner", "outer"]);
}

#[test]
fn assignment_assigns_by_position() {
    let pair = function(vec![], returning(vec![], vec![num(1), num(2)]));
    let out = output_of(block(vec![
        local("pair", pair),
        Statement::Assignment(
            vec![
                Var::NameVar("a".to_string()),
                Var::NameVar("b".to_string()),
                Var::NameVar("c".to_string()),
            ],
            vec![call(name("pair"), vec![]), call(name("pair"), vec![])],
            true,
        ),
        print(vec![name("a"), name("b"), name("c")]),
        Statement::Assignment(
            vec![Var::NameVar("a".to_string()), Var::NameVar("d".to_string())],
            vec![lit("x")],
            false,
        ),
        print(vec![name("a"), name("d")]),
    ]));
    assert_eq!(out, vec!["1", "1", "2", "x", "nil"]);
}

#[test]
fn inner_scope_hides_and_restores() {
    let out = output_of(block(vec![
        local("x", num(1)),
        Statement::DoBlock(block(vec![local("x", num(2)), print(vec![name("x")])])),
        print(vec![name("x")]),
        Statement::DoBlock(block(vec![set("x", num(3)), set("g", num(4))])),
        print(vec![name("x"), name("g")]),
    ]));
    assert_eq!(out, vec!["2", "1", "3", "4"]);
}

#[test]
fn empty_return_is_normal_completion() {
    let out = output_of(block(vec![
        Statement::DoBlock(returning(vec![], vec![])),
        print(vec![lit("x")]),
    ]));
    assert_eq!(out, vec!["x"]);
}

#[test]
fn return_ends_the_enclosing_blocks() {
    let f = function(
        vec![],
        block(vec![
            Statement::DoBlock(returning(vec![print(vec![lit("in")])], vec![lit("r")])),
            print(vec![lit("not reached")]),
        ]),
    );
    let out = output_of(block(vec![local("f", f), print(vec![call(name("f"), vec![])])]));
    assert_eq!(out, vec!["in", "r"]);
}

#[test]
fn if_takes_a_branch() {
    let out = output_of(block(vec![
        Statement::If(num(0), block(vec![print(vec![lit("zero is true")])]), None),
        Statement::If(
            Expression::Nil,
            block(vec![print(vec![lit("no")])]),
            Some(block(vec![print(vec![lit("else")])])),
        ),
        Statement::If(Expression::False, block(vec![print(vec![lit("no")])]), None),
        Statement::If(
            Expression::Not(Box::new(lit(""))),
            block(vec![print(vec![lit("no")])]),
            Some(block(vec![print(vec![lit("empty text is true")])])),
        ),
    ]));
    assert_eq!(out, vec!["zero is true", "else", "empty text is true"]);
}

#[test]
fn while_loop_runs_until_false_or_break() {
    let out = output_of(block(vec![
        local("go", Expression::True),
        Statement::While(
            name("go"),
            block(vec![print(vec![lit("turn")]), set("go", Expression::False)]),
        ),
        Statement::While(
            Expression::True,
            block(vec![print(vec![lit("once")]), Statement::Break, print(vec![lit("no")])]),
        ),
        print(vec![lit("after")]),
    ]));
    assert_eq!(out, vec!["turn", "once", "after"]);
}

#[test]
fn return_inside_a_loop_leaves_the_function() {
    let f = function(
        vec![],
        block(vec![
            Statement::While(Expression::True, returning(vec![], vec![lit("out")])),
            print(vec![lit("no")]),
        ]),
    );
    let out = output_of(block(vec![local("f", f), print(vec![call(name("f"), vec![])])]));
    assert_eq!(out, vec!["out"]);
}

#[test]
fn repeat_condition_sees_the_locals_of_the_body() {
    let out = output_of(block(vec![
        local("stop", Expression::False),
        Statement::Repeat(
            block(vec![print(vec![lit("body")]), local("stop", Expression::True)]),
            name("stop"),
        ),
        print(vec![name("stop")]),
    ]));
    assert_eq!(out, vec!["body", "false"]);
}

#[test]
fn repeat_runs_again_while_the_condition_is_false() {
    let out = output_of(block(vec![
        local("t", Expression::TableConstructor(vec![])),
        Statement::Repeat(
            block(vec![
                print(vec![lit("turn")]),
                local("seen", field(name("t"), "seen")),
                Statement::Assignment(
                    vec![Var::DotVar(name("t"), "seen".to_string())],
                    vec![Expression::True],
                    false,
                ),
            ]),
            name("seen"),
        ),
    ]));
    assert_eq!(out, vec!["turn", "turn"]);
}

#[test]
fn numeric_loop_counts_up_and_down() {
    let body = || block(vec![print(vec![name("i")])]);
    let out = output_of(block(vec![
        Statement::ForNum("i".to_string(), num(1), num(3), None, body()),
        Statement::ForNum("i".to_string(), num(3), num(1), Some(num(-1)), body()),
        Statement::ForNum("i".to_string(), num(1), num(6), Some(num(2)), body()),
        Statement::ForNum("i".to_string(), num(3), num(1), None, body()),
        Statement::ForNum("i".to_string(), flt(1.0), flt(2.5), Some(flt(1.0)), body()),
        Statement::ForNum("i".to_string(), num(0), flt(-1.5), Some(num(-1)), body()),
        print(vec![name("i")]),
    ]));
    assert_eq!(
        out,
        vec!["1", "2", "3", "3", "2", "1", "1", "3", "5", "1", "2", "0", "-1", "nil"]
    );
}

#[test]
fn numeric_loop_stops_at_the_end_of_the_integers() {
    let out = output_of(block(vec![Statement::ForNum(
        "i".to_string(),
        num(i64::MAX - 1),
        num(i64::MAX),
        None,
        block(vec![print(vec![name("i")])]),
    )]));
    assert_eq!(out, vec!["9223372036854775806", "9223372036854775807"]);
}

#[test]
fn numeric_loop_checks_its_numbers() {
    let body = || block(vec![]);
    let (result, _) =
        run(block(vec![Statement::ForNum("i".to_string(), num(1), num(3), Some(num(0)), body())]));
    assert_eq!(result, Err("'for' step is zero".to_string()));
    let (result, _) =
        run(block(vec![Statement::ForNum("i".to_string(), flt(1.5), num(3), None, body())]));
    assert_eq!(
        result,
        Err("Cannot convert float that does not have exact integer value to integer".to_string())
    );
    let (result, _) =
        run(block(vec![Statement::ForNum("i".to_string(), lit("1"), num(3), None, body())]));
    assert_eq!(
        result,
        Err("Cannot convert value to integer (types cannot be converted)".to_string())
    );
    let (result, _) =
        run(block(vec![Statement::ForNum("i".to_string(), num(1), lit("3"), None, body())]));
    assert_eq!(result, Err("Cannot compare values (types cannot be compared)".to_string()));
}

#[test]
fn break_leaves_the_numeric_loop() {
    let out = output_of(block(vec![
        Statement::ForNum(
            "i".to_string(),
            num(1),
            num(10),
            None,
            block(vec![print(vec![name("i")]), Statement::Break]),
        ),
        print(vec![lit("after")]),
    ]));
    assert_eq!(out, vec!["1", "after"]);
}

#[test]
fn endless_loop_runs_out_of_turns() {
    let ast = AST(block(vec![Statement::While(Expression::True, block(vec![print(vec![lit("t")])]))]));
    let mut env = Env::new().with_turns(3);
    let result = ast.exec(&mut env).map_err(|e| e.0);
    assert_eq!(result, Err("Loop ran out of turns".to_string()));
    assert_eq!(env.output, vec!["t", "t", "t"]);
    let ast = AST(block(vec![Statement::Repeat(block(vec![]), Expression::False)]));
    let mut env = Env::new().with_turns(1000);
    assert_eq!(ast.exec(&mut env).map_err(|e| e.0), Err("Loop ran out of turns".to_string()));
    let ast = AST(block(vec![Statement::ForNum(
        "i".to_string(),
        num(1),
        num(10),
        None,
        block(vec![]),
    )]));
    let mut env = Env::new().with_turns(9);
    assert_eq!(ast.exec(&mut env).map_err(|e| e.0), Err("Loop ran out of turns".to_string()));
    let mut env = Env::new().with_turns(11);
    assert_eq!(ast.exec(&mut env).map_err(|e| e.0), Ok(()));
}

#[test]
fn each_loop_has_its_own_turns() {
    let inner = Statement::ForNum("j".to_string(), num(1), num(3), None, block(vec![print(vec![name("j")])]));
    let ast = AST(block(vec![Statement::ForNum("i".to_string(), num(1), num(3), None, block(vec![inner]))]));
    let mut env = Env::new().with_turns(4);
    assert_eq!(ast.exec(&mut env).map_err(|e| e.0), Ok(()));
    assert_eq!(env.output.len(), 9);
}

#[test]
fn nesting_deeper_than_the_budget_fails() {
    let ast = AST(block(vec![Statement::DoBlock(block(vec![Statement::DoBlock(block(vec![
        print(vec![lit("deep")]),
    ]))]))]));
    let mut env = Env::new().with_budget(5);
    assert_eq!(ast.exec(&mut env).map_err(|e| e.0), Err("Evaluation budget exhausted".to_string()));
    let mut env = Env::new().with_budget(0);
    assert_eq!(ast.exec(&mut env).map_err(|e| e.0), Err("Evaluation budget exhausted".to_string()));
    let mut env = Env::new().with_budget(50);
    assert_eq!(ast.exec(&mut env).map_err(|e| e.0), Ok(()));
    assert_eq!(env.output, vec!["deep"]);
}

#[test]
fn endless_recursion_fails_with_the_default_budget() {
    let f = function(vec![], returning(vec![], vec![call(name("f"), vec![])]));
    let ast = AST(block(vec![set("f", f), call_stat(name("f"), vec![])]));
    let mut env = Env::new();
    let result = ast.exec(&mut env).map_err(|e| e.0);
    assert_eq!(result, Err("Evaluation budget exhausted".to_string()));
}

#[test]
fn endless_recursion_runs_out_of_budget() {
    let f = function(vec![], returning(vec![], vec![call(name("f"), vec![])]));
    let ast = AST(block(vec![print(vec![lit("start")]), set("f", f), call_stat(name("f"), vec![])]));
    let mut env = Env::new().with_budget(200);
    let result = ast.exec(&mut env).map_err(|e| e.0);
    assert_eq!(result, Err("Evaluation budget exhausted".to_string()));
    assert_eq!(env.output, vec!["start"]);
}

#[test]
fn long_loop_fits_the_default_budget() {
    let out = output_of(block(vec![
        local("last", num(0)),
        Statement::ForNum(
            "i".to_string(),
            num(1),
            num(20000),
            None,
            block(vec![set("last", name("i"))]),
        ),
        print(vec![name("last")]),
    ]));
    assert_eq!(out, vec!["20000"]);
}

#[test]
fn program_values_are_dropped() {
    let (result, output) = run(returning(vec![], vec![num(1), num(2)]));
    assert_eq!(result, Ok(()));
    assert!(output.is_empty());
}

#[test]
fn semicolon_does_nothing() {
    assert_eq!(
        output_of(block(vec![Statement::Semicolon, print(vec![lit("x")]), Statement::Semicolon])),
        vec!["x"]
    );
}

#[test]
fn scopes_open_and_close() {
    let mut env = Env::new();
    assert_eq!(env.chain.len(), 0);
    env.push_scope();
    env.declare("x".to_string(), moonrust::interpreter::LuaValue::new(moonrust::interpreter::LuaVal::LuaBool(true)));
    assert_eq!(env.chain, vec![1]);
    env.reopen_scope_without_clearing();
    assert_eq!(env.chain, vec![1, 2]);
    assert!(env.lookup(&"x".to_string()).is_true());
    env.push_scope();
    assert_eq!(env.chain, vec![1, 2, 3]);
    assert!(env.lookup(&"x".to_string()).is_true());
    env.pop_scope();
    assert_eq!(env.chain, vec![1, 2]);
    env.pop_scope();
    assert_eq!(env.chain.len(), 0);
    assert!(env.lookup(&"x".to_string()).is_nil());
    assert_eq!(env.lookup(&"print".to_string()).to_string(), "print");
}

#[test]
fn run_joins_the_output_with_line_feeds() {
    let ast = AST(block(vec![print(vec![lit("a"), num(1)]), print(vec![lit("b")])]));
    assert_eq!(moonrust::run(&ast), Ok("a\n1\nb".to_string()));
    assert_eq!(moonrust::run(&AST(block(vec![]))), Ok(String::new()));
    assert_eq!(moonrust::run(&AST(block(vec![print(vec![lit("only")])]))), Ok("only".to_string()));
}

#[test]
fn run_drops_the_output_of_a_failed_program() {
    let ast = AST(block(vec![print(vec![lit("a")]), call_stat(Expression::True, vec![])]));
    assert_eq!(
        moonrust::run(&ast),
        Err("Cannot call value (only functions can be called)".to_string())
    );
}

#[test]
fn join_output_joins() {
    assert_eq!(moonrust::join_output(&vec![]), "");
    assert_eq!(moonrust::join_output(&vec!["x".to_string()]), "x");
    assert_eq!(
        moonrust::join_output(&vec!["x".to_string(), "".to_string(), "z".to_string()]),
        "x\n\nz"
    );
}
