use esolang::bindings::BindingTable;
use esolang::esotypes::{Datatype, Token, TokenType, Var};
use esolang::evaluator::{
    evaluate_tokens, finish_call, resolve_symbol, split_args, ErrorKind, EvalError, Progress,
    Reply, Request, Resolved, Step,
};
use esolang::lexicon::Lexicon;
use esolang::natives::print_line;
use esolang::registry::ExtensionRegistry;
use esolang::scanner::tokenize;

const DEPTH: usize = 64;

fn scan(s: &str) -> Vec<Token> {
    let lexicon = Lexicon::new().unwrap();
    tokenize(&s.chars().collect(), &lexicon)
}

fn leaf(kind: TokenType, text: &str) -> Token {
    Token::new_value(kind, text.to_string())
}

fn group(kind: TokenType, children: Vec<Token>) -> Token {
    Token::new_nested(kind, children)
}

fn number(text: &str) -> Var {
    Var { datatype: Datatype::Number, value: leaf(TokenType::Number, text) }
}

fn string(text: &str) -> Var {
    Var { datatype: Datatype::String, value: leaf(TokenType::String, text) }
}

fn registry(paths: &[&str]) -> ExtensionRegistry {
    ExtensionRegistry { paths: paths.iter().map(|p| p.to_string()).collect() }
}

/// The step of a pass, the modules loaded at it and the answers used.
type Seen = (Step, ExtensionRegistry, usize);

fn seen(progress: Progress) -> Seen {
    (progress.step, progress.modules, progress.used)
}

fn done(value: Option<Var>, paths: &[&str], used: usize) -> Seen {
    (Step::Done(value), registry(paths), used)
}

fn need(request: Request, paths: &[&str], used: usize) -> Seen {
    (Step::Need(request), registry(paths), used)
}

fn failed(kind: ErrorKind, token: &str, paths: &[&str], used: usize) -> Seen {
    (Step::Failed(EvalError { kind, token: token.to_string() }), registry(paths), used)
}

fn seen_of(
    tokens: &Vec<Token>,
    want: bool,
    vars: &BindingTable,
    modules: &ExtensionRegistry,
    replies: &Vec<Reply>,
    depth: usize,
) -> Seen {
    seen(evaluate_tokens(tokens, want, vars, modules, replies, depth))
}

fn pass(source: &str, want: bool, vars: &BindingTable, paths: &[&str], replies: Vec<Reply>) -> Progress {
    evaluate_tokens(&scan(source), want, vars, &registry(paths), &replies, DEPTH)
}

fn eval(source: &str, want: bool, vars: &BindingTable, paths: &[&str], replies: Vec<Reply>) -> Seen {
    let progress = pass(source, want, vars, paths, replies);
    assert_eq!(progress.vars, vars.clone());
    seen(progress)
}

fn hi_table() -> (BindingTable, Token) {
    let body = group(TokenType::Block, vec![leaf(TokenType::String, "hi")]);
    let mut vars = BindingTable::new();
    vars.define("name".to_string(), Var { datatype: Datatype::Func, value: body.clone() });
    (vars, body)
}

#[test]
fn defined_function_is_called() {
    let (vars, body) = hi_table();
    let bound = vars.lookup(&"name".to_string()).unwrap();
    assert_eq!(bound.datatype, Datatype::Func);
    assert_eq!(bound.value, body);
    assert_eq!(eval("name()", true, &vars, &[], vec![]), done(Some(string("hi")), &[], 0));
    let children = body.token_nested.unwrap();
    assert_eq!(
        seen_of(&children, true, &vars, &registry(&[]), &vec![], DEPTH),
        done(Some(string("hi")), &[], 0)
    );
}

#[test]
fn block_behind_parenthetical_is_a_function() {
    let vars = BindingTable::new();
    let block = group(TokenType::Block, vec![leaf(TokenType::String, "hi")]);
    let tokens = vec![group(TokenType::Parenthetical, vec![]), block.clone()];
    assert_eq!(
        seen_of(&tokens, true, &vars, &registry(&[]), &vec![], DEPTH),
        done(Some(Var { datatype: Datatype::Func, value: block }), &[], 0)
    );
    assert_eq!(
        seen_of(&tokens, false, &vars, &registry(&[]), &vec![], DEPTH),
        done(None, &[], 0)
    );
}

#[test]
fn block_behind_another_token_is_passed_over() {
    let vars = BindingTable::new();
    assert_eq!(eval("x + { \"hi\" }", true, &vars, &[], vec![]), done(None, &[], 0));
    assert_eq!(eval("1 = { \"hi\" }", true, &vars, &[], vec![]), done(None, &[], 0));
}

#[test]
fn assignment_of_a_block_binds_a_function() {
    let body = group(TokenType::Block, vec![leaf(TokenType::String, "hi")]);
    let mut expected = BindingTable::new();
    expected.define("name".to_string(), Var { datatype: Datatype::Func, value: body.clone() });
    for want in [false, true] {
        let progress = pass("name = { \"hi\" }", want, &BindingTable::new(), &["m"], vec![]);
        assert_eq!(progress.vars, expected);
        assert_eq!(seen(progress), done(None, &["m"], 0));
    }
}

#[test]
fn assignment_of_a_literal_binds_it() {
    let progress = pass("a = \"text\" b = 42", false, &BindingTable::new(), &[], vec![]);
    assert_eq!(progress.vars.lookup(&"a".to_string()), Some(&string("text")));
    assert_eq!(progress.vars.lookup(&"b".to_string()), Some(&number("42")));
    assert_eq!(progress.vars.entries.len(), 2);
    assert_eq!(seen(progress), done(None, &[], 0));
}

#[test]
fn last_assignment_wins() {
    let (vars, _) = hi_table();
    let progress = pass("name = 1 other = 2 name = 3", false, &vars, &[], vec![]);
    assert_eq!(progress.vars.lookup(&"name".to_string()), Some(&number("3")));
    assert_eq!(progress.vars.lookup(&"other".to_string()), Some(&number("2")));
    assert_eq!(progress.vars.entries.len(), 2);
    assert_eq!(vars.lookup(&"name".to_string()).unwrap().datatype, Datatype::Func);
}

#[test]
fn assignment_of_anything_else_binds_nothing() {
    let vars = BindingTable::new();
    for source in ["a = b", "a = (1)", "a = =", "a =", "a 1", "= 1"] {
        let progress = pass(source, false, &vars, &[], vec![]);
        assert_eq!(progress.vars, vars);
        assert_eq!(seen(progress), done(None, &[], 0));
    }
}

#[test]
fn assigned_function_can_be_called() {
    let program = "greet = { \"hi\" } greet()";
    let progress = pass(program, true, &BindingTable::new(), &[], vec![]);
    assert_eq!(progress.step, Step::Done(Some(string("hi"))));
    assert!(progress.vars.lookup(&"greet".to_string()).is_some());
}

#[test]
fn assignment_is_made_anew_when_a_pass_starts_again() {
    let vars = BindingTable::new();
    let source = "x = 1 # \"m\" x = 2";
    let first = pass(source, false, &vars, &[], vec![]);
    assert_eq!(first.step, Step::Need(Request::Load { path: "m".to_string() }));
    assert_eq!(first.vars.lookup(&"x".to_string()), Some(&number("1")));
    let second = pass(source, false, &vars, &[], vec![Reply::Loaded]);
    assert_eq!(second.vars.lookup(&"x".to_string()), Some(&number("2")));
    assert_eq!(seen(second), done(None, &["m"], 1));
}

#[test]
fn literal_value_holds_text_and_no_children() {
    let children = vec![Token::new_value(TokenType::String, "hi".to_string())];
    let progress = evaluate_tokens(&children, true, &BindingTable::new(), &registry(&[]), &vec![], DEPTH);
    match progress.step {
        Step::Done(Some(v)) => {
            assert_eq!(v.datatype, Datatype::String);
            assert_eq!(v.value.token_type, TokenType::String);
            assert_eq!(v.value.token_value, Some("hi".to_string()));
            assert_eq!(v.value.token_nested, None);
        }
        other => panic!("{:?}", other),
    }
}

#[test]
fn block_that_stands_first_is_evaluated() {
    let vars = BindingTable::new();
    assert_eq!(eval("{ 7 } 8", true, &vars, &[], vec![]), done(Some(number("7")), &[], 0));
    assert_eq!(eval("{ { \"a\" } }", true, &vars, &[], vec![]), done(Some(string("a")), &[], 0));
    assert_eq!(eval("{ }", true, &vars, &[], vec![]), done(None, &[], 0));
}

#[test]
fn literal_that_stands_alone_is_its_value() {
    let vars = BindingTable::new();
    assert_eq!(eval("\"abc\"", true, &vars, &[], vec![]), done(Some(string("abc")), &[], 0));
    assert_eq!(eval("42", true, &vars, &[], vec![]), done(Some(number("42")), &[], 0));
}

#[test]
fn literal_among_others_is_passed_over() {
    let vars = BindingTable::new();
    assert_eq!(eval("1 2", true, &vars, &[], vec![]), done(None, &[], 0));
    assert_eq!(eval("\"a\" + \"b\"", true, &vars, &[], vec![]), done(None, &[], 0));
}

#[test]
fn unwanted_value_is_not_given() {
    let vars = BindingTable::new();
    assert_eq!(eval("42", false, &vars, &[], vec![]), done(None, &[], 0));
    assert_eq!(eval("\"abc\"", false, &vars, &[], vec![]), done(None, &[], 0));
    assert_eq!(eval("", false, &vars, &[], vec![]), done(None, &[], 0));
}

#[test]
fn name_without_parenthetical_is_passed_over() {
    let (vars, _) = hi_table();
    assert_eq!(eval("name", true, &vars, &[], vec![]), done(None, &[], 0));
    assert_eq!(eval("name name", true, &vars, &[], vec![]), done(None, &[], 0));
    assert_eq!(eval("name {}", true, &vars, &[], vec![]), done(None, &[], 0));
}

#[test]
fn import_asks_for_the_module() {
    let vars = BindingTable::new();
    assert_eq!(
        eval("# \"m\"", false, &vars, &[], vec![]),
        need(Request::Load { path: "m".to_string() }, &[], 0)
    );
    assert_eq!(eval("# \"m\"", false, &vars, &[], vec![Reply::Loaded]), done(None, &["m"], 1));
    assert_eq!(eval("# m", false, &vars, &["a"], vec![Reply::Loaded]), done(None, &["a", "m"], 1));
}

#[test]
fn import_of_a_loaded_module_keeps_its_place() {
    let vars = BindingTable::new();
    assert_eq!(
        eval("# \"a\" # \"b\" # \"a\"", false, &vars, &[], vec![
            Reply::Loaded,
            Reply::Loaded,
            Reply::Loaded
        ]),
        done(None, &["a", "b"], 3)
    );
}

#[test]
fn import_at_the_end_does_nothing() {
    let vars = BindingTable::new();
    assert_eq!(eval("#", false, &vars, &[], vec![]), done(None, &[], 0));
}

#[test]
fn import_that_fails_is_a_load_error() {
    let vars = BindingTable::new();
    assert_eq!(
        eval("# \"m\" 1", false, &vars, &[], vec![Reply::LoadFailed]),
        failed(ErrorKind::ExtensionLoadError, "m", &[], 1)
    );
    assert_eq!(
        eval("# \"m\"", false, &vars, &[], vec![Reply::Found]),
        failed(ErrorKind::ExtensionLoadError, "m", &[], 1)
    );
}

#[test]
fn import_of_a_group_is_a_load_error() {
    let vars = BindingTable::new();
    assert_eq!(
        eval("# (m)", false, &vars, &[], vec![Reply::Loaded]),
        failed(ErrorKind::ExtensionLoadError, "", &[], 0)
    );
}

#[test]
fn native_call_step_by_step() {
    let vars = BindingTable::new();
    let source = "# \"m\" add(1,2)";
    assert_eq!(
        eval(source, true, &vars, &[], vec![]),
        need(Request::Load { path: "m".to_string() }, &[], 0)
    );
    assert_eq!(
        eval(source, true, &vars, &[], vec![Reply::Loaded]),
        need(Request::Resolve { module: "m".to_string(), symbol: "add".to_string() }, &["m"], 1)
    );
    assert_eq!(
        eval(source, true, &vars, &[], vec![Reply::Loaded, Reply::Found]),
        need(
            Request::Invoke {
                module: "m".to_string(),
                symbol: "add".to_string(),
                args: vec![Some(number("1")), Some(number("2"))],
            },
            &["m"],
            2
        )
    );
    assert_eq!(
        eval(source, true, &vars, &[], vec![
            Reply::Loaded,
            Reply::Found,
            Reply::Returned(Some(number("3")))
        ]),
        done(Some(number("3")), &["m"], 3)
    );
    assert_eq!(
        eval(source, true, &vars, &[], vec![Reply::Loaded, Reply::Found, Reply::Returned(None)]),
        done(None, &["m"], 3)
    );
}

#[test]
fn call_of_an_unimported_name_is_unbound() {
    let vars = BindingTable::new();
    assert_eq!(
        eval("add(1,2)", true, &vars, &[], vec![]),
        failed(ErrorKind::UnboundIdentifier, "add", &[], 0)
    );
}

#[test]
fn call_of_an_unexported_name_is_unbound() {
    let vars = BindingTable::new();
    assert_eq!(
        eval("# \"m\" add(1,2)", true, &vars, &[], vec![Reply::Loaded, Reply::Missing]),
        failed(ErrorKind::UnboundIdentifier, "add", &["m"], 2)
    );
    assert_eq!(
        eval("add(1,2)", true, &vars, &["a", "b"], vec![Reply::Missing, Reply::Missing]),
        failed(ErrorKind::UnboundIdentifier, "add", &["a", "b"], 2)
    );
}

#[test]
fn modules_are_asked_in_the_order_of_loading() {
    let vars = BindingTable::new();
    assert_eq!(
        eval("f()", true, &vars, &["a", "b"], vec![]),
        need(Request::Resolve { module: "a".to_string(), symbol: "f".to_string() }, &["a", "b"], 0)
    );
    assert_eq!(
        eval("f()", true, &vars, &["a", "b"], vec![Reply::Missing]),
        need(Request::Resolve { module: "b".to_string(), symbol: "f".to_string() }, &["a", "b"], 1)
    );
    assert_eq!(
        eval("f()", true, &vars, &["a", "b"], vec![Reply::Missing, Reply::Found]),
        need(
            Request::Invoke { module: "b".to_string(), symbol: "f".to_string(), args: vec![None] },
            &["a", "b"],
            2
        )
    );
    assert_eq!(
        eval("f()", true, &vars, &["a", "b"], vec![Reply::Found]),
        need(
            Request::Invoke { module: "a".to_string(), symbol: "f".to_string(), args: vec![None] },
            &["a", "b"],
            1
        )
    );
}

#[test]
fn binding_shadows_native_function() {
    let (mut vars, _) = hi_table();
    assert_eq!(
        eval("name(1)", true, &vars, &["m"], vec![Reply::Found, Reply::Returned(Some(number("9")))]),
        done(Some(string("hi")), &["m"], 0)
    );
    assert_eq!(eval("name(1)", true, &vars, &[], vec![]), done(Some(string("hi")), &[], 0));
    vars.define("add".to_string(), string("text"));
    assert_eq!(
        eval("add(1,2)", true, &vars, &["m"], vec![Reply::Found]),
        failed(ErrorKind::ArityOrTypeMismatch, "add", &["m"], 0)
    );
}

#[test]
fn rejected_call_is_a_mismatch() {
    let vars = BindingTable::new();
    assert_eq!(
        eval("f(1)", true, &vars, &["m"], vec![Reply::Found, Reply::Rejected]),
        failed(ErrorKind::ArityOrTypeMismatch, "f", &["m"], 2)
    );
}

#[test]
fn function_that_went_missing() {
    let vars = BindingTable::new();
    assert_eq!(
        eval("f(1)", true, &vars, &["m"], vec![Reply::Found, Reply::Missing]),
        failed(ErrorKind::ExtensionSymbolMissing, "f", &["m"], 2)
    );
}

#[test]
fn nested_native_calls() {
    let vars = BindingTable::new();
    let inner = scan("add(1,2), \"x\"");
    let tokens = vec![leaf(TokenType::UserVar, "print"), group(TokenType::Parenthetical, inner)];
    let run = |replies: Vec<Reply>| seen_of(&tokens, false, &vars, &registry(&["m"]), &replies, DEPTH);
    assert_eq!(
        run(vec![Reply::Found]),
        need(Request::Resolve { module: "m".to_string(), symbol: "add".to_string() }, &["m"], 1)
    );
    assert_eq!(
        run(vec![Reply::Found, Reply::Found, Reply::Returned(Some(number("3")))]),
        need(
            Request::Invoke {
                module: "m".to_string(),
                symbol: "print".to_string(),
                args: vec![Some(number("3")), Some(string("x"))],
            },
            &["m"],
            3
        )
    );
    assert_eq!(
        run(vec![
            Reply::Found,
            Reply::Found,
            Reply::Returned(Some(number("3"))),
            Reply::Returned(None)
        ]),
        done(None, &["m"], 4)
    );
    assert_eq!(
        run(vec![Reply::Found, Reply::Missing]),
        failed(ErrorKind::UnboundIdentifier, "add", &["m"], 2)
    );
}

#[test]
fn function_body_may_call_native_function() {
    let mut vars = BindingTable::new();
    let body = group(TokenType::Block, scan("print(\"x\")"));
    vars.define("show".to_string(), Var { datatype: Datatype::Func, value: body });
    assert_eq!(
        eval("show()", false, &vars, &["m"], vec![Reply::Found, Reply::Returned(None)]),
        done(None, &["m"], 2)
    );
}

#[test]
fn endless_recursion_exceeds_the_depth() {
    let mut vars = BindingTable::new();
    let body = group(TokenType::Block, scan("again()"));
    vars.define("again".to_string(), Var { datatype: Datatype::Func, value: body });
    assert_eq!(
        eval("again()", true, &vars, &[], vec![]),
        failed(ErrorKind::DepthExceeded, "again", &[], 0)
    );
}

#[test]
fn depth_counts_blocks_and_calls() {
    let vars = BindingTable::new();
    let tokens = scan("{ 7 }");
    let run = |depth: usize| seen_of(&tokens, true, &vars, &registry(&[]), &vec![], depth);
    assert_eq!(run(0), failed(ErrorKind::DepthExceeded, "", &[], 0));
    assert_eq!(run(1), done(Some(number("7")), &[], 0));
    let call = scan("f(1)");
    assert_eq!(
        seen_of(&call, true, &vars, &registry(&["m"]), &vec![], 0),
        failed(ErrorKind::DepthExceeded, "f", &["m"], 0)
    );
}

#[test]
fn answers_beyond_the_end_change_nothing() {
    let vars = BindingTable::new();
    assert_eq!(
        eval("42", true, &vars, &[], vec![Reply::Loaded, Reply::Found]),
        done(Some(number("42")), &[], 0)
    );
    assert_eq!(
        eval("f(1)", true, &vars, &["m"], vec![
            Reply::Found,
            Reply::Returned(Some(number("2"))),
            Reply::Rejected,
            Reply::LoadFailed
        ]),
        done(Some(number("2")), &["m"], 2)
    );
    assert_eq!(
        eval("f(1)", true, &vars, &["m"], vec![Reply::Missing, Reply::Found, Reply::Loaded]),
        failed(ErrorKind::UnboundIdentifier, "f", &["m"], 1)
    );
}

#[test]
fn arguments_are_divided_at_commas() {
    let children = vec![
        leaf(TokenType::UserVar, "g"),
        group(
            TokenType::Parenthetical,
            vec![
                leaf(TokenType::Number, "1"),
                leaf(TokenType::Operator, ","),
                leaf(TokenType::Number, "2"),
            ],
        ),
        leaf(TokenType::Operator, ","),
        leaf(TokenType::Number, "3"),
    ];
    let groups = split_args(&children);
    assert_eq!(groups.len(), 2);
    assert_eq!(groups[0], children[0..2].to_vec());
    assert_eq!(groups[1], children[3..4].to_vec());
}

#[test]
fn arguments_without_comma_are_one_group() {
    assert_eq!(split_args(&vec![]), vec![Vec::<Token>::new()]);
    let one = vec![leaf(TokenType::Number, "1"), leaf(TokenType::Operator, "+")];
    assert_eq!(split_args(&one), vec![one.clone()]);
    let text = vec![leaf(TokenType::String, ",")];
    assert_eq!(split_args(&text), vec![text.clone()]);
}

#[test]
fn commas_at_the_ends_leave_empty_groups() {
    let comma = leaf(TokenType::Operator, ",");
    let a = leaf(TokenType::UserVar, "a");
    assert_eq!(
        split_args(&vec![comma.clone(), a.clone(), comma.clone(), comma.clone()]),
        vec![vec![], vec![a], vec![], vec![]]
    );
}

#[test]
fn resolve_stops_at_the_first_module_that_offers() {
    let modules = registry(&["a", "b", "c"]);
    let symbol = "f".to_string();
    assert_eq!(
        resolve_symbol(&symbol, &modules, &vec![Reply::Missing, Reply::Found, Reply::Found], 0),
        Resolved::Found { module: 1, used: 2 }
    );
    assert_eq!(
        resolve_symbol(&symbol, &modules, &vec![Reply::Loaded, Reply::Missing, Reply::Rejected], 0),
        Resolved::Unbound { used: 3 }
    );
    assert_eq!(
        resolve_symbol(&symbol, &modules, &vec![Reply::Missing, Reply::Missing], 1),
        Resolved::Need {
            request: Request::Resolve { module: "b".to_string(), symbol: "f".to_string() },
            used: 2
        }
    );
    assert_eq!(resolve_symbol(&symbol, &registry(&[]), &vec![], 0), Resolved::Unbound { used: 0 });
}

#[test]
fn finish_call_takes_the_answer() {
    let call = |replies: Vec<Reply>, used: usize| {
        seen(finish_call(
            "m".to_string(),
            "f".to_string(),
            vec![Some(number("1"))],
            BindingTable::new(),
            registry(&["m"]),
            &replies,
            used,
        ))
    };
    assert_eq!(
        call(vec![], 0),
        need(
            Request::Invoke {
                module: "m".to_string(),
                symbol: "f".to_string(),
                args: vec![Some(number("1"))],
            },
            &["m"],
            0
        )
    );
    assert_eq!(
        call(vec![Reply::Found, Reply::Returned(Some(string("r")))], 1),
        done(Some(string("r")), &["m"], 2)
    );
    assert_eq!(call(vec![Reply::Missing], 0), failed(ErrorKind::ExtensionSymbolMissing, "f", &["m"], 1));
    assert_eq!(call(vec![Reply::Rejected], 0), failed(ErrorKind::ArityOrTypeMismatch, "f", &["m"], 1));
    assert_eq!(call(vec![Reply::Loaded], 0), failed(ErrorKind::ArityOrTypeMismatch, "f", &["m"], 1));
}

#[test]
fn print_joins_the_texts() {
    assert_eq!(print_line(&vec![Some(string("a")), Some(number("1"))]), Ok("a 1 ".to_string()));
    assert_eq!(print_line(&vec![]), Ok(String::new()));
    assert_eq!(print_line(&vec![Some(string(""))]), Ok(" ".to_string()));
}

#[test]
fn print_turns_down_what_has_no_text() {
    let mismatch = Err(EvalError { kind: ErrorKind::ArityOrTypeMismatch, token: String::new() });
    assert_eq!(print_line(&vec![Some(string("a")), None]), mismatch);
    let block = Var { datatype: Datatype::Func, value: group(TokenType::Block, vec![]) };
    assert_eq!(print_line(&vec![Some(block)]), mismatch);
    let bare = Token { token_type: TokenType::String, token_value: None, token_nested: None };
    assert_eq!(print_line(&vec![Some(Var { datatype: Datatype::String, value: bare })]), mismatch);
}

#[test]
fn print_goes_by_the_text_and_not_by_the_kind() {
    let both = Token {
        token_type: TokenType::Block,
        token_value: Some("b".to_string()),
        token_nested: Some(vec![]),
    };
    assert_eq!(
        print_line(&vec![Some(Var { datatype: Datatype::Func, value: both })]),
        Ok("b ".to_string())
    );
}

#[test]
fn import_goes_by_the_text_and_not_by_the_kind() {
    let vars = BindingTable::new();
    let bare = Token { token_type: TokenType::String, token_value: None, token_nested: None };
    let tokens = vec![leaf(TokenType::Operator, "#"), bare];
    assert_eq!(
        seen_of(&tokens, false, &vars, &registry(&[]), &vec![Reply::Loaded], DEPTH),
        failed(ErrorKind::ExtensionLoadError, "", &[], 0)
    );
}
