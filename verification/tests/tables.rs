use esolang::bindings::BindingTable;
use esolang::esotypes::{Datatype, Token, TokenType, Var};
use esolang::lexicon::Lexicon;
use esolang::registry::ExtensionRegistry;
use esolang::scanner::tokenize;
use esolang::trace::render_tokens;

fn number(text: &str) -> Var {
    Var { datatype: Datatype::Number, value: Token::new_value(TokenType::Number, text.to_string()) }
}

#[test]
fn lookup_in_an_empty_table() {
    let vars = BindingTable::new();
    assert_eq!(vars.lookup(&"x".to_string()), None);
}

#[test]
fn lookup_finds_what_was_defined() {
    let mut vars = BindingTable::new();
    vars.define("x".to_string(), number("1"));
    vars.define("y".to_string(), number("2"));
    assert_eq!(vars.lookup(&"x".to_string()), Some(&number("1")));
    assert_eq!(vars.lookup(&"y".to_string()), Some(&number("2")));
    assert_eq!(vars.lookup(&"z".to_string()), None);
    assert_eq!(vars.lookup(&"".to_string()), None);
    assert_eq!(vars.lookup(&"X".to_string()), None);
}

#[test]
fn last_definition_wins() {
    let mut vars = BindingTable::new();
    vars.define("x".to_string(), number("1"));
    vars.define("y".to_string(), number("2"));
    vars.define("x".to_string(), number("3"));
    assert_eq!(vars.lookup(&"x".to_string()), Some(&number("3")));
    assert_eq!(vars.lookup(&"y".to_string()), Some(&number("2")));
    assert_eq!(vars.entries.len(), 2);
    assert_eq!(vars.clone(), vars);
}

#[test]
fn first_entry_counts_where_a_name_stands_twice() {
    let mut vars = BindingTable::new();
    vars.define("x".to_string(), number("1"));
    let twin = esolang::bindings::Binding { name: "x".to_string(), var: number("2") };
    vars.entries.push(twin);
    assert_eq!(vars.lookup(&"x".to_string()), Some(&number("1")));
    vars.define("x".to_string(), number("3"));
    assert_eq!(vars.lookup(&"x".to_string()), Some(&number("3")));
}

#[test]
fn registry_keeps_the_order_of_loading() {
    let mut modules = ExtensionRegistry::new();
    assert_eq!(modules.len(), 0);
    modules.register("b".to_string());
    modules.register("a".to_string());
    modules.register("b".to_string());
    assert_eq!(modules.paths, vec!["b".to_string(), "a".to_string()]);
    assert_eq!(modules.len(), 2);
    assert!(modules.contains(&"a".to_string()));
    assert!(!modules.contains(&"c".to_string()));
    assert_eq!(modules.clone(), modules);
}

#[test]
fn trace_of_a_token_tree() {
    let lexicon = Lexicon::new().unwrap();
    let tokens = tokenize(&"f(\"x\", {1}) + y".chars().collect(), &lexicon);
    assert_eq!(
        render_tokens(&tokens, 0),
        vec![
            "Var: \"f\"",
            "Parenthetical",
            "  String: \"x\"",
            "  Operator: \",\"",
            "  Block",
            "    Number: \"1\"",
            "Operator: \"+\"",
            "Var: \"y\"",
        ]
    );
}

#[test]
fn trace_is_indented_by_depth() {
    let tokens = vec![Token::new_nested(
        TokenType::Block,
        vec![Token::new_value(TokenType::String, "a b".to_string())],
    )];
    assert_eq!(render_tokens(&tokens, 2), vec!["    Block", "      String: \"a b\""]);
    assert_eq!(render_tokens(&vec![], 3), Vec::<String>::new());
}
