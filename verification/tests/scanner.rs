use esolang::esotypes::{Token, TokenType};
use esolang::lexicon::{CharClass, Lexicon};
use esolang::evaluator::{ErrorKind, EvalError};
use esolang::scanner::{ensure_terminated, tokenize, tokenize_substr};

fn chars(s: &str) -> Vec<char> {
    s.chars().collect()
}

fn scan(s: &str) -> Vec<Token> {
    let lexicon = Lexicon::new().unwrap();
    tokenize(&chars(s), &lexicon)
}

fn leaf(kind: TokenType, text: &str) -> Token {
    Token { token_type: kind, token_value: Some(text.to_string()), token_nested: None }
}

fn group(kind: TokenType, children: Vec<Token>) -> Token {
    Token { token_type: kind, token_value: None, token_nested: Some(children) }
}

#[test]
fn string_literal_is_one_token() {
    assert_eq!(scan("\"abc\""), vec![leaf(TokenType::String, "abc")]);
}

#[test]
fn number_is_one_token() {
    assert_eq!(scan("123"), vec![leaf(TokenType::Number, "123")]);
}

#[test]
fn zero_is_no_digit() {
    assert_eq!(scan("102"), vec![leaf(TokenType::Number, "1"), leaf(TokenType::Number, "2")]);
    assert_eq!(scan("0"), vec![]);
    assert_eq!(scan("100"), vec![leaf(TokenType::Number, "1")]);
}

#[test]
fn zero_ends_a_name() {
    assert_eq!(scan("a0b"), vec![leaf(TokenType::UserVar, "a"), leaf(TokenType::UserVar, "b")]);
    assert_eq!(scan("a1_b"), vec![leaf(TokenType::UserVar, "a1_b")]);
    assert_eq!(scan("_x9 y"), vec![leaf(TokenType::UserVar, "_x9"), leaf(TokenType::UserVar, "y")]);
}

#[test]
fn number_then_name() {
    assert_eq!(scan("1a"), vec![leaf(TokenType::Number, "1"), leaf(TokenType::UserVar, "a")]);
    assert_eq!(scan("a1"), vec![leaf(TokenType::UserVar, "a1")]);
}

#[test]
fn empty_text_has_no_tokens() {
    assert_eq!(scan(""), vec![]);
}

#[test]
fn other_characters_are_passed_over() {
    assert_eq!(scan(" \t\n@$%?)}]["), vec![]);
    assert_eq!(scan("\u{e9}"), vec![]);
    assert_eq!(scan("a\u{e9}b"), vec![leaf(TokenType::UserVar, "a"), leaf(TokenType::UserVar, "b")]);
}

#[test]
fn every_operator_is_one_token() {
    let all = "=&|+-*/<>~!,.;^#\\";
    let tokens = scan(all);
    assert_eq!(tokens.len(), 17);
    for (token, c) in tokens.iter().zip(all.chars()) {
        assert_eq!(*token, leaf(TokenType::Operator, &c.to_string()));
    }
}

#[test]
fn parenthetical_holds_its_tokens() {
    assert_eq!(
        scan("f(1, \"x\")"),
        vec![
            leaf(TokenType::UserVar, "f"),
            group(
                TokenType::Parenthetical,
                vec![
                    leaf(TokenType::Number, "1"),
                    leaf(TokenType::Operator, ","),
                    leaf(TokenType::String, "x"),
                ],
            ),
        ]
    );
}

#[test]
fn block_holds_its_tokens() {
    assert_eq!(
        scan("name = { \"hi\" }"),
        vec![
            leaf(TokenType::UserVar, "name"),
            leaf(TokenType::Operator, "="),
            group(TokenType::Block, vec![leaf(TokenType::String, "hi")]),
        ]
    );
}

#[test]
fn block_inside_parenthetical() {
    assert_eq!(
        scan("({a})"),
        vec![group(
            TokenType::Parenthetical,
            vec![group(TokenType::Block, vec![leaf(TokenType::UserVar, "a")])],
        )]
    );
}

#[test]
fn empty_groups() {
    assert_eq!(scan("()"), vec![group(TokenType::Parenthetical, vec![])]);
    assert_eq!(scan("{}"), vec![group(TokenType::Block, vec![])]);
    assert_eq!(scan("\"\""), vec![leaf(TokenType::String, "")]);
}

#[test]
fn unterminated_group_takes_the_rest() {
    assert_eq!(
        scan("(a b"),
        vec![group(
            TokenType::Parenthetical,
            vec![leaf(TokenType::UserVar, "a"), leaf(TokenType::UserVar, "b")],
        )]
    );
    assert_eq!(scan("{"), vec![group(TokenType::Block, vec![])]);
    assert_eq!(scan("\"abc"), vec![leaf(TokenType::String, "abc")]);
    assert_eq!(scan("\""), vec![leaf(TokenType::String, "")]);
}

#[test]
fn first_closing_bracket_ends_the_group() {
    assert_eq!(
        scan("f(g(1,2), 3)"),
        vec![
            leaf(TokenType::UserVar, "f"),
            group(
                TokenType::Parenthetical,
                vec![
                    leaf(TokenType::UserVar, "g"),
                    group(
                        TokenType::Parenthetical,
                        vec![
                            leaf(TokenType::Number, "1"),
                            leaf(TokenType::Operator, ","),
                            leaf(TokenType::Number, "2"),
                        ],
                    ),
                ],
            ),
            leaf(TokenType::Operator, ","),
            leaf(TokenType::Number, "3"),
        ]
    );
}

#[test]
fn nesting_of_one_sort_is_not_followed() {
    let tokens = scan("((a)(b(c)))");
    let a = group(
        TokenType::Parenthetical,
        vec![group(TokenType::Parenthetical, vec![leaf(TokenType::UserVar, "a")])],
    );
    let b = group(
        TokenType::Parenthetical,
        vec![
            leaf(TokenType::UserVar, "b"),
            group(TokenType::Parenthetical, vec![leaf(TokenType::UserVar, "c")]),
        ],
    );
    assert_eq!(tokens, vec![a, b]);
}

#[test]
fn closing_bracket_inside_a_string_ends_the_group() {
    assert_eq!(
        scan("(\")(\")"),
        vec![
            group(TokenType::Parenthetical, vec![leaf(TokenType::String, "")]),
            group(TokenType::Parenthetical, vec![leaf(TokenType::String, "")]),
        ]
    );
}

#[test]
fn string_keeps_every_character() {
    assert_eq!(scan("\"a (b) {c} 0 =\""), vec![leaf(TokenType::String, "a (b) {c} 0 =")]);
    assert_eq!(
        scan("a\"b\"c"),
        vec![
            leaf(TokenType::UserVar, "a"),
            leaf(TokenType::String, "b"),
            leaf(TokenType::UserVar, "c"),
        ]
    );
}

#[test]
fn import_line() {
    assert_eq!(
        scan("# \"./libstd.so\"\nprint(\"hello\")"),
        vec![
            leaf(TokenType::Operator, "#"),
            leaf(TokenType::String, "./libstd.so"),
            leaf(TokenType::UserVar, "print"),
            group(TokenType::Parenthetical, vec![leaf(TokenType::String, "hello")]),
        ]
    );
}

#[test]
fn substr_stops_before_the_first_match() {
    let text = chars("abc)def");
    let mut i = 0;
    let span = tokenize_substr(&text, &mut i, |x: &char| *x == ')');
    assert_eq!(span, chars("abc"));
    assert_eq!(i, 3);
    let mut j = 4;
    let span = tokenize_substr(&text, &mut j, |x: &char| *x == 'f');
    assert_eq!(span, chars("de"));
    assert_eq!(j, 6);
}

#[test]
fn substr_match_at_the_cursor_is_empty() {
    let text = chars(")a");
    let mut i = 0;
    let span = tokenize_substr(&text, &mut i, |x: &char| *x == ')');
    assert_eq!(span, chars(""));
    assert_eq!(i, 0);
}

#[test]
fn substr_without_match_takes_the_rest() {
    let text = chars("abc");
    let mut i = 0;
    assert_eq!(tokenize_substr(&text, &mut i, |x: &char| *x == ')'), chars("abc"));
    assert_eq!(i, 3);
    let mut j = 1;
    assert_eq!(tokenize_substr(&text, &mut j, |x: &char| *x == ')'), chars("bc"));
    assert_eq!(j, 4);
    let mut k = 5;
    assert_eq!(tokenize_substr(&text, &mut k, |x: &char| *x == ')'), chars(""));
    assert_eq!(k, 8);
}

#[test]
fn classes_of_the_lexicon() {
    let lexicon = Lexicon::new().unwrap();
    for code in 0u32..0x250 {
        let c = char::from_u32(code).unwrap();
        let letter = c.is_ascii_alphabetic();
        let digit = ('1'..='9').contains(&c);
        assert_eq!(lexicon.is_name_start(c), letter || c == '_');
        assert_eq!(lexicon.is_name_end(c), !(letter || digit || c == '_'));
        assert_eq!(lexicon.is_number_start(c), digit);
        assert_eq!(lexicon.is_number_end(c), !digit);
    }
    assert!(lexicon.is_name_end('\n'));
    assert!(lexicon.is_number_end('\n'));
    assert!(lexicon.is_name_end('\u{10ffff}'));
    assert!(!lexicon.is_name_start('\u{e9}'));
}

#[test]
fn lexicon_names_the_refused_class() {
    let good = |p: &str| regex::Regex::new(p);
    let bad = || regex::Regex::new("(");
    assert!(Lexicon::from_compiled(
        good("[A-Za-z_]"),
        good("[^A-Za-z1-9_]"),
        good("[1-9]"),
        good("[^1-9]")
    )
    .is_ok());
    assert!(matches!(
        Lexicon::from_compiled(bad(), bad(), good("[1-9]"), good("[^1-9]")),
        Err(CharClass::NameStart)
    ));
    assert!(matches!(
        Lexicon::from_compiled(good("[A-Za-z_]"), bad(), good("[1-9]"), bad()),
        Err(CharClass::NameEnd)
    ));
    assert!(matches!(
        Lexicon::from_compiled(good("[A-Za-z_]"), good("[^A-Za-z1-9_]"), bad(), good("[^1-9]")),
        Err(CharClass::NumberStart)
    ));
    assert!(matches!(
        Lexicon::from_compiled(good("[A-Za-z_]"), good("[^A-Za-z1-9_]"), good("[1-9]"), bad()),
        Err(CharClass::NumberEnd)
    ));
}

fn unterminated(open: &str) -> Result<(), EvalError> {
    Err(EvalError { kind: ErrorKind::UnterminatedDelimiter, token: open.to_string() })
}

#[test]
fn closed_delimiters_are_accepted() {
    assert_eq!(ensure_terminated(&chars("")), Ok(()));
    assert_eq!(ensure_terminated(&chars("f(a) {b} \"c\"")), Ok(()));
    assert_eq!(ensure_terminated(&chars("({a}{b})")), Ok(()));
    assert_eq!(ensure_terminated(&chars("a ) } b")), Ok(()));
    assert_eq!(ensure_terminated(&chars("\"(\" \"{\"")), Ok(()));
}

#[test]
fn open_delimiter_is_refused() {
    assert_eq!(ensure_terminated(&chars("(a")), unterminated("("));
    assert_eq!(ensure_terminated(&chars("a {")), unterminated("{"));
    assert_eq!(ensure_terminated(&chars("\"abc")), unterminated("\""));
    assert_eq!(ensure_terminated(&chars("f(1) g(2")), unterminated("("));
}

#[test]
fn open_delimiter_inside_a_group_is_refused() {
    assert_eq!(ensure_terminated(&chars("{a(b}")), unterminated("("));
    assert_eq!(ensure_terminated(&chars("((a)")), unterminated("("));
    assert_eq!(ensure_terminated(&chars("(\"a)")), unterminated("\""));
    assert_eq!(ensure_terminated(&chars("({a) }")), unterminated("{"));
}

#[test]
fn outer_delimiter_is_reported_first() {
    assert_eq!(ensure_terminated(&chars("{ (a ")), unterminated("{"));
    assert_eq!(ensure_terminated(&chars("\"a (")), unterminated("\""));
}

fn tree_depth(tokens: &[Token]) -> usize {
    tokens
        .iter()
        .map(|t| match &t.token_nested {
            Some(children) => 1 + tree_depth(children),
            None => 0,
        })
        .max()
        .unwrap_or(0)
}

fn bracket_depth(s: &str) -> usize {
    let mut level = 0usize;
    let mut peak = 0usize;
    for c in s.chars() {
        if c == '(' || c == '{' {
            level += 1;
            peak = peak.max(level);
        } else if c == ')' || c == '}' {
            level -= 1;
        }
    }
    peak
}

fn leaves(tokens: &[Token]) -> Vec<Token> {
    let mut found = Vec::new();
    for t in tokens {
        match &t.token_nested {
            Some(children) => found.extend(leaves(children)),
            None => found.push(t.clone()),
        }
    }
    found
}

const PAIRED: [&str; 6] = [
    "",
    "a + 1",
    "f(a, \"s t\") { g(1) }",
    "({a}{b}) x ({c})",
    "{ (a) (b) } \"q\" ( {c} {d} )",
    "# \"lib\" print(\"hello\", world) ;",
];

#[test]
fn nesting_of_paired_text_is_kept() {
    for source in PAIRED {
        assert_eq!(tree_depth(&scan(source)), bracket_depth(source));
    }
    assert_eq!(tree_depth(&scan("({a}{b}) x ({c})")), 2);
    assert_eq!(tree_depth(&scan("a + 1")), 0);
}

#[test]
fn words_of_paired_text_are_kept() {
    for source in PAIRED {
        let flat: String =
            source.chars().map(|c| if "(){}".contains(c) { ' ' } else { c }).collect();
        assert_eq!(leaves(&scan(source)), scan(&flat));
    }
    assert_eq!(
        leaves(&scan("f(a, \"s t\") { g(1) }")),
        vec![
            leaf(TokenType::UserVar, "f"),
            leaf(TokenType::UserVar, "a"),
            leaf(TokenType::Operator, ","),
            leaf(TokenType::String, "s t"),
            leaf(TokenType::UserVar, "g"),
            leaf(TokenType::Number, "1"),
        ]
    );
}

#[test]
fn words_are_kept_where_no_string_is_cut() {
    for source in ["((a)(b(c)))", "(a {b", "a ) b } c", "f(g(1,2), 3)", "\"(\" x \")\"", "(a \"b"] {
        let flat: String = {
            let mut inside = false;
            source
                .chars()
                .map(|c| {
                    if c == '"' {
                        inside = !inside;
                    }
                    if !inside && "(){}".contains(c) {
                        ' '
                    } else {
                        c
                    }
                })
                .collect()
        };
        assert_eq!(leaves(&scan(source)), scan(&flat));
    }
}

#[test]
fn bracket_inside_a_string_is_kept_by_the_scanner_alone() {
    let source = "\"a(b\"";
    assert_eq!(leaves(&scan(source)), vec![leaf(TokenType::String, "a(b")]);
    let flat: String = source.chars().map(|c| if "(){}".contains(c) { ' ' } else { c }).collect();
    assert_eq!(scan(&flat), vec![leaf(TokenType::String, "a b")]);
}

#[test]
fn words_are_lost_where_a_string_is_cut() {
    assert_eq!(
        leaves(&scan("(\")(\")")),
        vec![leaf(TokenType::String, ""), leaf(TokenType::String, "")]
    );
}

#[test]
fn nesting_beyond_the_pairing_is_lost() {
    let source = "((a)(b(c)))";
    assert_eq!(bracket_depth(source), 3);
    assert_eq!(tree_depth(&scan(source)), 2);
}
