//! Tokens, values and operators: the data that the scanner produces and the
//! evaluator consumes.

use vstd::prelude::*;

verus! {

/// The kind of a token.
#[derive(Clone, Copy, Debug, PartialEq, Eq, Structural)]
pub enum TokenType {
    UserVar,
    String,
    Parenthetical,
    Block,
    Number,
    Operator,
}

/// The kind of a value.
#[derive(Clone, Copy, Debug, PartialEq, Eq, Structural)]
pub enum Datatype {
    Func,
    Class,
    String,
    Number,
}

/// One lexical unit, or a bracketed group of them.
#[derive(Debug, PartialEq, Eq)]
pub struct Token {
    pub token_type: TokenType,
    pub token_value: Option<String>,
    pub token_nested: Option<Vec<Token>>,
}

/// The mathematical content of a token: its kind, its text and its children,
/// and whether it holds text and children at all. A token that holds no text
/// has the empty text here, one that holds no children has none.
pub struct TokenView {
    pub kind: TokenType,
    pub text: Seq<char>,
    pub children: Seq<TokenView>,
    pub has_text: bool,
    pub has_children: bool,
}

impl TokenType {
    /// Whether tokens of this kind hold children rather than text.
    pub open spec fn is_group(self) -> bool {
        self == TokenType::Parenthetical || self == TokenType::Block
    }
}

/// The views of a sequence of tokens, one for one.
pub open spec fn view_seq(tokens: Seq<Token>) -> Seq<TokenView>
    decreases tokens,
{
    Seq::new(tokens.len(), |i: int| if 0 <= i < tokens.len() { tokens[i].view() } else { arbitrary() })
}

impl View for Token {
    type V = TokenView;

    open spec fn view(&self) -> TokenView
        decreases self,
    {
        TokenView {
            kind: self.token_type,
            text: match self.token_value {
                Some(s) => s@,
                None => Seq::empty(),
            },
            children: match self.token_nested {
                Some(v) => view_seq(v@),
                None => Seq::empty(),
            },
            has_text: self.token_value is Some,
            has_children: self.token_nested is Some,
        }
    }
}

/// Copies a sequence of tokens, children included.
pub fn clone_tokens(tokens: &Vec<Token>) -> (r: Vec<Token>)
    ensures
        view_seq(r@) == view_seq(tokens@),
        all_well_formed(tokens@) ==> all_well_formed(r@),
    decreases tokens,
{
    let mut out: Vec<Token> = Vec::new();
    let mut i: usize = 0;
    while i < tokens.len()
        invariant
            i <= tokens.len(),
            out.len() == i,
            forall|j: int| 0 <= j < i ==> out[j]@ == tokens[j]@,
            forall|j: int| 0 <= j < i ==> ((#[trigger] tokens[j]).well_formed() ==> out[j].well_formed()),
        decreases tokens.len() - i,
    {
        out.push(tokens[i].clone());
        i += 1;
    }
    assert(view_seq(out@) =~= view_seq(tokens@));
    out
}

impl Clone for Token {
    fn clone(&self) -> (r: Token)
        ensures
            r@ == self@,
            r.token_type == self.token_type,
            r.token_value == self.token_value,
            r.token_nested is Some == self.token_nested is Some,
            self.well_formed() ==> r.well_formed(),
        decreases self,
    {
        let token_value = match &self.token_value {
            Some(s) => Some(s.clone()),
            None => None,
        };
        let token_nested = match &self.token_nested {
            Some(v) => Some(clone_tokens(v)),
            None => None,
        };
        Token { token_type: self.token_type, token_value, token_nested }
    }
}

impl Token {
    /// Whether the token is laid out as its kind asks: a group holds children
    /// and no text, any other token holds text and no children; and so on
    /// for every token below it.
    pub open spec fn well_formed(&self) -> bool
        decreases self,
    {
        if self.token_type.is_group() {
            &&& self.token_value is None
            &&& match self.token_nested {
                Some(v) => forall|i: int| 0 <= i < v.len() ==> (#[trigger] v[i]).well_formed(),
                None => false,
            }
        } else {
            self.token_value is Some && self.token_nested is None
        }
    }

    /// A token that holds text.
    pub fn new_value(token_type: TokenType, token_value: String) -> (r: Token)
        ensures
            r.token_type == token_type,
            r.token_value == Some(token_value),
            r.token_nested is None,
    {
        Token { token_type, token_value: Some(token_value), token_nested: None }
    }

    /// A token that holds children.
    pub fn new_nested(token_type: TokenType, nested_value: Vec<Token>) -> (r: Token)
        ensures
            r.token_type == token_type,
            r.token_value is None,
            r.token_nested == Some(nested_value),
    {
        Token { token_type, token_value: None, token_nested: Some(nested_value) }
    }

    /// The name of the token's kind.
    pub fn to_string(&self) -> (name: &str)
        ensures
            name@ == kind_name(self.token_type),
    {
        match self.token_type {
            TokenType::Block => "Block",
            TokenType::Number => "Number",
            TokenType::UserVar => "Var",
            TokenType::Parenthetical => "Parenthetical",
            TokenType::String => "String",
            TokenType::Operator => "Operator",
        }
    }
}

/// The name under which a kind of token is shown.
pub open spec fn kind_name(kind: TokenType) -> Seq<char> {
    match kind {
        TokenType::Block => "Block"@,
        TokenType::Number => "Number"@,
        TokenType::UserVar => "Var"@,
        TokenType::Parenthetical => "Parenthetical"@,
        TokenType::String => "String"@,
        TokenType::Operator => "Operator"@,
    }
}

/// Whether every token of a sequence is well formed.
pub open spec fn all_well_formed(tokens: Seq<Token>) -> bool {
    forall|i: int| 0 <= i < tokens.len() ==> (#[trigger] tokens[i]).well_formed()
}

/// A value: what a name is bound to, what an evaluation yields and what
/// crosses the boundary to native functions.
#[derive(Debug, PartialEq, Eq)]
pub struct Var {
    pub datatype: Datatype,
    pub value: Token,
}

/// The mathematical content of a value.
pub struct VarView {
    pub datatype: Datatype,
    pub value: TokenView,
}

impl View for Var {
    type V = VarView;

    open spec fn view(&self) -> VarView {
        VarView { datatype: self.datatype, value: self.value@ }
    }
}

impl Clone for Var {
    fn clone(&self) -> (r: Var)
        ensures
            r@ == self@,
    {
        Var { datatype: self.datatype, value: self.value.clone() }
    }
}

/// The view of an optional value.
pub open spec fn view_opt(v: Option<Var>) -> Option<VarView> {
    match v {
        Some(x) => Some(x@),
        None => None,
    }
}

/// The operators of the language, each written as one character.
#[derive(Clone, Copy, Debug, PartialEq, Eq, Structural)]
pub enum Operator {
    Def,
    And,
    Or,
    Add,
    Sub,
    Mul,
    Div,
    Less,
    Greater,
    Equal,
    Not,
    Dot,
    Comma,
    Semicolon,
    Return,
    Import,
    Comment,
}

impl Operator {
    /// The character that stands for the operator.
    pub open spec fn symbol(self) -> char {
        match self {
            Operator::Def => '=',
            Operator::And => '&',
            Operator::Or => '|',
            Operator::Add => '+',
            Operator::Sub => '-',
            Operator::Mul => '*',
            Operator::Div => '/',
            Operator::Less => '<',
            Operator::Greater => '>',
            Operator::Equal => '~',
            Operator::Not => '!',
            Operator::Comma => ',',
            Operator::Dot => '.',
            Operator::Semicolon => ';',
            Operator::Return => '^',
            Operator::Import => '#',
            Operator::Comment => '\\',
        }
    }

    /// The operator that a character stands for, if it stands for one.
    pub open spec fn of_symbol(c: char) -> Option<Operator> {
        if exists|op: Operator| op.symbol() == c {
            Some(choose|op: Operator| op.symbol() == c)
        } else {
            None
        }
    }

    /// The operator that `c` stands for, if it stands for one.
    pub fn get_value(c: &char) -> (r: Option<Operator>)
        ensures
            r == Operator::of_symbol(*c),
    {
        let r = match *c {
            '=' => Some(Operator::Def),
            '&' => Some(Operator::And),
            '|' => Some(Operator::Or),
            '+' => Some(Operator::Add),
            '-' => Some(Operator::Sub),
            '*' => Some(Operator::Mul),
            '/' => Some(Operator::Div),
            '<' => Some(Operator::Less),
            '>' => Some(Operator::Greater),
            '~' => Some(Operator::Equal),
            '!' => Some(Operator::Not),
            ',' => Some(Operator::Comma),
            '.' => Some(Operator::Dot),
            ';' => Some(Operator::Semicolon),
            '^' => Some(Operator::Return),
            '#' => Some(Operator::Import),
            '\\' => Some(Operator::Comment),
            _ => None,
        };
        proof {
            match r {
                Some(op) => {
                    assert(op.symbol() == *c);
                    Operator::symbols_differ(op, choose|o: Operator| o.symbol() == *c);
                },
                None => {
                    assert forall|op: Operator| op.symbol() != *c by {}
                },
            }
        }
        r
    }

    /// The character that stands for the operator.
    pub fn get_char(&self) -> (c: char)
        ensures
            c == self.symbol(),
    {
        match self {
            Operator::Def => '=',
            Operator::And => '&',
            Operator::Or => '|',
            Operator::Add => '+',
            Operator::Sub => '-',
            Operator::Mul => '*',
            Operator::Div => '/',
            Operator::Less => '<',
            Operator::Greater => '>',
            Operator::Equal => '~',
            Operator::Not => '!',
            Operator::Comma => ',',
            Operator::Dot => '.',
            Operator::Semicolon => ';',
            Operator::Return => '^',
            Operator::Import => '#',
            Operator::Comment => '\\',
        }
    }

    /// No two operators share a character.
    pub proof fn symbols_differ(a: Operator, b: Operator)
        ensures
            a.symbol() == b.symbol() ==> a == b,
    {
    }

    /// Reading back the character of an operator gives that operator.
    pub proof fn of_symbol_of_operator(op: Operator)
        ensures
            Operator::of_symbol(op.symbol()) == Some(op),
    {
        Operator::symbols_differ(op, choose|o: Operator| o.symbol() == op.symbol());
    }

    /// A character that stands for an operator is the character of that
    /// operator.
    pub proof fn symbol_of_operator_of(c: char)
        ensures
            Operator::of_symbol(c) matches Some(op) ==> op.symbol() == c,
    {
    }
}

} // verus!
