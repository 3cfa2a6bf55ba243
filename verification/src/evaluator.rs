//! The evaluator: one pass from left to right over a sequence of tokens.
//!
//! The evaluator loads no native module and calls no native function
//! itself. Where a pass needs one of these done, it stops and says what it
//! needs; the caller does it and starts the pass again with the answer added
//! to the answers given so far. A pass is thus a function of the tokens, the
//! bindings and the modules at its start and the answers; what it binds and
//! what it has loaded is part of its result.

use vstd::prelude::*;
use crate::bindings::BindingTable;
use crate::esotypes::{clone_tokens, view_seq, Datatype, Token, TokenType, TokenView, Var, VarView};
use crate::registry::{register, ExtensionRegistry};
use crate::scanner::run_length;

verus! {

/// Why a pass failed.
#[derive(Clone, Copy, Debug, PartialEq, Eq, Structural)]
pub enum ErrorKind {
    /// The end of the text came before a closing bracket or quote.
    UnterminatedDelimiter,
    /// A called name is neither bound nor offered by a loaded module.
    UnboundIdentifier,
    /// A native module could not be opened.
    ExtensionLoadError,
    /// A module no longer offers a function that it was found to offer.
    ExtensionSymbolMissing,
    /// What is called cannot be called, or not with these arguments.
    ArityOrTypeMismatch,
    /// Calls and groups are nested more deeply than the pass was allowed.
    DepthExceeded,
}

/// A failure, with the text of the token at which it came about.
#[derive(Debug, PartialEq, Eq)]
pub struct EvalError {
    pub kind: ErrorKind,
    pub token: String,
}

/// The mathematical content of a failure.
pub struct EvalErrorView {
    pub kind: ErrorKind,
    pub token: Seq<char>,
}

impl View for EvalError {
    type V = EvalErrorView;

    open spec fn view(&self) -> EvalErrorView {
        EvalErrorView { kind: self.kind, token: self.token@ }
    }
}

/// What a pass needs done before it can go on.
#[derive(Debug, PartialEq, Eq)]
pub enum Request {
    /// Load the native module at `path`.
    Load { path: String },
    /// Say whether the module loaded under `module` offers `symbol`.
    Resolve { module: String, symbol: String },
    /// Call `symbol` of the module loaded under `module` with `args`.
    Invoke { module: String, symbol: String, args: Vec<Option<Var>> },
}

/// The mathematical content of a request.
pub enum RequestView {
    Load { path: Seq<char> },
    Resolve { module: Seq<char>, symbol: Seq<char> },
    Invoke { module: Seq<char>, symbol: Seq<char>, args: Seq<Option<VarView>> },
}

/// The views of optional values, one for one.
pub open spec fn arg_views(args: Seq<Option<Var>>) -> Seq<Option<VarView>> {
    Seq::new(
        args.len(),
        |i: int|
            match args[i] {
                Some(v) => Some(v@),
                None => None,
            },
    )
}

impl View for Request {
    type V = RequestView;

    open spec fn view(&self) -> RequestView {
        match self {
            Request::Load { path } => RequestView::Load { path: path@ },
            Request::Resolve { module, symbol } => RequestView::Resolve {
                module: module@,
                symbol: symbol@,
            },
            Request::Invoke { module, symbol, args } => RequestView::Invoke {
                module: module@,
                symbol: symbol@,
                args: arg_views(args@),
            },
        }
    }
}

/// The answer to a request.
#[derive(Debug, PartialEq, Eq)]
pub enum Reply {
    /// The module was loaded.
    Loaded,
    /// The module could not be loaded.
    LoadFailed,
    /// The module offers the function.
    Found,
    /// The module does not offer the function.
    Missing,
    /// The function was called and returned this.
    Returned(Option<Var>),
    /// The function turned the arguments down.
    Rejected,
}

/// The mathematical content of an answer.
pub enum ReplyView {
    Loaded,
    LoadFailed,
    Found,
    Missing,
    Returned(Option<VarView>),
    Rejected,
}

impl View for Reply {
    type V = ReplyView;

    open spec fn view(&self) -> ReplyView {
        match self {
            Reply::Loaded => ReplyView::Loaded,
            Reply::LoadFailed => ReplyView::LoadFailed,
            Reply::Found => ReplyView::Found,
            Reply::Missing => ReplyView::Missing,
            Reply::Returned(v) => ReplyView::Returned(
                match v {
                    Some(x) => Some(x@),
                    None => None,
                },
            ),
            Reply::Rejected => ReplyView::Rejected,
        }
    }
}

/// The views of a sequence of answers, one for one.
pub open spec fn reply_views(replies: Seq<Reply>) -> Seq<ReplyView> {
    Seq::new(replies.len(), |i: int| replies[i]@)
}

/// How a pass ended or where it stopped.
#[derive(Debug, PartialEq, Eq)]
pub enum Step {
    /// The pass is over, with this value or none.
    Done(Option<Var>),
    /// The pass stopped: it needs this done.
    Need(Request),
    /// The pass failed.
    Failed(EvalError),
}

/// The mathematical content of a step.
pub enum Outcome {
    Done(Option<VarView>),
    Need(RequestView),
    Failed(EvalErrorView),
}

impl View for Step {
    type V = Outcome;

    open spec fn view(&self) -> Outcome {
        match self {
            Step::Done(v) => Outcome::Done(
                match v {
                    Some(x) => Some(x@),
                    None => None,
                },
            ),
            Step::Need(r) => Outcome::Need(r@),
            Step::Failed(e) => Outcome::Failed(e@),
        }
    }
}

/// A step, the bindings and the loaded modules when it was reached, and
/// how many of the answers were used up to it.
#[derive(Debug, PartialEq, Eq)]
pub struct Progress {
    pub step: Step,
    pub vars: BindingTable,
    pub modules: ExtensionRegistry,
    pub used: usize,
}

/// The mathematical content of a pass as far as it went.
pub struct Run {
    pub outcome: Outcome,
    pub vars: Map<Seq<char>, VarView>,
    pub modules: Seq<Seq<char>>,
    pub used: nat,
}

impl View for Progress {
    type V = Run;

    open spec fn view(&self) -> Run {
        Run {
            outcome: self.step@,
            vars: self.vars@,
            modules: self.modules@,
            used: self.used as nat,
        }
    }
}

/// Whether a token is the import operator.
pub open spec fn is_import(t: TokenView) -> bool {
    t.kind == TokenType::Operator && t.text == seq!['#']
}

/// Whether a token is the comma operator.
pub open spec fn is_comma(t: TokenView) -> bool {
    t.kind == TokenType::Operator && t.text == seq![',']
}

/// The test that holds of the comma operator.
pub open spec fn commas() -> spec_fn(TokenView) -> bool {
    |t: TokenView| is_comma(t)
}

/// The argument groups of a call: the tokens between the commas that stand
/// directly among `children`. A comma inside a token of `children` divides
/// nothing here. There is always a first group, which may be empty.
pub open spec fn arg_groups(children: Seq<TokenView>) -> Seq<Seq<TokenView>>
    decreases children.len(),
{
    let n = run_length(children, commas()) as int;
    if n >= children.len() {
        seq![children]
    } else {
        seq![children.take(n)] + arg_groups(children.skip(n + 1))
    }
}

/// A pass that ended with `value`.
pub open spec fn done(
    value: Option<VarView>,
    vars: Map<Seq<char>, VarView>,
    modules: Seq<Seq<char>>,
    used: nat,
) -> Run {
    Run { outcome: Outcome::Done(value), vars, modules, used }
}

/// A pass that stopped for `request`.
pub open spec fn need(
    request: RequestView,
    vars: Map<Seq<char>, VarView>,
    modules: Seq<Seq<char>>,
    used: nat,
) -> Run {
    Run { outcome: Outcome::Need(request), vars, modules, used }
}

/// A pass that failed at `token`.
pub open spec fn fail(
    kind: ErrorKind,
    token: Seq<char>,
    vars: Map<Seq<char>, VarView>,
    modules: Seq<Seq<char>>,
    used: nat,
) -> Run {
    Run { outcome: Outcome::Failed(EvalErrorView { kind, token }), vars, modules, used }
}

/// Whether a token is the assignment operator.
pub open spec fn is_assign(t: TokenView) -> bool {
    t.kind == TokenType::Operator && t.text == seq!['=']
}

/// The value that a name is bound to when `t` is assigned to it: a block is
/// bound as a function, a string and a number as themselves; nothing else
/// can be assigned.
pub open spec fn assigned(t: TokenView) -> Option<VarView> {
    if t.kind == TokenType::Block {
        Some(wrap(Datatype::Func, t))
    } else if t.kind == TokenType::String {
        Some(wrap(Datatype::String, t))
    } else if t.kind == TokenType::Number {
        Some(wrap(Datatype::Number, t))
    } else {
        None
    }
}

/// The value that wraps a token.
pub open spec fn wrap(datatype: Datatype, token: TokenView) -> VarView {
    VarView { datatype, value: token }
}

/// How the search for a module that offers a function went.
pub enum Resolution {
    /// The module at this place offers it.
    Found { module: int, used: nat },
    /// The search stopped for an answer.
    Need { request: RequestView, used: nat },
    /// No module offers it.
    Unbound { used: nat },
}

/// Asks the modules from the one at `from` on, in the order they were
/// loaded in, whether they offer `symbol`, and stops at the first that does.
/// Any answer but `Found` counts as a no.
pub open spec fn resolution(
    symbol: Seq<char>,
    modules: Seq<Seq<char>>,
    from: nat,
    replies: Seq<ReplyView>,
    used: nat,
) -> Resolution
    decreases modules.len() - from,
{
    if from >= modules.len() {
        Resolution::Unbound { used }
    } else if used >= replies.len() {
        Resolution::Need {
            request: RequestView::Resolve { module: modules[from as int], symbol },
            used,
        }
    } else if replies[used as int] == ReplyView::Found {
        Resolution::Found { module: from as int, used: used + 1 }
    } else {
        resolution(symbol, modules, from + 1, replies, used + 1)
    }
}

/// How the evaluation of the arguments of a call went.
pub enum ArgsRun {
    /// Every argument has its value.
    Ready {
        args: Seq<Option<VarView>>,
        vars: Map<Seq<char>, VarView>,
        modules: Seq<Seq<char>>,
        used: nat,
    },
    /// The evaluation of an argument stopped or failed.
    Halt { run: Run },
}

/// The pass over `tokens` from the token at `i` on.
///
/// - The import operator has the module loaded whose path is the text of
///   the next token, and the pass goes on behind that token. A token
///   without text in that place, or a failure to load, fails the pass. At the very end the
///   operator does nothing.
/// - A block that stands first is evaluated in place of the whole sequence.
/// - A block behind a parenthetical is a function: where a value is wanted,
///   it is the value of the pass.
/// - A string or a number that stands alone is, where a value is wanted,
///   the value of the pass.
/// - A name before a parenthetical is a call. A name bound to a function
///   has the body of the function evaluated; a name bound to anything else
///   cannot be called. A name that is not bound is looked for in the loaded
///   modules and called there, with one argument for each group of the
///   parenthetical, each evaluated as a pass that wants a value.
/// - A name, the assignment operator and a block, a string or a number
///   bind the name: to the block as a function, to the string or the number
///   as itself. What the name was bound to before is given up, and the pass
///   goes on behind the three tokens.
/// - Every other token is passed over.
///
/// Each block entered and each call made uses up one level of `depth`.
pub open spec fn run_from(
    tokens: Seq<TokenView>,
    i: nat,
    want: bool,
    vars: Map<Seq<char>, VarView>,
    modules: Seq<Seq<char>>,
    replies: Seq<ReplyView>,
    used: nat,
    depth: nat,
) -> Run
    decreases depth, 0nat, tokens.len() - i,
{
    if i >= tokens.len() {
        done(None, vars, modules, used)
    } else {
        let t = tokens[i as int];
        if is_import(t) {
            if i + 1 >= tokens.len() {
                done(None, vars, modules, used)
            } else if !tokens[i as int + 1].has_text {
                fail(ErrorKind::ExtensionLoadError, Seq::empty(), vars, modules, used)
            } else if used >= replies.len() {
                need(RequestView::Load { path: tokens[i as int + 1].text }, vars, modules, used)
            } else if replies[used as int] == ReplyView::Loaded {
                run_from(
                    tokens,
                    i + 2,
                    want,
                    vars,
                    register(modules, tokens[i as int + 1].text),
                    replies,
                    used + 1,
                    depth,
                )
            } else {
                fail(ErrorKind::ExtensionLoadError, tokens[i as int + 1].text, vars, modules, used + 1)
            }
        } else if t.kind == TokenType::Block && i == 0 {
            if depth == 0 {
                fail(ErrorKind::DepthExceeded, Seq::empty(), vars, modules, used)
            } else {
                run_from(t.children, 0, want, vars, modules, replies, used, (depth - 1) as nat)
            }
        } else if t.kind == TokenType::Block && tokens[i as int - 1].kind == TokenType::Parenthetical
            && want {
            done(Some(wrap(Datatype::Func, t)), vars, modules, used)
        } else if t.kind == TokenType::String && tokens.len() == 1 && want {
            done(Some(wrap(Datatype::String, t)), vars, modules, used)
        } else if t.kind == TokenType::Number && tokens.len() == 1 && want {
            done(Some(wrap(Datatype::Number, t)), vars, modules, used)
        } else if t.kind == TokenType::UserVar && i + 1 < tokens.len() && tokens[i as int + 1].kind
            == TokenType::Parenthetical {
            if vars.contains_key(t.text) {
                if vars[t.text].datatype != Datatype::Func {
                    fail(ErrorKind::ArityOrTypeMismatch, t.text, vars, modules, used)
                } else if depth == 0 {
                    fail(ErrorKind::DepthExceeded, t.text, vars, modules, used)
                } else {
                    run_from(
                        vars[t.text].value.children,
                        0,
                        want,
                        vars,
                        modules,
                        replies,
                        used,
                        (depth - 1) as nat,
                    )
                }
            } else if depth == 0 {
                fail(ErrorKind::DepthExceeded, t.text, vars, modules, used)
            } else {
                native_run(
                    t.text,
                    tokens[i as int + 1].children,
                    vars,
                    modules,
                    replies,
                    used,
                    (depth - 1) as nat,
                )
            }
        } else if t.kind == TokenType::UserVar && i + 2 < tokens.len() && is_assign(
            tokens[i as int + 1],
        ) && assigned(tokens[i as int + 2]) is Some {
            run_from(
                tokens,
                i + 3,
                want,
                vars.insert(t.text, assigned(tokens[i as int + 2]).unwrap()),
                modules,
                replies,
                used,
                depth,
            )
        } else {
            run_from(tokens, i + 1, want, vars, modules, replies, used, depth)
        }
    }
}

/// The evaluation of the argument groups from the one at `j` on, each as a
/// pass of its own that wants a value, one after the other. `args` holds the
/// values of the groups before `j`.
pub open spec fn run_args(
    groups: Seq<Seq<TokenView>>,
    j: nat,
    args: Seq<Option<VarView>>,
    vars: Map<Seq<char>, VarView>,
    modules: Seq<Seq<char>>,
    replies: Seq<ReplyView>,
    used: nat,
    depth: nat,
) -> ArgsRun
    decreases depth, 1nat, groups.len() - j,
{
    if j >= groups.len() {
        ArgsRun::Ready { args, vars, modules, used }
    } else {
        let r = run_from(groups[j as int], 0, true, vars, modules, replies, used, depth);
        match r.outcome {
            Outcome::Done(value) => run_args(
                groups,
                j + 1,
                args.push(value),
                r.vars,
                r.modules,
                replies,
                r.used,
                depth,
            ),
            _ => ArgsRun::Halt { run: r },
        }
    }
}

/// The call of the native function `symbol` with the arguments written as
/// `children`: the first loaded module that offers the function is found,
/// then the arguments are evaluated, then the function is called. A name
/// that no module offers fails the pass.
pub open spec fn native_run(
    symbol: Seq<char>,
    children: Seq<TokenView>,
    vars: Map<Seq<char>, VarView>,
    modules: Seq<Seq<char>>,
    replies: Seq<ReplyView>,
    used: nat,
    depth: nat,
) -> Run
    decreases depth, 2nat, 0nat,
{
    match resolution(symbol, modules, 0, replies, used) {
        Resolution::Need { request, used: at } => need(request, vars, modules, at),
        Resolution::Unbound { used: at } => fail(
            ErrorKind::UnboundIdentifier,
            symbol,
            vars,
            modules,
            at,
        ),
        Resolution::Found { module, used: at } => match run_args(
            arg_groups(children),
            0,
            Seq::empty(),
            vars,
            modules,
            replies,
            at,
            depth,
        ) {
            ArgsRun::Halt { run } => run,
            ArgsRun::Ready { args, vars: bound, modules: loaded, used: then } => invoke_run(
                modules[module],
                symbol,
                args,
                bound,
                loaded,
                replies,
                then,
            ),
        },
    }
}

/// The end of a native call: the call is asked for, and what it returns is
/// the value of the pass. A function that has gone missing or that turns
/// the arguments down fails the pass.
pub open spec fn invoke_run(
    module: Seq<char>,
    symbol: Seq<char>,
    args: Seq<Option<VarView>>,
    vars: Map<Seq<char>, VarView>,
    modules: Seq<Seq<char>>,
    replies: Seq<ReplyView>,
    used: nat,
) -> Run {
    if used >= replies.len() {
        need(RequestView::Invoke { module, symbol, args }, vars, modules, used)
    } else {
        match replies[used as int] {
            ReplyView::Returned(value) => done(value, vars, modules, used + 1),
            ReplyView::Missing => fail(
                ErrorKind::ExtensionSymbolMissing,
                symbol,
                vars,
                modules,
                used + 1,
            ),
            _ => fail(ErrorKind::ArityOrTypeMismatch, symbol, vars, modules, used + 1),
        }
    }
}

/// The pass over `tokens`, started with the modules in `modules` loaded and
/// with `replies` as the answers given so far.
pub open spec fn run(
    tokens: Seq<TokenView>,
    want: bool,
    vars: Map<Seq<char>, VarView>,
    modules: Seq<Seq<char>>,
    replies: Seq<ReplyView>,
    depth: nat,
) -> Run {
    run_from(tokens, 0, want, vars, modules, replies, 0, depth)
}

/// The views of argument groups, one for one.
pub open spec fn group_views(groups: Seq<Vec<Token>>) -> Seq<Seq<TokenView>> {
    Seq::new(groups.len(), |i: int| view_seq(groups[i]@))
}

/// The text of a token.
fn text_of(t: &Token) -> (text: String)
    ensures
        text@ == t@.text,
{
    match &t.token_value {
        Some(s) => s.clone(),
        None => String::new(),
    }
}

/// Whether the text of a token is the one character `c`.
fn text_is(t: &Token, c: char) -> (b: bool)
    ensures
        b == (t@.text == seq![c]),
{
    match &t.token_value {
        Some(s) => {
            let same = s.as_str().unicode_len() == 1 && s.as_str().get_char(0) == c;
            proof {
                assert(seq![c].len() == 1 && seq![c][0] == c);
                if same {
                    assert(s@ =~= seq![c]);
                }
            }
            same
        },
        None => {
            assert(seq![c].len() == 1);
            false
        },
    }
}

/// Whether a token is the assignment operator.
fn is_assign_token(t: &Token) -> (b: bool)
    ensures
        b == is_assign(t@),
{
    match t.token_type {
        TokenType::Operator => text_is(t, '='),
        _ => false,
    }
}

/// The value that a name is bound to when `t` is assigned to it.
fn assigned_value(t: &Token) -> (r: Option<Var>)
    ensures
        crate::esotypes::view_opt(r) == assigned(t@),
{
    match t.token_type {
        TokenType::Block => Some(Var { datatype: Datatype::Func, value: t.clone() }),
        TokenType::String => Some(Var { datatype: Datatype::String, value: t.clone() }),
        TokenType::Number => Some(Var { datatype: Datatype::Number, value: t.clone() }),
        _ => None,
    }
}

/// Whether a token is the comma operator.
fn is_comma_token(t: &Token) -> (b: bool)
    ensures
        b == is_comma(t@),
{
    match t.token_type {
        TokenType::Operator => text_is(t, ','),
        _ => false,
    }
}

/// Divides the tokens of a parenthetical into the argument groups of a
/// call, at the commas that stand directly among them.
pub fn split_args(children: &Vec<Token>) -> (groups: Vec<Vec<Token>>)
    ensures
        group_views(groups@) == arg_groups(view_seq(children@)),
{
    let ghost all = view_seq(children@);
    let mut groups: Vec<Vec<Token>> = Vec::new();
    let mut current: Vec<Token> = Vec::new();
    let mut i: usize = 0;
    let ghost mut start: int = 0;
    proof {
        assert(all.skip(0) =~= all);
        assert(group_views(groups@) + arg_groups(all) =~= arg_groups(all));
        assert(view_seq(current@) =~= all.subrange(0, 0));
    }
    while i < children.len()
        invariant
            all == view_seq(children@),
            0 <= start <= i <= children.len(),
            view_seq(current@) == all.subrange(start, i as int),
            forall|k: int| start <= k < i ==> !is_comma(#[trigger] all[k]),
            arg_groups(all) == group_views(groups@) + arg_groups(all.skip(start)),
        decreases children.len() - i,
    {
        if is_comma_token(&children[i]) {
            proof {
                let tail = all.skip(start);
                let n = i - start;
                assert forall|k: int| 0 <= k < n implies !commas()(#[trigger] tail[k]) by {
                    assert(tail[k] == all[start + k]);
                }
                assert(commas()(tail[n]));
                crate::scanner::lemma_run_length_is(tail, commas(), n as nat);
                assert(tail.take(n) =~= view_seq(current@));
                assert(tail.skip(n + 1) =~= all.skip(i + 1));
                assert(group_views(groups@.push(current)) =~= group_views(groups@).push(
                    view_seq(current@),
                ));
                assert(group_views(groups@) + (seq![view_seq(current@)] + arg_groups(
                    all.skip(i + 1),
                )) =~= group_views(groups@).push(view_seq(current@)) + arg_groups(all.skip(i + 1)));
            }
            groups.push(current);
            current = Vec::new();
            proof {
                start = i + 1;
                assert(view_seq(current@) =~= all.subrange(start, i + 1));
            }
        } else {
            let ghost before = view_seq(current@);
            current.push(children[i].clone());
            proof {
                assert(view_seq(current@) =~= before.push(children[i as int]@));
                assert(view_seq(current@) =~= all.subrange(start, i + 1));
            }
        }
        i += 1;
    }
    proof {
        let tail = all.skip(start);
        let n = children.len() - start;
        assert forall|k: int| 0 <= k < n implies !commas()(#[trigger] tail[k]) by {
            assert(tail[k] == all[start + k]);
        }
        crate::scanner::lemma_run_length_is(tail, commas(), n as nat);
        assert(tail =~= view_seq(current@));
        assert(group_views(groups@.push(current)) =~= group_views(groups@).push(
            view_seq(current@),
        ));
        assert(group_views(groups@) + seq![view_seq(current@)] =~= group_views(groups@).push(
            view_seq(current@),
        ));
    }
    groups.push(current);
    groups
}

/// How the search for a module that offers a function went.
#[derive(Debug, PartialEq, Eq)]
pub enum Resolved {
    /// The module at this place of the registry offers it.
    Found { module: usize, used: usize },
    /// The search stopped: it needs this answered.
    Need { request: Request, used: usize },
    /// No module offers it.
    Unbound { used: usize },
}

impl View for Resolved {
    type V = Resolution;

    open spec fn view(&self) -> Resolution {
        match self {
            Resolved::Found { module, used } => Resolution::Found {
                module: *module as int,
                used: *used as nat,
            },
            Resolved::Need { request, used } => Resolution::Need {
                request: request@,
                used: *used as nat,
            },
            Resolved::Unbound { used } => Resolution::Unbound { used: *used as nat },
        }
    }
}

/// A copy of an optional value.
fn clone_value(value: &Option<Var>) -> (r: Option<Var>)
    ensures
        crate::esotypes::view_opt(r) == crate::esotypes::view_opt(*value),
{
    match value {
        Some(v) => Some(v.clone()),
        None => None,
    }
}

/// Looks for the first loaded module that offers `symbol`, with the answers
/// from the one at `used` on.
pub fn resolve_symbol(
    symbol: &String,
    modules: &ExtensionRegistry,
    replies: &Vec<Reply>,
    used: usize,
) -> (r: Resolved)
    requires
        used <= replies.len(),
    ensures
        r@ == resolution(symbol@, modules@, 0, reply_views(replies@), used as nat),
        match r {
            Resolved::Found { module, used: at } => module < modules@.len() && at <= replies.len(),
            Resolved::Need { used: at, .. } => at == replies.len(),
            Resolved::Unbound { used: at } => at <= replies.len(),
        },
{
    let ghost answers = reply_views(replies@);
    let mut m: usize = 0;
    let mut at = used;
    while m < modules.paths.len()
        invariant
            m <= modules.paths.len(),
            at <= replies.len(),
            answers == reply_views(replies@),
            resolution(symbol@, modules@, 0, answers, used as nat) == resolution(
                symbol@,
                modules@,
                m as nat,
                answers,
                at as nat,
            ),
        decreases modules.paths.len() - m,
    {
        assert(modules@[m as int] == modules.paths[m as int]@);
        if at >= replies.len() {
            return Resolved::Need {
                request: Request::Resolve {
                    module: modules.paths[m].clone(),
                    symbol: symbol.clone(),
                },
                used: at,
            };
        }
        assert(answers[at as int] == replies[at as int]@);
        match &replies[at] {
            Reply::Found => {
                return Resolved::Found { module: m, used: at + 1 };
            },
            _ => {},
        }
        at += 1;
        m += 1;
    }
    Resolved::Unbound { used: at }
}

/// Ends a native call whose arguments are evaluated: asks for the call
/// where no answer to it is there yet, and else takes the answer.
pub fn finish_call(
    module: String,
    symbol: String,
    args: Vec<Option<Var>>,
    vars: BindingTable,
    modules: ExtensionRegistry,
    replies: &Vec<Reply>,
    used: usize,
) -> (r: Progress)
    requires
        used <= replies.len(),
    ensures
        r@ == invoke_run(
            module@,
            symbol@,
            arg_views(args@),
            vars@,
            modules@,
            reply_views(replies@),
            used as nat,
        ),
        r.used <= replies.len(),
        r.step is Need ==> r.used == replies.len(),
        r.vars == vars,
{
    if used >= replies.len() {
        return Progress {
            step: Step::Need(Request::Invoke { module, symbol, args }),
            vars,
            modules,
            used,
        };
    }
    assert(reply_views(replies@)[used as int] == replies[used as int]@);
    match &replies[used] {
        Reply::Returned(value) => Progress {
            step: Step::Done(clone_value(value)),
            vars,
            modules,
            used: used + 1,
        },
        Reply::Missing => Progress {
            step: Step::Failed(EvalError { kind: ErrorKind::ExtensionSymbolMissing, token: symbol }),
            vars,
            modules,
            used: used + 1,
        },
        _ => Progress {
            step: Step::Failed(EvalError { kind: ErrorKind::ArityOrTypeMismatch, token: symbol }),
            vars,
            modules,
            used: used + 1,
        },
    }
}

/// The children of a token, or `none` where it has none.
fn children_of<'a>(t: &'a Token, none: &'a Vec<Token>) -> (children: &'a Vec<Token>)
    requires
        none@.len() == 0,
    ensures
        view_seq(children@) == t@.children,
{
    match &t.token_nested {
        Some(v) => v,
        None => {
            assert(view_seq(none@) =~= Seq::<TokenView>::empty());
            none
        },
    }
}

/// A pass that failed.
fn failed(
    kind: ErrorKind,
    token: String,
    vars: BindingTable,
    modules: ExtensionRegistry,
    used: usize,
) -> (r: Progress)
    ensures
        r@ == fail(kind, token@, vars@, modules@, used as nat),
        r.used == used,
        r.vars == vars,
{
    Progress { step: Step::Failed(EvalError { kind, token }), vars, modules, used }
}

/// Calls the native function `symbol` with the arguments written as
/// `children`.
#[verifier::loop_isolation(false)]
fn call_native(
    symbol: String,
    children: &Vec<Token>,
    vars: BindingTable,
    modules: ExtensionRegistry,
    replies: &Vec<Reply>,
    used: usize,
    depth: usize,
) -> (r: Progress)
    requires
        used <= replies.len(),
    ensures
        r@ == native_run(
            symbol@,
            view_seq(children@),
            vars@,
            modules@,
            reply_views(replies@),
            used as nat,
            depth as nat,
        ),
        r.used <= replies.len(),
        r.step is Need ==> r.used == replies.len(),
        vars.names_unique() ==> r.vars.names_unique(),
    decreases depth, 2nat,
{
    let ghost answers = reply_views(replies@);
    match resolve_symbol(&symbol, &modules, replies, used) {
        Resolved::Need { request, used: at } => Progress {
            step: Step::Need(request),
            vars,
            modules,
            used: at,
        },
        Resolved::Unbound { used: at } => failed(
            ErrorKind::UnboundIdentifier,
            symbol,
            vars,
            modules,
            at,
        ),
        Resolved::Found { module, used: at } => {
            let home = modules.paths[module].clone();
            let groups = split_args(children);
            let ghost group_seq = group_views(groups@);
            let mut args: Vec<Option<Var>> = Vec::new();
            let mut bound = vars;
            let mut loaded = modules;
            let mut cursor = at;
            let mut j: usize = 0;
            proof {
                assert(arg_views(args@) =~= Seq::<Option<VarView>>::empty());
            }
            while j < groups.len()
                invariant
                    j <= groups.len(),
                    cursor <= replies.len(),
                    vars.names_unique() ==> bound.names_unique(),
                    answers == reply_views(replies@),
                    group_seq == group_views(groups@),
                    run_args(
                        group_seq,
                        0,
                        Seq::empty(),
                        vars@,
                        modules@,
                        answers,
                        at as nat,
                        depth as nat,
                    ) == run_args(
                        group_seq,
                        j as nat,
                        arg_views(args@),
                        bound@,
                        loaded@,
                        answers,
                        cursor as nat,
                        depth as nat,
                    ),
                decreases groups.len() - j,
            {
                assert(group_seq[j as int] == view_seq(groups[j as int]@));
                let p = evaluate_from(&groups[j], true, bound, loaded, replies, cursor, depth);
                let Progress { step, vars: kept, modules: after, used: then } = p;
                match step {
                    Step::Done(value) => {
                        proof {
                            assert(arg_views(args@.push(value)) =~= arg_views(args@).push(
                                crate::esotypes::view_opt(value),
                            ));
                        }
                        args.push(value);
                        bound = kept;
                        loaded = after;
                        cursor = then;
                    },
                    other => {
                        return Progress { step: other, vars: kept, modules: after, used: then };
                    },
                }
                j += 1;
            }
            finish_call(home, symbol, args, bound, loaded, replies, cursor)
        },
    }
}

/// The pass over `tokens` with the answers from the one at `used` on.
#[verifier::loop_isolation(false)]
fn evaluate_from(
    tokens: &Vec<Token>,
    want: bool,
    vars: BindingTable,
    modules: ExtensionRegistry,
    replies: &Vec<Reply>,
    used: usize,
    depth: usize,
) -> (r: Progress)
    requires
        used <= replies.len(),
    ensures
        r@ == run_from(
            view_seq(tokens@),
            0,
            want,
            vars@,
            modules@,
            reply_views(replies@),
            used as nat,
            depth as nat,
        ),
        r.used <= replies.len(),
        r.step is Need ==> r.used == replies.len(),
        vars.names_unique() ==> r.vars.names_unique(),
    decreases depth, 0nat,
{
    let ghost all = view_seq(tokens@);
    let ghost answers = reply_views(replies@);
    let ghost goal = run_from(all, 0, want, vars@, modules@, answers, used as nat, depth as nat);
    let none: Vec<Token> = Vec::new();
    let mut bound = vars;
    let mut loaded = modules;
    let mut cursor = used;
    let mut i: usize = 0;
    while i < tokens.len()
        invariant
            i <= tokens.len(),
            cursor <= replies.len(),
            none@.len() == 0,
            vars.names_unique() ==> bound.names_unique(),
            all == view_seq(tokens@),
            answers == reply_views(replies@),
            goal == run_from(all, i as nat, want, bound@, loaded@, answers, cursor as nat, depth as nat),
        decreases tokens.len() - i,
    {
        let t = &tokens[i];
        assert(all[i as int] == t@);
        match t.token_type {
            TokenType::Operator => {
                if text_is(t, '#') {
                    if i + 1 >= tokens.len() {
                        return Progress { step: Step::Done(None), vars: bound, modules: loaded, used: cursor };
                    }
                    let next = &tokens[i + 1];
                    assert(all[i + 1] == next@);
                    let path = match &next.token_value {
                        Some(text) => text.clone(),
                        None => {
                            return failed(
                                ErrorKind::ExtensionLoadError,
                                String::new(),
                                bound,
                                loaded,
                                cursor,
                            );
                        },
                    };
                    if cursor >= replies.len() {
                        return Progress { step: Step::Need(Request::Load { path }), vars: bound, modules: loaded, used: cursor };
                    }
                    assert(answers[cursor as int] == replies[cursor as int]@);
                    match &replies[cursor] {
                        Reply::Loaded => {
                            loaded.register(path);
                            cursor += 1;
                            i += 2;
                        },
                        _ => {
                            return failed(ErrorKind::ExtensionLoadError, path, bound, loaded, cursor + 1);
                        },
                    }
                } else {
                    i += 1;
                }
            },
            TokenType::Block => {
                if i == 0 {
                    if depth == 0 {
                        return failed(ErrorKind::DepthExceeded, String::new(), bound, loaded, cursor);
                    }
                    return evaluate_from(
                        children_of(t, &none),
                        want,
                        bound,
                        loaded,
                        replies,
                        cursor,
                        depth - 1,
                    );
                }
                assert(all[i - 1] == tokens[i - 1]@);
                let behind_call = match tokens[i - 1].token_type {
                    TokenType::Parenthetical => true,
                    _ => false,
                };
                if behind_call && want {
                    return Progress {
                        step: Step::Done(Some(Var { datatype: Datatype::Func, value: t.clone() })),
                        vars: bound,
                        modules: loaded,
                        used: cursor,
                    };
                }
                i += 1;
            },
            TokenType::String => {
                if tokens.len() == 1 && want {
                    return Progress {
                        step: Step::Done(Some(Var { datatype: Datatype::String, value: t.clone() })),
                        vars: bound,
                        modules: loaded,
                        used: cursor,
                    };
                }
                i += 1;
            },
            TokenType::Number => {
                if tokens.len() == 1 && want {
                    return Progress {
                        step: Step::Done(Some(Var { datatype: Datatype::Number, value: t.clone() })),
                        vars: bound,
                        modules: loaded,
                        used: cursor,
                    };
                }
                i += 1;
            },
            TokenType::UserVar => {
                let is_call = if i + 1 < tokens.len() {
                    assert(all[i + 1] == tokens[i + 1]@);
                    match tokens[i + 1].token_type {
                        TokenType::Parenthetical => true,
                        _ => false,
                    }
                } else {
                    false
                };
                if is_call {
                    let name = text_of(t);
                    let callee = match bound.lookup(&name) {
                        Some(var) => {
                            let body = match var.datatype {
                                Datatype::Func => Some(clone_tokens(children_of(&var.value, &none))),
                                _ => None,
                            };
                            Some(body)
                        },
                        None => None,
                    };
                    match callee {
                        Some(Some(body)) => {
                            if depth == 0 {
                                return failed(ErrorKind::DepthExceeded, name, bound, loaded, cursor);
                            }
                            return evaluate_from(
                                &body,
                                want,
                                bound,
                                loaded,
                                replies,
                                cursor,
                                depth - 1,
                            );
                        },
                        Some(None) => {
                            return failed(
                                ErrorKind::ArityOrTypeMismatch,
                                name,
                                bound,
                                loaded,
                                cursor,
                            );
                        },
                        None => {
                            if depth == 0 {
                                return failed(ErrorKind::DepthExceeded, name, bound, loaded, cursor);
                            }
                            return call_native(
                                name,
                                children_of(&tokens[i + 1], &none),
                                bound,
                                loaded,
                                replies,
                                cursor,
                                depth - 1,
                            );
                        },
                    }
                }
                let value = if tokens.len() - i > 2 && is_assign_token(&tokens[i + 1]) {
                    assert(all[i + 1] == tokens[i + 1]@);
                    assert(all[i + 2] == tokens[i + 2]@);
                    assigned_value(&tokens[i + 2])
                } else {
                    None
                };
                match value {
                    Some(var) => {
                        bound.define(text_of(t), var);
                        i += 3;
                    },
                    None => {
                        i += 1;
                    },
                }
            },
            TokenType::Parenthetical => {
                i += 1;
            },
        }
    }
    Progress { step: Step::Done(None), vars: bound, modules: loaded, used: cursor }
}

/// Evaluates `token_stack` in one pass from left to right.
///
/// `get_value` says whether the value of the pass is wanted. `vars` holds
/// the bindings and `modules` the native modules at the start of the pass;
/// neither is changed. `replies` holds, in order, the answers to what the
/// pass needed so far: none at the start. `depth` is how deep blocks and
/// calls may nest.
///
/// The result is the end of the pass, or the next thing it needs, with the
/// bindings and the modules as the pass left them. Where it needs
/// something, every answer was used; the caller does what is needed, adds
/// the answer to `replies` and evaluates again with the bindings and modules
/// of the start.
pub fn evaluate_tokens(
    token_stack: &Vec<Token>,
    get_value: bool,
    vars: &BindingTable,
    modules: &ExtensionRegistry,
    replies: &Vec<Reply>,
    depth: usize,
) -> (r: Progress)
    ensures
        r@ == run(
            view_seq(token_stack@),
            get_value,
            vars@,
            modules@,
            reply_views(replies@),
            depth as nat,
        ),
        r.used <= replies.len(),
        r.step is Need ==> r.used == replies.len(),
        vars.names_unique() ==> r.vars.names_unique(),
{
    evaluate_from(token_stack, get_value, vars.clone(), modules.clone(), replies, 0, depth)
}

/// Tokens among which no comma stands form one argument group, whatever
/// stands inside them.
pub proof fn law_no_comma_one_group(children: Seq<TokenView>)
    requires
        forall|k: int| 0 <= k < children.len() ==> !is_comma(#[trigger] children[k]),
    ensures
        arg_groups(children) == seq![children],
{
    crate::scanner::lemma_run_length_is(children, commas(), children.len());
}

/// A comma that stands directly among the tokens divides them: what stands
/// before the first comma is the first group, and what stands behind it is
/// divided in the same way.
pub proof fn law_comma_divides(first: Seq<TokenView>, comma: TokenView, rest: Seq<TokenView>)
    requires
        forall|k: int| 0 <= k < first.len() ==> !is_comma(#[trigger] first[k]),
        is_comma(comma),
    ensures
        arg_groups(first + seq![comma] + rest) == seq![first] + arg_groups(rest),
{
    let all = first + seq![comma] + rest;
    let n = first.len();
    assert forall|k: int| 0 <= k < n implies !commas()(#[trigger] all[k]) by {
        assert(all[k] == first[k]);
    }
    assert(all[n as int] == comma);
    crate::scanner::lemma_run_length_is(all, commas(), n);
    assert(all.take(n as int) =~= first);
    assert(all.skip(n as int + 1) =~= rest);
}

/// No argument group holds a comma directly; and there is one group more
/// than there are commas directly among the tokens.
pub proof fn law_groups_hold_no_comma(children: Seq<TokenView>)
    ensures
        forall|j: int, k: int|
            0 <= j < arg_groups(children).len() && 0 <= k < arg_groups(children)[j].len()
                ==> !is_comma(#[trigger] arg_groups(children)[j][k]),
        arg_groups(children).len() == 1 + children.filter(commas()).len(),
    decreases children.len(),
{
    crate::scanner::lemma_run_length(children, commas());
    let n = run_length(children, commas()) as int;
    let head = children.take(n);
    assert forall|k: int| 0 <= k < n implies !commas()(#[trigger] head[k]) by {
        assert(head[k] == children[k]);
    }
    lemma_filter_none(head);
    if n >= children.len() {
        assert(head =~= children);
    } else {
        let tail = children.skip(n + 1);
        law_groups_hold_no_comma(tail);
        let groups = arg_groups(children);
        assert forall|j: int, k: int| 0 <= j < groups.len() && 0 <= k < groups[j].len() implies (
        !is_comma(#[trigger] groups[j][k])) by {
            if j == 0 {
                assert(groups[0] == head);
                assert(!commas()(head[k]));
            } else {
                assert(groups[j] == arg_groups(tail)[j - 1]);
            }
        }
        assert(children =~= head + (seq![children[n]] + tail));
        Seq::filter_distributes_over_add(head, seq![children[n]] + tail, commas());
        Seq::filter_distributes_over_add(seq![children[n]], tail, commas());
        assert(commas()(children[n]));
        lemma_filter_one(children[n]);
    }
}

/// Where the test holds of no item, the filter leaves none.
proof fn lemma_filter_none(s: Seq<TokenView>)
    requires
        forall|k: int| 0 <= k < s.len() ==> !commas()(#[trigger] s[k]),
    ensures
        s.filter(commas()).len() == 0,
    decreases s.len(),
{
    reveal(Seq::filter);
    if s.len() > 0 {
        assert forall|k: int| 0 <= k < s.drop_last().len() implies !commas()(
            #[trigger] s.drop_last()[k],
        ) by {
            assert(s.drop_last()[k] == s[k]);
        }
        lemma_filter_none(s.drop_last());
        assert(!commas()(s.last()));
    }
}

/// The filter keeps a comma that stands alone.
proof fn lemma_filter_one(t: TokenView)
    requires
        is_comma(t),
    ensures
        seq![t].filter(commas()).len() == 1,
{
    reveal(Seq::filter);
    let s = seq![t];
    assert(s.drop_last() =~= Seq::<TokenView>::empty());
    assert(s.drop_last().filter(commas()).len() == 0) by {
        reveal(Seq::filter);
    }
    assert(commas()(s.last()));
}

/// A binding shadows the native functions: the call of a bound name is
/// decided by the binding alone. A name bound to a function has the body of
/// the function evaluated, a name bound to anything else cannot be called,
/// and in neither case is a module asked for the name, whichever modules are
/// loaded.
pub proof fn law_binding_shadows_native(
    tokens: Seq<TokenView>,
    i: nat,
    want: bool,
    vars: Map<Seq<char>, VarView>,
    modules: Seq<Seq<char>>,
    replies: Seq<ReplyView>,
    used: nat,
    depth: nat,
)
    requires
        i + 1 < tokens.len(),
        tokens[i as int].kind == TokenType::UserVar,
        tokens[i as int + 1].kind == TokenType::Parenthetical,
        vars.contains_key(tokens[i as int].text),
    ensures
        run_from(tokens, i, want, vars, modules, replies, used, depth) == (if vars[tokens[i as int].text].datatype
            != Datatype::Func {
            fail(ErrorKind::ArityOrTypeMismatch, tokens[i as int].text, vars, modules, used)
        } else if depth == 0 {
            fail(ErrorKind::DepthExceeded, tokens[i as int].text, vars, modules, used)
        } else {
            run_from(
                vars[tokens[i as int].text].value.children,
                0,
                want,
                vars,
                modules,
                replies,
                used,
                (depth - 1) as nat,
            )
        }),
{
}

/// The call of a name that is not bound, with no module loaded, fails as
/// the call of an unbound identifier and asks for nothing.
pub proof fn law_unbound_without_modules(
    tokens: Seq<TokenView>,
    i: nat,
    want: bool,
    vars: Map<Seq<char>, VarView>,
    replies: Seq<ReplyView>,
    used: nat,
    depth: nat,
)
    requires
        i + 1 < tokens.len(),
        tokens[i as int].kind == TokenType::UserVar,
        tokens[i as int + 1].kind == TokenType::Parenthetical,
        !vars.contains_key(tokens[i as int].text),
        depth > 0,
    ensures
        run_from(tokens, i, want, vars, Seq::empty(), replies, used, depth) == fail(
            ErrorKind::UnboundIdentifier,
            tokens[i as int].text,
            vars,
            Seq::empty(),
            used,
        ),
{
    let name = tokens[i as int].text;
    let none = Seq::<Seq<char>>::empty();
    assert(resolution(name, none, 0, replies, used) == Resolution::Unbound { used });
    assert(native_run(
        name,
        tokens[i as int + 1].children,
        vars,
        none,
        replies,
        used,
        (depth - 1) as nat,
    ) == fail(ErrorKind::UnboundIdentifier, name, vars, none, used));
}

/// The call of a name that is not bound, where every loaded module answers
/// that it does not offer the name, fails as the call of an unbound
/// identifier.
pub proof fn law_unbound_when_no_module_offers(
    symbol: Seq<char>,
    modules: Seq<Seq<char>>,
    from: nat,
    replies: Seq<ReplyView>,
    used: nat,
)
    requires
        from <= modules.len(),
        used + (modules.len() - from) <= replies.len(),
        forall|k: int| used <= k < used + (modules.len() - from) ==> #[trigger] replies[k]
            != ReplyView::Found,
    ensures
        resolution(symbol, modules, from, replies, used) == (Resolution::Unbound {
            used: (used + (modules.len() - from)) as nat,
        }),
    decreases modules.len() - from,
{
    if from < modules.len() {
        assert(replies[used as int] != ReplyView::Found);
        law_unbound_when_no_module_offers(symbol, modules, from + 1, replies, used + 1);
    }
}

/// Whether the evaluation of arguments stopped for an answer.
pub open spec fn args_need(a: ArgsRun) -> bool {
    a matches ArgsRun::Halt { run } && run.outcome is Need
}

/// A search that did not stop for an answer goes the same way with more
/// answers behind the ones given.
proof fn lemma_resolution_settled(
    symbol: Seq<char>,
    modules: Seq<Seq<char>>,
    from: nat,
    replies: Seq<ReplyView>,
    used: nat,
    more: Seq<ReplyView>,
)
    requires
        !(resolution(symbol, modules, from, replies, used) is Need),
    ensures
        resolution(symbol, modules, from, replies + more, used) == resolution(
            symbol,
            modules,
            from,
            replies,
            used,
        ),
    decreases modules.len() - from,
{
    if from < modules.len() {
        assert(used < replies.len());
        assert((replies + more)[used as int] == replies[used as int]);
        if replies[used as int] != ReplyView::Found {
            lemma_resolution_settled(symbol, modules, from + 1, replies, used + 1, more);
        }
    }
}

/// A pass that did not stop for an answer goes the same way with more
/// answers behind the ones given.
pub proof fn law_settled_pass_ignores_more_answers(
    tokens: Seq<TokenView>,
    i: nat,
    want: bool,
    vars: Map<Seq<char>, VarView>,
    modules: Seq<Seq<char>>,
    replies: Seq<ReplyView>,
    used: nat,
    depth: nat,
    more: Seq<ReplyView>,
)
    requires
        !(run_from(tokens, i, want, vars, modules, replies, used, depth).outcome is Need),
    ensures
        run_from(tokens, i, want, vars, modules, replies + more, used, depth) == run_from(
            tokens,
            i,
            want,
            vars,
            modules,
            replies,
            used,
            depth,
        ),
    decreases depth, 0nat, tokens.len() - i,
{
    let longer = replies + more;
    if i < tokens.len() {
        let t = tokens[i as int];
        if is_import(t) {
            if i + 1 < tokens.len() && tokens[i as int + 1].has_text {
                assert(used < replies.len());
                assert(longer[used as int] == replies[used as int]);
                if replies[used as int] == ReplyView::Loaded {
                    law_settled_pass_ignores_more_answers(
                        tokens,
                        i + 2,
                        want,
                        vars,
                        register(modules, tokens[i as int + 1].text),
                        replies,
                        used + 1,
                        depth,
                        more,
                    );
                }
            }
        } else if t.kind == TokenType::Block && i == 0 {
            if depth > 0 {
                law_settled_pass_ignores_more_answers(
                    t.children,
                    0,
                    want,
                    vars,
                    modules,
                    replies,
                    used,
                    (depth - 1) as nat,
                    more,
                );
            }
        } else if t.kind == TokenType::Block && tokens[i as int - 1].kind
            == TokenType::Parenthetical && want {
        } else if t.kind == TokenType::String && tokens.len() == 1 && want {
        } else if t.kind == TokenType::Number && tokens.len() == 1 && want {
        } else if t.kind == TokenType::UserVar && i + 1 < tokens.len() && tokens[i as int + 1].kind
            == TokenType::Parenthetical {
            if vars.contains_key(t.text) {
                if vars[t.text].datatype == Datatype::Func && depth > 0 {
                    law_settled_pass_ignores_more_answers(
                        vars[t.text].value.children,
                        0,
                        want,
                        vars,
                        modules,
                        replies,
                        used,
                        (depth - 1) as nat,
                        more,
                    );
                }
            } else if depth > 0 {
                lemma_native_settled(
                    t.text,
                    tokens[i as int + 1].children,
                    vars,
                    modules,
                    replies,
                    used,
                    (depth - 1) as nat,
                    more,
                );
            }
        } else if t.kind == TokenType::UserVar && i + 2 < tokens.len() && is_assign(
            tokens[i as int + 1],
        ) && assigned(tokens[i as int + 2]) is Some {
            law_settled_pass_ignores_more_answers(
                tokens,
                i + 3,
                want,
                vars.insert(t.text, assigned(tokens[i as int + 2]).unwrap()),
                modules,
                replies,
                used,
                depth,
                more,
            );
        } else {
            law_settled_pass_ignores_more_answers(
                tokens,
                i + 1,
                want,
                vars,
                modules,
                replies,
                used,
                depth,
                more,
            );
        }
    }
}

/// The evaluation of arguments that did not stop for an answer goes the
/// same way with more answers behind the ones given.
proof fn lemma_args_settled(
    groups: Seq<Seq<TokenView>>,
    j: nat,
    args: Seq<Option<VarView>>,
    vars: Map<Seq<char>, VarView>,
    modules: Seq<Seq<char>>,
    replies: Seq<ReplyView>,
    used: nat,
    depth: nat,
    more: Seq<ReplyView>,
)
    requires
        !args_need(run_args(groups, j, args, vars, modules, replies, used, depth)),
    ensures
        run_args(groups, j, args, vars, modules, replies + more, used, depth) == run_args(
            groups,
            j,
            args,
            vars,
            modules,
            replies,
            used,
            depth,
        ),
    decreases depth, 1nat, groups.len() - j,
{
    if j < groups.len() {
        let r = run_from(groups[j as int], 0, true, vars, modules, replies, used, depth);
        law_settled_pass_ignores_more_answers(
            groups[j as int],
            0,
            true,
            vars,
            modules,
            replies,
            used,
            depth,
            more,
        );
        match r.outcome {
            Outcome::Done(value) => {
                lemma_args_settled(
                    groups,
                    j + 1,
                    args.push(value),
                    r.vars,
                    r.modules,
                    replies,
                    r.used,
                    depth,
                    more,
                );
            },
            _ => {},
        }
    }
}

/// A native call that did not stop for an answer goes the same way with
/// more answers behind the ones given.
proof fn lemma_native_settled(
    symbol: Seq<char>,
    children: Seq<TokenView>,
    vars: Map<Seq<char>, VarView>,
    modules: Seq<Seq<char>>,
    replies: Seq<ReplyView>,
    used: nat,
    depth: nat,
    more: Seq<ReplyView>,
)
    requires
        !(native_run(symbol, children, vars, modules, replies, used, depth).outcome is Need),
    ensures
        native_run(symbol, children, vars, modules, replies + more, used, depth) == native_run(
            symbol,
            children,
            vars,
            modules,
            replies,
            used,
            depth,
        ),
    decreases depth, 2nat, 0nat,
{
    let longer = replies + more;
    lemma_resolution_settled(symbol, modules, 0, replies, used, more);
    match resolution(symbol, modules, 0, replies, used) {
        Resolution::Found { module, used: at } => {
            lemma_args_settled(
                arg_groups(children),
                0,
                Seq::empty(),
                vars,
                modules,
                replies,
                at,
                depth,
                more,
            );
            match run_args(arg_groups(children), 0, Seq::empty(), vars, modules, replies, at, depth) {
                ArgsRun::Ready { args, vars: bound, modules: loaded, used: then } => {
                    assert(then < replies.len());
                    assert(longer[then as int] == replies[then as int]);
                },
                _ => {},
            }
        },
        _ => {},
    }
}

/// An assignment binds the name: behind a name, the assignment operator
/// and a block, a string or a number, the pass goes on with the name bound
/// to that value, whatever it was bound to before, and with every other
/// name bound as it was.
pub proof fn law_assignment_binds(
    tokens: Seq<TokenView>,
    i: nat,
    want: bool,
    vars: Map<Seq<char>, VarView>,
    modules: Seq<Seq<char>>,
    replies: Seq<ReplyView>,
    used: nat,
    depth: nat,
)
    requires
        i + 2 < tokens.len(),
        tokens[i as int].kind == TokenType::UserVar,
        is_assign(tokens[i as int + 1]),
        assigned(tokens[i as int + 2]) is Some,
    ensures
        run_from(tokens, i, want, vars, modules, replies, used, depth) == run_from(
            tokens,
            i + 3,
            want,
            vars.insert(tokens[i as int].text, assigned(tokens[i as int + 2]).unwrap()),
            modules,
            replies,
            used,
            depth,
        ),
{
}

/// A pass that is one assignment ends with the name bound and nothing else
/// changed: no value, no module loaded, no answer used.
pub proof fn law_assignment_alone(
    name: TokenView,
    operator: TokenView,
    value: TokenView,
    want: bool,
    vars: Map<Seq<char>, VarView>,
    modules: Seq<Seq<char>>,
    replies: Seq<ReplyView>,
    depth: nat,
)
    requires
        name.kind == TokenType::UserVar,
        is_assign(operator),
        assigned(value) is Some,
    ensures
        run(seq![name, operator, value], want, vars, modules, replies, depth) == done(
            None,
            vars.insert(name.text, assigned(value).unwrap()),
            modules,
            0,
        ),
{
    let tokens = seq![name, operator, value];
    law_assignment_binds(tokens, 0, want, vars, modules, replies, 0, depth);
    assert(run_from(
        tokens,
        3,
        want,
        vars.insert(name.text, assigned(value).unwrap()),
        modules,
        replies,
        0,
        depth,
    ) == done(None, vars.insert(name.text, assigned(value).unwrap()), modules, 0));
}

/// Where the arguments of a call all have their values, there is one value
/// more than there were before for each group that was still to evaluate.
proof fn lemma_one_argument_for_each_group(
    groups: Seq<Seq<TokenView>>,
    j: nat,
    args: Seq<Option<VarView>>,
    vars: Map<Seq<char>, VarView>,
    modules: Seq<Seq<char>>,
    replies: Seq<ReplyView>,
    used: nat,
    depth: nat,
)
    requires
        j <= groups.len(),
    ensures
        run_args(groups, j, args, vars, modules, replies, used, depth) matches ArgsRun::Ready {
            args: values,
            ..
        } ==> values.len() == args.len() + groups.len() - j,
    decreases groups.len() - j,
{
    if j < groups.len() {
        let r = run_from(groups[j as int], 0, true, vars, modules, replies, used, depth);
        match r.outcome {
            Outcome::Done(value) => {
                lemma_one_argument_for_each_group(
                    groups,
                    j + 1,
                    args.push(value),
                    r.vars,
                    r.modules,
                    replies,
                    r.used,
                    depth,
                );
            },
            _ => {},
        }
    }
}

/// A native function is called with one argument for each group: where the
/// evaluation of the arguments of a call gets to its end, the values are
/// one more than there are commas directly among the tokens of the
/// parenthetical, however many commas stand inside those tokens.
pub proof fn law_one_argument_more_than_commas(
    children: Seq<TokenView>,
    vars: Map<Seq<char>, VarView>,
    modules: Seq<Seq<char>>,
    replies: Seq<ReplyView>,
    used: nat,
    depth: nat,
)
    ensures
        run_args(arg_groups(children), 0, Seq::empty(), vars, modules, replies, used, depth) matches ArgsRun::Ready {
            args,
            ..
        } ==> args.len() == 1 + children.filter(commas()).len(),
{
    law_groups_hold_no_comma(children);
    lemma_one_argument_for_each_group(
        arg_groups(children),
        0,
        Seq::empty(),
        vars,
        modules,
        replies,
        used,
        depth,
    );
}

/// Whether a group is one string or one number that stands alone.
pub open spec fn is_literal_group(group: Seq<TokenView>) -> bool {
    group.len() == 1 && (group[0].kind == TokenType::String || group[0].kind == TokenType::Number)
}

/// The value of a string or a number that stands alone.
pub open spec fn literal_value(group: Seq<TokenView>) -> Option<VarView> {
    Some(
        wrap(
            if group[0].kind == TokenType::String {
                Datatype::String
            } else {
                Datatype::Number
            },
            group[0],
        ),
    )
}

/// Arguments that are literals are handed on as values of their kind, in
/// their order: where every group from `j` on is one string or one number,
/// the evaluation of the arguments ends with the value of each, and binds
/// nothing, loads nothing and uses no answer.
pub proof fn law_literal_arguments(
    groups: Seq<Seq<TokenView>>,
    j: nat,
    args: Seq<Option<VarView>>,
    vars: Map<Seq<char>, VarView>,
    modules: Seq<Seq<char>>,
    replies: Seq<ReplyView>,
    used: nat,
    depth: nat,
)
    requires
        j <= groups.len(),
        forall|k: int| j <= k < groups.len() ==> is_literal_group(#[trigger] groups[k]),
    ensures
        run_args(groups, j, args, vars, modules, replies, used, depth) == (ArgsRun::Ready {
            args: args + Seq::new((groups.len() - j) as nat, |k: int| literal_value(groups[j + k])),
            vars,
            modules,
            used,
        }),
    decreases groups.len() - j,
{
    let rest = Seq::new((groups.len() - j) as nat, |k: int| literal_value(groups[j + k]));
    if j < groups.len() {
        let g = groups[j as int];
        assert(is_literal_group(g));
        let r = run_from(g, 0, true, vars, modules, replies, used, depth);
        assert(r == done(literal_value(g), vars, modules, used));
        law_literal_arguments(
            groups,
            j + 1,
            args.push(literal_value(g)),
            vars,
            modules,
            replies,
            used,
            depth,
        );
        let later = Seq::new((groups.len() - j - 1) as nat, |k: int| literal_value(groups[j + 1 + k]));
        assert(args.push(literal_value(g)) + later =~= args + rest);
    } else {
        assert(args + rest =~= args);
    }
}

/// The call of a native function with literal arguments: where the name is
/// not bound, the module at `module` is the first to offer it and every
/// argument is one string or one number, the pass asks for the call of the
/// name in that module with the values of the arguments in their order, as
/// long as the call has no answer; and with the answer that the function
/// returned a value, that value is the value of the pass.
pub proof fn law_native_call_with_literals(
    symbol: Seq<char>,
    children: Seq<TokenView>,
    vars: Map<Seq<char>, VarView>,
    modules: Seq<Seq<char>>,
    replies: Seq<ReplyView>,
    used: nat,
    depth: nat,
    module: int,
    at: nat,
)
    requires
        resolution(symbol, modules, 0, replies, used) == (Resolution::Found { module, used: at }),
        forall|k: int|
            0 <= k < arg_groups(children).len() ==> is_literal_group(
                #[trigger] arg_groups(children)[k],
            ),
    ensures
        native_run(symbol, children, vars, modules, replies, used, depth) == invoke_run(
            modules[module],
            symbol,
            Seq::new(arg_groups(children).len(), |k: int| literal_value(arg_groups(children)[k])),
            vars,
            modules,
            replies,
            at,
        ),
{
    let groups = arg_groups(children);
    law_literal_arguments(groups, 0, Seq::empty(), vars, modules, replies, at, depth);
    let values = Seq::new(groups.len(), |k: int| literal_value(groups[k]));
    assert(Seq::<Option<VarView>>::empty() + Seq::new(
        (groups.len() - 0) as nat,
        |k: int| literal_value(groups[0 + k]),
    ) =~= values);
}

/// A pass that gets to its end with no module loaded and no answer given
/// has asked for nothing, and goes the same way whichever modules are
/// loaded and whichever answers are there: it ends with the same value and
/// the same bindings, loads nothing and uses no answer. So the call of a
/// bound function whose body asks for nothing gives what it gives with an
/// empty registry, whatever the loaded modules offer.
pub proof fn law_pass_that_asks_nothing_ignores_modules(
    tokens: Seq<TokenView>,
    i: nat,
    want: bool,
    vars: Map<Seq<char>, VarView>,
    modules: Seq<Seq<char>>,
    replies: Seq<ReplyView>,
    used: nat,
    depth: nat,
)
    requires
        run_from(tokens, i, want, vars, Seq::empty(), Seq::empty(), 0, depth).outcome is Done,
    ensures
        run_from(tokens, i, want, vars, modules, replies, used, depth) == (Run {
            outcome: run_from(tokens, i, want, vars, Seq::empty(), Seq::empty(), 0, depth).outcome,
            vars: run_from(tokens, i, want, vars, Seq::empty(), Seq::empty(), 0, depth).vars,
            modules,
            used,
        }),
    decreases depth, tokens.len() - i,
{
    let none = Seq::<Seq<char>>::empty();
    let silent = Seq::<ReplyView>::empty();
    if i < tokens.len() {
        let t = tokens[i as int];
        if is_import(t) {
        } else if t.kind == TokenType::Block && i == 0 {
            if depth > 0 {
                law_pass_that_asks_nothing_ignores_modules(
                    t.children,
                    0,
                    want,
                    vars,
                    modules,
                    replies,
                    used,
                    (depth - 1) as nat,
                );
            }
        } else if t.kind == TokenType::Block && tokens[i as int - 1].kind
            == TokenType::Parenthetical && want {
        } else if t.kind == TokenType::String && tokens.len() == 1 && want {
        } else if t.kind == TokenType::Number && tokens.len() == 1 && want {
        } else if t.kind == TokenType::UserVar && i + 1 < tokens.len() && tokens[i as int + 1].kind
            == TokenType::Parenthetical {
            if vars.contains_key(t.text) {
                if vars[t.text].datatype == Datatype::Func && depth > 0 {
                    law_pass_that_asks_nothing_ignores_modules(
                        vars[t.text].value.children,
                        0,
                        want,
                        vars,
                        modules,
                        replies,
                        used,
                        (depth - 1) as nat,
                    );
                }
            } else if depth > 0 {
                assert(resolution(t.text, none, 0, silent, 0) == Resolution::Unbound { used: 0 });
                assert(native_run(
                    t.text,
                    tokens[i as int + 1].children,
                    vars,
                    none,
                    silent,
                    0,
                    (depth - 1) as nat,
                ) == fail(ErrorKind::UnboundIdentifier, t.text, vars, none, 0));
            }
        } else if t.kind == TokenType::UserVar && i + 2 < tokens.len() && is_assign(
            tokens[i as int + 1],
        ) && assigned(tokens[i as int + 2]) is Some {
            law_pass_that_asks_nothing_ignores_modules(
                tokens,
                i + 3,
                want,
                vars.insert(t.text, assigned(tokens[i as int + 2]).unwrap()),
                modules,
                replies,
                used,
                depth,
            );
        } else {
            law_pass_that_asks_nothing_ignores_modules(
                tokens,
                i + 1,
                want,
                vars,
                modules,
                replies,
                used,
                depth,
            );
        }
    }
}

} // verus!
