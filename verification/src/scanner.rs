//! The scanner: from a flat sequence of characters to a nested sequence of
//! tokens.

use vstd::prelude::*;
use crate::esotypes::{all_well_formed, view_seq, Operator, Token, TokenType, TokenView};
use crate::evaluator::{ErrorKind, EvalError};
use crate::lexicon::{continues_name, continues_number, starts_name, starts_number, Lexicon};
use crate::text::{charvec_to_string, string_to_charvec, substr, window};

verus! {

/// How many items at the front of `s` stand before the first one that
/// `stop` holds of: all of them, if it holds of none.
pub open spec fn run_length<T>(s: Seq<T>, stop: spec_fn(T) -> bool) -> nat
    decreases s.len(),
{
    if s.len() == 0 || stop(s[0]) {
        0
    } else {
        1 + run_length(s.skip(1), stop)
    }
}

/// What is left of `s` behind its first `n` items: nothing, if it has no
/// more than `n`.
pub open spec fn after<T>(s: Seq<T>, n: int) -> Seq<T> {
    if 0 <= n <= s.len() {
        s.skip(n)
    } else {
        Seq::empty()
    }
}

/// The test that holds of the character `c` and of no other.
pub open spec fn is_char(c: char) -> spec_fn(char) -> bool {
    |x: char| x == c
}

/// The test that holds of the characters that end a name.
pub open spec fn ends_name() -> spec_fn(char) -> bool {
    |x: char| !continues_name(x)
}

/// The test that holds of the characters that end a number.
pub open spec fn ends_number() -> spec_fn(char) -> bool {
    |x: char| !continues_number(x)
}

/// A token that holds text and no children.
pub open spec fn leaf(kind: TokenType, text: Seq<char>) -> TokenView {
    TokenView { kind, text, children: Seq::empty(), has_text: true, has_children: false }
}

/// A token that holds children and no text.
pub open spec fn group(kind: TokenType, children: Seq<TokenView>) -> TokenView {
    TokenView { kind, text: Seq::empty(), children, has_text: false, has_children: true }
}

/// The tokens of a source text.
///
/// An opening bracket takes everything up to the first closing bracket of
/// its own sort, or up to the end where there is none, and holds the tokens
/// of that text as its children; brackets are not counted while that closing
/// bracket is looked for. A double quote takes everything up to the next one
/// as the text of a string. A name runs on while letters, digits other than
/// zero and underscores follow, a number while digits other than zero follow.
/// An operator is one character. Every other character is passed over.
pub open spec fn scan(s: Seq<char>) -> Seq<TokenView>
    decreases s.len(),
{
    if s.len() == 0 {
        Seq::empty()
    } else {
        let c = s[0];
        let rest = s.skip(1);
        if c == '(' {
            let n = run_length(rest, is_char(')')) as int;
            proof {
                lemma_run_length(rest, is_char(')'));
            }
            seq![group(TokenType::Parenthetical, scan(rest.take(n)))] + scan(after(rest, n + 1))
        } else if c == '"' {
            let n = run_length(rest, is_char('"')) as int;
            seq![leaf(TokenType::String, rest.take(n))] + scan(after(rest, n + 1))
        } else if starts_name(c) {
            let n = run_length(rest, ends_name()) as int;
            seq![leaf(TokenType::UserVar, s.take(n + 1))] + scan(after(rest, n))
        } else if starts_number(c) {
            let n = run_length(rest, ends_number()) as int;
            seq![leaf(TokenType::Number, s.take(n + 1))] + scan(after(rest, n))
        } else if c == '{' {
            let n = run_length(rest, is_char('}')) as int;
            proof {
                lemma_run_length(rest, is_char('}'));
            }
            seq![group(TokenType::Block, scan(rest.take(n)))] + scan(after(rest, n + 1))
        } else if Operator::of_symbol(c) is Some {
            seq![leaf(TokenType::Operator, seq![c])] + scan(rest)
        } else {
            scan(rest)
        }
    }
}

/// A run is no longer than the sequence it is taken from, `stop` holds of
/// none of its items, and it holds of the item behind the run where there is
/// one.
pub proof fn lemma_run_length<T>(s: Seq<T>, stop: spec_fn(T) -> bool)
    ensures
        run_length(s, stop) <= s.len(),
        forall|k: int| 0 <= k < run_length(s, stop) ==> !stop(#[trigger] s[k]),
        run_length(s, stop) < s.len() ==> stop(s[run_length(s, stop) as int]),
    decreases s.len(),
{
    if s.len() == 0 || stop(s[0]) {
    } else {
        let t = s.skip(1);
        lemma_run_length(t, stop);
        assert forall|k: int| 0 <= k < run_length(s, stop) implies !stop(#[trigger] s[k]) by {
            if k > 0 {
                assert(s[k] == t[k - 1]);
            }
        }
        assert(run_length(s, stop) < s.len() ==> s[run_length(s, stop) as int] == t[run_length(
            t,
            stop,
        ) as int]);
    }
}

/// The run at the front of `s` has `n` items if `stop` holds of none of the
/// first `n` and either holds of the next one or there is no next one.
pub proof fn lemma_run_length_is<T>(s: Seq<T>, stop: spec_fn(T) -> bool, n: nat)
    requires
        n <= s.len(),
        forall|k: int| 0 <= k < n ==> !stop(#[trigger] s[k]),
        n < s.len() ==> stop(s[n as int]),
    ensures
        run_length(s, stop) == n,
    decreases n,
{
    if n == 0 {
    } else {
        let t = s.skip(1);
        assert forall|k: int| 0 <= k < n - 1 implies !stop(#[trigger] t[k]) by {
            assert(t[k] == s[k + 1]);
        }
        assert(!stop(s[0]));
        lemma_run_length_is(t, stop, (n - 1) as nat);
    }
}

/// Whether `span` is the run of `chars` that starts at `start` and ends
/// before the first item that `find` accepts: `find` turned down every item
/// of the run and accepted the one behind it, where there is one.
pub open spec fn is_span<F: Fn(&char) -> bool>(
    chars: Seq<char>,
    start: int,
    find: F,
    span: Seq<char>,
) -> bool {
    &&& span == window(chars, start, span.len() as int)
    &&& start <= chars.len() ==> start + span.len() <= chars.len()
    &&& start > chars.len() ==> span.len() == 0
    &&& forall|k: int| 0 <= k < span.len() ==> call_ensures(find, (&#[trigger] span[k],), false)
    &&& start + span.len() < chars.len() ==> call_ensures(
        find,
        (&chars[start + span.len()],),
        true,
    )
}

/// Takes the run of characters that starts at `*i` and ends before the first
/// character that `find` accepts, or at the end where it accepts none. The
/// cursor `*i` moves on by the length of the run where `find` accepted a
/// character, and by the length of all of `chars` where it accepted none.
pub fn tokenize_substr<F: Fn(&char) -> bool>(chars: &Vec<char>, i: &mut usize, find: F) -> (span:
    Vec<char>)
    requires
        forall|x: char| call_requires(find, (&x,)),
        *old(i) + chars.len() <= usize::MAX,
    ensures
        is_span(chars@, *old(i) as int, find, span@),
        *final(i) == *old(i) + (if *old(i) + span.len() < chars.len() {
            span.len()
        } else {
            chars.len()
        }),
{
    let start = *i;
    let mut j = start;
    let mut found = false;
    while j < chars.len() && !found
        invariant
            start <= j,
            start < chars.len() ==> j <= chars.len(),
            forall|x: char| call_requires(find, (&x,)),
            forall|k: int| start <= k < j ==> call_ensures(find, (&#[trigger] chars[k],), false),
            found ==> j < chars.len() && call_ensures(find, (&chars[j as int],), true),
        decreases chars.len() - j + (if found { 0int } else { 1int }),
    {
        if find(&chars[j]) {
            found = true;
        } else {
            j += 1;
        }
    }
    let dis = if found { j - start } else { chars.len() };
    let fin = string_to_charvec(&substr(&charvec_to_string(chars), start, dis));
    *i = start + dis;
    proof {
        assert(fin@ == window(chars@, start as int, dis as int));
        assert(fin@ =~= window(chars@, start as int, fin@.len() as int));
        assert forall|k: int| 0 <= k < fin.len() implies call_ensures(
            find,
            (&#[trigger] fin@[k],),
            false,
        ) by {
            assert(fin@[k] == chars@[start + k]);
        }
    }
    fin
}

/// What `tokenize_substr` took is the run that `run_length` measures, where
/// `find` answers as `stop` does.
proof fn lemma_span_is_run<F: Fn(&char) -> bool>(
    chars: Seq<char>,
    start: int,
    find: F,
    span: Seq<char>,
    stop: spec_fn(char) -> bool,
)
    requires
        0 <= start <= chars.len(),
        is_span(chars, start, find, span),
        forall|x: char, b: bool| call_ensures(find, (&x,), b) ==> b == stop(x),
    ensures
        span.len() == run_length(chars.skip(start), stop),
        span == chars.skip(start).take(span.len() as int),
{
    let t = chars.skip(start);
    let n = span.len();
    assert(span =~= t.take(n as int));
    assert forall|k: int| 0 <= k < n implies !stop(#[trigger] t[k]) by {
        assert(t[k] == span[k]);
        assert(call_ensures(find, (&span[k],), false));
    }
    if n < t.len() {
        assert(t[n as int] == chars[start + n]);
    }
    lemma_run_length_is(t, stop, n);
}

/// The character that closes what `open` opens.
pub open spec fn closer(open: char) -> char {
    if open == '(' {
        ')'
    } else {
        '}'
    }
}

/// The kind of group that `open` opens.
pub open spec fn group_kind(open: char) -> TokenType {
    if open == '(' {
        TokenType::Parenthetical
    } else {
        TokenType::Block
    }
}

/// A text that starts with an opening bracket scans to a group and the
/// tokens of what stands behind the closing bracket.
pub proof fn lemma_scan_group(s: Seq<char>)
    requires
        s.len() > 0,
        s[0] == '(' || s[0] == '{',
    ensures
        scan(s) == seq![
            group(
                group_kind(s[0]),
                scan(s.skip(1).take(run_length(s.skip(1), is_char(closer(s[0]))) as int)),
            ),
        ] + scan(after(s.skip(1), run_length(s.skip(1), is_char(closer(s[0]))) as int + 1)),
{
}

/// A text that starts with a double quote scans to a string and the tokens
/// of what stands behind the closing quote.
pub proof fn lemma_scan_string(s: Seq<char>)
    requires
        s.len() > 0,
        s[0] == '"',
    ensures
        scan(s) == seq![
            leaf(TokenType::String, s.skip(1).take(run_length(s.skip(1), is_char('"')) as int)),
        ] + scan(after(s.skip(1), run_length(s.skip(1), is_char('"')) as int + 1)),
{
}

/// A text that starts with the first character of a name scans to the name
/// and the tokens of what stands behind it.
pub proof fn lemma_scan_name(s: Seq<char>)
    requires
        s.len() > 0,
        starts_name(s[0]),
    ensures
        scan(s) == seq![leaf(TokenType::UserVar, s.take(run_length(s, ends_name()) as int))] + scan(
            after(s, run_length(s, ends_name()) as int),
        ),
        run_length(s, ends_name()) >= 1,
{
    lemma_run_length(s.skip(1), ends_name());
    let n = run_length(s.skip(1), ends_name()) as int;
    assert(!ends_name()(s[0]));
    assert(run_length(s, ends_name()) == n + 1);
    assert(after(s.skip(1), n) =~= after(s, n + 1));
}

/// A text that starts with the first digit of a number scans to the number
/// and the tokens of what stands behind it.
pub proof fn lemma_scan_number(s: Seq<char>)
    requires
        s.len() > 0,
        starts_number(s[0]),
    ensures
        scan(s) == seq![leaf(TokenType::Number, s.take(run_length(s, ends_number()) as int))]
            + scan(after(s, run_length(s, ends_number()) as int)),
        run_length(s, ends_number()) >= 1,
{
    lemma_run_length(s.skip(1), ends_number());
    let n = run_length(s.skip(1), ends_number()) as int;
    assert(!ends_number()(s[0]));
    assert(run_length(s, ends_number()) == n + 1);
    assert(after(s.skip(1), n) =~= after(s, n + 1));
}

/// A text that starts with any other character scans to an operator, if the
/// character stands for one, and the tokens of what stands behind it.
pub proof fn lemma_scan_other(s: Seq<char>)
    requires
        s.len() > 0,
        s[0] != '(' && s[0] != '{' && s[0] != '"',
        !starts_name(s[0]),
        !starts_number(s[0]),
    ensures
        scan(s) == (if Operator::of_symbol(s[0]) is Some {
            seq![leaf(TokenType::Operator, seq![s[0]])] + scan(s.skip(1))
        } else {
            scan(s.skip(1))
        }),
{
}

/// What is left behind `a + b` items is what is left behind `b` items of
/// what is left behind `a`.
pub proof fn lemma_after_after<T>(s: Seq<T>, a: int, b: int)
    requires
        0 <= a,
        0 <= b,
    ensures
        after(after(s, a), b) == after(s, a + b),
{
    assert(after(after(s, a), b) =~= after(s, a + b));
}

/// One step of the scanner: with `token` scanned from the text behind
/// `from`, the tokens of the whole text are those found so far, `token`, and
/// the tokens of the text behind `to`.
proof fn lemma_step(
    chars: Seq<char>,
    found: Seq<Token>,
    token: Token,
    from: int,
    to: int,
)
    requires
        scan(chars) == view_seq(found) + scan(after(chars, from)),
        scan(after(chars, from)) == seq![token@] + scan(after(chars, to)),
    ensures
        scan(chars) == view_seq(found.push(token)) + scan(after(chars, to)),
{
    let tail = scan(after(chars, to));
    assert(view_seq(found.push(token)) =~= view_seq(found).push(token@));
    assert(view_seq(found) + (seq![token@] + tail) =~= view_seq(found).push(token@) + tail);
}

/// The string that holds the one character `c`.
fn char_to_string(c: char) -> (text: String)
    ensures
        text@ == seq![c],
{
    let mut text = String::new();
    text.push(c);
    assert(text@ =~= seq![c]);
    text
}

/// Takes the text of a group or a string: what stands behind the opening
/// character at `*i` up to the first `close`. The cursor moves behind that
/// `close`, or beyond the end where there is none.
fn take_enclosed(chars: &Vec<char>, i: &mut usize, close: char) -> (span: Vec<char>)
    requires
        *old(i) < chars.len(),
        2 * chars.len() + 1 <= usize::MAX,
    ensures
        span@ == after(chars@, *old(i) + 1).take(
            run_length(after(chars@, *old(i) + 1), is_char(close)) as int,
        ),
        span.len() == run_length(after(chars@, *old(i) + 1), is_char(close)),
        span.len() < chars.len(),
        *final(i) <= 2 * chars.len() + 1,
        *final(i) > *old(i),
        after(chars@, *final(i) as int) == after(
            after(chars@, *old(i) + 1),
            span.len() + 1,
        ),
{
    let ghost start = *i as int;
    *i += 1;
    let closes = |x: &char| -> (b: bool)
        ensures
            b == (*x == close),
        { *x == close };
    let span = tokenize_substr(chars, i, closes);
    *i += 1;
    proof {
        lemma_span_is_run(chars@, start + 1, closes, span@, is_char(close));
        assert(after(chars@, start + 1) =~= chars@.skip(start + 1));
        lemma_after_after(chars@, start + 1, span.len() + 1);
        if start + 1 + span.len() >= chars.len() {
            assert(after(chars@, *i as int) =~= after(chars@, start + 1 + span.len() + 1));
        }
    }
    span
}

/// Takes the text of a name or a number: what stands at `*i` up to the
/// first character that ends it. The cursor moves to that character, or
/// beyond the end where there is none.
fn take_word(chars: &Vec<char>, i: &mut usize, lexicon: &Lexicon, name: bool) -> (span: Vec<char>)
    requires
        *old(i) < chars.len(),
        2 * chars.len() + 1 <= usize::MAX,
        if name {
            starts_name(chars[*old(i) as int])
        } else {
            starts_number(chars[*old(i) as int])
        },
    ensures
        span@ == after(chars@, *old(i) as int).take(span.len() as int),
        span.len() == run_length(
            after(chars@, *old(i) as int),
            if name {
                ends_name()
            } else {
                ends_number()
            },
        ),
        span.len() >= 1,
        *final(i) <= 2 * chars.len() + 1,
        *final(i) > *old(i),
        after(chars@, *final(i) as int) == after(after(chars@, *old(i) as int), span.len() as int),
{
    let ghost start = *i as int;
    let ghost s = after(chars@, start);
    assert(s =~= chars@.skip(start));
    assert(s[0] == chars[start]);
    let span = if name {
        let ends = |x: &char| -> (b: bool)
            ensures
                b == !continues_name(*x),
            { lexicon.is_name_end(*x) };
        let span = tokenize_substr(chars, i, ends);
        proof {
            lemma_span_is_run(chars@, start, ends, span@, ends_name());
            lemma_scan_name(s);
        }
        span
    } else {
        let ends = |x: &char| -> (b: bool)
            ensures
                b == !continues_number(*x),
            { lexicon.is_number_end(*x) };
        let span = tokenize_substr(chars, i, ends);
        proof {
            lemma_span_is_run(chars@, start, ends, span@, ends_number());
            lemma_scan_number(s);
        }
        span
    };
    proof {
        lemma_after_after(chars@, start, span.len() as int);
        if start + span.len() >= chars.len() {
            assert(after(chars@, *i as int) =~= after(chars@, start + span.len()));
        }
    }
    span
}

/// Scans `chars` into tokens, with the character classes of `lexicon`.
pub fn tokenize(chars: &Vec<char>, lexicon: &Lexicon) -> (tokens: Vec<Token>)
    requires
        2 * chars.len() + 1 <= usize::MAX,
    ensures
        view_seq(tokens@) == scan(chars@),
        all_well_formed(tokens@),
    decreases chars.len(),
{
    let mut i: usize = 0;
    let mut token_stack: Vec<Token> = Vec::new();
    proof {
        assert(view_seq(token_stack@) =~= Seq::empty());
        assert(after(chars@, 0) =~= chars@);
        assert(view_seq(token_stack@) + scan(chars@) =~= scan(chars@));
    }
    while i < chars.len()
        invariant
            2 * chars.len() + 1 <= usize::MAX,
            i <= 2 * chars.len() + 1,
            scan(chars@) == view_seq(token_stack@) + scan(after(chars@, i as int)),
            all_well_formed(token_stack@),
        decreases (if i < chars.len() { chars.len() - i } else { 0 }),
    {
        let letter = chars[i];
        let ghost start = i as int;
        let ghost s = after(chars@, start);
        let ghost found = token_stack@;
        proof {
            assert(s =~= chars@.skip(start));
            assert(s[0] == letter);
            assert(s.skip(1) =~= after(chars@, start + 1));
        }
        if letter == '(' || letter == '{' {
            let span = take_enclosed(chars, &mut i, if letter == '(' { ')' } else { '}' });
            let inner = tokenize(&span, lexicon);
            let kind = if letter == '(' { TokenType::Parenthetical } else { TokenType::Block };
            let token = Token::new_nested(kind, inner);
            proof {
                lemma_scan_group(s);
                lemma_step(chars@, found, token, start, i as int);
            }
            token_stack.push(token);
        } else if letter == '"' {
            let span = take_enclosed(chars, &mut i, '"');
            let token = Token::new_value(TokenType::String, charvec_to_string(&span));
            proof {
                lemma_scan_string(s);
                lemma_step(chars@, found, token, start, i as int);
            }
            token_stack.push(token);
        } else if lexicon.is_name_start(letter) {
            let span = take_word(chars, &mut i, lexicon, true);
            let token = Token::new_value(TokenType::UserVar, charvec_to_string(&span));
            proof {
                lemma_scan_name(s);
                lemma_step(chars@, found, token, start, i as int);
            }
            token_stack.push(token);
        } else if lexicon.is_number_start(letter) {
            let span = take_word(chars, &mut i, lexicon, false);
            let token = Token::new_value(TokenType::Number, charvec_to_string(&span));
            proof {
                lemma_scan_number(s);
                lemma_step(chars@, found, token, start, i as int);
            }
            token_stack.push(token);
        } else if Operator::get_value(&letter).is_some() {
            let token = Token::new_value(TokenType::Operator, char_to_string(letter));
            i += 1;
            proof {
                lemma_scan_other(s);
                lemma_step(chars@, found, token, start, i as int);
            }
            token_stack.push(token);
        } else {
            i += 1;
            proof {
                lemma_scan_other(s);
            }
        }
    }
    proof {
        assert(after(chars@, i as int) =~= Seq::empty());
        assert(view_seq(token_stack@) + Seq::<TokenView>::empty() =~= view_seq(token_stack@));
    }
    token_stack
}

/// The character that ends what the bracket or quote `open` starts.
pub open spec fn terminator(open: char) -> char {
    if open == '"' {
        '"'
    } else {
        closer(open)
    }
}

/// The first opening bracket or quote, in the order in which the scanner
/// meets them, that nothing closes before the end of its text; none, if
/// every one of them is closed.
pub open spec fn unterminated(s: Seq<char>) -> Option<char>
    decreases s.len(),
{
    if s.len() == 0 {
        None
    } else {
        let c = s[0];
        let rest = s.skip(1);
        if c == '(' || c == '{' || c == '"' {
            let n = run_length(rest, is_char(terminator(c))) as int;
            proof {
                lemma_run_length(rest, is_char(terminator(c)));
            }
            if n >= rest.len() {
                Some(c)
            } else if c != '"' && unterminated(rest.take(n)) is Some {
                unterminated(rest.take(n))
            } else {
                unterminated(after(rest, n + 1))
            }
        } else {
            unterminated(rest)
        }
    }
}

/// Looks for an opening bracket or quote that nothing closes, which the
/// scanner would take to reach to the end of its text. The failure holds
/// the first such character.
pub fn ensure_terminated(chars: &Vec<char>) -> (r: Result<(), EvalError>)
    requires
        2 * chars.len() + 1 <= usize::MAX,
    ensures
        match r {
            Ok(_) => unterminated(chars@) is None,
            Err(e) => e@.kind == ErrorKind::UnterminatedDelimiter && unterminated(chars@) is Some
                && e@.token == seq![unterminated(chars@).unwrap()],
        },
    decreases chars.len(),
{
    let mut i: usize = 0;
    proof {
        assert(after(chars@, 0) =~= chars@);
    }
    while i < chars.len()
        invariant
            2 * chars.len() + 1 <= usize::MAX,
            i <= 2 * chars.len() + 1,
            unterminated(chars@) == unterminated(after(chars@, i as int)),
        decreases (if i < chars.len() { chars.len() - i } else { 0 }),
    {
        let letter = chars[i];
        let ghost start = i as int;
        let ghost s = after(chars@, start);
        proof {
            assert(s =~= chars@.skip(start));
            assert(s[0] == letter);
            assert(s.skip(1) =~= after(chars@, start + 1));
        }
        if letter == '(' || letter == '{' || letter == '"' {
            let close = if letter == '(' { ')' } else if letter == '{' { '}' } else { '"' };
            let from = i;
            let span = take_enclosed(chars, &mut i, close);
            if span.len() >= chars.len() - from - 1 {
                return Err(
                    EvalError {
                        kind: ErrorKind::UnterminatedDelimiter,
                        token: char_to_string(letter),
                    },
                );
            }
            if letter != '"' {
                match ensure_terminated(&span) {
                    Err(e) => {
                        return Err(e);
                    },
                    Ok(_) => {},
                }
            }
        } else {
            i += 1;
            proof {
                assert(after(chars@, i as int) =~= s.skip(1));
            }
        }
    }
    proof {
        assert(after(chars@, i as int) =~= Seq::empty());
    }
    Ok(())
}

} // verus!
