//! What the scanner keeps of a source text: the nesting of its brackets and
//! the order of its words.
//!
//! The scanner pairs an opening bracket with the first closing bracket of
//! its sort that follows. It keeps the nesting of the texts in which that
//! pairing leaves no bracket alone, and the words of the texts in which that
//! pairing cuts no string in two.

use vstd::prelude::*;
use crate::esotypes::{Operator, TokenType, TokenView};
use crate::lexicon::{continues_name, continues_number, starts_name, starts_number};
use crate::scanner::{
    after, closer, ends_name, ends_number, group, group_kind, is_char, leaf, lemma_run_length,
    lemma_run_length_is, lemma_scan_group, lemma_scan_name, lemma_scan_number, lemma_scan_other,
    lemma_scan_string, run_length, scan, unterminated,
};

verus! {

/// An opening bracket.
pub open spec fn opens(c: char) -> bool {
    c == '(' || c == '{'
}

/// A closing bracket.
pub open spec fn closes(c: char) -> bool {
    c == ')' || c == '}'
}

/// A character that is neither a bracket nor a double quote.
pub open spec fn plain(c: char) -> bool {
    !opens(c) && !closes(c) && c != '"'
}

/// Whether no bracket stands in `s`.
pub open spec fn bracket_free(s: Seq<char>) -> bool {
    forall|i: int| 0 <= i < s.len() ==> !opens(#[trigger] s[i]) && !closes(s[i])
}

/// Whether the brackets and quotes of `s` are paired as the scanner pairs
/// them: every opening bracket is followed by a closing bracket of its sort,
/// and what stands between it and the first of them is paired in itself;
/// every string is closed and holds no bracket; and no closing bracket
/// stands alone.
pub open spec fn paired(s: Seq<char>) -> bool
    decreases s.len(),
{
    if s.len() == 0 {
        true
    } else {
        let c = s[0];
        let rest = s.skip(1);
        if opens(c) {
            let n = run_length(rest, is_char(closer(c))) as int;
            proof {
                lemma_run_length(rest, is_char(closer(c)));
            }
            n < rest.len() && paired(rest.take(n)) && paired(after(rest, n + 1))
        } else if c == '"' {
            let n = run_length(rest, is_char('"')) as int;
            n < rest.len() && bracket_free(rest.take(n)) && paired(after(rest, n + 1))
        } else if closes(c) {
            false
        } else {
            paired(rest)
        }
    }
}

/// The larger of two numbers.
pub open spec fn larger(a: int, b: int) -> int {
    if a >= b {
        a
    } else {
        b
    }
}

/// The highest level that the brackets of `s` reach, where the text starts
/// at `level`, an opening bracket leads one level up and a closing bracket
/// one level down.
pub open spec fn peak(s: Seq<char>, level: int) -> int
    decreases s.len(),
{
    if s.len() == 0 {
        level
    } else if opens(s[0]) {
        larger(level, peak(s.skip(1), level + 1))
    } else if closes(s[0]) {
        larger(level, peak(s.skip(1), level - 1))
    } else {
        peak(s.skip(1), level)
    }
}

/// How deep the brackets of a text nest.
pub open spec fn bracket_depth(s: Seq<char>) -> int {
    peak(s, 0)
}

/// How deep the groups of a token tree nest.
pub open spec fn tree_depth(tokens: Seq<TokenView>) -> int
    decreases tokens,
{
    if tokens.len() == 0 {
        0
    } else {
        let first = if tokens[0].kind.is_group() {
            1 + tree_depth(tokens[0].children)
        } else {
            0
        };
        larger(first, tree_depth(tokens.skip(1)))
    }
}

/// The tokens of text of a token tree, in their order.
pub open spec fn leaves(tokens: Seq<TokenView>) -> Seq<TokenView>
    decreases tokens,
{
    if tokens.len() == 0 {
        Seq::empty()
    } else {
        let first = if tokens[0].kind.is_group() {
            leaves(tokens[0].children)
        } else {
            seq![tokens[0]]
        };
        first + leaves(tokens.skip(1))
    }
}

/// The words of a text: its strings, names, numbers and operators in their
/// order, with the brackets passed over like every other character.
pub open spec fn lexemes(s: Seq<char>) -> Seq<TokenView>
    decreases s.len(),
{
    if s.len() == 0 {
        Seq::empty()
    } else {
        let c = s[0];
        let rest = s.skip(1);
        if c == '"' {
            let n = run_length(rest, is_char('"')) as int;
            seq![leaf(TokenType::String, rest.take(n))] + lexemes(after(rest, n + 1))
        } else if starts_name(c) {
            let n = run_length(s, ends_name()) as int;
            proof {
                lemma_scan_name(s);
            }
            seq![leaf(TokenType::UserVar, s.take(n))] + lexemes(after(s, n))
        } else if starts_number(c) {
            let n = run_length(s, ends_number()) as int;
            proof {
                lemma_scan_number(s);
            }
            seq![leaf(TokenType::Number, s.take(n))] + lexemes(after(s, n))
        } else if Operator::of_symbol(c) is Some {
            seq![leaf(TokenType::Operator, seq![c])] + lexemes(rest)
        } else {
            lexemes(rest)
        }
    }
}

/// The net rise of the level over a text.
pub open spec fn rise(s: Seq<char>) -> int
    decreases s.len(),
{
    if s.len() == 0 {
        0
    } else if opens(s[0]) {
        rise(s.skip(1)) + 1
    } else if closes(s[0]) {
        rise(s.skip(1)) - 1
    } else {
        rise(s.skip(1))
    }
}

/// The peak lies at or above the level at the start, and starting higher
/// lifts it by as much.
proof fn lemma_peak_shift(s: Seq<char>, level: int, by: int)
    ensures
        peak(s, level) >= level,
        peak(s, level + by) == peak(s, level) + by,
    decreases s.len(),
{
    if s.len() > 0 {
        lemma_peak_shift(s.skip(1), level, by);
        lemma_peak_shift(s.skip(1), level + 1, by);
        lemma_peak_shift(s.skip(1), level - 1, by);
    }
}

/// The peak and the rise of two texts joined.
proof fn lemma_peak_join(a: Seq<char>, b: Seq<char>, level: int)
    ensures
        peak(a + b, level) == larger(peak(a, level), peak(b, level + rise(a))),
        rise(a + b) == rise(a) + rise(b),
    decreases a.len(),
{
    lemma_peak_shift(b, level, 0);
    if a.len() == 0 {
        assert(a + b =~= b);
    } else {
        assert((a + b).skip(1) =~= a.skip(1) + b);
        assert((a + b)[0] == a[0]);
        lemma_peak_join(a.skip(1), b, level);
        lemma_peak_join(a.skip(1), b, level + 1);
        lemma_peak_join(a.skip(1), b, level - 1);
        lemma_peak_shift(a.skip(1), level + 1, 0);
        lemma_peak_shift(a.skip(1), level - 1, 0);
        lemma_peak_shift(b, level + rise(a), 0);
    }
}

/// A text without brackets stays on its level.
proof fn lemma_peak_flat(s: Seq<char>, level: int)
    requires
        bracket_free(s),
    ensures
        peak(s, level) == level,
        rise(s) == 0,
    decreases s.len(),
{
    if s.len() > 0 {
        assert(!opens(s[0]) && !closes(s[0]));
        assert forall|i: int| 0 <= i < s.skip(1).len() implies !opens(#[trigger] s.skip(1)[i])
            && !closes(s.skip(1)[i]) by {
            assert(s.skip(1)[i] == s[i + 1]);
        }
        lemma_peak_flat(s.skip(1), level);
    }
}

/// Whether every string of `s` is closed.
pub open spec fn strings_closed(s: Seq<char>) -> bool
    decreases s.len(),
{
    if s.len() == 0 {
        true
    } else if s[0] == '"' {
        let n = run_length(s.skip(1), is_char('"')) as int;
        n < s.skip(1).len() && strings_closed(after(s.skip(1), n + 1))
    } else {
        strings_closed(s.skip(1))
    }
}

/// Whether the scanner leaves every string whole: where it ends a group at
/// a closing bracket, every string inside the group is closed before that
/// bracket, so that the bracket does not stand inside a string.
pub open spec fn strings_stay_whole(s: Seq<char>) -> bool
    decreases s.len(),
{
    if s.len() == 0 {
        true
    } else {
        let c = s[0];
        let rest = s.skip(1);
        if opens(c) {
            let n = run_length(rest, is_char(closer(c))) as int;
            proof {
                lemma_run_length(rest, is_char(closer(c)));
            }
            strings_stay_whole(rest.take(n)) && (n < rest.len() ==> strings_closed(rest.take(n))
                && strings_stay_whole(after(rest, n + 1)))
        } else if c == '"' {
            let n = run_length(rest, is_char('"')) as int;
            strings_stay_whole(after(rest, n + 1))
        } else if starts_name(c) {
            proof {
                lemma_scan_name(s);
            }
            strings_stay_whole(after(s, run_length(s, ends_name()) as int))
        } else if starts_number(c) {
            proof {
                lemma_scan_number(s);
            }
            strings_stay_whole(after(s, run_length(s, ends_number()) as int))
        } else {
            strings_stay_whole(rest)
        }
    }
}

/// Plain characters at the front of a text change nothing about the
/// pairing, the level or the strings of what follows them.
proof fn lemma_plain_front(s: Seq<char>, k: int)
    requires
        0 <= k <= s.len(),
        forall|i: int| 0 <= i < k ==> plain(#[trigger] s[i]),
    ensures
        paired(s) == paired(after(s, k)),
        strings_closed(s) == strings_closed(after(s, k)),
        forall|level: int| peak(s, level) == #[trigger] peak(after(s, k), level),
    decreases k,
{
    if k == 0 {
        assert(after(s, 0) =~= s);
    } else {
        assert(plain(s[0]));
        let t = s.skip(1);
        assert forall|i: int| 0 <= i < k - 1 implies plain(#[trigger] t[i]) by {
            assert(t[i] == s[i + 1]);
        }
        lemma_plain_front(t, k - 1);
        assert(after(t, k - 1) =~= after(s, k));
        assert forall|level: int| peak(s, level) == #[trigger] peak(after(s, k), level) by {
            assert(peak(s, level) == peak(t, level));
        }
    }
}

/// The parts of a text that starts with a paired opening bracket: what the
/// bracket encloses, the closing bracket, and what follows.
proof fn lemma_group_parts(s: Seq<char>)
    requires
        s.len() > 0,
        opens(s[0]),
        paired(s),
    ensures
        ({
            let rest = s.skip(1);
            let n = run_length(rest, is_char(closer(s[0]))) as int;
            &&& 0 <= n < rest.len()
            &&& rest[n] == closer(s[0])
            &&& paired(rest.take(n))
            &&& paired(after(rest, n + 1))
            &&& after(rest, n + 1) == rest.skip(n + 1)
            &&& rest == rest.take(n) + (seq![closer(s[0])] + rest.skip(n + 1))
            &&& rest.take(n).len() < s.len()
            &&& rest.skip(n + 1).len() < s.len()
        }),
{
    let rest = s.skip(1);
    let n = run_length(rest, is_char(closer(s[0]))) as int;
    lemma_run_length(rest, is_char(closer(s[0])));
    assert(rest =~= rest.take(n) + (seq![closer(s[0])] + rest.skip(n + 1)));
}

/// The parts of a text that starts with a paired string.
proof fn lemma_string_parts(s: Seq<char>)
    requires
        s.len() > 0,
        s[0] == '"',
        paired(s),
    ensures
        ({
            let rest = s.skip(1);
            let n = run_length(rest, is_char('"')) as int;
            &&& 0 <= n < rest.len()
            &&& paired(after(rest, n + 1))
            &&& after(rest, n + 1).len() < s.len()
            &&& bracket_free(s.take(n + 2))
            &&& after(rest, n + 1) == after(s, n + 2)
            &&& s == s.take(n + 2) + after(s, n + 2)
        }),
{
    let rest = s.skip(1);
    let n = run_length(rest, is_char('"')) as int;
    lemma_run_length(rest, is_char('"'));
    let front = s.take(n + 2);
    assert forall|i: int| 0 <= i < front.len() implies !opens(#[trigger] front[i]) && !closes(
        front[i],
    ) by {
        if i == 0 {
        } else if i == n + 1 {
            assert(front[i] == rest[n]);
        } else {
            assert(front[i] == rest.take(n)[i - 1]);
        }
    }
    assert(after(rest, n + 1) =~= after(s, n + 2));
    assert(s =~= s.take(n + 2) + after(s, n + 2));
}

/// The level at the end of a paired text is the level at its start.
proof fn lemma_paired_rise(s: Seq<char>)
    requires
        paired(s),
    ensures
        rise(s) == 0,
    decreases s.len(),
{
    if s.len() == 0 {
    } else if opens(s[0]) {
        lemma_group_parts(s);
        let rest = s.skip(1);
        let n = run_length(rest, is_char(closer(s[0]))) as int;
        let inner = rest.take(n);
        let behind = seq![closer(s[0])] + rest.skip(n + 1);
        lemma_paired_rise(inner);
        lemma_paired_rise(rest.skip(n + 1));
        lemma_peak_join(inner, behind, 0);
        assert(behind.skip(1) =~= rest.skip(n + 1));
        assert(behind[0] == closer(s[0]));
    } else if s[0] == '"' {
        lemma_string_parts(s);
        let n = run_length(s.skip(1), is_char('"')) as int;
        lemma_paired_rise(after(s, n + 2));
        lemma_peak_join(s.take(n + 2), after(s, n + 2), 0);
        lemma_peak_flat(s.take(n + 2), 0);
    } else {
        lemma_paired_rise(s.skip(1));
    }
}

/// The depth and the leaves of a token tree with one more token in front.
proof fn lemma_front_token(token: TokenView, tokens: Seq<TokenView>)
    ensures
        tree_depth(seq![token] + tokens) == larger(
            if token.kind.is_group() {
                1 + tree_depth(token.children)
            } else {
                0
            },
            tree_depth(tokens),
        ),
        leaves(seq![token] + tokens) == (if token.kind.is_group() {
            leaves(token.children)
        } else {
            seq![token]
        }) + leaves(tokens),
        tree_depth(tokens) >= 0,
{
    let all = seq![token] + tokens;
    assert(all[0] == token);
    assert(all.skip(1) =~= tokens);
    lemma_tree_depth_floor(tokens);
}

/// No token tree is less than zero levels deep.
proof fn lemma_tree_depth_floor(tokens: Seq<TokenView>)
    ensures
        tree_depth(tokens) >= 0,
    decreases tokens.len(),
{
    if tokens.len() > 0 {
        lemma_tree_depth_floor(tokens.skip(1));
    }
}

/// The characters of a name or a number are plain.
proof fn lemma_word_is_plain(s: Seq<char>, name: bool)
    ensures
        forall|i: int|
            0 <= i < run_length(s, if name { ends_name() } else { ends_number() }) ==> plain(#[trigger] s[i]),
        run_length(s, if name { ends_name() } else { ends_number() }) <= s.len(),
{
    let stop = if name { ends_name() } else { ends_number() };
    lemma_run_length(s, stop);
    assert forall|i: int| 0 <= i < run_length(s, stop) implies plain(#[trigger] s[i]) by {
        assert(!stop(s[i]));
    }
}

/// The scanner keeps the nesting: for a text whose brackets are paired, the
/// groups of the token tree nest as deep as the brackets of the text.
pub proof fn law_nesting_is_kept(s: Seq<char>)
    requires
        paired(s),
    ensures
        tree_depth(scan(s)) == bracket_depth(s),
    decreases s.len(),
{
    if s.len() == 0 {
    } else if opens(s[0]) {
        lemma_group_parts(s);
        lemma_scan_group(s);
        let rest = s.skip(1);
        let n = run_length(rest, is_char(closer(s[0]))) as int;
        let inner = rest.take(n);
        let tail = rest.skip(n + 1);
        let behind = seq![closer(s[0])] + tail;
        law_nesting_is_kept(inner);
        law_nesting_is_kept(tail);
        lemma_front_token(group(group_kind(s[0]), scan(inner)), scan(tail));
        lemma_tree_depth_floor(scan(inner));
        lemma_peak_join(inner, behind, 1);
        lemma_paired_rise(inner);
        lemma_peak_shift(inner, 0, 1);
        lemma_peak_shift(tail, 0, 0);
        assert(behind.skip(1) =~= tail);
        assert(behind[0] == closer(s[0]));
        assert(peak(behind, 1) == larger(1, peak(tail, 0)));
        assert(peak(s, 0) == larger(0, peak(rest, 1)));
    } else if s[0] == '"' {
        lemma_string_parts(s);
        lemma_scan_string(s);
        let rest = s.skip(1);
        let n = run_length(rest, is_char('"')) as int;
        law_nesting_is_kept(after(s, n + 2));
        lemma_front_token(leaf(TokenType::String, rest.take(n)), scan(after(s, n + 2)));
        lemma_peak_join(s.take(n + 2), after(s, n + 2), 0);
        lemma_peak_flat(s.take(n + 2), 0);
    } else if starts_name(s[0]) {
        lemma_scan_name(s);
        let n = run_length(s, ends_name()) as int;
        lemma_word_is_plain(s, true);
        lemma_plain_front(s, n);
        law_nesting_is_kept(after(s, n));
        lemma_front_token(leaf(TokenType::UserVar, s.take(n)), scan(after(s, n)));
    } else if starts_number(s[0]) {
        lemma_scan_number(s);
        let n = run_length(s, ends_number()) as int;
        lemma_word_is_plain(s, false);
        lemma_plain_front(s, n);
        law_nesting_is_kept(after(s, n));
        lemma_front_token(leaf(TokenType::Number, s.take(n)), scan(after(s, n)));
    } else {
        lemma_scan_other(s);
        lemma_plain_front(s, 1);
        assert(after(s, 1) =~= s.skip(1));
        law_nesting_is_kept(s.skip(1));
        lemma_front_token(leaf(TokenType::Operator, seq![s[0]]), scan(s.skip(1)));
    }
}

/// A run at the front of a text is the same with more text behind, where
/// the run ends inside the text or the text behind starts with a character
/// that ends it.
proof fn lemma_run_join<T>(a: Seq<T>, b: Seq<T>, stop: spec_fn(T) -> bool)
    requires
        run_length(a, stop) < a.len() || b.len() == 0 || stop(b[0]),
    ensures
        run_length(a + b, stop) == run_length(a, stop),
{
    let n = run_length(a, stop);
    let all = a + b;
    lemma_run_length(a, stop);
    assert forall|k: int| 0 <= k < n implies !stop(#[trigger] all[k]) by {
        assert(all[k] == a[k]);
    }
    if n < a.len() {
        assert(all[n as int] == a[n as int]);
    } else if b.len() > 0 {
        assert(all[n as int] == b[0]);
    } else {
        assert(all =~= a);
    }
    lemma_run_length_is(all, stop, n);
}

/// Two texts whose strings are closed have their strings closed when
/// joined.
proof fn lemma_strings_join(a: Seq<char>, b: Seq<char>)
    requires
        strings_closed(a),
        strings_closed(b),
    ensures
        strings_closed(a + b),
    decreases a.len(),
{
    let all = a + b;
    if a.len() == 0 {
        assert(all =~= b);
    } else {
        assert(all[0] == a[0]);
        assert(all.skip(1) =~= a.skip(1) + b);
        if a[0] == '"' {
            let n = run_length(a.skip(1), is_char('"')) as int;
            lemma_run_join(a.skip(1), b, is_char('"'));
            lemma_strings_join(after(a.skip(1), n + 1), b);
            assert(after(all.skip(1), n + 1) =~= after(a.skip(1), n + 1) + b);
        } else {
            lemma_strings_join(a.skip(1), b);
        }
    }
}

/// The strings of a paired text are closed.
proof fn lemma_paired_strings(s: Seq<char>)
    requires
        paired(s),
    ensures
        strings_closed(s),
    decreases s.len(),
{
    if s.len() == 0 {
    } else if opens(s[0]) {
        lemma_group_parts(s);
        let rest = s.skip(1);
        let n = run_length(rest, is_char(closer(s[0]))) as int;
        let tail = rest.skip(n + 1);
        let behind = seq![closer(s[0])] + tail;
        lemma_paired_strings(rest.take(n));
        lemma_paired_strings(tail);
        assert(behind.skip(1) =~= tail);
        assert(behind[0] == closer(s[0]));
        lemma_strings_join(rest.take(n), behind);
    } else if s[0] == '"' {
        lemma_string_parts(s);
        let n = run_length(s.skip(1), is_char('"')) as int;
        lemma_paired_strings(after(s.skip(1), n + 1));
    } else {
        lemma_paired_strings(s.skip(1));
    }
}

/// The words of two texts joined are the words of the first and the words
/// of the second, where the strings of the first are closed and the second
/// starts with a closing bracket or is empty.
proof fn lemma_words_join(a: Seq<char>, b: Seq<char>)
    requires
        strings_closed(a),
        b.len() == 0 || closes(b[0]),
    ensures
        lexemes(a + b) == lexemes(a) + lexemes(b),
    decreases a.len(),
{
    let all = a + b;
    if a.len() == 0 {
        assert(all =~= b);
        assert(lexemes(a) + lexemes(b) =~= lexemes(b));
    } else {
        let c = a[0];
        assert(all[0] == c);
        assert(all.skip(1) =~= a.skip(1) + b);
        if c == '"' {
            let n = run_length(a.skip(1), is_char('"')) as int;
            lemma_run_join(a.skip(1), b, is_char('"'));
            let left = after(a.skip(1), n + 1);
            lemma_words_join(left, b);
            assert(after(all.skip(1), n + 1) =~= left + b);
            assert(all.skip(1).take(n) =~= a.skip(1).take(n));
            let word = seq![leaf(TokenType::String, a.skip(1).take(n))];
            assert(word + (lexemes(left) + lexemes(b)) =~= (word + lexemes(left)) + lexemes(b));
        } else if starts_name(c) || starts_number(c) {
            let name = starts_name(c);
            let stop = if name { ends_name() } else { ends_number() };
            let kind = if name { TokenType::UserVar } else { TokenType::Number };
            let n = run_length(a, stop) as int;
            if b.len() > 0 {
                assert(stop(b[0]));
            }
            lemma_run_join(a, b, stop);
            lemma_word_is_plain(a, name);
            lemma_plain_front(a, n);
            let left = after(a, n);
            lemma_words_join(left, b);
            assert(after(all, n) =~= left + b);
            assert(all.take(n) =~= a.take(n));
            let word = seq![leaf(kind, a.take(n))];
            assert(word + (lexemes(left) + lexemes(b)) =~= (word + lexemes(left)) + lexemes(b));
            if name {
                lemma_scan_name(a);
                lemma_scan_name(all);
            } else {
                lemma_scan_number(a);
                lemma_scan_number(all);
            }
        } else {
            lemma_words_join(a.skip(1), b);
            let word = seq![leaf(TokenType::Operator, seq![c])];
            assert(word + (lexemes(a.skip(1)) + lexemes(b)) =~= (word + lexemes(a.skip(1)))
                + lexemes(b));
        }
    }
}

/// The scanner keeps the words: for a text whose strings it leaves whole,
/// the tokens of text of the token tree, read in their order, are the words
/// of the text.
pub proof fn law_words_are_kept(s: Seq<char>)
    requires
        strings_stay_whole(s),
    ensures
        leaves(scan(s)) == lexemes(s),
    decreases s.len(),
{
    if s.len() == 0 {
    } else if opens(s[0]) {
        lemma_scan_group(s);
        let rest = s.skip(1);
        let n = run_length(rest, is_char(closer(s[0]))) as int;
        lemma_run_length(rest, is_char(closer(s[0])));
        let inner = rest.take(n);
        let tail = after(rest, n + 1);
        law_words_are_kept(inner);
        lemma_front_token(group(group_kind(s[0]), scan(inner)), scan(tail));
        assert(Operator::of_symbol(closer(s[0])) is None && Operator::of_symbol(s[0]) is None) by {
            assert forall|op: Operator| op.symbol() != closer(s[0]) && op.symbol() != s[0] by {}
        }
        assert(lexemes(s) == lexemes(rest));
        if n < rest.len() {
            let behind = seq![closer(s[0])] + tail;
            law_words_are_kept(tail);
            assert(rest =~= inner + behind);
            lemma_words_join(inner, behind);
            assert(behind.skip(1) =~= tail);
            assert(behind[0] == closer(s[0]));
            assert(lexemes(behind) == lexemes(tail));
        } else {
            assert(inner =~= rest);
            assert(leaves(scan(inner)) + Seq::<TokenView>::empty() =~= leaves(scan(inner)));
        }
    } else if s[0] == '"' {
        lemma_scan_string(s);
        let rest = s.skip(1);
        let n = run_length(rest, is_char('"')) as int;
        law_words_are_kept(after(rest, n + 1));
        lemma_front_token(leaf(TokenType::String, rest.take(n)), scan(after(rest, n + 1)));
    } else if starts_name(s[0]) {
        lemma_scan_name(s);
        let n = run_length(s, ends_name()) as int;
        law_words_are_kept(after(s, n));
        lemma_front_token(leaf(TokenType::UserVar, s.take(n)), scan(after(s, n)));
    } else if starts_number(s[0]) {
        lemma_scan_number(s);
        let n = run_length(s, ends_number()) as int;
        law_words_are_kept(after(s, n));
        lemma_front_token(leaf(TokenType::Number, s.take(n)), scan(after(s, n)));
    } else {
        lemma_scan_other(s);
        law_words_are_kept(s.skip(1));
        lemma_front_token(leaf(TokenType::Operator, seq![s[0]]), scan(s.skip(1)));
    }
}

/// The scanner leaves every string of a paired text whole.
pub proof fn law_paired_strings_stay_whole(s: Seq<char>)
    requires
        paired(s),
    ensures
        strings_stay_whole(s),
    decreases s.len(),
{
    if s.len() == 0 {
    } else if opens(s[0]) {
        lemma_group_parts(s);
        let rest = s.skip(1);
        let n = run_length(rest, is_char(closer(s[0]))) as int;
        law_paired_strings_stay_whole(rest.take(n));
        law_paired_strings_stay_whole(rest.skip(n + 1));
        lemma_paired_strings(rest.take(n));
    } else if s[0] == '"' {
        lemma_string_parts(s);
        let n = run_length(s.skip(1), is_char('"')) as int;
        law_paired_strings_stay_whole(after(s.skip(1), n + 1));
    } else if starts_name(s[0]) {
        lemma_scan_name(s);
        let n = run_length(s, ends_name()) as int;
        lemma_word_is_plain(s, true);
        lemma_plain_front(s, n);
        law_paired_strings_stay_whole(after(s, n));
    } else if starts_number(s[0]) {
        lemma_scan_number(s);
        let n = run_length(s, ends_number()) as int;
        lemma_word_is_plain(s, false);
        lemma_plain_front(s, n);
        law_paired_strings_stay_whole(after(s, n));
    } else {
        law_paired_strings_stay_whole(s.skip(1));
    }
}

/// In a text whose brackets are paired, every opening bracket and every
/// quote is closed.
pub proof fn law_paired_is_terminated(s: Seq<char>)
    requires
        paired(s),
    ensures
        unterminated(s) is None,
    decreases s.len(),
{
    if s.len() == 0 {
    } else if opens(s[0]) {
        lemma_group_parts(s);
        let rest = s.skip(1);
        let n = run_length(rest, is_char(closer(s[0]))) as int;
        law_paired_is_terminated(rest.take(n));
        law_paired_is_terminated(rest.skip(n + 1));
    } else if s[0] == '"' {
        lemma_string_parts(s);
        let n = run_length(s.skip(1), is_char('"')) as int;
        law_paired_is_terminated(after(s.skip(1), n + 1));
    } else {
        law_paired_is_terminated(s.skip(1));
    }
}

/// The text with a space in the place of every bracket.
pub open spec fn without_brackets(s: Seq<char>) -> Seq<char> {
    Seq::new(
        s.len(),
        |i: int|
            if opens(s[i]) || closes(s[i]) {
                ' '
            } else {
                s[i]
            },
    )
}

/// Whether no bracket stands inside a string of `s`.
pub open spec fn strings_hold_no_bracket(s: Seq<char>) -> bool
    decreases s.len(),
{
    if s.len() == 0 {
        true
    } else if s[0] == '"' {
        let n = run_length(s.skip(1), is_char('"')) as int;
        bracket_free(s.skip(1).take(n)) && strings_hold_no_bracket(after(s.skip(1), n + 1))
    } else {
        strings_hold_no_bracket(s.skip(1))
    }
}

/// Two texts of one length on whose characters a test agrees place by place
/// have runs of one length.
proof fn lemma_run_same(a: Seq<char>, b: Seq<char>, stop: spec_fn(char) -> bool)
    requires
        a.len() == b.len(),
        forall|i: int| 0 <= i < a.len() ==> stop(#[trigger] a[i]) == stop(b[i]),
    ensures
        run_length(a, stop) == run_length(b, stop),
{
    lemma_run_length(a, stop);
    let n = run_length(a, stop);
    assert forall|k: int| 0 <= k < n implies !stop(#[trigger] b[k]) by {
        assert(!stop(a[k]));
    }
    if n < a.len() {
        assert(stop(a[n as int]));
    }
    lemma_run_length_is(b, stop, n);
}

/// Characters other than quotes at the front of a text change nothing about
/// whether a bracket stands inside a string of what follows them.
proof fn lemma_no_quote_front(s: Seq<char>, k: int)
    requires
        0 <= k <= s.len(),
        forall|i: int| 0 <= i < k ==> #[trigger] s[i] != '"',
    ensures
        strings_hold_no_bracket(s) == strings_hold_no_bracket(after(s, k)),
    decreases k,
{
    if k == 0 {
        assert(after(s, 0) =~= s);
    } else {
        assert(s[0] != '"');
        let t = s.skip(1);
        assert forall|i: int| 0 <= i < k - 1 implies #[trigger] t[i] != '"' by {
            assert(t[i] == s[i + 1]);
        }
        lemma_no_quote_front(t, k - 1);
        assert(after(t, k - 1) =~= after(s, k));
    }
}

/// Two texts without a bracket inside a string, the first with its strings
/// closed, make a text without a bracket inside a string.
proof fn lemma_no_bracket_join(a: Seq<char>, b: Seq<char>)
    requires
        strings_hold_no_bracket(a),
        strings_closed(a),
        strings_hold_no_bracket(b),
    ensures
        strings_hold_no_bracket(a + b),
    decreases a.len(),
{
    let all = a + b;
    if a.len() == 0 {
        assert(all =~= b);
    } else {
        assert(all[0] == a[0]);
        assert(all.skip(1) =~= a.skip(1) + b);
        if a[0] == '"' {
            let n = run_length(a.skip(1), is_char('"')) as int;
            lemma_run_join(a.skip(1), b, is_char('"'));
            lemma_no_bracket_join(after(a.skip(1), n + 1), b);
            assert(after(all.skip(1), n + 1) =~= after(a.skip(1), n + 1) + b);
            assert(all.skip(1).take(n) =~= a.skip(1).take(n));
        } else {
            lemma_no_bracket_join(a.skip(1), b);
        }
    }
}

/// No bracket stands inside a string of a paired text.
proof fn lemma_paired_no_bracket(s: Seq<char>)
    requires
        paired(s),
    ensures
        strings_hold_no_bracket(s),
    decreases s.len(),
{
    if s.len() == 0 {
    } else if opens(s[0]) {
        lemma_group_parts(s);
        let rest = s.skip(1);
        let n = run_length(rest, is_char(closer(s[0]))) as int;
        let tail = rest.skip(n + 1);
        let behind = seq![closer(s[0])] + tail;
        lemma_paired_no_bracket(rest.take(n));
        lemma_paired_no_bracket(tail);
        lemma_paired_strings(rest.take(n));
        assert(behind.skip(1) =~= tail);
        assert(behind[0] == closer(s[0]));
        lemma_no_bracket_join(rest.take(n), behind);
    } else if s[0] == '"' {
        lemma_string_parts(s);
        let n = run_length(s.skip(1), is_char('"')) as int;
        lemma_paired_no_bracket(after(s.skip(1), n + 1));
    } else {
        lemma_paired_no_bracket(s.skip(1));
    }
}

/// The words of a text are the words of the text without its brackets,
/// where no bracket stands inside a string.
proof fn lemma_words_without_brackets(s: Seq<char>)
    requires
        strings_hold_no_bracket(s),
    ensures
        lexemes(s) == lexemes(without_brackets(s)),
    decreases s.len(),
{
    let u = without_brackets(s);
    if s.len() == 0 {
        assert(u =~= s);
    } else {
        let c = s[0];
        let rest = s.skip(1);
        assert(u.skip(1) =~= without_brackets(rest));
        assert(Operator::of_symbol(' ') is None && (opens(c) || closes(c) ==> Operator::of_symbol(c) is None)) by {
            assert forall|op: Operator|
                op.symbol() != ' ' && (opens(c) || closes(c) ==> op.symbol() != c) by {}
        }
        if c == '"' {
            let n = run_length(rest, is_char('"')) as int;
            lemma_run_length(rest, is_char('"'));
            lemma_run_same(rest, u.skip(1), is_char('"'));
            let text = rest.take(n);
            assert(u.skip(1).take(n) =~= text) by {
                assert forall|i: int| 0 <= i < n implies u.skip(1).take(n)[i] == text[i] by {
                    assert(!opens(text[i]) && !closes(text[i]));
                }
            }
            lemma_words_without_brackets(after(rest, n + 1));
            assert(after(u.skip(1), n + 1) =~= without_brackets(after(rest, n + 1)));
        } else if starts_name(c) || starts_number(c) {
            let name = starts_name(c);
            let stop = if name { ends_name() } else { ends_number() };
            let n = run_length(s, stop) as int;
            lemma_word_is_plain(s, name);
            lemma_run_same(s, u, stop);
            assert(u.take(n) =~= s.take(n)) by {
                assert forall|i: int| 0 <= i < n implies u.take(n)[i] == s.take(n)[i] by {
                    assert(plain(s[i]));
                }
            }
            assert forall|i: int| 0 <= i < n implies #[trigger] s[i] != '"' by {
                assert(plain(s[i]));
            }
            lemma_no_quote_front(s, n);
            lemma_words_without_brackets(after(s, n));
            assert(after(u, n) =~= without_brackets(after(s, n)));
            if name {
                lemma_scan_name(s);
                lemma_scan_name(u);
            } else {
                lemma_scan_number(s);
                lemma_scan_number(u);
            }
        } else {
            lemma_words_without_brackets(rest);
        }
    }
}

/// The tokens of a text without brackets are its words.
proof fn lemma_scan_of_flat_text(s: Seq<char>)
    requires
        bracket_free(s),
    ensures
        scan(s) == lexemes(s),
    decreases s.len(),
{
    if s.len() == 0 {
    } else {
        assert(!opens(s[0]) && !closes(s[0]));
        let rest = s.skip(1);
        if s[0] == '"' {
            lemma_scan_string(s);
            let n = run_length(rest, is_char('"')) as int;
            lemma_run_length(rest, is_char('"'));
            lemma_flat_rest(s, n + 2);
            assert(after(rest, n + 1) =~= after(s, n + 2));
            lemma_scan_of_flat_text(after(rest, n + 1));
        } else if starts_name(s[0]) {
            lemma_scan_name(s);
            let n = run_length(s, ends_name()) as int;
            lemma_flat_rest(s, n);
            lemma_scan_of_flat_text(after(s, n));
        } else if starts_number(s[0]) {
            lemma_scan_number(s);
            let n = run_length(s, ends_number()) as int;
            lemma_flat_rest(s, n);
            lemma_scan_of_flat_text(after(s, n));
        } else {
            lemma_scan_other(s);
            lemma_flat_rest(s, 1);
            assert(after(s, 1) =~= rest);
            lemma_scan_of_flat_text(rest);
        }
    }
}

/// What is left of a text without brackets holds no bracket.
proof fn lemma_flat_rest(s: Seq<char>, k: int)
    requires
        bracket_free(s),
        0 <= k,
    ensures
        bracket_free(after(s, k)),
{
    let rest = after(s, k);
    assert forall|i: int| 0 <= i < rest.len() implies !opens(#[trigger] rest[i]) && !closes(
        rest[i],
    ) by {
        assert(rest[i] == s[i + k]);
    }
}

/// The scanner keeps the words as a scan of the text without its brackets
/// finds them: where the scanner leaves every string whole and no bracket
/// stands inside a string, the tokens of text of the token tree, read in
/// their order, are the tokens of the text in which a space stands in the
/// place of every bracket. That is so of every paired text.
pub proof fn law_words_as_scanned_without_brackets(s: Seq<char>)
    requires
        paired(s) || (strings_stay_whole(s) && strings_hold_no_bracket(s)),
    ensures
        leaves(scan(s)) == scan(without_brackets(s)),
{
    if paired(s) {
        law_paired_strings_stay_whole(s);
        lemma_paired_no_bracket(s);
    }
    law_words_are_kept(s);
    lemma_words_without_brackets(s);
    let u = without_brackets(s);
    assert(bracket_free(u));
    lemma_scan_of_flat_text(u);
}

} // verus!
