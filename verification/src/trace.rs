//! The debug trace: a token tree written out as lines of text, one line for
//! each token, children below their group and indented by two spaces more.

use vstd::prelude::*;
use vstd::string::StringExecFns;
use crate::esotypes::{kind_name, view_seq, Token, TokenType, TokenView};

verus! {

/// The texts of `lines`, one for one.
pub open spec fn line_views(lines: Seq<String>) -> Seq<Seq<char>> {
    Seq::new(lines.len(), |i: int| lines[i]@)
}

/// One step of indentation.
pub open spec fn indent_step() -> Seq<char> {
    seq![' ', ' ']
}

/// The indentation at `depth`: two spaces for each level.
pub open spec fn indent(depth: nat) -> Seq<char>
    decreases depth,
{
    if depth == 0 {
        Seq::empty()
    } else {
        indent((depth - 1) as nat) + indent_step()
    }
}

/// The line for one token: the indentation and the name of the kind, and
/// for a token of text a colon and the text in double quotes.
pub open spec fn trace_line(t: TokenView, prefix: Seq<char>) -> Seq<char> {
    if t.kind.is_group() {
        prefix + kind_name(t.kind)
    } else {
        prefix + kind_name(t.kind) + seq![':', ' ', '"'] + t.text + seq!['"']
    }
}

/// The lines for a sequence of tokens, each line starting with `prefix`.
pub open spec fn trace(tokens: Seq<TokenView>, prefix: Seq<char>) -> Seq<Seq<char>>
    decreases tokens,
{
    if tokens.len() == 0 {
        Seq::empty()
    } else {
        let first = tokens[0];
        let below = if first.kind.is_group() {
            trace(first.children, prefix + indent_step())
        } else {
            Seq::empty()
        };
        seq![trace_line(first, prefix)] + below + trace(tokens.skip(1), prefix)
    }
}

/// The lines for `tokens`, each starting with `prefix`.
fn render_with(tokens: &Vec<Token>, prefix: &String) -> (lines: Vec<String>)
    ensures
        line_views(lines@) == trace(view_seq(tokens@), prefix@),
    decreases tokens,
{
    let ghost all = view_seq(tokens@);
    let mut lines: Vec<String> = Vec::new();
    let mut i: usize = 0;
    proof {
        assert(all.skip(0) =~= all);
        assert(line_views(lines@) + trace(all, prefix@) =~= trace(all, prefix@));
    }
    while i < tokens.len()
        invariant
            i <= tokens.len(),
            all == view_seq(tokens@),
            trace(all, prefix@) == line_views(lines@) + trace(all.skip(i as int), prefix@),
        decreases tokens.len() - i,
    {
        let t = &tokens[i];
        let ghost rest = all.skip(i as int);
        let ghost before = line_views(lines@);
        proof {
            assert(rest[0] == t@);
            assert(rest.skip(1) =~= all.skip(i + 1));
        }
        let mut line = prefix.clone();
        line.append(t.to_string());
        let group = match t.token_type {
            TokenType::Parenthetical | TokenType::Block => true,
            _ => false,
        };
        if group {
            let mut deeper = prefix.clone();
            deeper.push(' ');
            deeper.push(' ');
            assert(deeper@ =~= prefix@ + indent_step());
            let mut below = match &t.token_nested {
                Some(children) => render_with(children, &deeper),
                None => {
                    let empty: Vec<String> = Vec::new();
                    assert(line_views(empty@) =~= trace(t@.children, deeper@));
                    empty
                },
            };
            let ghost below_views = line_views(below@);
            lines.push(line);
            lines.append(&mut below);
            proof {
                assert(line_views(lines@) =~= before + seq![trace_line(t@, prefix@)] + below_views);
                assert(before + (seq![trace_line(t@, prefix@)] + below_views + trace(
                    rest.skip(1),
                    prefix@,
                )) =~= (before + seq![trace_line(t@, prefix@)] + below_views) + trace(
                    rest.skip(1),
                    prefix@,
                ));
            }
        } else {
            line.push(':');
            line.push(' ');
            line.push('"');
            match &t.token_value {
                Some(text) => {
                    line.append(text.as_str());
                },
                None => {},
            }
            line.push('"');
            assert(line@ =~= trace_line(t@, prefix@));
            lines.push(line);
            proof {
                assert(line_views(lines@) =~= before + seq![trace_line(t@, prefix@)]);
                assert(before + (seq![trace_line(t@, prefix@)] + Seq::<Seq<char>>::empty() + trace(
                    rest.skip(1),
                    prefix@,
                )) =~= (before + seq![trace_line(t@, prefix@)]) + trace(rest.skip(1), prefix@));
            }
        }
        i += 1;
    }
    proof {
        assert(all.skip(i as int) =~= Seq::<TokenView>::empty());
        assert(line_views(lines@) + Seq::<Seq<char>>::empty() =~= line_views(lines@));
    }
    lines
}

/// The lines of the debug trace of `token_stack`, indented as for tokens
/// that stand `depth` levels deep.
pub fn render_tokens(token_stack: &Vec<Token>, depth: usize) -> (lines: Vec<String>)
    ensures
        line_views(lines@) == trace(view_seq(token_stack@), indent(depth as nat)),
{
    let mut prefix = String::new();
    let mut d: usize = 0;
    assert(prefix@ =~= indent(0));
    while d < depth
        invariant
            d <= depth,
            prefix@ == indent(d as nat),
        decreases depth - d,
    {
        prefix.push(' ');
        prefix.push(' ');
        d += 1;
        assert(prefix@ =~= indent(d as nat));
    }
    render_with(token_stack, &prefix)
}

} // verus!
