//! What the native function `print` of the standard extension writes.

use vstd::prelude::*;
use vstd::string::StringExecFns;
use crate::esotypes::{Var, VarView};
use crate::evaluator::{arg_views, ErrorKind, EvalError};

verus! {

/// Whether every argument is there and holds text.
pub open spec fn printable(args: Seq<Option<VarView>>) -> bool {
    forall|i: int| 0 <= i < args.len() ==> (#[trigger] args[i]) is Some && args[i].unwrap().value.has_text
}

/// The line for the arguments: the text of each, with a space behind it.
pub open spec fn line_of(args: Seq<Option<VarView>>) -> Seq<char>
    decreases args.len(),
{
    if args.len() == 0 {
        Seq::empty()
    } else {
        line_of(args.drop_last()) + args.last().unwrap().value.text + seq![' ']
    }
}

/// The line that `print` writes for `tokens`. An argument that is missing
/// or that holds no text is turned down.
pub fn print_line(tokens: &Vec<Option<Var>>) -> (r: Result<String, EvalError>)
    ensures
        match r {
            Ok(line) => printable(arg_views(tokens@)) && line@ == line_of(arg_views(tokens@)),
            Err(e) => !printable(arg_views(tokens@)) && e@.kind == ErrorKind::ArityOrTypeMismatch
                && e@.token == Seq::<char>::empty(),
        },
{
    let ghost args = arg_views(tokens@);
    let mut s = String::new();
    let mut i: usize = 0;
    assert(args.take(0) =~= Seq::<Option<VarView>>::empty());
    while i < tokens.len()
        invariant
            i <= tokens.len(),
            args == arg_views(tokens@),
            printable(args.take(i as int)),
            s@ == line_of(args.take(i as int)),
        decreases tokens.len() - i,
    {
        let ghost so_far = args.take(i as int);
        let ghost next = args.take(i + 1);
        proof {
            assert(next.drop_last() =~= so_far);
            assert(next.last() == args[i as int]);
        }
        match &tokens[i] {
            Some(v) => {
                match &v.value.token_value {
                    Some(text) => {
                        s.append(text.as_str());
                    },
                    None => {
                        assert(!args[i as int].unwrap().value.has_text);
                        return Err(
                            EvalError { kind: ErrorKind::ArityOrTypeMismatch, token: String::new() },
                        );
                    },
                }
                s.push(' ');
                proof {
                    assert forall|k: int| 0 <= k < next.len() implies (#[trigger] next[k]) is Some
                        && next[k].unwrap().value.has_text by {
                        if k < i {
                            assert(so_far[k] == next[k]);
                        }
                    }
                    assert(s@ =~= line_of(next));
                }
            },
            None => {
                assert(args[i as int] is None);
                return Err(EvalError { kind: ErrorKind::ArityOrTypeMismatch, token: String::new() });
            },
        }
        i += 1;
    }
    assert(args.take(i as int) =~= args);
    Ok(s)
}

} // verus!
