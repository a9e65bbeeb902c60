pub mod reentrancy;
pub mod integer_overflow;
pub mod access_control;
pub mod unchecked_returns;
pub mod trait_dispatch;
pub mod cross_contract;

use vstd::prelude::*;
use crate::ast::{ClarityNode, Tree, trees, head_of};
use crate::analyzer::{Finding, FindingView, fviews};
use crate::text::str_eq;

verus! {

/// The forms that change contract state.
pub open spec fn is_state_mutator(op: Seq<char>) -> bool {
    ||| op == "map-set"@
    ||| op == "map-delete"@
    ||| op == "map-insert"@
    ||| op == "var-set"@
}

pub fn state_mutator(op: &str) -> (r: bool)
    ensures
        r == is_state_mutator(op@),
{
    str_eq(op, "map-set") || str_eq(op, "map-delete") || str_eq(op, "map-insert") || str_eq(op, "var-set")
}

/// The name in a function signature: `(withdraw (amount uint))` names
/// `withdraw`, and a bare atom names itself.
pub open spec fn sig_name(sig: Tree) -> Option<Seq<char>> {
    match sig {
        Tree::List(ch, _) => head_of(ch),
        Tree::Atom(name, _) => Some(name),
    }
}

/// Extract function name from signature node
/// e.g. (withdraw (amount uint)) -> "withdraw"
pub fn extract_function_name(sig: &ClarityNode) -> (r: Option<String>)
    ensures
        r is Some <==> sig_name(sig@) is Some,
        r matches Some(s) ==> sig_name(sig@) == Some(s@),
{
    match sig {
        ClarityNode::List(children, _) => {
            match crate::ast::head_atom(children) {
                Some(s) => Some(s.to_owned()),
                None => None,
            }
        },
        ClarityNode::Atom(name, _) => Some(name.as_str().to_owned()),
    }
}

/// The name and body of a function definition `(define-... sig body...)`,
/// when its signature names it.
pub open spec fn fn_parts(t: Tree) -> Option<(Seq<char>, Seq<Tree>)> {
    match t {
        Tree::List(ch, _) => if ch.len() >= 2 && sig_name(ch[1]) is Some {
            Some((sig_name(ch[1])->0, ch.subrange(2, ch.len() as int)))
        } else {
            None
        },
        Tree::Atom(_, _) => None,
    }
}


/// The name of a definition, where `fn_parts` finds one.
pub open spec fn def_name(t: Tree) -> Seq<char> {
    let (n, _) = fn_parts(t)->0;
    n
}

/// The body of a definition, where `fn_parts` finds one.
pub open spec fn def_body(t: Tree) -> Seq<Tree> {
    let (_, b) = fn_parts(t)->0;
    b
}

} // verus!
