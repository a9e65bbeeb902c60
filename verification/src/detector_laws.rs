use vstd::prelude::*;
use crate::ast::{Tree, head_of, atom_at};
use crate::analyzer::FindingView;
use crate::detector::{fn_parts, def_body, def_name, access_control};
use crate::detector::access_control::{mentions_principal, mentions_principal_seq, auth_node, auth_seq};
use crate::callgraph::{EdgeView, calls_in, calls_in_seq, contract_calls, project_calls, defined_name, atom_or_unknown};
use crate::registry::ParsedView;
use crate::detector::integer_overflow;
use crate::detector::integer_overflow::{walk_seq, walk_node, check_op, Guards};
use crate::properties::lemma_walk_seq_append;
use crate::analyzer::Severity;
use crate::detector::unchecked_returns::{unchecked_node, unchecked_seq};
use crate::detector::trait_dispatch;
use crate::detector::trait_dispatch::{dispatch_seq, dispatch_node, sig_trait_params};
use crate::ast::is_form_of;
use crate::text::trim_dots;

verus! {

// ---------------------------------------------------------------------------
// Access control

/// `tx-sender` or `contract-caller` occurs in `t`, at any depth.
pub open spec fn principal_occurs(t: Tree) -> bool
    decreases t,
{
    match t {
        Tree::Atom(v, _) => v == "tx-sender"@ || v == "contract-caller"@,
        Tree::List(ch, _) => exists|i: int| #![trigger ch[i]] 0 <= i < ch.len() && principal_occurs(ch[i]),
    }
}

/// `t` is, or holds through lists other than `asserts!` and `is-eq` forms, an
/// `(asserts! c ...)` whose condition `c` mentions `tx-sender` or
/// `contract-caller` somewhere.
pub open spec fn holds_principal_assert(t: Tree) -> bool
    decreases t,
{
    match t {
        Tree::Atom(_, _) => false,
        Tree::List(ch, _) => {
            ||| (head_of(ch) == Some("asserts!"@) && ch.len() > 1 && principal_occurs(ch[1]))
            ||| (head_of(ch) != Some("asserts!"@) && head_of(ch) != Some("is-eq"@)
                && exists|i: int| #![trigger ch[i]] 0 <= i < ch.len() && holds_principal_assert(ch[i]))
        },
    }
}

proof fn lemma_principal_seq(ns: Seq<Tree>, i: int)
    requires
        0 <= i < ns.len(),
        mentions_principal(ns[i]),
    ensures
        mentions_principal_seq(ns),
    decreases ns.len(),
{
    if i < ns.len() - 1 {
        let d = ns.subrange(0, ns.len() - 1);
        assert(d[i] == ns[i]);
        lemma_principal_seq(d, i);
    }
}

proof fn lemma_principal_occurs(t: Tree)
    requires
        principal_occurs(t),
    ensures
        mentions_principal(t),
    decreases t,
{
    match t {
        Tree::Atom(_, _) => {},
        Tree::List(ch, _) => {
            let i = choose|i: int| #![trigger ch[i]] 0 <= i < ch.len() && principal_occurs(ch[i]);
            lemma_principal_occurs(ch[i]);
            lemma_principal_seq(ch, i);
        },
    }
}

proof fn lemma_auth_seq(ns: Seq<Tree>, i: int)
    requires
        0 <= i < ns.len(),
        auth_node(ns[i]),
    ensures
        auth_seq(ns),
    decreases ns.len(),
{
    if i < ns.len() - 1 {
        let d = ns.subrange(0, ns.len() - 1);
        assert(d[i] == ns[i]);
        lemma_auth_seq(d, i);
    }
}

proof fn lemma_principal_assert(t: Tree)
    requires
        holds_principal_assert(t),
    ensures
        auth_node(t),
    decreases t,
{
    match t {
        Tree::Atom(_, _) => {},
        Tree::List(ch, _) => {
            if head_of(ch) == Some("asserts!"@) {
                lemma_principal_occurs(ch[1]);
            } else {
                let i = choose|i: int| #![trigger ch[i]] 0 <= i < ch.len() && holds_principal_assert(ch[i]);
                lemma_principal_assert(ch[i]);
                lemma_auth_seq(ch, i);
            }
        },
    }
}

/// A public function whose body holds an `asserts!` whose condition mentions
/// `tx-sender` or `contract-caller` anywhere in it, e.g.
/// `(asserts! (is-eq tx-sender (var-get owner)) (err u403))`, has no missing
/// access control finding, whatever it mutates.
pub proof fn law_principal_assert_is_access_control(t: Tree, i: int)
    requires
        fn_parts(t) is Some,
        0 <= i < def_body(t).len(),
        holds_principal_assert(def_body(t)[i]),
    ensures
        access_control::function_findings(t) == Some(Seq::<FindingView>::empty()),
{
    let body = def_body(t);
    lemma_principal_assert(body[i]);
    lemma_auth_seq(body, i);
}

// ---------------------------------------------------------------------------
// Call graph

/// Operand `i` of a list: the atom there, or "unknown".
pub open spec fn operand(ch: Seq<Tree>, i: int) -> Seq<char> {
    if 0 <= i < ch.len() && ch[i] is Atom {
        ch[i]->Atom_0
    } else {
        "unknown"@
    }
}

/// `t` holds, at any depth, a `(contract-call? .c f ...)` on line `line`
/// calling function `f` of contract `c` (its leading dots removed).
pub open spec fn makes_call(t: Tree, line: int, c: Seq<char>, f: Seq<char>) -> bool
    decreases t,
{
    match t {
        Tree::Atom(_, _) => false,
        Tree::List(ch, l) => {
            ||| (l == line && head_of(ch) == Some("contract-call?"@) && ch.len() >= 3
                && trim_dots(operand(ch, 1)) == c && operand(ch, 2) == f)
            ||| exists|i: int| #![trigger ch[i]] 0 <= i < ch.len() && makes_call(ch[i], line, c, f)
        },
    }
}

proof fn lemma_in_append<A>(a: Seq<A>, b: Seq<A>, x: A)
    ensures
        a.contains(x) ==> (a + b).contains(x),
        b.contains(x) ==> (a + b).contains(x),
{
    if a.contains(x) {
        let k = choose|k: int| 0 <= k < a.len() && a[k] == x;
        assert((a + b)[k] == x);
    }
    if b.contains(x) {
        let k = choose|k: int| 0 <= k < b.len() && b[k] == x;
        assert((a + b)[a.len() + k] == x);
    }
}

proof fn lemma_calls_in_seq(ns: Seq<Tree>, i: int, cc: Seq<char>, cf: Seq<char>, e: EdgeView)
    requires
        0 <= i < ns.len(),
        calls_in(ns[i], cc, cf).contains(e),
    ensures
        calls_in_seq(ns, cc, cf).contains(e),
    decreases ns.len(),
{
    let d = ns.subrange(0, ns.len() - 1);
    if i < ns.len() - 1 {
        assert(d[i] == ns[i]);
        lemma_calls_in_seq(d, i, cc, cf, e);
    }
    lemma_in_append(calls_in_seq(d, cc, cf), calls_in(ns[ns.len() - 1], cc, cf), e);
}

proof fn lemma_makes_call(t: Tree, line: int, c: Seq<char>, f: Seq<char>, cc: Seq<char>, cf: Seq<char>)
    requires
        makes_call(t, line, c, f),
    ensures
        calls_in(t, cc, cf).contains(EdgeView {
            caller_contract: cc, caller_function: cf, callee_contract: c, callee_function: f, line: line }),
    decreases t,
{
    let e = EdgeView { caller_contract: cc, caller_function: cf, callee_contract: c, callee_function: f, line: line };
    match t {
        Tree::Atom(_, _) => {},
        Tree::List(ch, l) => {
            assert(atom_or_unknown(ch, 1) == operand(ch, 1));
            assert(atom_or_unknown(ch, 2) == operand(ch, 2));
            let here = if head_of(ch) == Some("contract-call?"@) && ch.len() >= 3 {
                seq![EdgeView {
                    caller_contract: cc,
                    caller_function: cf,
                    callee_contract: trim_dots(atom_or_unknown(ch, 1)),
                    callee_function: atom_or_unknown(ch, 2),
                    line: l,
                }]
            } else {
                seq![]
            };
            assert(calls_in(t, cc, cf) == here + calls_in_seq(ch, cc, cf));
            if l == line && head_of(ch) == Some("contract-call?"@) && ch.len() >= 3
                && trim_dots(operand(ch, 1)) == c && operand(ch, 2) == f {
                assert(here[0] == e);
                lemma_in_append(here, calls_in_seq(ch, cc, cf), e);
            } else {
                let i = choose|i: int| #![trigger ch[i]] 0 <= i < ch.len() && makes_call(ch[i], line, c, f);
                lemma_makes_call(ch[i], line, c, f, cc, cf);
                lemma_calls_in_seq(ch, i, cc, cf, e);
                lemma_in_append(here, calls_in_seq(ch, cc, cf), e);
            }
        },
    }
}

proof fn lemma_contract_calls(ns: Seq<Tree>, j: int, cc: Seq<char>, cf: Seq<char>, e: EdgeView)
    requires
        0 <= j < ns.len(),
        is_form_of(ns[j], "define-public"@) || is_form_of(ns[j], "define-private"@) || is_form_of(ns[j], "define-read-only"@),
        defined_name(ns[j]) == Some(cf),
        calls_in(ns[j], cc, cf).contains(e),
    ensures
        contract_calls(ns, cc).contains(e),
    decreases ns.len(),
{
    let d = ns.drop_last();
    if j < ns.len() - 1 {
        assert(d[j] == ns[j]);
        lemma_contract_calls(d, j, cc, cf, e);
        lemma_in_append(contract_calls(d, cc),
            if crate::callgraph::is_definition(ns.last()) && defined_name(ns.last()) is Some {
                calls_in(ns.last(), cc, defined_name(ns.last())->0)
            } else {
                seq![]
            }, e);
    } else {
        lemma_in_append(contract_calls(d, cc), calls_in(ns.last(), cc, cf), e);
    }
}

proof fn lemma_project_calls(cs: Seq<ParsedView>, i: int, e: EdgeView)
    requires
        0 <= i < cs.len(),
        contract_calls(cs[i].ast, cs[i].name).contains(e),
    ensures
        project_calls(cs).contains(e),
    decreases cs.len(),
{
    let d = cs.drop_last();
    if i < cs.len() - 1 {
        assert(d[i] == cs[i]);
        lemma_project_calls(d, i, e);
    }
    lemma_in_append(project_calls(d), contract_calls(cs.last().ast, cs.last().name), e);
}

/// Every `contract-call?`, at any depth, inside a named `define-public`,
/// `define-private` or `define-read-only` function of a contract of the
/// project gives an edge of the call graph (whose edges `callgraph::build`
/// returns as `project_calls` of the registry): from that contract and function
/// to the called contract and function, on the call's line.
pub proof fn law_every_call_in_a_function_is_an_edge(cs: Seq<ParsedView>, i: int, j: int, line: int, c: Seq<char>, f: Seq<char>)
    requires
        0 <= i < cs.len(),
        0 <= j < cs[i].ast.len(),
        is_form_of(cs[i].ast[j], "define-public"@) || is_form_of(cs[i].ast[j], "define-private"@)
            || is_form_of(cs[i].ast[j], "define-read-only"@),
        fn_parts(cs[i].ast[j]) is Some,
        makes_call(cs[i].ast[j], line, c, f),
    ensures
        project_calls(cs).contains(EdgeView {
            caller_contract: cs[i].name,
            caller_function: def_name(cs[i].ast[j]),
            callee_contract: c,
            callee_function: f,
            line: line,
        }),
{
    let t = cs[i].ast[j];
    let name = def_name(t);
    assert(defined_name(t) == Some(name));
    let e = EdgeView { caller_contract: cs[i].name, caller_function: name, callee_contract: c, callee_function: f, line: line };
    lemma_makes_call(t, line, c, f, cs[i].name, name);
    lemma_contract_calls(cs[i].ast, j, cs[i].name, name, e);
    lemma_project_calls(cs, i, e);
}

// ---------------------------------------------------------------------------
// Integer underflow

/// `t` is, or holds at any depth, an `(asserts! (op ...) ...)` with `op` one
/// of `>=`, `<=`, `>`, `<`: a bounds check.
pub open spec fn holds_comparison_assert(t: Tree) -> bool
    decreases t,
{
    match t {
        Tree::Atom(_, _) => false,
        Tree::List(ch, _) => {
            ||| (head_of(ch) == Some("asserts!"@) && ch.len() > 1 && ch[1] is List && {
                let op = head_of(ch[1]->List_0);
                op == Some(">="@) || op == Some("<="@) || op == Some(">"@) || op == Some("<"@)
            })
            ||| exists|i: int| #![trigger ch[i]] 0 <= i < ch.len() && holds_comparison_assert(ch[i])
        },
    }
}

proof fn lemma_no_comparison_seq(ns: Seq<Tree>, func: Seq<char>, g: Guards)
    requires
        !g.0,
        forall|k: int| #![trigger ns[k]] 0 <= k < ns.len() ==> !holds_comparison_assert(ns[k]),
    ensures
        !walk_seq(ns, func, g).1.0,
    decreases ns,
{
    if ns.len() > 0 {
        let d = ns.subrange(0, ns.len() - 1);
        assert forall|k: int| #![trigger d[k]] 0 <= k < d.len() implies !holds_comparison_assert(d[k]) by {
            assert(d[k] == ns[k]);
        }
        lemma_no_comparison_seq(d, func, g);
        let g1 = walk_seq(d, func, g).1;
        assert(!holds_comparison_assert(ns[ns.len() - 1]));
        lemma_no_comparison_node(ns[ns.len() - 1], func, g1);
    }
}

proof fn lemma_no_comparison_node(n: Tree, func: Seq<char>, g: Guards)
    requires
        !g.0,
        !holds_comparison_assert(n),
    ensures
        !walk_node(n, func, g).1.0,
    decreases n,
{
    match n {
        Tree::Atom(_, _) => {},
        Tree::List(ch, _) => {
            assert forall|k: int| #![trigger ch[k]] 0 <= k < ch.len() implies !holds_comparison_assert(ch[k]) by {
                if holds_comparison_assert(ch[k]) {
                    assert(0 <= k < ch.len() && holds_comparison_assert(ch[k]));
                }
            }
            lemma_no_comparison_seq(ch, func, g);
            assert(check_op(ch) is None);
        },
    }
}

/// A subtraction with no bounds check before it, at any depth, is reported: in
/// any run of nodes `a`, `x`, `b` walked with no bounds check passed yet, where
/// `x` is `(- ...)` and no node of `a` holds an `asserts!` whose condition is a
/// `>=`, `<=`, `>` or `<` comparison, an "Integer Underflow" finding of
/// severity High names `x`'s line. An `asserts!` on anything else, such as
/// `(asserts! (is-eq tx-sender owner) ...)`, does not silence it.
pub proof fn law_subtraction_without_bounds_check_is_reported(a: Seq<Tree>, x: Tree, b: Seq<Tree>, func: Seq<char>, g: Guards)
    requires
        !g.0,
        forall|k: int| #![trigger a[k]] 0 <= k < a.len() ==> !holds_comparison_assert(a[k]),
        x is List,
        head_of(x->List_0) == Some("-"@),
    ensures
        exists|k: int| 0 <= k < walk_seq(a.push(x) + b, func, g).0.len() && {
            let fnd = #[trigger] walk_seq(a.push(x) + b, func, g).0[k];
            &&& fnd.kind == "Integer Underflow"@
            &&& fnd.severity == Severity::High
            &&& fnd.function_name == func
            &&& fnd.line == x.line()
        },
{
    lemma_walk_seq_append(a.push(x), b, func, g);
    let ax = a.push(x);
    assert(ax.subrange(0, ax.len() - 1) =~= a);
    assert(ax[ax.len() - 1] == x);
    lemma_no_comparison_seq(a, func, g);
    let (fa, g1) = walk_seq(a, func, g);
    let (fx, g2) = walk_node(x, func, g1);
    assert(fx[0] == integer_overflow::underflow_finding(func, x.line()));
    let all = walk_seq(a.push(x) + b, func, g).0;
    assert(all == fa + fx + walk_seq(b, func, g2).0);
    assert(all[fa.len() as int] == fx[0]);
}

/// The same for a whole function: a `(- ...)` among the top-level forms of a
/// named function's body with no bounds check before it gives an underflow
/// finding on its line.
pub proof fn law_function_subtraction_without_bounds_check_is_reported(t: Tree, a: Seq<Tree>, x: Tree, b: Seq<Tree>)
    requires
        fn_parts(t) is Some,
        def_body(t) == a.push(x) + b,
        forall|k: int| #![trigger a[k]] 0 <= k < a.len() ==> !holds_comparison_assert(a[k]),
        x is List,
        head_of(x->List_0) == Some("-"@),
    ensures
        integer_overflow::function_findings(t) is Some,
        exists|k: int| 0 <= k < integer_overflow::function_findings(t)->0.len() && {
            let fnd = #[trigger] integer_overflow::function_findings(t)->0[k];
            &&& fnd.kind == "Integer Underflow"@
            &&& fnd.function_name == def_name(t)
            &&& fnd.line == x.line()
        },
{
    law_subtraction_without_bounds_check_is_reported(a, x, b, def_name(t), (false, false));
    let fs = integer_overflow::function_findings(t)->0;
    assert(fs == walk_seq(a.push(x) + b, def_name(t), (false, false)).0);
    let k = choose|k: int| 0 <= k < walk_seq(a.push(x) + b, def_name(t), (false, false)).0.len() && {
        let fnd = #[trigger] walk_seq(a.push(x) + b, def_name(t), (false, false)).0[k];
        &&& fnd.kind == "Integer Underflow"@
        &&& fnd.severity == Severity::High
        &&& fnd.function_name == def_name(t)
        &&& fnd.line == x.line()
    };
    assert(fs[k].kind == "Integer Underflow"@);
}

// ---------------------------------------------------------------------------
// Unchecked return values

/// A list headed by an external call whose result can fail: `contract-call?`,
/// `stx-transfer?`, `ft-transfer?` or `nft-transfer?`.
pub open spec fn is_external_call_list(t: Tree) -> bool {
    t is List && {
        let h = head_of(t->List_0);
        h == Some("contract-call?"@) || h == Some("stx-transfer?"@) || h == Some("ft-transfer?"@)
            || h == Some("nft-transfer?"@)
    }
}

/// The findings for the direct arguments `args` of a form that checks what it
/// wraps: an external call among them gives none, and every other argument
/// gives what it gives anywhere in a body.
pub open spec fn wrapped_args_findings(args: Seq<Tree>, func: Seq<char>) -> Seq<FindingView>
    decreases args.len(),
{
    if args.len() == 0 {
        seq![]
    } else {
        wrapped_args_findings(args.drop_last(), func) + if is_external_call_list(args.last()) {
            seq![]
        } else {
            unchecked_node(args.last(), func, false)
        }
    }
}

proof fn lemma_wrapped_args(args: Seq<Tree>, func: Seq<char>)
    ensures
        unchecked_seq(args, func, true) == wrapped_args_findings(args, func),
    decreases args.len(),
{
    if args.len() > 0 {
        let d = args.subrange(0, args.len() - 1);
        assert(d == args.drop_last());
        lemma_wrapped_args(d, func);
        let n = args[args.len() - 1];
        match n {
            Tree::Atom(_, _) => {},
            Tree::List(ch, _) => {
                if is_external_call_list(n) {
                    let h = head_of(ch)->0;
                    reveal_strlit("contract-call?");
                    reveal_strlit("stx-transfer?");
                    reveal_strlit("ft-transfer?");
                    reveal_strlit("nft-transfer?");
                    reveal_strlit("try!");
                    reveal_strlit("unwrap!");
                    reveal_strlit("unwrap-panic");
                    reveal_strlit("unwrap-err!");
                    reveal_strlit("match");
                    assert(h.len() >= 12);
                    assert(h[0] != 'u');
                    assert(!crate::detector::unchecked_returns::is_safe_wrapper(h));
                    assert(unchecked_node(n, func, true) == Seq::<FindingView>::empty());
                } else {
                    assert(unchecked_node(n, func, true) == unchecked_node(n, func, false));
                }
            },
        }
        assert(unchecked_node(n, func, true) == (if is_external_call_list(n) {
            Seq::<FindingView>::empty()
        } else {
            unchecked_node(n, func, false)
        }));
        assert(args.last() == n);
    }
}

/// The forms that check the result of what they wrap.
pub open spec fn checks_what_it_wraps(op: Seq<char>) -> bool {
    op == "try!"@ || op == "unwrap!"@ || op == "unwrap-panic"@ || op == "unwrap-err!"@ || op == "match"@
}

/// A form `try!`, `unwrap!`, `unwrap-panic`, `unwrap-err!` or `match` checks
/// the result of what it wraps: an external call that is one of its direct
/// arguments is never reported, and its other arguments are reported as they
/// would be anywhere, whether or not the form itself stands inside another
/// such form.
pub proof fn law_wrapped_calls_are_checked(ch: Seq<Tree>, line: int, func: Seq<char>, inside: bool)
    requires
        ch.len() > 0,
        head_of(ch) is Some,
        checks_what_it_wraps(head_of(ch)->0),
    ensures
        unchecked_node(Tree::List(ch, line), func, inside) == wrapped_args_findings(ch.subrange(1, ch.len() as int), func),
{
    lemma_wrapped_args(ch.subrange(1, ch.len() as int), func);
}

// ---------------------------------------------------------------------------
// Trait dispatch

/// The state mutators: `map-set`, `map-delete`, `map-insert`, `var-set`.
pub open spec fn mutates_state(op: Seq<char>) -> bool {
    op == "map-set"@ || op == "map-delete"@ || op == "map-insert"@ || op == "var-set"@
}

/// `t` is, or holds at any depth, a `(contract-call? p ...)` through one of the
/// trait parameters `params` (not inside another `contract-call?` or inside a
/// state mutation, whose arguments are not searched).
pub open spec fn reaches_trait_call(t: Tree, params: Seq<Seq<char>>) -> bool
    decreases t,
{
    match t {
        Tree::Atom(_, _) => false,
        Tree::List(ch, _) => {
            ||| (head_of(ch) == Some("contract-call?"@) && atom_at(ch, 1) is Some && params.contains(atom_at(ch, 1)->0))
            ||| (head_of(ch) != Some("contract-call?"@) && !(head_of(ch) is Some && mutates_state(head_of(ch)->0))
                && exists|i: int| #![trigger ch[i]] 0 <= i < ch.len() && reaches_trait_call(ch[i], params))
        },
    }
}

proof fn lemma_dispatch_seq_monotone(ns: Seq<Tree>, func: Seq<char>, params: Seq<Seq<char>>, st: (bool, int))
    ensures
        st.0 ==> dispatch_seq(ns, func, params, st).0.0,
        (exists|k: int| #![trigger ns[k]] 0 <= k < ns.len() && reaches_trait_call(ns[k], params))
            ==> dispatch_seq(ns, func, params, st).0.0,
    decreases ns,
{
    if ns.len() > 0 {
        let d = ns.subrange(0, ns.len() - 1);
        lemma_dispatch_seq_monotone(d, func, params, st);
        let st1 = dispatch_seq(d, func, params, st).0;
        lemma_dispatch_node_monotone(ns[ns.len() - 1], func, params, st1);
        if exists|k: int| #![trigger ns[k]] 0 <= k < ns.len() && reaches_trait_call(ns[k], params) {
            let k = choose|k: int| #![trigger ns[k]] 0 <= k < ns.len() && reaches_trait_call(ns[k], params);
            if k < ns.len() - 1 {
                assert(d[k] == ns[k]);
            }
        }
    }
}

proof fn lemma_dispatch_node_monotone(n: Tree, func: Seq<char>, params: Seq<Seq<char>>, st: (bool, int))
    ensures
        st.0 ==> dispatch_node(n, func, params, st).0.0,
        reaches_trait_call(n, params) ==> dispatch_node(n, func, params, st).0.0,
    decreases n,
{
    match n {
        Tree::Atom(_, _) => {},
        Tree::List(ch, _) => {
            let h = head_of(ch);
            if h == Some("contract-call?"@) {
            } else if h is Some && crate::detector::is_state_mutator(h->0) {
                assert(mutates_state(h->0));
            } else if h is Some && trait_dispatch::is_walked_form(h->0) {
                let rest = ch.subrange(1, ch.len() as int);
                lemma_dispatch_seq_monotone(rest, func, params, st);
                if reaches_trait_call(n, params) {
                    let i = choose|i: int| #![trigger ch[i]] 0 <= i < ch.len() && reaches_trait_call(ch[i], params);
                    assert(ch[0] is Atom);
                    assert(i >= 1);
                    assert(rest[i - 1] == ch[i]);
                }
            } else {
                lemma_dispatch_seq_monotone(ch, func, params, st);
            }
        },
    }
}

proof fn lemma_dispatch_seq_append(x: Seq<Tree>, y: Seq<Tree>, func: Seq<char>, params: Seq<Seq<char>>, st: (bool, int))
    ensures
        dispatch_seq(x + y, func, params, st) == ({
            let (s1, a) = dispatch_seq(x, func, params, st);
            let (s2, b) = dispatch_seq(y, func, params, s1);
            (s2, a + b)
        }),
    decreases y.len(),
{
    if y.len() == 0 {
        assert(x + y =~= x);
        let (s1, a) = dispatch_seq(x, func, params, st);
        assert(a + Seq::<FindingView>::empty() =~= a);
    } else {
        let yp = y.subrange(0, y.len() - 1);
        lemma_dispatch_seq_append(x, yp, func, params, st);
        assert((x + y).subrange(0, (x + y).len() - 1) =~= x + yp);
        assert((x + y)[(x + y).len() - 1] == y[y.len() - 1]);
        let (s1, a) = dispatch_seq(x, func, params, st);
        let (s2, b) = dispatch_seq(yp, func, params, s1);
        let (s3, c) = dispatch_node(y[y.len() - 1], func, params, s2);
        assert(a + b + c =~= a + (b + c));
    }
}

/// Once a call through a trait parameter has been made, at any depth (inside
/// `try!`, `unwrap!`, `let` and the like too), every later state mutation is
/// reported: in any run of nodes `a`, `x`, `b`, where some node of `a` reaches
/// a `(contract-call? p ...)` with `p` among the trait parameters and `x` is a
/// `map-set`, `map-delete`, `map-insert` or `var-set`, a "Trait Dispatch
/// Reentrancy" finding of severity Critical names `x`'s line. A call seen stays
/// seen: walking any nodes never forgets it.
pub proof fn law_mutation_after_trait_call_is_reported(a: Seq<Tree>, x: Tree, b: Seq<Tree>, func: Seq<char>,
    params: Seq<Seq<char>>, st: (bool, int), k: int)
    requires
        0 <= k < a.len(),
        reaches_trait_call(a[k], params),
        x is List,
        head_of(x->List_0) is Some,
        mutates_state(head_of(x->List_0)->0),
    ensures
        st.0 ==> dispatch_seq(a, func, params, st).0.0,
        dispatch_seq(a, func, params, st).0.0,
        exists|j: int| 0 <= j < dispatch_seq(a.push(x) + b, func, params, st).1.len() && {
            let fnd = #[trigger] dispatch_seq(a.push(x) + b, func, params, st).1[j];
            &&& fnd.kind == "Trait Dispatch Reentrancy"@
            &&& fnd.severity == Severity::Critical
            &&& fnd.function_name == func
            &&& fnd.line == x.line()
        },
{
    lemma_dispatch_seq_monotone(a, func, params, st);
    assert(0 <= k < a.len() && reaches_trait_call(a[k], params));
    lemma_dispatch_seq_append(a.push(x), b, func, params, st);
    let ax = a.push(x);
    assert(ax.subrange(0, ax.len() - 1) =~= a);
    assert(ax[ax.len() - 1] == x);
    let (s1, fa) = dispatch_seq(a, func, params, st);
    let (s2, fx) = dispatch_node(x, func, params, s1);
    assert(crate::detector::is_state_mutator(head_of(x->List_0)->0));
    reveal_strlit("contract-call?");
    reveal_strlit("map-set");
    reveal_strlit("map-delete");
    reveal_strlit("map-insert");
    reveal_strlit("var-set");
    assert(head_of(x->List_0) != Some("contract-call?"@)) by {
        let h = head_of(x->List_0)->0;
        assert(h.len() <= 10);
    }
    assert(fx.len() == 1);
    let all = dispatch_seq(a.push(x) + b, func, params, st).1;
    assert(all == fa + fx + dispatch_seq(b, func, params, s2).1);
    assert(all[fa.len() as int] == fx[0]);
}

/// The same for a whole function with trait parameters: a state mutation among
/// the top-level forms of its body after a form that reaches a call through a
/// trait parameter is reported on its line.
pub proof fn law_function_mutation_after_trait_call_is_reported(t: Tree, a: Seq<Tree>, x: Tree, b: Seq<Tree>, k: int)
    requires
        fn_parts(t) is Some,
        sig_trait_params(t->List_0[1]).len() > 0,
        def_body(t) == a.push(x) + b,
        0 <= k < a.len(),
        reaches_trait_call(a[k], sig_trait_params(t->List_0[1])),
        x is List,
        head_of(x->List_0) is Some,
        mutates_state(head_of(x->List_0)->0),
    ensures
        trait_dispatch::function_findings(t) is Some,
        exists|j: int| 0 <= j < trait_dispatch::function_findings(t)->0.len() && {
            let fnd = #[trigger] trait_dispatch::function_findings(t)->0[j];
            &&& fnd.kind == "Trait Dispatch Reentrancy"@
            &&& fnd.function_name == def_name(t)
            &&& fnd.line == x.line()
        },
{
    let params = sig_trait_params(t->List_0[1]);
    law_mutation_after_trait_call_is_reported(a, x, b, def_name(t), params, (false, 0), k);
    let fs = trait_dispatch::function_findings(t)->0;
    assert(fs == dispatch_seq(a.push(x) + b, def_name(t), params, (false, 0)).1);
    let j = choose|j: int| 0 <= j < dispatch_seq(a.push(x) + b, def_name(t), params, (false, 0)).1.len() && {
        let fnd = #[trigger] dispatch_seq(a.push(x) + b, def_name(t), params, (false, 0)).1[j];
        &&& fnd.kind == "Trait Dispatch Reentrancy"@
        &&& fnd.severity == Severity::Critical
        &&& fnd.function_name == def_name(t)
        &&& fnd.line == x.line()
    };
    assert(fs[j].kind == "Trait Dispatch Reentrancy"@);
}

/// Lists other than calls and state mutations are transparent to the walk: a
/// list headed by any other name (`begin`, `let`, `if`, `try!`, `unwrap!`,
/// `ok`, ...) gives the findings and leaves the state that its arguments give,
/// walked in order from the same state; nesting a run of forms inside such a
/// list changes nothing.
pub proof fn law_other_lists_are_transparent(ch: Seq<Tree>, line: int, func: Seq<char>, params: Seq<Seq<char>>, st: (bool, int))
    requires
        ch.len() > 0,
        ch[0] is Atom,
        ch[0]->Atom_0 != "contract-call?"@,
        !mutates_state(ch[0]->Atom_0),
    ensures
        dispatch_node(Tree::List(ch, line), func, params, st) == dispatch_seq(ch.subrange(1, ch.len() as int), func, params, st),
{
    let rest = ch.subrange(1, ch.len() as int);
    let h = ch[0]->Atom_0;
    assert(head_of(ch) == Some(h));
    if !trait_dispatch::is_walked_form(h) {
        let first = ch.subrange(0, 1);
        assert(first + rest =~= ch);
        lemma_dispatch_seq_append(first, rest, func, params, st);
        assert(first.subrange(0, 0) =~= Seq::<Tree>::empty());
        assert(first[0] == ch[0]);
        assert(dispatch_seq(first.subrange(0, 0), func, params, st) == (st, Seq::<FindingView>::empty()));
        assert(dispatch_node(first[0], func, params, st) == (st, Seq::<FindingView>::empty()));
        assert(Seq::<FindingView>::empty() + Seq::<FindingView>::empty() =~= Seq::<FindingView>::empty());
        assert(dispatch_seq(first, func, params, st) == (st, Seq::<FindingView>::empty()));
        let (s2, b) = dispatch_seq(rest, func, params, st);
        assert(Seq::<FindingView>::empty() + b =~= b);
    }
}

} // verus!
