use vstd::prelude::*;
use crate::ast::{Tree, head_of, is_form_of};
use crate::detector::reentrancy::{is_external_call, seq_walk, node_walk, bindings_walk, is_call_list};
use crate::detector::integer_overflow::{walk_seq, walk_node, check_op, is_upper_comparison, after_check, overflow_finding, underflow_finding, Guards};
use crate::detector::cross_contract::{cross_seq, cross_node, cross_bindings, after_call, CrossState};
use crate::callgraph::atom_or_unknown;
use crate::text::trim_dots;
use crate::analyzer::{FindingView, Severity, analyze_spec};
use crate::callgraph::{EdgeView, FnId, caller_of, callee_of, calls_from, calls_to};
use crate::detector::{cross_contract, fn_parts, def_name, def_body, reentrancy, integer_overflow, access_control, unchecked_returns, trait_dispatch};

verus! {

/// The reentrancy detector reports the nodes of a concatenation as it
/// reports each part, one after the other.
pub proof fn law_reentrancy_compositional(a: Seq<Tree>, b: Seq<Tree>)
    ensures
        reentrancy::detect_spec(a + b) == reentrancy::detect_spec(a) + reentrancy::detect_spec(b),
    decreases b.len(),
{
    if b.len() == 0 {
        assert(a + b =~= a);
        assert(reentrancy::detect_spec(a) + reentrancy::detect_spec(b) =~= reentrancy::detect_spec(a));
    } else {
        law_reentrancy_compositional(a, b.drop_last());
        assert((a + b).drop_last() =~= a + b.drop_last());
        assert((a + b).last() == b.last());
        assert(reentrancy::detect_spec(a + b) =~= reentrancy::detect_spec(a) + reentrancy::detect_spec(b));
    }
}

/// The integer detector reports the nodes of a concatenation as it reports
/// each part, one after the other.
pub proof fn law_integer_compositional(a: Seq<Tree>, b: Seq<Tree>)
    ensures
        integer_overflow::detect_spec(a + b) == integer_overflow::detect_spec(a) + integer_overflow::detect_spec(b),
    decreases b.len(),
{
    if b.len() == 0 {
        assert(a + b =~= a);
        assert(integer_overflow::detect_spec(a) + integer_overflow::detect_spec(b) =~= integer_overflow::detect_spec(a));
    } else {
        law_integer_compositional(a, b.drop_last());
        assert((a + b).drop_last() =~= a + b.drop_last());
        assert((a + b).last() == b.last());
        assert(integer_overflow::detect_spec(a + b) =~= integer_overflow::detect_spec(a) + integer_overflow::detect_spec(b));
    }
}

/// The access control detector reports the nodes of a concatenation as it
/// reports each part, one after the other.
pub proof fn law_access_control_compositional(a: Seq<Tree>, b: Seq<Tree>)
    ensures
        access_control::detect_spec(a + b) == access_control::detect_spec(a) + access_control::detect_spec(b),
    decreases b.len(),
{
    if b.len() == 0 {
        assert(a + b =~= a);
        assert(access_control::detect_spec(a) + access_control::detect_spec(b) =~= access_control::detect_spec(a));
    } else {
        law_access_control_compositional(a, b.drop_last());
        assert((a + b).drop_last() =~= a + b.drop_last());
        assert((a + b).last() == b.last());
        assert(access_control::detect_spec(a + b) =~= access_control::detect_spec(a) + access_control::detect_spec(b));
    }
}

/// The unchecked-return detector reports the nodes of a concatenation as it
/// reports each part, one after the other.
pub proof fn law_unchecked_compositional(a: Seq<Tree>, b: Seq<Tree>)
    ensures
        unchecked_returns::detect_spec(a + b) == unchecked_returns::detect_spec(a) + unchecked_returns::detect_spec(b),
    decreases b.len(),
{
    if b.len() == 0 {
        assert(a + b =~= a);
        assert(unchecked_returns::detect_spec(a) + unchecked_returns::detect_spec(b) =~= unchecked_returns::detect_spec(a));
    } else {
        law_unchecked_compositional(a, b.drop_last());
        assert((a + b).drop_last() =~= a + b.drop_last());
        assert((a + b).last() == b.last());
        assert(unchecked_returns::detect_spec(a + b) =~= unchecked_returns::detect_spec(a) + unchecked_returns::detect_spec(b));
    }
}

/// The trait dispatch detector reports the nodes of a concatenation as it
/// reports each part, one after the other.
pub proof fn law_trait_dispatch_compositional(a: Seq<Tree>, b: Seq<Tree>)
    ensures
        trait_dispatch::detect_spec(a + b) == trait_dispatch::detect_spec(a) + trait_dispatch::detect_spec(b),
    decreases b.len(),
{
    if b.len() == 0 {
        assert(a + b =~= a);
        assert(trait_dispatch::detect_spec(a) + trait_dispatch::detect_spec(b) =~= trait_dispatch::detect_spec(a));
    } else {
        law_trait_dispatch_compositional(a, b.drop_last());
        assert((a + b).drop_last() =~= a + b.drop_last());
        assert((a + b).last() == b.last());
        assert(trait_dispatch::detect_spec(a + b) =~= trait_dispatch::detect_spec(a) + trait_dispatch::detect_spec(b));
    }
}

/// Private and read-only functions are ignored: where no top-level node is a
/// `define-public`, neither the reentrancy nor the access control detector
/// reports anything.
pub proof fn law_only_public_functions(ns: Seq<Tree>)
    requires
        forall|i: int| 0 <= i < ns.len() ==> !is_form_of(#[trigger] ns[i], "define-public"@),
    ensures
        reentrancy::detect_spec(ns) == Seq::<FindingView>::empty(),
        access_control::detect_spec(ns) == Seq::<FindingView>::empty(),
    decreases ns.len(),
{
    if ns.len() > 0 {
        assert(!is_form_of(ns[ns.len() - 1], "define-public"@));
        law_only_public_functions(ns.drop_last());
    }
}

/// The edges from `a` to `b` in `es`, in order.
pub open spec fn calls_between(es: Seq<EdgeView>, a: FnId, b: FnId) -> Seq<EdgeView>
    decreases es.len(),
{
    if es.len() == 0 {
        seq![]
    } else {
        calls_between(es.drop_last(), a, b) + if caller_of(es.last()) == a && callee_of(es.last()) == b {
            seq![es.last()]
        } else {
            seq![]
        }
    }
}

/// The edges of `es` whose callee is `b`, in order.
pub open spec fn only_to(es: Seq<EdgeView>, b: FnId) -> Seq<EdgeView>
    decreases es.len(),
{
    if es.len() == 0 {
        seq![]
    } else {
        only_to(es.drop_last(), b) + if callee_of(es.last()) == b { seq![es.last()] } else { seq![] }
    }
}

/// The edges of `es` whose caller is `a`, in order.
pub open spec fn only_from(es: Seq<EdgeView>, a: FnId) -> Seq<EdgeView>
    decreases es.len(),
{
    if es.len() == 0 {
        seq![]
    } else {
        only_from(es.drop_last(), a) + if caller_of(es.last()) == a { seq![es.last()] } else { seq![] }
    }
}

proof fn lemma_only_to_add(s: Seq<EdgeView>, t: Seq<EdgeView>, b: FnId)
    ensures
        only_to(s + t, b) == only_to(s, b) + only_to(t, b),
        only_from(s + t, b) == only_from(s, b) + only_from(t, b),
    decreases t.len(),
{
    if t.len() == 0 {
        assert(s + t =~= s);
        assert(only_to(s, b) + only_to(t, b) =~= only_to(s, b));
        assert(only_from(s, b) + only_from(t, b) =~= only_from(s, b));
    } else {
        lemma_only_to_add(s, t.drop_last(), b);
        assert((s + t).drop_last() =~= s + t.drop_last());
        assert((s + t).last() == t.last());
        assert(only_to(s + t, b) =~= only_to(s, b) + only_to(t, b));
        assert(only_from(s + t, b) =~= only_from(s, b) + only_from(t, b));
    }
}

/// What `calls_made_by(a)` and `callers_of(b)` report agree: the calls that
/// `a` makes to `b` are exactly the calls into `b` that come from `a`, in the
/// same order.
pub proof fn law_call_lookups_agree(es: Seq<EdgeView>, a: FnId, b: FnId)
    ensures
        only_to(calls_from(es, a), b) == calls_between(es, a, b),
        only_from(calls_to(es, b), a) == calls_between(es, a, b),
    decreases es.len(),
{
    if es.len() > 0 {
        let d = es.drop_last();
        let e = es.last();
        law_call_lookups_agree(d, a, b);
        let x = if caller_of(e) == a { seq![e] } else { seq![] };
        let y = if callee_of(e) == b { seq![e] } else { seq![] };
        lemma_only_to_add(calls_from(d, a), x, b);
        lemma_only_to_add(calls_to(d, b), y, a);
        assert(only_to(x, b) =~= if caller_of(e) == a && callee_of(e) == b { seq![e] } else { seq![] }) by {
            if caller_of(e) == a {
                assert(x.drop_last() =~= Seq::<EdgeView>::empty());
                assert(only_to(x.drop_last(), b) == Seq::<EdgeView>::empty());
                assert(x.last() == e);
            } else {
                assert(x =~= Seq::<EdgeView>::empty());
            }
        }
        assert(only_from(y, a) =~= if caller_of(e) == a && callee_of(e) == b { seq![e] } else { seq![] }) by {
            if callee_of(e) == b {
                assert(y.drop_last() =~= Seq::<EdgeView>::empty());
                assert(only_from(y.drop_last(), a) == Seq::<EdgeView>::empty());
                assert(y.last() == e);
            } else {
                assert(y =~= Seq::<EdgeView>::empty());
            }
        }
    }
}


/// No list, at any depth, is headed by an external call.
pub open spec fn no_call(t: Tree) -> bool
    decreases t,
{
    match t {
        Tree::Atom(_, _) => true,
        Tree::List(ch, _) => {
            &&& !(head_of(ch) is Some && is_external_call(head_of(ch)->0))
            &&& forall|i: int| 0 <= i < ch.len() ==> no_call(#[trigger] ch[i])
        },
    }
}

/// A reentrancy finding about function `func`.
pub open spec fn reentrancy_of(f: FindingView, func: Seq<char>) -> bool {
    &&& f.function_name == func
    &&& f.kind == "Reentrancy"@
    &&& f.severity == Severity::Critical
}

proof fn lemma_walk_seq(ns: Seq<Tree>, func: Seq<char>, st: (bool, int))
    ensures
        forall|i: int| 0 <= i < seq_walk(ns, func, st).1.len() ==> reentrancy_of(#[trigger] seq_walk(ns, func, st).1[i], func),
        (forall|i: int| 0 <= i < ns.len() ==> no_call(#[trigger] ns[i])) && !st.0
            ==> !(seq_walk(ns, func, st).0).0 && seq_walk(ns, func, st).1.len() == 0,
        st.0 ==> (seq_walk(ns, func, st).0).0,
        !(seq_walk(ns, func, st).0).0 ==> seq_walk(ns, func, st).1.len() == 0 && seq_walk(ns, func, st).0 == st,
    decreases ns,
{
    if ns.len() > 0 {
        let d = ns.subrange(0, ns.len() - 1);
        lemma_walk_seq(d, func, st);
        let (st1, a) = seq_walk(d, func, st);
        lemma_walk_node(ns[ns.len() - 1], func, st1);
        let (st2, b) = node_walk(ns[ns.len() - 1], func, st1);
        assert(seq_walk(ns, func, st).1 == a + b);
        assert forall|i: int| 0 <= i < (a + b).len() implies reentrancy_of(#[trigger] (a + b)[i], func) by {
            if i < a.len() {
                assert((a + b)[i] == a[i]);
            } else {
                assert((a + b)[i] == b[i - a.len()]);
            }
        }
        if (forall|i: int| 0 <= i < ns.len() ==> no_call(#[trigger] ns[i])) && !st.0 {
            assert forall|i: int| 0 <= i < d.len() implies no_call(#[trigger] d[i]) by {
                assert(d[i] == ns[i]);
            }
        }
    }
}

proof fn lemma_walk_bindings(bs: Seq<Tree>, func: Seq<char>, st: (bool, int))
    ensures
        forall|i: int| 0 <= i < bindings_walk(bs, func, st).1.len() ==> reentrancy_of(#[trigger] bindings_walk(bs, func, st).1[i], func),
        (forall|i: int| 0 <= i < bs.len() ==> no_call(#[trigger] bs[i])) && !st.0
            ==> !(bindings_walk(bs, func, st).0).0 && bindings_walk(bs, func, st).1.len() == 0,
        st.0 ==> (bindings_walk(bs, func, st).0).0,
        !(bindings_walk(bs, func, st).0).0 ==> bindings_walk(bs, func, st).1.len() == 0 && bindings_walk(bs, func, st).0 == st,
    decreases bs,
{
    if bs.len() > 0 {
        let d = bs.subrange(0, bs.len() - 1);
        lemma_walk_bindings(d, func, st);
        let (st1, a) = bindings_walk(d, func, st);
        let b = bs[bs.len() - 1];
        if b is List && b->List_0.len() > 1 {
            let inner = b->List_0.subrange(1, b->List_0.len() as int);
            lemma_walk_seq(inner, func, st1);
            if (forall|i: int| 0 <= i < bs.len() ==> no_call(#[trigger] bs[i])) && !st.0 {
                assert(no_call(b));
                assert forall|i: int| 0 <= i < inner.len() implies no_call(#[trigger] inner[i]) by {
                    assert(inner[i] == b->List_0[i + 1]);
                }
            }
        }
        let (st2, c) = bindings_walk(bs, func, st);
        let c2 = bindings_walk(bs, func, st).1.subrange(a.len() as int, bindings_walk(bs, func, st).1.len() as int);
        assert forall|i: int| 0 <= i < bindings_walk(bs, func, st).1.len() implies reentrancy_of(#[trigger] bindings_walk(bs, func, st).1[i], func) by {
            let all = bindings_walk(bs, func, st).1;
            if i >= a.len() && b is List && b->List_0.len() > 1 {
                let inner = b->List_0.subrange(1, b->List_0.len() as int);
                assert(all[i] == seq_walk(inner, func, st1).1[i - a.len()]);
            }
        }
        if (forall|i: int| 0 <= i < bs.len() ==> no_call(#[trigger] bs[i])) && !st.0 {
            assert forall|i: int| 0 <= i < d.len() implies no_call(#[trigger] d[i]) by {
                assert(d[i] == bs[i]);
            }
        }
    }
}

proof fn lemma_walk_node(n: Tree, func: Seq<char>, st: (bool, int))
    ensures
        forall|i: int| 0 <= i < node_walk(n, func, st).1.len() ==> reentrancy_of(#[trigger] node_walk(n, func, st).1[i], func),
        no_call(n) && !st.0 ==> !(node_walk(n, func, st).0).0 && node_walk(n, func, st).1.len() == 0,
        st.0 ==> (node_walk(n, func, st).0).0,
        !(node_walk(n, func, st).0).0 ==> node_walk(n, func, st).1.len() == 0 && node_walk(n, func, st).0 == st,
    decreases n,
{
    match n {
        Tree::Atom(_, _) => {},
        Tree::List(ch, line) => {
            let h = head_of(ch);
            if h is Some && is_external_call(h->0) {
            } else if h is Some && reentrancy::is_unwrapper(h->0) {
                let st1 = if ch.len() > 1 && is_call_list(ch[1]) { (true, line) } else { st };
                let rest = ch.subrange(1, ch.len() as int);
                lemma_walk_seq(rest, func, st1);
                assert(node_walk(n, func, st) == seq_walk(rest, func, st1));
                if no_call(n) && !st.0 {
                    if ch.len() > 1 {
                        assert(no_call(ch[1]));
                    }
                    assert forall|i: int| 0 <= i < rest.len() implies no_call(#[trigger] rest[i]) by {
                        assert(rest[i] == ch[i + 1]);
                    }
                }
            } else if h is Some && crate::detector::is_state_mutator(h->0) {
                if st.0 {
                    let f = reentrancy::reentrancy_finding(func, h->0, line, st.1);
                    assert(node_walk(n, func, st).1 == seq![f]);
                    assert(reentrancy_of(f, func));
                    assert forall|i: int| 0 <= i < node_walk(n, func, st).1.len()
                        implies reentrancy_of(#[trigger] node_walk(n, func, st).1[i], func) by {
                        assert(node_walk(n, func, st).1[i] == f);
                    }
                }
            } else if h is Some && reentrancy::is_let_form(h->0) {
                if ch.len() > 1 {
                    let st0 = st;
                    let (st1, a) = if ch[1] is List {
                        bindings_walk(ch[1]->List_0, func, st)
                    } else {
                        (st, seq![])
                    };
                    if ch[1] is List {
                        lemma_walk_bindings(ch[1]->List_0, func, st);
                        if no_call(n) && !st.0 {
                            assert(no_call(ch[1]));
                        }
                    }
                    if ch.len() > 2 {
                        let rest = ch.subrange(2, ch.len() as int);
                        lemma_walk_seq(rest, func, st1);
                        if no_call(n) && !st.0 {
                            assert forall|i: int| 0 <= i < rest.len() implies no_call(#[trigger] rest[i]) by {
                                assert(rest[i] == ch[i + 2]);
                            }
                        }
                        let b = seq_walk(rest, func, st1).1;
                        assert forall|i: int| 0 <= i < (a + b).len() implies reentrancy_of(#[trigger] (a + b)[i], func) by {
                            if i < a.len() {
                                assert((a + b)[i] == a[i]);
                            } else {
                                assert((a + b)[i] == b[i - a.len()]);
                            }
                        }
                    } else {
                        let b = Seq::<FindingView>::empty();
                        assert(a + b =~= a);
                    }
                    assert(forall|i: int| 0 <= i < node_walk(n, func, st).1.len() ==> reentrancy_of(#[trigger] node_walk(n, func, st).1[i], func));
                }
            } else if h is Some && reentrancy::is_block_form(h->0) {
                let rest = ch.subrange(1, ch.len() as int);
                lemma_walk_seq(rest, func, st);
                assert(node_walk(n, func, st) == seq_walk(rest, func, st));
                if no_call(n) && !st.0 {
                    assert forall|i: int| 0 <= i < rest.len() implies no_call(#[trigger] rest[i]) by {
                        assert(rest[i] == ch[i + 1]);
                    }
                }
            } else {
                lemma_walk_seq(ch, func, st);
                assert(node_walk(n, func, st) == seq_walk(ch, func, st));
                assert(forall|i: int| 0 <= i < node_walk(n, func, st).1.len() ==> reentrancy_of(#[trigger] node_walk(n, func, st).1[i], func));
            }
        },
    }
}

/// The reentrancy walk over nodes `ns` (whose findings the executable walk
/// appends to those it had) reports only reentrancy findings about `func`,
/// never clears its flag once an external call has been seen, and, while it
/// has seen none, reports nothing and leaves its state as it was.
pub proof fn law_reentrancy_walk(ns: Seq<Tree>, func: Seq<char>, st: (bool, int))
    ensures
        forall|i: int| 0 <= i < seq_walk(ns, func, st).1.len() ==> reentrancy_of(#[trigger] seq_walk(ns, func, st).1[i], func),
        st.0 ==> (seq_walk(ns, func, st).0).0,
        !(seq_walk(ns, func, st).0).0 ==> seq_walk(ns, func, st).1.len() == 0 && seq_walk(ns, func, st).0 == st,
{
    lemma_walk_seq(ns, func, st);
}

/// Checks-effects-interactions: a function that makes no external call has
/// no reentrancy finding.
pub proof fn law_no_external_call_no_reentrancy(t: Tree)
    requires
        fn_parts(t) is Some,
        forall|i: int| 0 <= i < def_body(t).len() ==> no_call(#[trigger] def_body(t)[i]),
    ensures
        reentrancy::function_findings(t) == Some(Seq::<FindingView>::empty()),
{
    let name = def_name(t);
    let body = def_body(t);
    assert(fn_parts(t) == Some((name, body)));
    assert(forall|i: int| 0 <= i < body.len() ==> no_call(#[trigger] body[i]));
    lemma_walk_seq(body, name, (false, 0));
    assert(seq_walk(body, name, (false, 0)).1 =~= Seq::<FindingView>::empty());
}

/// Every reentrancy finding names a `define-public` function of the nodes.
pub proof fn law_reentrancy_names_public_functions(ns: Seq<Tree>)
    ensures
        forall|k: int| 0 <= k < reentrancy::detect_spec(ns).len() ==> exists|j: int| 0 <= j < ns.len()
            && is_form_of(#[trigger] ns[j], "define-public"@) && fn_parts(ns[j]) is Some
            && def_name(ns[j]) == (#[trigger] reentrancy::detect_spec(ns)[k]).function_name,
    decreases ns.len(),
{
    if ns.len() > 0 {
        let d = ns.drop_last();
        let t = ns.last();
        law_reentrancy_names_public_functions(d);
        let rest = reentrancy::detect_spec(d);
        assert forall|k: int| 0 <= k < reentrancy::detect_spec(ns).len() implies exists|j: int| 0 <= j < ns.len()
            && is_form_of(#[trigger] ns[j], "define-public"@) && fn_parts(ns[j]) is Some
            && def_name(ns[j]) == (#[trigger] reentrancy::detect_spec(ns)[k]).function_name by {
            let all = reentrancy::detect_spec(ns);
            if k < rest.len() {
                assert(all[k] == rest[k]);
                let j = choose|j: int| 0 <= j < d.len()
                    && is_form_of(#[trigger] d[j], "define-public"@) && fn_parts(d[j]) is Some
                    && def_name(d[j]) == rest[k].function_name;
                assert(ns[j] == d[j]);
            } else {
                let (name, body) = fn_parts(t)->0;
                lemma_walk_seq(body, name, (false, 0));
                assert(all[k] == seq_walk(body, name, (false, 0)).1[k - rest.len()]);
                assert(ns[ns.len() - 1] == t);
            }
        }
    }
}

/// Guards once set stay set; while the bounds guard is set only additions are
/// reported, and while the upper-bound guard is set only subtractions.
pub proof fn law_guards_silence(ns: Seq<Tree>, func: Seq<char>, g: Guards)
    ensures
        g.0 ==> walk_seq(ns, func, g).1.0,
        g.1 ==> walk_seq(ns, func, g).1.1,
        g.0 ==> forall|k: int| 0 <= k < walk_seq(ns, func, g).0.len()
            ==> #[trigger] walk_seq(ns, func, g).0[k] == overflow_finding(func, walk_seq(ns, func, g).0[k].line),
        g.1 ==> forall|k: int| 0 <= k < walk_seq(ns, func, g).0.len()
            ==> #[trigger] walk_seq(ns, func, g).0[k] == underflow_finding(func, walk_seq(ns, func, g).0[k].line),
    decreases ns,
{
    if ns.len() > 0 {
        let pre = ns.subrange(0, ns.len() - 1);
        law_guards_silence(pre, func, g);
        let (a, g1) = walk_seq(pre, func, g);
        lemma_guards_node(ns[ns.len() - 1], func, g1);
        let (b, g2) = walk_node(ns[ns.len() - 1], func, g1);
        assert forall|k: int| 0 <= k < (a + b).len() implies #[trigger] (a + b)[k] == a[k] || (a + b)[k] == b[k - a.len()] by {
            if k < a.len() {
                assert((a + b)[k] == a[k]);
            } else {
                assert((a + b)[k] == b[k - a.len()]);
            }
        }
    }
}

proof fn lemma_guards_node(n: Tree, func: Seq<char>, g: Guards)
    ensures
        g.0 ==> walk_node(n, func, g).1.0,
        g.1 ==> walk_node(n, func, g).1.1,
        g.0 ==> forall|k: int| 0 <= k < walk_node(n, func, g).0.len()
            ==> #[trigger] walk_node(n, func, g).0[k] == overflow_finding(func, walk_node(n, func, g).0[k].line),
        g.1 ==> forall|k: int| 0 <= k < walk_node(n, func, g).0.len()
            ==> #[trigger] walk_node(n, func, g).0[k] == underflow_finding(func, walk_node(n, func, g).0[k].line),
    decreases n,
{
    match n {
        Tree::List(ch, line) => {
            law_guards_silence(ch, func, g);
            let (inner, g1) = walk_seq(ch, func, g);
            let here = if head_of(ch) == Some("-"@) && !g.0 {
                seq![underflow_finding(func, line)]
            } else if head_of(ch) == Some("+"@) && !g.1 {
                seq![overflow_finding(func, line)]
            } else {
                seq![]
            };
            assert(walk_node(n, func, g).0 == here + inner);
            assert forall|k: int| 0 <= k < (here + inner).len() implies #[trigger] (here + inner)[k] == here[k] || (here + inner)[k] == inner[k - here.len()] by {
                if k < here.len() {
                    assert((here + inner)[k] == here[k]);
                } else {
                    assert((here + inner)[k] == inner[k - here.len()]);
                }
            }
        },
        Tree::Atom(_, _) => {},
    }
}

/// Walking two runs of nodes one after the other is walking the first, then
/// the second from the guards the first leaves.
pub proof fn lemma_walk_seq_append(x: Seq<Tree>, y: Seq<Tree>, func: Seq<char>, g: Guards)
    ensures
        walk_seq(x + y, func, g) == ({
            let (a, g1) = walk_seq(x, func, g);
            let (b, g2) = walk_seq(y, func, g1);
            (a + b, g2)
        }),
    decreases y.len(),
{
    if y.len() == 0 {
        assert(x + y =~= x);
        let (a, g1) = walk_seq(x, func, g);
        assert(a + Seq::<FindingView>::empty() =~= a);
    } else {
        let yp = y.subrange(0, y.len() - 1);
        lemma_walk_seq_append(x, yp, func, g);
        assert((x + y).subrange(0, (x + y).len() - 1) =~= x + yp);
        assert((x + y)[(x + y).len() - 1] == y[y.len() - 1]);
        let (a, g1) = walk_seq(x, func, g);
        let (b, g2) = walk_seq(yp, func, g1);
        let (c, g3) = walk_node(y[y.len() - 1], func, g2);
        assert(a + b + c =~= a + (b + c));
    }
}

/// A bounds check before a subtraction silences it, and an upper-bound check
/// before an addition silences that: after a function body `a` and an
/// `asserts!` comparison `c`, the rest `b` of the body is reported from the
/// guards `c` sets, under which no subtraction (and, after an upper bound,
/// no addition) is reported.
pub proof fn law_bounds_check_silences_later_underflow(a: Seq<Tree>, c: Tree, b: Seq<Tree>, func: Seq<char>)
    requires
        c is List,
        check_op(c->List_0) is Some,
    ensures
        ({
            let (fa, s) = walk_seq(a.push(c), func, (false, false));
            &&& s.0
            &&& is_upper_comparison(check_op(c->List_0)->0) ==> s.1
            &&& walk_seq(a.push(c) + b, func, (false, false)).0 == fa + walk_seq(b, func, s).0
            &&& forall|k: int| 0 <= k < walk_seq(b, func, s).0.len()
                ==> #[trigger] walk_seq(b, func, s).0[k] == overflow_finding(func, walk_seq(b, func, s).0[k].line)
            &&& s.1 ==> walk_seq(b, func, s).0.len() == 0
        }),
{
    lemma_walk_seq_append(a.push(c), b, func, (false, false));
    let ac = a.push(c);
    assert(ac.subrange(0, ac.len() - 1) =~= a);
    assert(ac[ac.len() - 1] == c);
    let (fa0, g1) = walk_seq(a, func, (false, false));
    let op = check_op(c->List_0)->0;
    assert(walk_node(c, func, g1).1 == after_check(walk_seq(c->List_0, func, g1).1, op));
    let (fa, s) = walk_seq(ac, func, (false, false));
    assert(s == walk_node(c, func, g1).1);
    law_guards_silence(b, func, s);
    let fb = walk_seq(b, func, s).0;
    if s.1 && fb.len() > 0 {
        assert(fb[0] == overflow_finding(func, fb[0].line));
        assert(fb[0] == underflow_finding(func, fb[0].line));
        assert(overflow_finding(func, fb[0].line).severity != underflow_finding(func, fb[0].line).severity);
    }
}

/// Every `contract-call?`, at any depth, names the contract `cn` itself.
pub open spec fn calls_only_self(t: Tree, cn: Seq<char>) -> bool
    decreases t,
{
    match t {
        Tree::Atom(_, _) => true,
        Tree::List(ch, _) => {
            &&& (head_of(ch) == Some("contract-call?"@) ==> trim_dots(atom_or_unknown(ch, 1)) == cn)
            &&& forall|i: int| 0 <= i < ch.len() ==> calls_only_self(#[trigger] ch[i], cn)
        },
    }
}

proof fn lemma_cross_seq(ns: Seq<Tree>, cn: Seq<char>, func: Seq<char>, st: CrossState)
    requires
        forall|i: int| 0 <= i < ns.len() ==> calls_only_self(#[trigger] ns[i], cn),
        !st.0,
    ensures
        !(cross_seq(ns, cn, func, st).0).0,
        cross_seq(ns, cn, func, st).1.len() == 0,
    decreases ns,
{
    if ns.len() > 0 {
        let d = ns.subrange(0, ns.len() - 1);
        assert forall|i: int| 0 <= i < d.len() implies calls_only_self(#[trigger] d[i], cn) by {
            assert(d[i] == ns[i]);
        }
        lemma_cross_seq(d, cn, func, st);
        let (st1, a) = cross_seq(d, cn, func, st);
        lemma_cross_node(ns[ns.len() - 1], cn, func, st1);
    }
}

proof fn lemma_cross_bindings(bs: Seq<Tree>, cn: Seq<char>, func: Seq<char>, st: CrossState)
    requires
        forall|i: int| 0 <= i < bs.len() ==> calls_only_self(#[trigger] bs[i], cn),
        !st.0,
    ensures
        !(cross_bindings(bs, cn, func, st).0).0,
        cross_bindings(bs, cn, func, st).1.len() == 0,
    decreases bs,
{
    if bs.len() > 0 {
        let d = bs.subrange(0, bs.len() - 1);
        assert forall|i: int| 0 <= i < d.len() implies calls_only_self(#[trigger] d[i], cn) by {
            assert(d[i] == bs[i]);
        }
        lemma_cross_bindings(d, cn, func, st);
        let (st1, a) = cross_bindings(d, cn, func, st);
        let b = bs[bs.len() - 1];
        assert(calls_only_self(b, cn));
        if b is List && b->List_0.len() > 1 {
            let inner = b->List_0.subrange(1, b->List_0.len() as int);
            assert forall|i: int| 0 <= i < inner.len() implies calls_only_self(#[trigger] inner[i], cn) by {
                assert(inner[i] == b->List_0[i + 1]);
            }
            lemma_cross_seq(inner, cn, func, st1);
        }
    }
}

proof fn lemma_cross_node(n: Tree, cn: Seq<char>, func: Seq<char>, st: CrossState)
    requires
        calls_only_self(n, cn),
        !st.0,
    ensures
        !(cross_node(n, cn, func, st).0).0,
        cross_node(n, cn, func, st).1.len() == 0,
    decreases n,
{
    match n {
        Tree::Atom(_, _) => {},
        Tree::List(ch, line) => {
            let h = head_of(ch);
            if h == Some("contract-call?"@) {
            } else if h is Some && reentrancy::is_unwrapper(h->0) {
                let st1 = if ch.len() > 1 && ch[1] is List && head_of(ch[1]->List_0) == Some("contract-call?"@) {
                    assert(calls_only_self(ch[1], cn));
                    after_call(ch[1]->List_0, line, cn, st)
                } else {
                    st
                };
                let rest = ch.subrange(1, ch.len() as int);
                assert forall|i: int| 0 <= i < rest.len() implies calls_only_self(#[trigger] rest[i], cn) by {
                    assert(rest[i] == ch[i + 1]);
                }
                lemma_cross_seq(rest, cn, func, st1);
            } else if h is Some && crate::detector::is_state_mutator(h->0) {
            } else if h is Some && reentrancy::is_let_form(h->0) {
                if ch.len() > 1 {
                    let (st1, a) = if ch[1] is List {
                        cross_bindings(ch[1]->List_0, cn, func, st)
                    } else {
                        (st, seq![])
                    };
                    if ch[1] is List {
                        assert(calls_only_self(ch[1], cn));
                        lemma_cross_bindings(ch[1]->List_0, cn, func, st);
                    }
                    if ch.len() > 2 {
                        let rest = ch.subrange(2, ch.len() as int);
                        assert forall|i: int| 0 <= i < rest.len() implies calls_only_self(#[trigger] rest[i], cn) by {
                            assert(rest[i] == ch[i + 2]);
                        }
                        lemma_cross_seq(rest, cn, func, st1);
                    }
                }
            } else if h is Some && reentrancy::is_block_form(h->0) {
                let rest = ch.subrange(1, ch.len() as int);
                assert forall|i: int| 0 <= i < rest.len() implies calls_only_self(#[trigger] rest[i], cn) by {
                    assert(rest[i] == ch[i + 1]);
                }
                lemma_cross_seq(rest, cn, func, st);
            } else {
                lemma_cross_seq(ch, cn, func, st);
            }
        },
    }
}

/// Only calls into other contracts count: a public function of contract `cn`
/// whose every `contract-call?` names `cn` itself has no cross-contract finding.
pub proof fn law_self_calls_not_cross_contract(t: Tree, cn: Seq<char>)
    requires
        fn_parts(t) is Some,
        forall|i: int| 0 <= i < def_body(t).len() ==> calls_only_self(#[trigger] def_body(t)[i], cn),
    ensures
        cross_contract::function_findings(t, cn) == Some(Seq::<FindingView>::empty()),
{
    let name = def_name(t);
    let body = def_body(t);
    assert(fn_parts(t) == Some((name, body)));
    lemma_cross_seq(body, cn, name, (false, 0, Seq::empty(), Seq::empty()));
    assert(cross_seq(body, cn, name, (false, 0, Seq::empty(), Seq::empty())).1 =~= Seq::<FindingView>::empty());
}

/// The kinds of finding that single-file analysis reports.
pub open spec fn single_file_kind(k: Seq<char>) -> bool {
    ||| k == "Reentrancy"@
    ||| k == "Integer Underflow"@
    ||| k == "Integer Overflow"@
    ||| k == "Missing Access Control"@
    ||| k == "Unchecked Return Value"@
}

/// Every finding of `fs` is of a single-file kind.
pub open spec fn single_file_kinds(fs: Seq<FindingView>) -> bool {
    forall|k: int| 0 <= k < fs.len() ==> single_file_kind(#[trigger] fs[k].kind)
}

proof fn lemma_kinds_add(a: Seq<FindingView>, b: Seq<FindingView>)
    requires
        single_file_kinds(a),
        single_file_kinds(b),
    ensures
        single_file_kinds(a + b),
{
    assert forall|k: int| 0 <= k < (a + b).len() implies single_file_kind(#[trigger] (a + b)[k].kind) by {
        if k < a.len() {
            assert((a + b)[k] == a[k]);
        } else {
            assert((a + b)[k] == b[k - a.len()]);
        }
    }
}

proof fn lemma_reentrancy_kinds(ns: Seq<Tree>)
    ensures
        single_file_kinds(reentrancy::detect_spec(ns)),
    decreases ns.len(),
{
    if ns.len() > 0 {
        lemma_reentrancy_kinds(ns.drop_last());
        let t = ns.last();
        if is_form_of(t, "define-public"@) && reentrancy::function_findings(t) is Some {
            let (name, body) = fn_parts(t)->0;
            lemma_walk_seq(body, name, (false, 0));
            let fs = seq_walk(body, name, (false, 0)).1;
            assert(single_file_kinds(fs)) by {
                assert forall|k: int| 0 <= k < fs.len() implies single_file_kind(#[trigger] fs[k].kind) by {
                    assert(reentrancy_of(fs[k], name));
                }
            }
            lemma_kinds_add(reentrancy::detect_spec(ns.drop_last()), fs);
        }
    }
}

proof fn lemma_integer_kinds_seq(ns: Seq<Tree>, func: Seq<char>, g: Guards)
    ensures
        single_file_kinds(walk_seq(ns, func, g).0),
    decreases ns,
{
    if ns.len() > 0 {
        let pre = ns.subrange(0, ns.len() - 1);
        lemma_integer_kinds_seq(pre, func, g);
        let (a, g1) = walk_seq(pre, func, g);
        lemma_integer_kinds_node(ns[ns.len() - 1], func, g1);
        lemma_kinds_add(a, walk_node(ns[ns.len() - 1], func, g1).0);
    }
}

proof fn lemma_integer_kinds_node(n: Tree, func: Seq<char>, g: Guards)
    ensures
        single_file_kinds(walk_node(n, func, g).0),
    decreases n,
{
    match n {
        Tree::List(ch, line) => {
            lemma_integer_kinds_seq(ch, func, g);
            let here = if head_of(ch) == Some("-"@) && !g.0 {
                seq![underflow_finding(func, line)]
            } else if head_of(ch) == Some("+"@) && !g.1 {
                seq![overflow_finding(func, line)]
            } else {
                seq![]
            };
            assert(single_file_kinds(here));
            lemma_kinds_add(here, walk_seq(ch, func, g).0);
        },
        Tree::Atom(_, _) => {},
    }
}

proof fn lemma_integer_kinds(ns: Seq<Tree>)
    ensures
        single_file_kinds(integer_overflow::detect_spec(ns)),
    decreases ns.len(),
{
    if ns.len() > 0 {
        lemma_integer_kinds(ns.drop_last());
        let t = ns.last();
        if (is_form_of(t, "define-public"@) || is_form_of(t, "define-private"@)) && integer_overflow::function_findings(t) is Some {
            let (name, body) = fn_parts(t)->0;
            lemma_integer_kinds_seq(body, name, (false, false));
            lemma_kinds_add(integer_overflow::detect_spec(ns.drop_last()), walk_seq(body, name, (false, false)).0);
        }
    }
}

proof fn lemma_access_kinds(ns: Seq<Tree>)
    ensures
        single_file_kinds(access_control::detect_spec(ns)),
    decreases ns.len(),
{
    if ns.len() > 0 {
        lemma_access_kinds(ns.drop_last());
        let t = ns.last();
        if is_form_of(t, "define-public"@) && access_control::function_findings(t) is Some {
            let fs = access_control::function_findings(t)->0;
            assert(single_file_kinds(fs));
            lemma_kinds_add(access_control::detect_spec(ns.drop_last()), fs);
        }
    }
}

proof fn lemma_unchecked_kinds_seq(ns: Seq<Tree>, func: Seq<char>, inside: bool)
    ensures
        single_file_kinds(unchecked_returns::unchecked_seq(ns, func, inside)),
    decreases ns,
{
    if ns.len() > 0 {
        let pre = ns.subrange(0, ns.len() - 1);
        lemma_unchecked_kinds_seq(pre, func, inside);
        lemma_unchecked_kinds_node(ns[ns.len() - 1], func, inside);
        lemma_kinds_add(unchecked_returns::unchecked_seq(pre, func, inside),
            unchecked_returns::unchecked_node(ns[ns.len() - 1], func, inside));
    }
}

proof fn lemma_unchecked_kinds_node(n: Tree, func: Seq<char>, inside: bool)
    ensures
        single_file_kinds(unchecked_returns::unchecked_node(n, func, inside)),
    decreases n,
{
    match n {
        Tree::List(ch, line) => {
            let h = head_of(ch);
            if h is Some && unchecked_returns::is_safe_wrapper(h->0) {
                lemma_unchecked_kinds_seq(ch.subrange(1, ch.len() as int), func, true);
            } else if h is Some && unchecked_returns::is_checked_call(h->0) {
            } else {
                lemma_unchecked_kinds_seq(ch, func, false);
            }
        },
        Tree::Atom(_, _) => {},
    }
}

proof fn lemma_unchecked_kinds(ns: Seq<Tree>)
    ensures
        single_file_kinds(unchecked_returns::detect_spec(ns)),
    decreases ns.len(),
{
    if ns.len() > 0 {
        lemma_unchecked_kinds(ns.drop_last());
        let t = ns.last();
        if (is_form_of(t, "define-public"@) || is_form_of(t, "define-private"@)) && unchecked_returns::function_findings(t) is Some {
            let (name, body) = fn_parts(t)->0;
            lemma_unchecked_kinds_seq(body, name, false);
            lemma_kinds_add(unchecked_returns::detect_spec(ns.drop_last()), unchecked_returns::unchecked_seq(body, name, false));
        }
    }
}

/// Single-file analysis reports only the single-file kinds: never a trait
/// dispatch or a cross-contract reentrancy finding, which need a project.
pub proof fn law_analyze_single_file_kinds(ns: Seq<Tree>)
    ensures
        single_file_kinds(analyze_spec(ns)),
        forall|k: int| 0 <= k < analyze_spec(ns).len() ==> (#[trigger] analyze_spec(ns)[k]).kind != "Trait Dispatch Reentrancy"@
            && analyze_spec(ns)[k].kind != "Cross-Contract Reentrancy"@,
{
    lemma_reentrancy_kinds(ns);
    lemma_integer_kinds(ns);
    lemma_access_kinds(ns);
    lemma_unchecked_kinds(ns);
    let r = reentrancy::detect_spec(ns);
    let i = integer_overflow::detect_spec(ns);
    let a = access_control::detect_spec(ns);
    let u = unchecked_returns::detect_spec(ns);
    lemma_kinds_add(r, i);
    lemma_kinds_add(r + i, a);
    lemma_kinds_add(r + i + a, u);
    reveal_strlit("Reentrancy");
    reveal_strlit("Integer Underflow");
    reveal_strlit("Integer Overflow");
    reveal_strlit("Missing Access Control");
    reveal_strlit("Unchecked Return Value");
    reveal_strlit("Trait Dispatch Reentrancy");
    reveal_strlit("Cross-Contract Reentrancy");
    assert forall|k: int| 0 <= k < analyze_spec(ns).len() implies (#[trigger] analyze_spec(ns)[k]).kind != "Trait Dispatch Reentrancy"@
        && analyze_spec(ns)[k].kind != "Cross-Contract Reentrancy"@ by {
        let kind = analyze_spec(ns)[k].kind;
        assert(single_file_kind(kind));
        assert("Trait Dispatch Reentrancy"@.len() == 25);
        assert("Cross-Contract Reentrancy"@.len() == 25);
        assert("Reentrancy"@.len() == 10);
        assert("Integer Underflow"@.len() == 17);
        assert("Integer Overflow"@.len() == 16);
        assert("Missing Access Control"@.len() == 22);
        assert("Unchecked Return Value"@.len() == 22);
        assert(kind.len() <= 22);
    }
}

} // verus!
