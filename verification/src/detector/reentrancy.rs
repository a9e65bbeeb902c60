use vstd::prelude::*;
use crate::ast::{ClarityNode, Tree, trees, head_of, is_form_of, head_atom};
use crate::analyzer::{Finding, FindingView, Severity, fviews, lemma_fviews_push};
use crate::detector::{is_state_mutator, state_mutator, extract_function_name, fn_parts, sig_name};
use crate::text::{str_eq, dec, decimal, concat4};

verus! {

/// External calls that can trigger reentrancy
pub open spec fn is_external_call(op: Seq<char>) -> bool {
    ||| op == "contract-call?"@
    ||| op == "stx-transfer?"@
    ||| op == "stx-burn?"@
    ||| op == "ft-transfer?"@
    ||| op == "nft-transfer?"@
    ||| op == "ft-mint?"@
    ||| op == "nft-mint?"@
    ||| op == "nft-burn?"@
}

fn external_call(op: &str) -> (r: bool)
    ensures
        r == is_external_call(op@),
{
    str_eq(op, "contract-call?") || str_eq(op, "stx-transfer?") || str_eq(op, "stx-burn?")
        || str_eq(op, "ft-transfer?") || str_eq(op, "nft-transfer?") || str_eq(op, "ft-mint?")
        || str_eq(op, "nft-mint?") || str_eq(op, "nft-burn?")
}

/// Forms whose first argument may be an external call.
pub open spec fn is_unwrapper(op: Seq<char>) -> bool {
    op == "try!"@ || op == "unwrap!"@ || op == "unwrap-panic"@
}

/// Forms whose arguments are all walked in order.
pub open spec fn is_block_form(op: Seq<char>) -> bool {
    op == "begin"@ || op == "if"@ || op == "match"@ || op == "and"@ || op == "or"@
}

/// Forms with a binding list: `(let ((var val) ...) body...)`.
pub open spec fn is_let_form(op: Seq<char>) -> bool {
    op == "let"@ || op == "let*"@
}

/// A list whose head is an external call.
pub open spec fn is_call_list(t: Tree) -> bool {
    t is List && head_of(t->List_0) is Some && is_external_call(head_of(t->List_0)->0)
}

/// The finding for mutation `op` on `line` after an external call on `call_line`.
pub open spec fn reentrancy_finding(func: Seq<char>, op: Seq<char>, line: int, call_line: int) -> FindingView {
    FindingView {
        severity: Severity::Critical,
        kind: "Reentrancy"@,
        function_name: func,
        line: line,
        message: "'"@ + op + "' called after external interaction on line "@ + dec(call_line as nat),
        fix: "Move '"@ + op + "' to before the external call on line "@ + dec(call_line as nat),
    }
}

/// Walking nodes in order: the state (whether an external call was seen, and
/// the line of the last one) and the findings, from the state `st` at the start.
pub open spec fn seq_walk(ns: Seq<Tree>, func: Seq<char>, st: (bool, int)) -> ((bool, int), Seq<FindingView>)
    decreases ns,
{
    if ns.len() == 0 {
        (st, seq![])
    } else {
        let (st1, a) = seq_walk(ns.subrange(0, ns.len() - 1), func, st);
        let (st2, b) = node_walk(ns[ns.len() - 1], func, st1);
        (st2, a + b)
    }
}

/// Walking the expressions of a binding list, in order.
pub open spec fn bindings_walk(bs: Seq<Tree>, func: Seq<char>, st: (bool, int)) -> ((bool, int), Seq<FindingView>)
    decreases bs,
{
    if bs.len() == 0 {
        (st, seq![])
    } else {
        let (st1, a) = bindings_walk(bs.subrange(0, bs.len() - 1), func, st);
        let b = bs[bs.len() - 1];
        let (st2, c) = if b is List && b->List_0.len() > 1 {
            seq_walk(b->List_0.subrange(1, b->List_0.len() as int), func, st1)
        } else {
            (st1, seq![])
        };
        (st2, a + c)
    }
}

/// Walking one node.
pub open spec fn node_walk(n: Tree, func: Seq<char>, st: (bool, int)) -> ((bool, int), Seq<FindingView>)
    decreases n,
{
    match n {
        Tree::Atom(_, _) => (st, seq![]),
        Tree::List(ch, line) => {
            let h = head_of(ch);
            if h is Some && is_external_call(h->0) {
                ((true, line), seq![])
            } else if h is Some && is_unwrapper(h->0) {
                let st1 = if ch.len() > 1 && is_call_list(ch[1]) { (true, line) } else { st };
                seq_walk(ch.subrange(1, ch.len() as int), func, st1)
            } else if h is Some && is_state_mutator(h->0) {
                if st.0 {
                    (st, seq![reentrancy_finding(func, h->0, line, st.1)])
                } else {
                    (st, seq![])
                }
            } else if h is Some && is_let_form(h->0) {
                if ch.len() > 1 {
                    let (st1, a) = if ch[1] is List {
                        bindings_walk(ch[1]->List_0, func, st)
                    } else {
                        (st, seq![])
                    };
                    let (st2, b) = if ch.len() > 2 {
                        seq_walk(ch.subrange(2, ch.len() as int), func, st1)
                    } else {
                        (st1, seq![])
                    };
                    (st2, a + b)
                } else {
                    (st, seq![])
                }
            } else if h is Some && is_block_form(h->0) {
                seq_walk(ch.subrange(1, ch.len() as int), func, st)
            } else {
                seq_walk(ch, func, st)
            }
        },
    }
}

/// The findings for one top-level node, when it is a named `define-public`.
pub open spec fn function_findings(t: Tree) -> Option<Seq<FindingView>> {
    match fn_parts(t) {
        Some((name, body)) => Some(seq_walk(body, name, (false, 0)).1),
        None => None,
    }
}

/// The findings of the detector for a sequence of top-level nodes.
pub open spec fn detect_spec(ns: Seq<Tree>) -> Seq<FindingView>
    decreases ns.len(),
{
    if ns.len() == 0 {
        seq![]
    } else {
        let rest = detect_spec(ns.drop_last());
        let t = ns.last();
        if is_form_of(t, "define-public"@) && function_findings(t) is Some {
            rest + function_findings(t)->0
        } else {
            rest
        }
    }
}


fn unwrapper(op: &str) -> (r: bool)
    ensures
        r == is_unwrapper(op@),
{
    str_eq(op, "try!") || str_eq(op, "unwrap!") || str_eq(op, "unwrap-panic")
}

fn block_form(op: &str) -> (r: bool)
    ensures
        r == is_block_form(op@),
{
    str_eq(op, "begin") || str_eq(op, "if") || str_eq(op, "match") || str_eq(op, "and") || str_eq(op, "or")
}

fn let_form(op: &str) -> (r: bool)
    ensures
        r == is_let_form(op@),
{
    str_eq(op, "let") || str_eq(op, "let*")
}

fn call_list(node: &ClarityNode) -> (r: bool)
    ensures
        r == is_call_list(node@),
{
    match node {
        ClarityNode::List(children, _) => match head_atom(children) {
            Some(op) => external_call(op),
            None => false,
        },
        ClarityNode::Atom(_, _) => false,
    }
}

fn make_finding(func_name: &str, op: &str, line: usize, call_line: usize) -> (f: Finding)
    ensures
        f@ == reentrancy_finding(func_name@, op@, line as int, call_line as int),
{
    let cl = decimal(call_line);
    Finding {
        severity: Severity::Critical,
        kind: String::from_str("Reentrancy"),
        function_name: func_name.to_owned(),
        line: line,
        message: concat4("'", op, "' called after external interaction on line ", cl.as_str()),
        fix: concat4("Move '", op, "' to before the external call on line ", cl.as_str()),
    }
}

/// Recursively walk a list of nodes (from index `from` on) tracking call/mutation order
fn walk_body(
    nodes: &Vec<ClarityNode>,
    from: usize,
    func_name: &str,
    seen_call: &mut bool,
    call_line: &mut usize,
    findings: &mut Vec<Finding>,
)
    requires
        from <= nodes@.len(),
    ensures
        ({
            let (st, fs) = seq_walk(trees(nodes@).subrange(from as int, nodes@.len() as int), func_name@, (*old(seen_call), *old(call_line) as int));
            &&& *final(seen_call) == st.0
            &&& *final(call_line) == st.1
            &&& fviews(final(findings)@) == fviews(old(findings)@) + fs
        }),
    decreases nodes,
{
    let mut i: usize = from;
    proof {
        assert(trees(nodes@).subrange(from as int, from as int) =~= Seq::<Tree>::empty());
        assert(fviews(findings@) + Seq::<FindingView>::empty() =~= fviews(findings@));
    }
    while i < nodes.len()
        invariant
            from <= i <= nodes@.len(),
            ({
                let (st, fs) = seq_walk(trees(nodes@).subrange(from as int, i as int), func_name@, (*old(seen_call), *old(call_line) as int));
                &&& *seen_call == st.0
                &&& *call_line == st.1
                &&& fviews(findings@) == fviews(old(findings)@) + fs
            }),
            forall|j: int| 0 <= j < nodes@.len() ==> decreases_to!(nodes => #[trigger] nodes@[j]),
        decreases nodes@.len() - i,
    {
        walk_node(&nodes[i], func_name, seen_call, call_line, findings);
        proof {
            let s = trees(nodes@).subrange(from as int, i + 1);
            assert(s.subrange(0, s.len() - 1) =~= trees(nodes@).subrange(from as int, i as int));
            assert(s[s.len() - 1] == nodes@[i as int]@);
            let (st, fs) = seq_walk(trees(nodes@).subrange(from as int, i as int), func_name@, (*old(seen_call), *old(call_line) as int));
            let (st2, gs) = node_walk(nodes@[i as int]@, func_name@, st);
            assert(fviews(findings@) =~= fviews(old(findings)@) + (fs + gs));
        }
        i = i + 1;
    }
}

/// Walk one node, tracking call/mutation order
fn walk_node(
    node: &ClarityNode,
    func_name: &str,
    seen_call: &mut bool,
    call_line: &mut usize,
    findings: &mut Vec<Finding>,
)
    ensures
        ({
            let (st, fs) = node_walk(node@, func_name@, (*old(seen_call), *old(call_line) as int));
            &&& *final(seen_call) == st.0
            &&& *final(call_line) == st.1
            &&& fviews(final(findings)@) == fviews(old(findings)@) + fs
        }),
    decreases node,
{
    match node {
        ClarityNode::Atom(_, _) => {
            assert(fviews(findings@) =~= fviews(findings@) + Seq::<FindingView>::empty());
        },
        ClarityNode::List(children, line) => {
            let head = head_atom(children);
            let (is_call, is_unwrap, is_mut, is_let, is_block) = match head {
                Some(op) => (external_call(op), unwrapper(op), state_mutator(op), let_form(op), block_form(op)),
                None => (false, false, false, false, false),
            };
            if is_call {
                *seen_call = true;
                *call_line = *line;
                assert(fviews(findings@) =~= fviews(findings@) + Seq::<FindingView>::empty());
            } else if is_unwrap {
                // check if inner expression is an external call
                if children.len() > 1 && call_list(&children[1]) {
                    *seen_call = true;
                    *call_line = *line;
                }
                // still recurse in case its nested deeper
                walk_body(children, 1, func_name, seen_call, call_line, findings);
            } else if is_mut {
                if *seen_call {
                    let op = match head {
                        Some(op) => op,
                        None => "",
                    };
                    let f = make_finding(func_name, op, *line, *call_line);
                    proof {
                        lemma_fviews_push(findings@, f);
                    }
                    findings.push(f);
                } else {
                    assert(fviews(findings@) =~= fviews(findings@) + Seq::<FindingView>::empty());
                }
            } else if is_let {
                // let has shape: (let ((var val) ...) body...)
                // bindings are walked first, THEN the body, carrying
                // seen_call across both
                if children.len() > 1 {
                    let ghost st0 = (*seen_call, *call_line as int);
                    let ghost f0 = fviews(findings@);
                    match &children[1] {
                        ClarityNode::List(binding_list, _) => {
                            let mut k: usize = 0;
                            proof {
                                assert(trees(binding_list@).subrange(0, 0) =~= Seq::<Tree>::empty());
                                assert(f0 + Seq::<FindingView>::empty() =~= f0);
                            }
                            while k < binding_list.len()
                                invariant
                                    k <= binding_list@.len(),
                                    children@.len() > 1,
                                    children@[1] == ClarityNode::List(*binding_list, children@[1]->List_1),
                                    forall|j: int| 0 <= j < binding_list@.len() ==> decreases_to!(node => #[trigger] binding_list@[j]),
                                    ({
                                        let (st, fs) = bindings_walk(trees(binding_list@).subrange(0, k as int), func_name@, st0);
                                        &&& *seen_call == st.0
                                        &&& *call_line == st.1
                                        &&& fviews(findings@) == f0 + fs
                                    }),
                                decreases binding_list@.len() - k,
                            {
                                let ghost bs = trees(binding_list@).subrange(0, k + 1);
                                let ghost (stk, fsk) = bindings_walk(trees(binding_list@).subrange(0, k as int), func_name@, st0);
                                assert(bs.subrange(0, bs.len() - 1) =~= trees(binding_list@).subrange(0, k as int));
                                assert(bs[bs.len() - 1] == binding_list@[k as int]@);
                                match &binding_list[k] {
                                    ClarityNode::List(bc, _) => {
                                        // binding is (var-name expr): walk the expr part
                                        if bc.len() > 1 {
                                            assert(decreases_to!(node => bc));
                                            walk_body(bc, 1, func_name, seen_call, call_line, findings);
                                            assert(fviews(findings@) =~= f0 + (fsk + seq_walk(trees(bc@).subrange(1, bc@.len() as int), func_name@, stk).1));
                                        } else {
                                            assert(fviews(findings@) =~= f0 + (fsk + Seq::<FindingView>::empty()));
                                        }
                                    },
                                    ClarityNode::Atom(_, _) => {
                                        assert(fviews(findings@) =~= f0 + (fsk + Seq::<FindingView>::empty()));
                                    },
                                }
                                k = k + 1;
                            }
                            assert(trees(binding_list@).subrange(0, binding_list@.len() as int) =~= trees(binding_list@));
                        },
                        ClarityNode::Atom(_, _) => {
                            assert(f0 + Seq::<FindingView>::empty() =~= f0);
                        },
                    }
                    let ghost f1 = fviews(findings@);
                    // walk body expressions after bindings
                    if children.len() > 2 {
                        walk_body(children, 2, func_name, seen_call, call_line, findings);
                    }
                    assert(fviews(findings@) =~= fviews(old(findings)@) + (
                        (f1.subrange(f0.len() as int, f1.len() as int))
                        + fviews(findings@).subrange(f1.len() as int, fviews(findings@).len() as int)));
                } else {
                    assert(fviews(findings@) =~= fviews(findings@) + Seq::<FindingView>::empty());
                }
            } else if is_block {
                walk_body(children, 1, func_name, seen_call, call_line, findings);
            } else {
                walk_body(children, 0, func_name, seen_call, call_line, findings);
                assert(trees(children@).subrange(0, children@.len() as int) =~= trees(children@));
            }
        },
    }
}


/// Analyze a single define-public function for reentrancy
fn analyze_function(node: &ClarityNode) -> (r: Option<Vec<Finding>>)
    ensures
        match function_findings(node@) {
            Some(fs) => r is Some && fviews(r->0@) == fs,
            None => r is None,
        },
{
    match node {
        ClarityNode::List(children, _) => {
            assert(node@->List_0 == trees(children@));
            if children.len() < 2 {
                return None;
            }
            assert(trees(children@)[1] == children@[1]@);
            let func_name = match extract_function_name(&children[1]) {
                Some(n) => n,
                None => return None,
            };
            let mut findings: Vec<Finding> = Vec::new();
            let mut seen_call = false;
            let mut call_line: usize = 0;
            // walk the entire function body recursively
            walk_body(children, 2, func_name.as_str(), &mut seen_call, &mut call_line, &mut findings);
            assert(fviews(findings@) =~= Seq::<FindingView>::empty() + fviews(findings@));
            Some(findings)
        },
        ClarityNode::Atom(_, _) => None,
    }
}

/// Analyze all top-level nodes and return findings
pub fn detect(nodes: &[ClarityNode]) -> (r: Vec<Finding>)
    ensures
        fviews(r@) == detect_spec(trees(nodes@)),
{
    let mut findings: Vec<Finding> = Vec::new();
    let mut i: usize = 0;
    proof {
        assert(trees(nodes@).subrange(0, 0) =~= Seq::<Tree>::empty());
        assert(fviews(findings@) =~= Seq::<FindingView>::empty());
    }
    while i < nodes.len()
        invariant
            i <= nodes@.len(),
            fviews(findings@) == detect_spec(trees(nodes@).subrange(0, i as int)),
        decreases nodes@.len() - i,
    {
        let ghost s = trees(nodes@).subrange(0, i + 1);
        assert(s.drop_last() =~= trees(nodes@).subrange(0, i as int));
        assert(s.last() == nodes@[i as int]@);
        let node = &nodes[i];
        if node.is_form("define-public") {
            match analyze_function(node) {
                Some(func_findings) => {
                    let mut ff = func_findings;
                    proof {
                        crate::analyzer::lemma_fviews_add(findings@, ff@);
                    }
                    findings.append(&mut ff);
                },
                None => {},
            }
        }
        i = i + 1;
    }
    assert(trees(nodes@).subrange(0, nodes@.len() as int) =~= trees(nodes@));
    findings
}

} // verus!
