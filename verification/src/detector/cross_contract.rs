use vstd::prelude::*;
use crate::ast::{ClarityNode, Tree, trees, head_of, is_form_of, head_atom, atom_at};
use crate::analyzer::{Finding, FindingView, Severity, fviews, lemma_fviews_push, lemma_fviews_add};
use crate::callgraph::{CallGraph, atom_or_unknown};
use crate::detector::{is_state_mutator, state_mutator, extract_function_name, fn_parts, sig_name};
use crate::detector::reentrancy::{is_unwrapper, is_block_form, is_let_form};
use crate::registry::{Registry, ParsedView, ParsedContract};
use crate::text::{str_eq, dec, decimal, concat8, trim_dots, trim_leading_dots};

verus! {

/// The walk's state: whether a call into another contract was seen, the
/// line of the last one, and the contract and function it called.
pub type CrossState = (bool, int, Seq<char>, Seq<char>);

/// What a `contract-call?` list `ch` on `line` makes of the state in contract `cn`.
pub open spec fn after_call(ch: Seq<Tree>, line: int, cn: Seq<char>, st: CrossState) -> CrossState {
    let target = trim_dots(atom_or_unknown(ch, 1));
    if target != cn {
        (true, line, target, atom_or_unknown(ch, 2))
    } else {
        st
    }
}

pub open spec fn cross_finding(func: Seq<char>, op: Seq<char>, line: int, st: CrossState) -> FindingView {
    FindingView {
        severity: Severity::Critical,
        kind: "Cross-Contract Reentrancy"@,
        function_name: func,
        line: line,
        message: "'"@ + op + "' mutated after calling "@ + st.2 + "."@ + st.3 + " on line "@ + dec(st.1 as nat)
            + " — re-entry possible before state is updated"@,
        fix: "Move '"@ + op + "' to before the contract-call? to "@ + st.2 + "."@ + st.3 + " on line "@ + dec(st.1 as nat),
    }
}

pub open spec fn cross_seq(ns: Seq<Tree>, cn: Seq<char>, func: Seq<char>, st: CrossState) -> (CrossState, Seq<FindingView>)
    decreases ns,
{
    if ns.len() == 0 {
        (st, seq![])
    } else {
        let (st1, a) = cross_seq(ns.subrange(0, ns.len() - 1), cn, func, st);
        let (st2, b) = cross_node(ns[ns.len() - 1], cn, func, st1);
        (st2, a + b)
    }
}

pub open spec fn cross_bindings(bs: Seq<Tree>, cn: Seq<char>, func: Seq<char>, st: CrossState) -> (CrossState, Seq<FindingView>)
    decreases bs,
{
    if bs.len() == 0 {
        (st, seq![])
    } else {
        let (st1, a) = cross_bindings(bs.subrange(0, bs.len() - 1), cn, func, st);
        let b = bs[bs.len() - 1];
        let (st2, c) = if b is List && b->List_0.len() > 1 {
            cross_seq(b->List_0.subrange(1, b->List_0.len() as int), cn, func, st1)
        } else {
            (st1, seq![])
        };
        (st2, a + c)
    }
}

pub open spec fn cross_node(n: Tree, cn: Seq<char>, func: Seq<char>, st: CrossState) -> (CrossState, Seq<FindingView>)
    decreases n,
{
    match n {
        Tree::Atom(_, _) => (st, seq![]),
        Tree::List(ch, line) => {
            let h = head_of(ch);
            if h == Some("contract-call?"@) {
                (after_call(ch, line, cn, st), seq![])
            } else if h is Some && is_unwrapper(h->0) {
                let st1 = if ch.len() > 1 && ch[1] is List && head_of(ch[1]->List_0) == Some("contract-call?"@) {
                    after_call(ch[1]->List_0, line, cn, st)
                } else {
                    st
                };
                cross_seq(ch.subrange(1, ch.len() as int), cn, func, st1)
            } else if h is Some && is_state_mutator(h->0) {
                if st.0 {
                    (st, seq![cross_finding(func, h->0, line, st)])
                } else {
                    (st, seq![])
                }
            } else if h is Some && is_let_form(h->0) {
                if ch.len() > 1 {
                    let (st1, a) = if ch[1] is List {
                        cross_bindings(ch[1]->List_0, cn, func, st)
                    } else {
                        (st, seq![])
                    };
                    let (st2, b) = if ch.len() > 2 {
                        cross_seq(ch.subrange(2, ch.len() as int), cn, func, st1)
                    } else {
                        (st1, seq![])
                    };
                    (st2, a + b)
                } else {
                    (st, seq![])
                }
            } else if h is Some && is_block_form(h->0) {
                cross_seq(ch.subrange(1, ch.len() as int), cn, func, st)
            } else {
                cross_seq(ch, cn, func, st)
            }
        },
    }
}

/// The findings for one top-level node of contract `cn`, when it names its function.
pub open spec fn function_findings(t: Tree, cn: Seq<char>) -> Option<Seq<FindingView>> {
    match fn_parts(t) {
        Some((name, body)) => Some(cross_seq(body, cn, name, (false, 0, Seq::empty(), Seq::empty())).1),
        None => None,
    }
}

/// The findings for the top-level nodes of contract `cn`: those of each named `define-public`.
pub open spec fn contract_findings(ns: Seq<Tree>, cn: Seq<char>) -> Seq<FindingView>
    decreases ns.len(),
{
    if ns.len() == 0 {
        seq![]
    } else {
        let rest = contract_findings(ns.drop_last(), cn);
        let t = ns.last();
        if is_form_of(t, "define-public"@) && function_findings(t, cn) is Some {
            rest + function_findings(t, cn)->0
        } else {
            rest
        }
    }
}

/// The detector's findings for the contracts `cs`, in order.
pub open spec fn detect_spec(cs: Seq<ParsedView>) -> Seq<FindingView>
    decreases cs.len(),
{
    if cs.len() == 0 {
        seq![]
    } else {
        detect_spec(cs.drop_last()) + contract_findings(cs.last().ast, cs.last().name)
    }
}


/// Detect cross-contract reentrancy across the contracts of the registry
pub fn detect(registry: &Registry, graph: &CallGraph) -> (r: Vec<Finding>)
    ensures
        fviews(r@) == detect_spec(registry@),
{
    let mut findings: Vec<Finding> = Vec::new();
    let contracts = registry.all();
    let mut k: usize = 0;
    proof {
        assert(registry@.subrange(0, 0) =~= Seq::<ParsedView>::empty());
        assert(fviews(findings@) =~= Seq::<FindingView>::empty());
    }
    while k < contracts.len()
        invariant
            k <= contracts@.len(),
            contracts@.len() == registry@.len(),
            forall|i: int| 0 <= i < contracts@.len() ==> (#[trigger] contracts@[i])@ == registry@[i],
            fviews(findings@) == detect_spec(registry@.subrange(0, k as int)),
        decreases contracts@.len() - k,
    {
        let contract: &ParsedContract = contracts[k];
        let ghost prefix = fviews(findings@);
        let ghost ast = trees(contract.ast@);
        let mut i: usize = 0;
        proof {
            assert(ast.subrange(0, 0) =~= Seq::<Tree>::empty());
            assert(prefix + Seq::<FindingView>::empty() =~= prefix);
        }
        while i < contract.ast.len()
            invariant
                i <= contract.ast@.len(),
                ast == trees(contract.ast@),
                fviews(findings@) == prefix + contract_findings(ast.subrange(0, i as int), contract.name@),
            decreases contract.ast@.len() - i,
        {
            let node = &contract.ast[i];
            let ghost s = ast.subrange(0, i + 1);
            assert(s.drop_last() =~= ast.subrange(0, i as int));
            assert(s.last() == node@);
            let ghost before = findings@;
            if node.is_form("define-public") {
                match analyze_function(node, contract.name.as_str(), graph) {
                    Some(func_findings) => {
                        let mut ff = func_findings;
                        proof {
                            lemma_fviews_add(findings@, ff@);
                        }
                        findings.append(&mut ff);
                    },
                    None => {},
                }
            }
            assert(fviews(findings@) =~= prefix + contract_findings(s, contract.name@));
            i = i + 1;
        }
        proof {
            let t = registry@.subrange(0, k + 1);
            assert(t.drop_last() =~= registry@.subrange(0, k as int));
            assert(t.last() == contract@);
            assert(ast.subrange(0, ast.len() as int) =~= ast);
        }
        k = k + 1;
    }
    assert(registry@.subrange(0, registry@.len() as int) =~= registry@);
    findings
}

fn analyze_function(node: &ClarityNode, contract_name: &str, graph: &CallGraph) -> (r: Option<Vec<Finding>>)
    ensures
        match function_findings(node@, contract_name@) {
            Some(fs) => r is Some && fviews(r->0@) == fs,
            None => r is None,
        },
{
    match node {
        ClarityNode::List(children, _) => {
            assert(node@ is List && node@->List_0 == trees(children@));
            if children.len() < 2 {
                return None;
            }
            assert(trees(children@)[1] == children@[1]@);
            let func_name = match extract_function_name(&children[1]) {
                Some(n) => n,
                None => return None,
            };
            let mut findings: Vec<Finding> = Vec::new();
            let mut seen_external_call = false;
            let mut call_line: usize = 0;
            let mut callee_contract = String::new();
            let mut callee_function = String::new();
            walk_body(children, 2, contract_name, func_name.as_str(), graph, &mut seen_external_call, &mut call_line,
                &mut callee_contract, &mut callee_function, &mut findings);
            assert(fviews(findings@) =~= Seq::<FindingView>::empty() + fviews(findings@));
            Some(findings)
        },
        ClarityNode::Atom(_, _) => None,
    }
}

fn make_finding(func_name: &str, op: &str, line: usize, call_line: usize, callee_contract: &str, callee_function: &str) -> (f: Finding)
    ensures
        f@ == cross_finding(func_name@, op@, line as int, (true, call_line as int, callee_contract@, callee_function@)),
{
    let cl = decimal(call_line);
    let mut message = concat8("'", op, "' mutated after calling ", callee_contract, ".", callee_function, " on line ",
        cl.as_str());
    message.append(" — re-entry possible before state is updated");
    Finding {
        severity: Severity::Critical,
        kind: String::from_str("Cross-Contract Reentrancy"),
        function_name: func_name.to_owned(),
        line: line,
        message: message,
        fix: concat8("Move '", op, "' to before the contract-call? to ", callee_contract, ".", callee_function,
            " on line ", cl.as_str()),
    }
}

/// The callee that a `contract-call?` list names: its contract, without
/// leading dots, and its function; "unknown" for either when missing.
fn call_target(children: &Vec<ClarityNode>) -> (r: (String, String))
    ensures
        r.0@ == trim_dots(atom_or_unknown(trees(children@), 1)),
        r.1@ == atom_or_unknown(trees(children@), 2),
{
    let c = match crate::ast::atom_in(children, 1) {
        Some(s) => trim_leading_dots(s),
        None => trim_leading_dots("unknown"),
    };
    let f = match crate::ast::atom_in(children, 2) {
        Some(s) => s.to_owned(),
        None => String::from_str("unknown"),
    };
    (c, f)
}

fn walk_body(
    nodes: &Vec<ClarityNode>,
    from: usize,
    contract_name: &str,
    func_name: &str,
    graph: &CallGraph,
    seen_external_call: &mut bool,
    call_line: &mut usize,
    callee_contract: &mut String,
    callee_function: &mut String,
    findings: &mut Vec<Finding>,
)
    requires
        from <= nodes@.len(),
    ensures
        ({
            let (st, fs) = cross_seq(trees(nodes@).subrange(from as int, nodes@.len() as int), contract_name@, func_name@,
                (*old(seen_external_call), *old(call_line) as int, old(callee_contract)@, old(callee_function)@));
            &&& *final(seen_external_call) == st.0
            &&& *final(call_line) == st.1
            &&& final(callee_contract)@ == st.2
            &&& final(callee_function)@ == st.3
            &&& fviews(final(findings)@) == fviews(old(findings)@) + fs
        }),
    decreases nodes,
{
    let mut i: usize = from;
    proof {
        assert(trees(nodes@).subrange(from as int, from as int) =~= Seq::<Tree>::empty());
        assert(fviews(findings@) + Seq::<FindingView>::empty() =~= fviews(findings@));
    }
    while i < nodes.len()
        invariant
            from <= i <= nodes@.len(),
            ({
                let (st, fs) = cross_seq(trees(nodes@).subrange(from as int, i as int), contract_name@, func_name@,
                    (*old(seen_external_call), *old(call_line) as int, old(callee_contract)@, old(callee_function)@));
                &&& *seen_external_call == st.0
                &&& *call_line == st.1
                &&& callee_contract@ == st.2
                &&& callee_function@ == st.3
                &&& fviews(findings@) == fviews(old(findings)@) + fs
            }),
            forall|j: int| 0 <= j < nodes@.len() ==> decreases_to!(nodes => #[trigger] nodes@[j]),
        decreases nodes@.len() - i,
    {
        walk_node(&nodes[i], contract_name, func_name, graph, seen_external_call, call_line, callee_contract,
            callee_function, findings);
        proof {
            let s = trees(nodes@).subrange(from as int, i + 1);
            assert(s.subrange(0, s.len() - 1) =~= trees(nodes@).subrange(from as int, i as int));
            assert(s[s.len() - 1] == nodes@[i as int]@);
            let (st, fs) = cross_seq(trees(nodes@).subrange(from as int, i as int), contract_name@, func_name@,
                (*old(seen_external_call), *old(call_line) as int, old(callee_contract)@, old(callee_function)@));
            let (st2, gs) = cross_node(nodes@[i as int]@, contract_name@, func_name@, st);
            assert(fviews(findings@) =~= fviews(old(findings)@) + (fs + gs));
        }
        i = i + 1;
    }
}

fn walk_node(
    node: &ClarityNode,
    contract_name: &str,
    func_name: &str,
    graph: &CallGraph,
    seen_external_call: &mut bool,
    call_line: &mut usize,
    callee_contract: &mut String,
    callee_function: &mut String,
    findings: &mut Vec<Finding>,
)
    ensures
        ({
            let (st, fs) = cross_node(node@, contract_name@, func_name@,
                (*old(seen_external_call), *old(call_line) as int, old(callee_contract)@, old(callee_function)@));
            &&& *final(seen_external_call) == st.0
            &&& *final(call_line) == st.1
            &&& final(callee_contract)@ == st.2
            &&& final(callee_function)@ == st.3
            &&& fviews(final(findings)@) == fviews(old(findings)@) + fs
        }),
    decreases node,
{
    match node {
        ClarityNode::Atom(_, _) => {
            assert(fviews(findings@) =~= fviews(findings@) + Seq::<FindingView>::empty());
        },
        ClarityNode::List(children, line) => {
            assert(node@ is List && node@->List_0 == trees(children@));
            let head = head_atom(children);
            let (is_call, is_unwrap, is_mut, is_let, is_block) = match head {
                Some(op) => (
                    str_eq(op, "contract-call?"),
                    str_eq(op, "try!") || str_eq(op, "unwrap!") || str_eq(op, "unwrap-panic"),
                    state_mutator(op),
                    str_eq(op, "let") || str_eq(op, "let*"),
                    str_eq(op, "begin") || str_eq(op, "if") || str_eq(op, "match") || str_eq(op, "and") || str_eq(op, "or"),
                ),
                None => (false, false, false, false, false),
            };
            if is_call {
                // extract the target contract and function; only flag cross-contract calls
                let (target_contract, target_function) = call_target(children);
                if !str_eq(target_contract.as_str(), contract_name) {
                    *seen_external_call = true;
                    *call_line = *line;
                    *callee_contract = target_contract;
                    *callee_function = target_function;
                }
                assert(fviews(findings@) =~= fviews(findings@) + Seq::<FindingView>::empty());
            } else if is_unwrap {
                // check if inner expression is a cross-contract call
                if children.len() > 1 {
                    assert(trees(children@)[1] == children@[1]@);
                    match &children[1] {
                        ClarityNode::List(inner_children, _) => {
                            assert(children@[1]@ is List && children@[1]@->List_0 == trees(inner_children@));
                            let inner_is_call = match head_atom(inner_children) {
                                Some(h) => str_eq(h, "contract-call?"),
                                None => false,
                            };
                            if inner_is_call {
                                let (target_contract, target_function) = call_target(inner_children);
                                if !str_eq(target_contract.as_str(), contract_name) {
                                    *seen_external_call = true;
                                    *call_line = *line;
                                    *callee_contract = target_contract;
                                    *callee_function = target_function;
                                }
                            }
                        },
                        ClarityNode::Atom(_, _) => {},
                    }
                }
                walk_body(children, 1, contract_name, func_name, graph, seen_external_call, call_line, callee_contract,
                    callee_function, findings);
            } else if is_mut {
                if *seen_external_call {
                    let op = match head {
                        Some(op) => op,
                        None => "",
                    };
                    let f = make_finding(func_name, op, *line, *call_line, callee_contract.as_str(), callee_function.as_str());
                    proof {
                        lemma_fviews_push(findings@, f);
                    }
                    findings.push(f);
                } else {
                    assert(fviews(findings@) =~= fviews(findings@) + Seq::<FindingView>::empty());
                }
            } else if is_let {
                if children.len() > 1 {
                    let ghost st0 = (*seen_external_call, *call_line as int, callee_contract@, callee_function@);
                    let ghost f0 = fviews(findings@);
                    assert(trees(children@)[1] == children@[1]@);
                    match &children[1] {
                        ClarityNode::List(binding_list, _) => {
                            assert(children@[1]@ is List && children@[1]@->List_0 == trees(binding_list@));
                            let mut k: usize = 0;
                            proof {
                                assert(trees(binding_list@).subrange(0, 0) =~= Seq::<Tree>::empty());
                                assert(f0 + Seq::<FindingView>::empty() =~= f0);
                            }
                            while k < binding_list.len()
                                invariant
                                    k <= binding_list@.len(),
                                    forall|j: int| 0 <= j < binding_list@.len() ==> decreases_to!(node => #[trigger] binding_list@[j]),
                                    ({
                                        let (st, fs) = cross_bindings(trees(binding_list@).subrange(0, k as int), contract_name@, func_name@, st0);
                                        &&& *seen_external_call == st.0
                                        &&& *call_line == st.1
                                        &&& callee_contract@ == st.2
                                        &&& callee_function@ == st.3
                                        &&& fviews(findings@) == f0 + fs
                                    }),
                                decreases binding_list@.len() - k,
                            {
                                let ghost bs = trees(binding_list@).subrange(0, k + 1);
                                let ghost (stk, fsk) = cross_bindings(trees(binding_list@).subrange(0, k as int), contract_name@, func_name@, st0);
                                assert(bs.subrange(0, bs.len() - 1) =~= trees(binding_list@).subrange(0, k as int));
                                assert(bs[bs.len() - 1] == binding_list@[k as int]@);
                                match &binding_list[k] {
                                    ClarityNode::List(bc, _) => {
                                        assert(binding_list@[k as int]@ is List && binding_list@[k as int]@->List_0 == trees(bc@));
                                        if bc.len() > 1 {
                                            assert(decreases_to!(node => bc));
                                            walk_body(bc, 1, contract_name, func_name, graph, seen_external_call, call_line,
                                                callee_contract, callee_function, findings);
                                            assert(fviews(findings@) =~= f0 + (fsk + cross_seq(trees(bc@).subrange(1, bc@.len() as int), contract_name@, func_name@, stk).1));
                                        } else {
                                            assert(fviews(findings@) =~= f0 + (fsk + Seq::<FindingView>::empty()));
                                        }
                                    },
                                    ClarityNode::Atom(_, _) => {
                                        assert(fviews(findings@) =~= f0 + (fsk + Seq::<FindingView>::empty()));
                                    },
                                }
                                k = k + 1;
                            }
                            assert(trees(binding_list@).subrange(0, binding_list@.len() as int) =~= trees(binding_list@));
                        },
                        ClarityNode::Atom(_, _) => {
                            assert(f0 + Seq::<FindingView>::empty() =~= f0);
                        },
                    }
                    let ghost f1 = fviews(findings@);
                    if children.len() > 2 {
                        walk_body(children, 2, contract_name, func_name, graph, seen_external_call, call_line,
                            callee_contract, callee_function, findings);
                    }
                    assert(fviews(findings@) =~= fviews(old(findings)@) + (
                        (f1.subrange(f0.len() as int, f1.len() as int))
                        + fviews(findings@).subrange(f1.len() as int, fviews(findings@).len() as int)));
                } else {
                    assert(fviews(findings@) =~= fviews(findings@) + Seq::<FindingView>::empty());
                }
            } else if is_block {
                walk_body(children, 1, contract_name, func_name, graph, seen_external_call, call_line, callee_contract,
                    callee_function, findings);
            } else {
                walk_body(children, 0, contract_name, func_name, graph, seen_external_call, call_line, callee_contract,
                    callee_function, findings);
                assert(trees(children@).subrange(0, children@.len() as int) =~= trees(children@));
            }
        },
    }
}

} // verus!
