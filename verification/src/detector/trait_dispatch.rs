use vstd::prelude::*;
use crate::ast::{ClarityNode, Tree, trees, head_of, is_form_of, head_atom, atom_at, atom_in};
use crate::analyzer::{Finding, FindingView, Severity, fviews, lemma_fviews_push, lemma_fviews_add};
use crate::detector::{is_state_mutator, state_mutator, extract_function_name, fn_parts, sig_name};
use crate::text::{str_eq, dec, decimal, concat5, chars_of};

verus! {

/// A type written `<name>`: a trait.
pub open spec fn is_trait_type(t: Seq<char>) -> bool {
    t.len() > 0 && t[0] == '<' && t[t.len() - 1] == '>'
}

/// The name of a parameter `(name <trait>)`, when its type is a trait.
pub open spec fn trait_param(p: Tree) -> Option<Seq<char>> {
    match p {
        Tree::List(pc, _) => {
            let ty = match atom_at(pc, 1) {
                Some(t) => t,
                None => Seq::empty(),
            };
            if pc.len() >= 2 && is_trait_type(ty) && head_of(pc) is Some {
                head_of(pc)
            } else {
                None
            }
        },
        Tree::Atom(_, _) => None,
    }
}

/// The trait parameters among `ps`, in order.
pub open spec fn trait_params_of(ps: Seq<Tree>) -> Seq<Seq<char>>
    decreases ps.len(),
{
    if ps.len() == 0 {
        seq![]
    } else {
        trait_params_of(ps.drop_last()) + match trait_param(ps.last()) {
            Some(n) => seq![n],
            None => seq![],
        }
    }
}

/// The trait parameters of a signature: e.g. (swap (token <ft-trait>) (amount uint)) -> ["token"]
pub open spec fn sig_trait_params(sig: Tree) -> Seq<Seq<char>> {
    match sig {
        Tree::List(ch, _) => if ch.len() > 0 { trait_params_of(ch.subrange(1, ch.len() as int)) } else { seq![] },
        Tree::Atom(_, _) => seq![],
    }
}

/// Forms whose arguments (after the head) are walked in order.
pub open spec fn is_walked_form(op: Seq<char>) -> bool {
    ||| op == "begin"@
    ||| op == "let"@
    ||| op == "let*"@
    ||| op == "if"@
    ||| op == "match"@
    ||| op == "and"@
    ||| op == "or"@
}

fn walked_form(op: &str) -> (r: bool)
    ensures
        r == is_walked_form(op@),
{
    str_eq(op, "begin") || str_eq(op, "let") || str_eq(op, "let*") || str_eq(op, "if") || str_eq(op, "match")
        || str_eq(op, "and") || str_eq(op, "or")
}

pub open spec fn trait_finding(func: Seq<char>, op: Seq<char>, line: int, call_line: int) -> FindingView {
    FindingView {
        severity: Severity::Critical,
        kind: "Trait Dispatch Reentrancy"@,
        function_name: func,
        line: line,
        message: "'"@ + op + "' called after trait dispatch on line "@ + dec(call_line as nat)
            + " — any conforming contract could be passed as the trait argument"@,
        fix: "Move '"@ + op + "' to before the trait-based contract-call? on line "@ + dec(call_line as nat)
            + ". Validate the trait implementor if possible."@,
    }
}

/// Walking nodes in order: whether a call through a trait parameter was
/// seen and the line of the last one, and the findings.
pub open spec fn dispatch_seq(ns: Seq<Tree>, func: Seq<char>, params: Seq<Seq<char>>, st: (bool, int)) -> ((bool, int), Seq<FindingView>)
    decreases ns,
{
    if ns.len() == 0 {
        (st, seq![])
    } else {
        let (st1, a) = dispatch_seq(ns.subrange(0, ns.len() - 1), func, params, st);
        let (st2, b) = dispatch_node(ns[ns.len() - 1], func, params, st1);
        (st2, a + b)
    }
}

pub open spec fn dispatch_node(n: Tree, func: Seq<char>, params: Seq<Seq<char>>, st: (bool, int)) -> ((bool, int), Seq<FindingView>)
    decreases n,
{
    match n {
        Tree::Atom(_, _) => (st, seq![]),
        Tree::List(ch, line) => {
            let h = head_of(ch);
            if h == Some("contract-call?"@) {
                if atom_at(ch, 1) is Some && params.contains(atom_at(ch, 1)->0) {
                    ((true, line), seq![])
                } else {
                    (st, seq![])
                }
            } else if h is Some && is_state_mutator(h->0) {
                if st.0 {
                    (st, seq![trait_finding(func, h->0, line, st.1)])
                } else {
                    (st, seq![])
                }
            } else if h is Some && is_walked_form(h->0) {
                dispatch_seq(ch.subrange(1, ch.len() as int), func, params, st)
            } else {
                dispatch_seq(ch, func, params, st)
            }
        },
    }
}

/// The findings for one top-level node, when it names its function.
pub open spec fn function_findings(t: Tree) -> Option<Seq<FindingView>> {
    match fn_parts(t) {
        Some((name, body)) => {
            let params = sig_trait_params(t->List_0[1]);
            Some(
                if params.len() == 0 {
                    seq![]
                } else {
                    dispatch_seq(body, name, params, (false, 0)).1
                },
            )
        },
        None => None,
    }
}

/// The detector's findings for a sequence of top-level nodes: those of each
/// `define-public` and `define-private`.
pub open spec fn detect_spec(ns: Seq<Tree>) -> Seq<FindingView>
    decreases ns.len(),
{
    if ns.len() == 0 {
        seq![]
    } else {
        let rest = detect_spec(ns.drop_last());
        let t = ns.last();
        if (is_form_of(t, "define-public"@) || is_form_of(t, "define-private"@)) && function_findings(t) is Some {
            rest + function_findings(t)->0
        } else {
            rest
        }
    }
}

/// Detect functions that accept trait parameters and mutate state
/// around those calls — any conforming contract could be passed in
pub fn detect(nodes: &[ClarityNode], contract_name: &str) -> (r: Vec<Finding>)
    ensures
        fviews(r@) == detect_spec(trees(nodes@)),
{
    let mut findings: Vec<Finding> = Vec::new();
    let mut i: usize = 0;
    proof {
        assert(trees(nodes@).subrange(0, 0) =~= Seq::<Tree>::empty());
        assert(fviews(findings@) =~= Seq::<FindingView>::empty());
    }
    while i < nodes.len()
        invariant
            i <= nodes@.len(),
            fviews(findings@) == detect_spec(trees(nodes@).subrange(0, i as int)),
        decreases nodes@.len() - i,
    {
        let ghost s = trees(nodes@).subrange(0, i + 1);
        assert(s.drop_last() =~= trees(nodes@).subrange(0, i as int));
        assert(s.last() == nodes@[i as int]@);
        let node = &nodes[i];
        if node.is_form("define-public") || node.is_form("define-private") {
            match analyze_function(node, contract_name) {
                Some(func_findings) => {
                    let mut ff = func_findings;
                    proof {
                        lemma_fviews_add(findings@, ff@);
                    }
                    findings.append(&mut ff);
                },
                None => {},
            }
        }
        i = i + 1;
    }
    assert(trees(nodes@).subrange(0, nodes@.len() as int) =~= trees(nodes@));
    findings
}

fn analyze_function(node: &ClarityNode, contract_name: &str) -> (r: Option<Vec<Finding>>)
    ensures
        match function_findings(node@) {
            Some(fs) => r is Some && fviews(r->0@) == fs,
            None => r is None,
        },
{
    match node {
        ClarityNode::List(children, _) => {
            assert(node@ is List && node@->List_0 == trees(children@));
            if children.len() < 2 {
                return None;
            }
            assert(trees(children@)[1] == children@[1]@);
            let sig = &children[1];
            let func_name = match extract_function_name(sig) {
                Some(n) => n,
                None => return None,
            };
            let trait_params = extract_trait_params(sig);
            if trait_params.len() == 0 {
                let empty: Vec<Finding> = Vec::new();
                assert(fviews(empty@) =~= Seq::<FindingView>::empty());
                return Some(empty);
            }
            let mut findings: Vec<Finding> = Vec::new();
            // check if any trait parameter is called and state is mutated around it
            let mut seen_trait_call = false;
            let mut call_line: usize = 0;
            walk_body(children, 2, func_name.as_str(), contract_name, &trait_params, &mut seen_trait_call,
                &mut call_line, &mut findings);
            assert(fviews(findings@) =~= Seq::<FindingView>::empty() + fviews(findings@));
            Some(findings)
        },
        ClarityNode::Atom(_, _) => None,
    }
}

/// The texts of a sequence of strings.
pub open spec fn sviews(s: Seq<String>) -> Seq<Seq<char>> {
    s.map_values(|x: String| x@)
}

fn trait_type(t: &str) -> (r: bool)
    ensures
        r == is_trait_type(t@),
{
    let v = chars_of(t);
    v.len() > 0 && v[0] == '<' && v[v.len() - 1] == '>'
}

/// Extract trait parameter names from a function signature
/// e.g. (swap (token <ft-trait>) (amount uint)) -> ["token"]
fn extract_trait_params(sig: &ClarityNode) -> (r: Vec<String>)
    ensures
        sviews(r@) == sig_trait_params(sig@),
{
    let mut trait_params: Vec<String> = Vec::new();
    match sig {
        ClarityNode::List(children, _) => {
            assert(sig@ is List && sig@->List_0 == trees(children@));
            if children.len() == 0 {
                assert(sviews(trait_params@) =~= Seq::<Seq<char>>::empty());
                return trait_params;
            }
            let ghost ps = trees(children@).subrange(1, children@.len() as int);
            // skip first child which is the function name
            let mut i: usize = 1;
            proof {
                assert(ps.subrange(0, 0) =~= Seq::<Tree>::empty());
                assert(sviews(trait_params@) =~= Seq::<Seq<char>>::empty());
            }
            while i < children.len()
                invariant
                    1 <= i <= children@.len(),
                    ps == trees(children@).subrange(1, children@.len() as int),
                    sviews(trait_params@) == trait_params_of(ps.subrange(0, i - 1)),
                decreases children@.len() - i,
            {
                let ghost s = ps.subrange(0, i as int);
                assert(s.drop_last() =~= ps.subrange(0, i - 1));
                assert(s.last() == children@[i as int]@);
                let ghost before = trait_params@;
                match &children[i] {
                    ClarityNode::List(param_children, _) => {
                        assert(children@[i as int]@ is List && children@[i as int]@->List_0 == trees(param_children@));
                        // param is (name type); if type is <...> it is a trait
                        if param_children.len() >= 2 {
                            let param_name = head_atom(param_children);
                            let is_trait = match atom_in(param_children, 1) {
                                Some(t) => trait_type(t),
                                None => false,
                            };
                            if is_trait {
                                match param_name {
                                    Some(name) => {
                                        trait_params.push(name.to_owned());
                                        assert(sviews(trait_params@) =~= sviews(before).push(name@));
                                    },
                                    None => {
                                        assert(sviews(trait_params@) =~= sviews(before) + Seq::<Seq<char>>::empty());
                                    },
                                }
                            } else {
                                assert(sviews(trait_params@) =~= sviews(before) + Seq::<Seq<char>>::empty());
                            }
                        } else {
                            assert(sviews(trait_params@) =~= sviews(before) + Seq::<Seq<char>>::empty());
                        }
                    },
                    ClarityNode::Atom(_, _) => {
                        assert(sviews(trait_params@) =~= sviews(before) + Seq::<Seq<char>>::empty());
                    },
                }
                i = i + 1;
            }
            assert(ps.subrange(0, children@.len() - 1) =~= ps);
        },
        ClarityNode::Atom(_, _) => {
            assert(sviews(trait_params@) =~= Seq::<Seq<char>>::empty());
        },
    }
    trait_params
}

fn string_in(v: &Vec<String>, x: &str) -> (r: bool)
    ensures
        r == sviews(v@).contains(x@),
{
    let mut i: usize = 0;
    while i < v.len()
        invariant
            i <= v@.len(),
            forall|j: int| 0 <= j < i ==> #[trigger] sviews(v@)[j] != x@,
        decreases v@.len() - i,
    {
        if str_eq(v[i].as_str(), x) {
            assert(sviews(v@)[i as int] == x@);
            return true;
        }
        i = i + 1;
    }
    false
}

fn make_finding(func_name: &str, op: &str, line: usize, call_line: usize) -> (f: Finding)
    ensures
        f@ == trait_finding(func_name@, op@, line as int, call_line as int),
{
    let cl = decimal(call_line);
    Finding {
        severity: Severity::Critical,
        kind: String::from_str("Trait Dispatch Reentrancy"),
        function_name: func_name.to_owned(),
        line: line,
        message: concat5("'", op, "' called after trait dispatch on line ", cl.as_str(),
            " — any conforming contract could be passed as the trait argument"),
        fix: concat5("Move '", op, "' to before the trait-based contract-call? on line ", cl.as_str(),
            ". Validate the trait implementor if possible."),
    }
}

fn walk_body(
    nodes: &Vec<ClarityNode>,
    from: usize,
    func_name: &str,
    contract_name: &str,
    trait_params: &Vec<String>,
    seen_trait_call: &mut bool,
    call_line: &mut usize,
    findings: &mut Vec<Finding>,
)
    requires
        from <= nodes@.len(),
    ensures
        ({
            let (st, fs) = dispatch_seq(trees(nodes@).subrange(from as int, nodes@.len() as int), func_name@,
                sviews(trait_params@), (*old(seen_trait_call), *old(call_line) as int));
            &&& *final(seen_trait_call) == st.0
            &&& *final(call_line) == st.1
            &&& fviews(final(findings)@) == fviews(old(findings)@) + fs
        }),
    decreases nodes,
{
    let ghost params = sviews(trait_params@);
    let mut i: usize = from;
    proof {
        assert(trees(nodes@).subrange(from as int, from as int) =~= Seq::<Tree>::empty());
        assert(fviews(findings@) + Seq::<FindingView>::empty() =~= fviews(findings@));
    }
    while i < nodes.len()
        invariant
            from <= i <= nodes@.len(),
            params == sviews(trait_params@),
            ({
                let (st, fs) = dispatch_seq(trees(nodes@).subrange(from as int, i as int), func_name@, params,
                    (*old(seen_trait_call), *old(call_line) as int));
                &&& *seen_trait_call == st.0
                &&& *call_line == st.1
                &&& fviews(findings@) == fviews(old(findings)@) + fs
            }),
            forall|j: int| 0 <= j < nodes@.len() ==> decreases_to!(nodes => #[trigger] nodes@[j]),
        decreases nodes@.len() - i,
    {
        let ghost s = trees(nodes@).subrange(from as int, i + 1);
        assert(s.subrange(0, s.len() - 1) =~= trees(nodes@).subrange(from as int, i as int));
        assert(s[s.len() - 1] == nodes@[i as int]@);
        let ghost (st, fs) = dispatch_seq(trees(nodes@).subrange(from as int, i as int), func_name@, params,
            (*old(seen_trait_call), *old(call_line) as int));
        let ghost before = fviews(findings@);
        match &nodes[i] {
            ClarityNode::List(children, line) => {
                assert(nodes@[i as int]@ is List && nodes@[i as int]@->List_0 == trees(children@));
                let head = head_atom(children);
                let (is_call, is_mut, is_walked) = match head {
                    Some(op) => (str_eq(op, "contract-call?"), state_mutator(op), walked_form(op)),
                    None => (false, false, false),
                };
                if is_call {
                    // check if the callee is one of our trait params
                    match atom_in(children, 1) {
                        Some(callee_name) => {
                            if string_in(trait_params, callee_name) {
                                *seen_trait_call = true;
                                *call_line = *line;
                            }
                        },
                        None => {},
                    }
                    assert(fviews(findings@) =~= before + Seq::<FindingView>::empty());
                } else if is_mut {
                    if *seen_trait_call {
                        let op = match head {
                            Some(op) => op,
                            None => "",
                        };
                        let f = make_finding(func_name, op, *line, *call_line);
                        proof {
                            lemma_fviews_push(findings@, f);
                        }
                        findings.push(f);
                    } else {
                        assert(fviews(findings@) =~= before + Seq::<FindingView>::empty());
                    }
                } else if is_walked {
                    walk_body(children, 1, func_name, contract_name, trait_params, seen_trait_call, call_line, findings);
                } else {
                    walk_body(children, 0, func_name, contract_name, trait_params, seen_trait_call, call_line, findings);
                    assert(trees(children@).subrange(0, children@.len() as int) =~= trees(children@));
                }
            },
            ClarityNode::Atom(_, _) => {
                assert(fviews(findings@) =~= before + Seq::<FindingView>::empty());
            },
        }
        proof {
            let (st2, gs) = dispatch_node(nodes@[i as int]@, func_name@, params, st);
            assert(fviews(findings@) =~= fviews(old(findings)@) + (fs + gs));
        }
        i = i + 1;
    }
}

} // verus!
