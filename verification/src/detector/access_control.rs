use vstd::prelude::*;
use crate::ast::{ClarityNode, Tree, trees, head_of, is_form_of, head_atom};
use crate::analyzer::{Finding, FindingView, Severity, fviews, lemma_fviews_add};
use crate::detector::{extract_function_name, fn_parts, sig_name, is_state_mutator, state_mutator};
use crate::text::{str_eq, concat3};

verus! {

/// The principals whose check counts as access control.
pub open spec fn is_auth_principal(s: Seq<char>) -> bool {
    s == "tx-sender"@ || s == "contract-caller"@
}

fn auth_principal(s: &str) -> (r: bool)
    ensures
        r == is_auth_principal(s@),
{
    str_eq(s, "tx-sender") || str_eq(s, "contract-caller")
}

/// The node is, or holds at any depth, the atom `tx-sender` or `contract-caller`.
pub open spec fn mentions_principal(n: Tree) -> bool
    decreases n,
{
    match n {
        Tree::Atom(v, _) => is_auth_principal(v),
        Tree::List(ch, _) => mentions_principal_seq(ch),
    }
}

pub open spec fn mentions_principal_seq(ns: Seq<Tree>) -> bool
    decreases ns,
{
    ns.len() > 0 && (mentions_principal_seq(ns.subrange(0, ns.len() - 1)) || mentions_principal(ns[ns.len() - 1]))
}

/// Some node of `ns` is the atom `tx-sender` or `contract-caller` itself.
pub open spec fn has_principal_atom(ns: Seq<Tree>) -> bool {
    exists|i: int| 0 <= i < ns.len() && #[trigger] ns[i] is Atom && is_auth_principal(ns[i]->Atom_0)
}

/// An `asserts!` whose condition mentions the principal, or an `is-eq` with
/// the principal among its direct arguments; other lists are searched inside.
pub open spec fn auth_node(n: Tree) -> bool
    decreases n,
{
    match n {
        Tree::Atom(_, _) => false,
        Tree::List(ch, _) => {
            if head_of(ch) == Some("asserts!"@) {
                ch.len() > 1 && mentions_principal(ch[1])
            } else if head_of(ch) == Some("is-eq"@) {
                has_principal_atom(ch)
            } else {
                auth_seq(ch)
            }
        },
    }
}

pub open spec fn auth_seq(ns: Seq<Tree>) -> bool
    decreases ns,
{
    ns.len() > 0 && (auth_seq(ns.subrange(0, ns.len() - 1)) || auth_node(ns[ns.len() - 1]))
}

/// A list headed by a state mutator, at any depth.
pub open spec fn mutation_node(n: Tree) -> bool
    decreases n,
{
    match n {
        Tree::Atom(_, _) => false,
        Tree::List(ch, _) => (head_of(ch) is Some && is_state_mutator(head_of(ch)->0)) || mutation_seq(ch),
    }
}

pub open spec fn mutation_seq(ns: Seq<Tree>) -> bool
    decreases ns,
{
    ns.len() > 0 && (mutation_seq(ns.subrange(0, ns.len() - 1)) || mutation_node(ns[ns.len() - 1]))
}

pub open spec fn missing_auth_finding(func: Seq<char>, line: int) -> FindingView {
    FindingView {
        severity: Severity::High,
        kind: "Missing Access Control"@,
        function_name: func,
        line: line,
        message: "Public function '"@ + func + "' modifies state without access control check"@,
        fix: "Add (asserts! (is-eq tx-sender contract-owner) (err u403)) at the top of the function"@,
    }
}

/// The findings for one top-level node, when it names its function: one
/// when its body mutates state and checks no principal.
pub open spec fn function_findings(t: Tree) -> Option<Seq<FindingView>> {
    match fn_parts(t) {
        Some((name, body)) => Some(
            if mutation_seq(body) && !auth_seq(body) {
                seq![missing_auth_finding(name, t.line())]
            } else {
                seq![]
            },
        ),
        None => None,
    }
}

/// The detector's findings for a sequence of top-level nodes: those of each `define-public`.
pub open spec fn detect_spec(ns: Seq<Tree>) -> Seq<FindingView>
    decreases ns.len(),
{
    if ns.len() == 0 {
        seq![]
    } else {
        let rest = detect_spec(ns.drop_last());
        let t = ns.last();
        if is_form_of(t, "define-public"@) && function_findings(t) is Some {
            rest + function_findings(t)->0
        } else {
            rest
        }
    }
}

pub fn detect(nodes: &[ClarityNode]) -> (r: Vec<Finding>)
    ensures
        fviews(r@) == detect_spec(trees(nodes@)),
{
    let mut findings: Vec<Finding> = Vec::new();
    let mut i: usize = 0;
    proof {
        assert(trees(nodes@).subrange(0, 0) =~= Seq::<Tree>::empty());
        assert(fviews(findings@) =~= Seq::<FindingView>::empty());
    }
    while i < nodes.len()
        invariant
            i <= nodes@.len(),
            fviews(findings@) == detect_spec(trees(nodes@).subrange(0, i as int)),
        decreases nodes@.len() - i,
    {
        let ghost s = trees(nodes@).subrange(0, i + 1);
        assert(s.drop_last() =~= trees(nodes@).subrange(0, i as int));
        assert(s.last() == nodes@[i as int]@);
        let node = &nodes[i];
        if node.is_form("define-public") {
            match analyze_function(node) {
                Some(func_findings) => {
                    let mut ff = func_findings;
                    proof {
                        lemma_fviews_add(findings@, ff@);
                    }
                    findings.append(&mut ff);
                },
                None => {},
            }
        }
        i = i + 1;
    }
    assert(trees(nodes@).subrange(0, nodes@.len() as int) =~= trees(nodes@));
    findings
}

fn analyze_function(node: &ClarityNode) -> (r: Option<Vec<Finding>>)
    ensures
        match function_findings(node@) {
            Some(fs) => r is Some && fviews(r->0@) == fs,
            None => r is None,
        },
{
    match node {
        ClarityNode::List(children, _) => {
            assert(node@->List_0 == trees(children@));
            if children.len() < 2 {
                return None;
            }
            assert(trees(children@)[1] == children@[1]@);
            let func_name = match extract_function_name(&children[1]) {
                Some(n) => n,
                None => return None,
            };
            let has_auth_check = body_has_real_auth_check(children, 2);
            let has_mutation = body_contains_mutation(children, 2);
            let mut findings: Vec<Finding> = Vec::new();
            if has_mutation && !has_auth_check {
                let f = Finding {
                    severity: Severity::High,
                    kind: String::from_str("Missing Access Control"),
                    function_name: func_name.clone(),
                    line: node.line(),
                    message: concat3(
                        "Public function '",
                        func_name.as_str(),
                        "' modifies state without access control check",
                    ),
                    fix: String::from_str(
                        "Add (asserts! (is-eq tx-sender contract-owner) (err u403)) at the top of the function",
                    ),
                };
                findings.push(f);
                assert(fviews(findings@) =~= seq![missing_auth_finding(func_name@, node@.line())]);
            } else {
                assert(fviews(findings@) =~= Seq::<FindingView>::empty());
            }
            Some(findings)
        },
        ClarityNode::Atom(_, _) => None,
    }
}

proof fn lemma_or_prefix(ns: Seq<Tree>, k: int, which: int)
    requires
        0 <= k <= ns.len(),
        0 <= which < 3,
        which == 0 ==> auth_seq(ns.subrange(0, k)),
        which == 1 ==> mutation_seq(ns.subrange(0, k)),
        which == 2 ==> mentions_principal_seq(ns.subrange(0, k)),
    ensures
        which == 0 ==> auth_seq(ns),
        which == 1 ==> mutation_seq(ns),
        which == 2 ==> mentions_principal_seq(ns),
    decreases ns.len() - k,
{
    if k < ns.len() {
        assert(ns.subrange(0, k + 1).subrange(0, k) =~= ns.subrange(0, k));
        lemma_or_prefix(ns, k + 1, which);
    } else {
        assert(ns.subrange(0, k) =~= ns);
    }
}

/// Only count tx-sender/contract-caller as auth checks when they
/// appear inside asserts! or is-eq expressions — not just anywhere
fn body_has_real_auth_check(nodes: &Vec<ClarityNode>, from: usize) -> (r: bool)
    requires
        from <= nodes@.len(),
    ensures
        r == auth_seq(trees(nodes@).subrange(from as int, nodes@.len() as int)),
    decreases nodes,
{
    let mut i: usize = from;
    assert(!auth_seq(trees(nodes@).subrange(from as int, from as int)));
    while i < nodes.len()
        invariant
            from <= i <= nodes@.len(),
            !auth_seq(trees(nodes@).subrange(from as int, i as int)),
            forall|j: int| 0 <= j < nodes@.len() ==> decreases_to!(nodes => #[trigger] nodes@[j]),
        decreases nodes@.len() - i,
    {
        let ghost s = trees(nodes@).subrange(from as int, i + 1);
        assert(s.subrange(0, s.len() - 1) =~= trees(nodes@).subrange(from as int, i as int));
        assert(s[s.len() - 1] == nodes@[i as int]@);
        let found = match &nodes[i] {
            ClarityNode::List(children, _) => {
                assert(nodes@[i as int]@ is List && nodes@[i as int]@->List_0 == trees(children@));
                let head = head_atom(children);
                let (is_asserts, is_eq) = match head {
                    Some(h) => (str_eq(h, "asserts!"), str_eq(h, "is-eq")),
                    None => (false, false),
                };
                if is_asserts {
                    // check if the condition references tx-sender or contract-caller
                    if children.len() > 1 {
                        assert(trees(children@)[1] == children@[1]@);
                        node_contains_auth_principal(&children[1])
                    } else {
                        false
                    }
                } else if is_eq {
                    // (is-eq tx-sender contract-owner) pattern
                    has_principal_child(children)
                } else {
                    let r = body_has_real_auth_check(children, 0);
                    assert(trees(children@).subrange(0, children@.len() as int) =~= trees(children@));
                    r
                }
            },
            ClarityNode::Atom(_, _) => false,
        };
        assert(found == auth_node(nodes@[i as int]@));
        if found {
            proof {
                assert(trees(nodes@).subrange(from as int, nodes@.len() as int).subrange(0, i + 1 - from) =~= s);
                lemma_or_prefix(trees(nodes@).subrange(from as int, nodes@.len() as int), i + 1 - from, 0);
            }
            return true;
        }
        i = i + 1;
    }
    false
}

fn has_principal_child(children: &Vec<ClarityNode>) -> (r: bool)
    ensures
        r == has_principal_atom(trees(children@)),
{
    let mut i: usize = 0;
    while i < children.len()
        invariant
            i <= children@.len(),
            forall|j: int| 0 <= j < i ==> !(#[trigger] trees(children@)[j] is Atom && is_auth_principal(trees(children@)[j]->Atom_0)),
        decreases children@.len() - i,
    {
        assert(trees(children@)[i as int] == children@[i as int]@);
        match &children[i] {
            ClarityNode::Atom(s, _) => {
                if auth_principal(s.as_str()) {
                    return true;
                }
            },
            ClarityNode::List(_, _) => {},
        }
        i = i + 1;
    }
    false
}

/// Check if a node or any of its children reference tx-sender/contract-caller
fn node_contains_auth_principal(node: &ClarityNode) -> (r: bool)
    ensures
        r == mentions_principal(node@),
    decreases node,
{
    match node {
        ClarityNode::Atom(val, _) => auth_principal(val.as_str()),
        ClarityNode::List(children, _) => {
            assert(node@ is List && node@->List_0 == trees(children@));
            let mut i: usize = 0;
            assert(!mentions_principal_seq(trees(children@).subrange(0, 0)));
            while i < children.len()
                invariant
                    i <= children@.len(),
                    !mentions_principal_seq(trees(children@).subrange(0, i as int)),
                    forall|j: int| 0 <= j < children@.len() ==> decreases_to!(node => #[trigger] children@[j]),
                    node@ is List && node@->List_0 == trees(children@),
                decreases children@.len() - i,
            {
                let ghost s = trees(children@).subrange(0, i + 1);
                assert(s.subrange(0, s.len() - 1) =~= trees(children@).subrange(0, i as int));
                assert(s[s.len() - 1] == children@[i as int]@);
                if node_contains_auth_principal(&children[i]) {
                    proof {
                        assert(mentions_principal(s[s.len() - 1]));
                        assert(mentions_principal_seq(s));
                        lemma_or_prefix(trees(children@), i + 1, 2);
                        assert(mentions_principal_seq(trees(children@)));
                    }
                    return true;
                }
                i = i + 1;
            }
            assert(trees(children@).subrange(0, children@.len() as int) =~= trees(children@));
            false
        },
    }
}

fn body_contains_mutation(nodes: &Vec<ClarityNode>, from: usize) -> (r: bool)
    requires
        from <= nodes@.len(),
    ensures
        r == mutation_seq(trees(nodes@).subrange(from as int, nodes@.len() as int)),
    decreases nodes,
{
    let mut i: usize = from;
    assert(!mutation_seq(trees(nodes@).subrange(from as int, from as int)));
    while i < nodes.len()
        invariant
            from <= i <= nodes@.len(),
            !mutation_seq(trees(nodes@).subrange(from as int, i as int)),
            forall|j: int| 0 <= j < nodes@.len() ==> decreases_to!(nodes => #[trigger] nodes@[j]),
        decreases nodes@.len() - i,
    {
        let ghost s = trees(nodes@).subrange(from as int, i + 1);
        assert(s.subrange(0, s.len() - 1) =~= trees(nodes@).subrange(from as int, i as int));
        assert(s[s.len() - 1] == nodes@[i as int]@);
        let found = match &nodes[i] {
            ClarityNode::List(children, _) => {
                assert(nodes@[i as int]@ is List && nodes@[i as int]@->List_0 == trees(children@));
                let is_mut = match head_atom(children) {
                    Some(op) => state_mutator(op),
                    None => false,
                };
                if is_mut {
                    true
                } else {
                    let r = body_contains_mutation(children, 0);
                    assert(trees(children@).subrange(0, children@.len() as int) =~= trees(children@));
                    r
                }
            },
            ClarityNode::Atom(_, _) => false,
        };
        assert(found == mutation_node(nodes@[i as int]@));
        if found {
            proof {
                assert(trees(nodes@).subrange(from as int, nodes@.len() as int).subrange(0, i + 1 - from) =~= s);
                lemma_or_prefix(trees(nodes@).subrange(from as int, nodes@.len() as int), i + 1 - from, 1);
            }
            return true;
        }
        i = i + 1;
    }
    false
}

} // verus!
