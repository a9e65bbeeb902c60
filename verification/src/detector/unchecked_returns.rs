use vstd::prelude::*;
use crate::ast::{ClarityNode, Tree, trees, head_of, is_form_of, head_atom};
use crate::analyzer::{Finding, FindingView, Severity, fviews, lemma_fviews_push, lemma_fviews_add};
use crate::detector::{extract_function_name, fn_parts, sig_name};
use crate::text::{str_eq, concat3};

verus! {

/// The external calls whose result must be checked.
pub open spec fn is_checked_call(op: Seq<char>) -> bool {
    ||| op == "contract-call?"@
    ||| op == "stx-transfer?"@
    ||| op == "ft-transfer?"@
    ||| op == "nft-transfer?"@
}

fn checked_call(op: &str) -> (r: bool)
    ensures
        r == is_checked_call(op@),
{
    str_eq(op, "contract-call?") || str_eq(op, "stx-transfer?") || str_eq(op, "ft-transfer?")
        || str_eq(op, "nft-transfer?")
}

/// The forms that check the result of what they wrap.
pub open spec fn is_safe_wrapper(op: Seq<char>) -> bool {
    ||| op == "try!"@
    ||| op == "unwrap!"@
    ||| op == "unwrap-panic"@
    ||| op == "unwrap-err!"@
    ||| op == "match"@
}

fn safe_wrapper(op: &str) -> (r: bool)
    ensures
        r == is_safe_wrapper(op@),
{
    str_eq(op, "try!") || str_eq(op, "unwrap!") || str_eq(op, "unwrap-panic") || str_eq(op, "unwrap-err!")
        || str_eq(op, "match")
}

pub open spec fn unchecked_finding(func: Seq<char>, op: Seq<char>, line: int) -> FindingView {
    FindingView {
        severity: Severity::Medium,
        kind: "Unchecked Return Value"@,
        function_name: func,
        line: line,
        message: "'"@ + op + "' return value is not checked — errors will be silently ignored"@,
        fix: "Wrap with try! — (try! ("@ + op + " ...))"@,
    }
}

/// The findings for the nodes `ns`; `inside` holds when they are the
/// arguments of a safe wrapper.
pub open spec fn unchecked_seq(ns: Seq<Tree>, func: Seq<char>, inside: bool) -> Seq<FindingView>
    decreases ns,
{
    if ns.len() == 0 {
        seq![]
    } else {
        unchecked_seq(ns.subrange(0, ns.len() - 1), func, inside) + unchecked_node(ns[ns.len() - 1], func, inside)
    }
}

/// A safe wrapper's arguments are walked as wrapped; an external call is a
/// finding unless wrapped, and its arguments are not searched; any other
/// list's elements are walked as not wrapped.
pub open spec fn unchecked_node(n: Tree, func: Seq<char>, inside: bool) -> Seq<FindingView>
    decreases n,
{
    match n {
        Tree::Atom(_, _) => seq![],
        Tree::List(ch, line) => {
            let h = head_of(ch);
            if h is Some && is_safe_wrapper(h->0) {
                unchecked_seq(ch.subrange(1, ch.len() as int), func, true)
            } else if h is Some && is_checked_call(h->0) {
                if !inside { seq![unchecked_finding(func, h->0, line)] } else { seq![] }
            } else {
                unchecked_seq(ch, func, false)
            }
        },
    }
}

/// The findings for one top-level node, when it names its function.
pub open spec fn function_findings(t: Tree) -> Option<Seq<FindingView>> {
    match fn_parts(t) {
        Some((name, body)) => Some(unchecked_seq(body, name, false)),
        None => None,
    }
}

/// The detector's findings for a sequence of top-level nodes: those of each
/// `define-public` and `define-private`.
pub open spec fn detect_spec(ns: Seq<Tree>) -> Seq<FindingView>
    decreases ns.len(),
{
    if ns.len() == 0 {
        seq![]
    } else {
        let rest = detect_spec(ns.drop_last());
        let t = ns.last();
        if (is_form_of(t, "define-public"@) || is_form_of(t, "define-private"@)) && function_findings(t) is Some {
            rest + function_findings(t)->0
        } else {
            rest
        }
    }
}

pub fn detect(nodes: &[ClarityNode]) -> (r: Vec<Finding>)
    ensures
        fviews(r@) == detect_spec(trees(nodes@)),
{
    let mut findings: Vec<Finding> = Vec::new();
    let mut i: usize = 0;
    proof {
        assert(trees(nodes@).subrange(0, 0) =~= Seq::<Tree>::empty());
        assert(fviews(findings@) =~= Seq::<FindingView>::empty());
    }
    while i < nodes.len()
        invariant
            i <= nodes@.len(),
            fviews(findings@) == detect_spec(trees(nodes@).subrange(0, i as int)),
        decreases nodes@.len() - i,
    {
        let ghost s = trees(nodes@).subrange(0, i + 1);
        assert(s.drop_last() =~= trees(nodes@).subrange(0, i as int));
        assert(s.last() == nodes@[i as int]@);
        let node = &nodes[i];
        if node.is_form("define-public") || node.is_form("define-private") {
            match analyze_function(node) {
                Some(func_findings) => {
                    let mut ff = func_findings;
                    proof {
                        lemma_fviews_add(findings@, ff@);
                    }
                    findings.append(&mut ff);
                },
                None => {},
            }
        }
        i = i + 1;
    }
    assert(trees(nodes@).subrange(0, nodes@.len() as int) =~= trees(nodes@));
    findings
}

fn analyze_function(node: &ClarityNode) -> (r: Option<Vec<Finding>>)
    ensures
        match function_findings(node@) {
            Some(fs) => r is Some && fviews(r->0@) == fs,
            None => r is None,
        },
{
    match node {
        ClarityNode::List(children, _) => {
            assert(node@->List_0 == trees(children@));
            if children.len() < 2 {
                return None;
            }
            assert(trees(children@)[1] == children@[1]@);
            let func_name = match extract_function_name(&children[1]) {
                Some(n) => n,
                None => return None,
            };
            let mut findings: Vec<Finding> = Vec::new();
            walk_body(children, 2, func_name.as_str(), false, &mut findings);
            assert(fviews(findings@) =~= Seq::<FindingView>::empty() + fviews(findings@));
            Some(findings)
        },
        ClarityNode::Atom(_, _) => None,
    }
}

fn make_finding(func_name: &str, op: &str, line: usize) -> (f: Finding)
    ensures
        f@ == unchecked_finding(func_name@, op@, line as int),
{
    Finding {
        severity: Severity::Medium,
        kind: String::from_str("Unchecked Return Value"),
        function_name: func_name.to_owned(),
        line: line,
        message: concat3("'", op, "' return value is not checked — errors will be silently ignored"),
        fix: concat3("Wrap with try! — (try! (", op, " ...))"),
    }
}

/// inside_wrapper = true means these nodes are already inside try!/unwrap!/etc
fn walk_body(nodes: &Vec<ClarityNode>, from: usize, func_name: &str, inside_wrapper: bool, findings: &mut Vec<Finding>)
    requires
        from <= nodes@.len(),
    ensures
        fviews(final(findings)@) == fviews(old(findings)@)
            + unchecked_seq(trees(nodes@).subrange(from as int, nodes@.len() as int), func_name@, inside_wrapper),
    decreases nodes,
{
    let mut i: usize = from;
    proof {
        assert(fviews(findings@) + Seq::<FindingView>::empty() =~= fviews(findings@));
    }
    while i < nodes.len()
        invariant
            from <= i <= nodes@.len(),
            fviews(findings@) == fviews(old(findings)@)
                + unchecked_seq(trees(nodes@).subrange(from as int, i as int), func_name@, inside_wrapper),
            forall|j: int| 0 <= j < nodes@.len() ==> decreases_to!(nodes => #[trigger] nodes@[j]),
        decreases nodes@.len() - i,
    {
        let ghost s = trees(nodes@).subrange(from as int, i + 1);
        assert(s.subrange(0, s.len() - 1) =~= trees(nodes@).subrange(from as int, i as int));
        assert(s[s.len() - 1] == nodes@[i as int]@);
        match &nodes[i] {
            ClarityNode::List(children, line) => {
                assert(nodes@[i as int]@ is List && nodes@[i as int]@->List_0 == trees(children@));
                let head = head_atom(children);
                let (is_wrapper, is_call) = match head {
                    Some(op) => (safe_wrapper(op), checked_call(op)),
                    None => (false, false),
                };
                if is_wrapper {
                    // safe wrapper — walk with flag set so inner calls are skipped
                    walk_body(children, 1, func_name, true, findings);
                } else if is_call {
                    // external call — only flag if NOT inside a safe wrapper
                    if !inside_wrapper {
                        let op = match head {
                            Some(op) => op,
                            None => "",
                        };
                        let f = make_finding(func_name, op, *line);
                        proof {
                            lemma_fviews_push(findings@, f);
                        }
                        findings.push(f);
                    }
                    // don't recurse into the call arguments
                } else {
                    // reset inside_wrapper to false for nested nodes
                    walk_body(children, 0, func_name, false, findings);
                    assert(trees(children@).subrange(0, children@.len() as int) =~= trees(children@));
                }
            },
            ClarityNode::Atom(_, _) => {},
        }
        assert(fviews(findings@) =~= fviews(old(findings)@)
            + (unchecked_seq(trees(nodes@).subrange(from as int, i as int), func_name@, inside_wrapper)
            + unchecked_node(nodes@[i as int]@, func_name@, inside_wrapper)));
        i = i + 1;
    }
}

} // verus!
