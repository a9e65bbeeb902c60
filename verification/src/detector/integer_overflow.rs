use vstd::prelude::*;
use crate::ast::{ClarityNode, Tree, trees, head_of, is_form_of, head_atom};
use crate::analyzer::{Finding, FindingView, Severity, fviews, lemma_fviews_push, lemma_fviews_add};
use crate::detector::{extract_function_name, fn_parts, sig_name};
use crate::text::str_eq;

verus! {

/// The comparisons that count as a bounds check inside `asserts!`.
pub open spec fn is_comparison(op: Seq<char>) -> bool {
    op == ">="@ || op == "<="@ || op == ">"@ || op == "<"@
}

fn comparison(op: &str) -> (r: bool)
    ensures
        r == is_comparison(op@),
{
    str_eq(op, ">=") || str_eq(op, "<=") || str_eq(op, ">") || str_eq(op, "<")
}

/// Upper-bound comparisons: `(< x n)` and `(<= x n)`.
pub open spec fn is_upper_comparison(op: Seq<char>) -> bool {
    op == "<"@ || op == "<="@
}

fn upper_comparison(op: &str) -> (r: bool)
    ensures
        r == is_upper_comparison(op@),
{
    str_eq(op, "<") || str_eq(op, "<=")
}

/// The comparison of a bounds check `(asserts! (op ...) ...)` whose `op` is
/// a comparison, given the children of a list.
pub open spec fn check_op(ch: Seq<Tree>) -> Option<Seq<char>> {
    if head_of(ch) == Some("asserts!"@) && ch.len() > 1 && ch[1] is List && head_of(ch[1]->List_0) is Some
        && is_comparison(head_of(ch[1]->List_0)->0) {
        head_of(ch[1]->List_0)
    } else {
        None
    }
}

/// What the walk knows so far in a function: whether a bounds check has
/// been passed (which guards subtraction), and whether an upper-bound check
/// has been passed (which guards addition).
pub type Guards = (bool, bool);

/// The guards after passing the bounds check with comparison `op`.
pub open spec fn after_check(g: Guards, op: Seq<char>) -> Guards {
    (true, g.1 || is_upper_comparison(op))
}

pub open spec fn underflow_finding(func: Seq<char>, line: int) -> FindingView {
    FindingView {
        severity: Severity::High,
        kind: "Integer Underflow"@,
        function_name: func,
        line: line,
        message: "Subtraction may underflow — no bounds check found in function"@,
        fix: "Add (asserts! (>= balance amount) (err u1)) before subtracting"@,
    }
}

pub open spec fn overflow_finding(func: Seq<char>, line: int) -> FindingView {
    FindingView {
        severity: Severity::Low,
        kind: "Integer Overflow"@,
        function_name: func,
        line: line,
        message: "Addition may overflow uint bounds without upper bound check"@,
        fix: "Consider asserting an upper bound before adding"@,
    }
}

/// The findings for the nodes `ns`, walked in source order from the guards
/// `g`, and the guards after them. Every list is searched, the operands of
/// `+` and `-` too. A `(- ...)` is reported unless a bounds check came before
/// it, and a `(+ ...)` unless an upper-bound check came before it; a bounds
/// check takes effect after its own `asserts!` form.
pub open spec fn walk_seq(ns: Seq<Tree>, func: Seq<char>, g: Guards) -> (Seq<FindingView>, Guards)
    decreases ns,
{
    if ns.len() == 0 {
        (seq![], g)
    } else {
        let (a, g1) = walk_seq(ns.subrange(0, ns.len() - 1), func, g);
        let (b, g2) = walk_node(ns[ns.len() - 1], func, g1);
        (a + b, g2)
    }
}

pub open spec fn walk_node(n: Tree, func: Seq<char>, g: Guards) -> (Seq<FindingView>, Guards)
    decreases n,
{
    match n {
        Tree::Atom(_, _) => (seq![], g),
        Tree::List(ch, line) => {
            let here = if head_of(ch) == Some("-"@) && !g.0 {
                seq![underflow_finding(func, line)]
            } else if head_of(ch) == Some("+"@) && !g.1 {
                seq![overflow_finding(func, line)]
            } else {
                seq![]
            };
            let (inner, g1) = walk_seq(ch, func, g);
            let g2 = match check_op(ch) {
                Some(op) => after_check(g1, op),
                None => g1,
            };
            (here + inner, g2)
        },
    }
}

/// The findings for one top-level node, when it names its function.
pub open spec fn function_findings(t: Tree) -> Option<Seq<FindingView>> {
    match fn_parts(t) {
        Some((name, body)) => Some(walk_seq(body, name, (false, false)).0),
        None => None,
    }
}

/// The detector's findings for a sequence of top-level nodes: those of each
/// `define-public` and `define-private`.
pub open spec fn detect_spec(ns: Seq<Tree>) -> Seq<FindingView>
    decreases ns.len(),
{
    if ns.len() == 0 {
        seq![]
    } else {
        let rest = detect_spec(ns.drop_last());
        let t = ns.last();
        if (is_form_of(t, "define-public"@) || is_form_of(t, "define-private"@)) && function_findings(t) is Some {
            rest + function_findings(t)->0
        } else {
            rest
        }
    }
}

pub fn detect(nodes: &[ClarityNode]) -> (r: Vec<Finding>)
    ensures
        fviews(r@) == detect_spec(trees(nodes@)),
{
    let mut findings: Vec<Finding> = Vec::new();
    let mut i: usize = 0;
    proof {
        assert(trees(nodes@).subrange(0, 0) =~= Seq::<Tree>::empty());
        assert(fviews(findings@) =~= Seq::<FindingView>::empty());
    }
    while i < nodes.len()
        invariant
            i <= nodes@.len(),
            fviews(findings@) == detect_spec(trees(nodes@).subrange(0, i as int)),
        decreases nodes@.len() - i,
    {
        let ghost s = trees(nodes@).subrange(0, i + 1);
        assert(s.drop_last() =~= trees(nodes@).subrange(0, i as int));
        assert(s.last() == nodes@[i as int]@);
        let node = &nodes[i];
        if node.is_form("define-public") || node.is_form("define-private") {
            match analyze_function(node) {
                Some(func_findings) => {
                    let mut ff = func_findings;
                    proof {
                        lemma_fviews_add(findings@, ff@);
                    }
                    findings.append(&mut ff);
                },
                None => {},
            }
        }
        i = i + 1;
    }
    assert(trees(nodes@).subrange(0, nodes@.len() as int) =~= trees(nodes@));
    findings
}

fn analyze_function(node: &ClarityNode) -> (r: Option<Vec<Finding>>)
    ensures
        match function_findings(node@) {
            Some(fs) => r is Some && fviews(r->0@) == fs,
            None => r is None,
        },
{
    match node {
        ClarityNode::List(children, _) => {
            assert(node@->List_0 == trees(children@));
            if children.len() < 2 {
                return None;
            }
            assert(trees(children@)[1] == children@[1]@);
            let func_name = match extract_function_name(&children[1]) {
                Some(n) => n,
                None => return None,
            };
            let mut checked = false;
            let mut upper_checked = false;
            let mut findings: Vec<Finding> = Vec::new();
            walk_body(children, 2, func_name.as_str(), &mut checked, &mut upper_checked, &mut findings);
            assert(fviews(findings@) =~= Seq::<FindingView>::empty() + fviews(findings@));
            Some(findings)
        },
        ClarityNode::Atom(_, _) => None,
    }
}

/// The comparison of a bounds check `(asserts! (op ...) ...)`, if the
/// children of a list form one.
fn bounds_check_op(children: &Vec<ClarityNode>) -> (r: Option<&str>)
    ensures
        r is Some <==> check_op(trees(children@)) is Some,
        r matches Some(op) ==> check_op(trees(children@)) == Some(op@),
{
    let is_asserts = match head_atom(children) {
        Some(h) => str_eq(h, "asserts!"),
        None => false,
    };
    if is_asserts && children.len() > 1 {
        assert(trees(children@)[1] == children@[1]@);
        match &children[1] {
            ClarityNode::List(cond_children, _) => {
                match head_atom(cond_children) {
                    Some(c) => {
                        if comparison(c) {
                            return Some(c);
                        }
                    },
                    None => {},
                }
            },
            ClarityNode::Atom(_, _) => {},
        }
    }
    None
}

fn make_underflow(func_name: &str, line: usize) -> (f: Finding)
    ensures
        f@ == underflow_finding(func_name@, line as int),
{
    Finding {
        severity: Severity::High,
        kind: String::from_str("Integer Underflow"),
        function_name: func_name.to_owned(),
        line: line,
        message: String::from_str("Subtraction may underflow — no bounds check found in function"),
        fix: String::from_str("Add (asserts! (>= balance amount) (err u1)) before subtracting"),
    }
}

fn make_overflow(func_name: &str, line: usize) -> (f: Finding)
    ensures
        f@ == overflow_finding(func_name@, line as int),
{
    Finding {
        severity: Severity::Low,
        kind: String::from_str("Integer Overflow"),
        function_name: func_name.to_owned(),
        line: line,
        message: String::from_str("Addition may overflow uint bounds without upper bound check"),
        fix: String::from_str("Consider asserting an upper bound before adding"),
    }
}

fn walk_body(
    nodes: &Vec<ClarityNode>,
    from: usize,
    func_name: &str,
    checked: &mut bool,
    upper_checked: &mut bool,
    findings: &mut Vec<Finding>,
)
    requires
        from <= nodes@.len(),
    ensures
        ({
            let (fs, g) = walk_seq(trees(nodes@).subrange(from as int, nodes@.len() as int), func_name@,
                (*old(checked), *old(upper_checked)));
            &&& fviews(final(findings)@) == fviews(old(findings)@) + fs
            &&& (*final(checked), *final(upper_checked)) == g
        }),
    decreases nodes,
{
    let mut i: usize = from;
    let ghost g0 = (*checked, *upper_checked);
    proof {
        assert(trees(nodes@).subrange(from as int, from as int) =~= Seq::<Tree>::empty());
        assert(fviews(findings@) + Seq::<FindingView>::empty() =~= fviews(findings@));
    }
    while i < nodes.len()
        invariant
            from <= i <= nodes@.len(),
            g0 == (*old(checked), *old(upper_checked)),
            fviews(findings@) == fviews(old(findings)@)
                + walk_seq(trees(nodes@).subrange(from as int, i as int), func_name@, g0).0,
            (*checked, *upper_checked) == walk_seq(trees(nodes@).subrange(from as int, i as int), func_name@, g0).1,
            forall|j: int| 0 <= j < nodes@.len() ==> decreases_to!(nodes => #[trigger] nodes@[j]),
        decreases nodes@.len() - i,
    {
        let ghost s = trees(nodes@).subrange(from as int, i + 1);
        let ghost pre = trees(nodes@).subrange(from as int, i as int);
        assert(s.subrange(0, s.len() - 1) =~= pre);
        assert(s[s.len() - 1] == nodes@[i as int]@);
        let ghost before = fviews(findings@);
        let ghost g1 = (*checked, *upper_checked);
        match &nodes[i] {
            ClarityNode::List(children, line) => {
                let ghost ch = trees(children@);
                assert(nodes@[i as int]@ == Tree::List(ch, *line as int));
                let head = head_atom(children);
                let (is_minus, is_plus) = match head {
                    Some(h) => (str_eq(h, "-"), str_eq(h, "+")),
                    None => (false, false),
                };
                if is_minus && !*checked {
                    let f = make_underflow(func_name, *line);
                    proof {
                        lemma_fviews_push(findings@, f);
                    }
                    findings.push(f);
                } else if is_plus && !*upper_checked {
                    let f = make_overflow(func_name, *line);
                    proof {
                        lemma_fviews_push(findings@, f);
                    }
                    findings.push(f);
                }
                let ghost mid = fviews(findings@);
                // the operands and sub-expressions come after the operator
                walk_body(children, 0, func_name, checked, upper_checked, findings);
                assert(ch.subrange(0, children@.len() as int) =~= ch);
                match bounds_check_op(children) {
                    Some(op) => {
                        *checked = true;
                        *upper_checked = *upper_checked || upper_comparison(op);
                    },
                    None => {},
                }
                proof {
                    let (b, g2) = walk_node(nodes@[i as int]@, func_name@, g1);
                    assert(fviews(findings@) =~= before + b);
                    assert((*checked, *upper_checked) == g2);
                }
            },
            ClarityNode::Atom(_, _) => {
                proof {
                    assert(before + Seq::<FindingView>::empty() =~= before);
                }
            },
        }
        proof {
            let (b, g2) = walk_node(nodes@[i as int]@, func_name@, g1);
            assert(fviews(findings@) == before + b);
            assert((*checked, *upper_checked) == g2);
            let (a0, ga) = walk_seq(pre, func_name@, g0);
            assert(ga == g1);
            assert(walk_seq(s, func_name@, g0) == (a0 + b, g2));
            assert(fviews(findings@) =~= fviews(old(findings)@) + (a0 + b));
        }
        i = i + 1;
    }
}

} // verus!
