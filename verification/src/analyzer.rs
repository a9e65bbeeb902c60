use vstd::prelude::*;
use crate::ast::{ClarityNode, Tree, trees};
use crate::detector::{reentrancy, integer_overflow, access_control, unchecked_returns, cross_contract, trait_dispatch};
use crate::registry::{Registry, ParsedView, ParsedContract};
use crate::callgraph::CallGraph;
use crate::ast::head_of;
use crate::text::{str_eq, str_lt, seq_lt, lemma_seq_lt_total, lemma_seq_lt_transitive, lemma_seq_lt_irreflexive};

verus! {

/// How serious a finding is.
#[derive(Debug, Clone, Copy, PartialEq, Eq, Structural)]
pub enum Severity {
    Critical,
    High,
    Medium,
    Low,
}

/// The label of a severity.
pub open spec fn severity_name(s: Severity) -> Seq<char> {
    match s {
        Severity::Critical => "CRITICAL"@,
        Severity::High => "HIGH"@,
        Severity::Medium => "MEDIUM"@,
        Severity::Low => "LOW"@,
    }
}

/// The place of a severity in reports: critical first, low last.
pub open spec fn severity_rank(s: Severity) -> int {
    match s {
        Severity::Critical => 0,
        Severity::High => 1,
        Severity::Medium => 2,
        Severity::Low => 3,
    }
}

impl Severity {
    pub fn as_str(&self) -> (s: &str)
        ensures
            s@ == severity_name(*self),
    {
        match self {
            Severity::Critical => "CRITICAL",
            Severity::High => "HIGH",
            Severity::Medium => "MEDIUM",
            Severity::Low => "LOW",
        }
    }
}

/// One problem that a detector reports.
#[derive(Debug, Clone)]
pub struct Finding {
    pub severity: Severity,
    /// "Reentrancy", "Integer Underflow", etc
    pub kind: String,
    pub function_name: String,
    pub line: usize,
    /// what the problem is
    pub message: String,
    /// how to fix it
    pub fix: String,
}

/// The content of a finding, its texts as character sequences.
pub struct FindingView {
    pub severity: Severity,
    pub kind: Seq<char>,
    pub function_name: Seq<char>,
    pub line: int,
    pub message: Seq<char>,
    pub fix: Seq<char>,
}

impl View for Finding {
    type V = FindingView;

    open spec fn view(&self) -> FindingView {
        FindingView {
            severity: self.severity,
            kind: self.kind@,
            function_name: self.function_name@,
            line: self.line as int,
            message: self.message@,
            fix: self.fix@,
        }
    }
}

/// The contents of a sequence of findings.
pub open spec fn fviews(s: Seq<Finding>) -> Seq<FindingView> {
    s.map_values(|f: Finding| f@)
}

pub proof fn lemma_fviews_push(s: Seq<Finding>, f: Finding)
    ensures
        fviews(s.push(f)) == fviews(s).push(f@),
{
    assert(fviews(s.push(f)) =~= fviews(s).push(f@));
}

pub proof fn lemma_fviews_add(s: Seq<Finding>, t: Seq<Finding>)
    ensures
        fviews(s + t) == fviews(s) + fviews(t),
{
    assert(fviews(s + t) =~= fviews(s) + fviews(t));
}


/// What single-file analysis reports for top-level nodes: the findings of the
/// reentrancy, integer, access control and unchecked-return detectors, in
/// that order.
pub open spec fn analyze_spec(ns: Seq<Tree>) -> Seq<FindingView> {
    reentrancy::detect_spec(ns) + integer_overflow::detect_spec(ns) + access_control::detect_spec(ns)
        + unchecked_returns::detect_spec(ns)
}

/// Single file analysis entry point
pub fn analyze(nodes: &[ClarityNode]) -> (r: Vec<Finding>)
    ensures
        fviews(r@) == analyze_spec(trees(nodes@)),
{
    let mut findings: Vec<Finding> = Vec::new();
    let mut a = reentrancy::detect(nodes);
    let mut b = integer_overflow::detect(nodes);
    let mut c = access_control::detect(nodes);
    let mut d = unchecked_returns::detect(nodes);
    let ghost (ga, gb, gc, gd) = (a@, b@, c@, d@);
    proof {
        lemma_fviews_add(ga, gb);
        lemma_fviews_add(ga + gb, gc);
        lemma_fviews_add(ga + gb + gc, gd);
    }
    findings.append(&mut a);
    findings.append(&mut b);
    findings.append(&mut c);
    findings.append(&mut d);
    assert(findings@ =~= ga + gb + gc + gd);
    findings
}


/// How many of the findings `fs` have severity `s`.
pub open spec fn severity_count(fs: Seq<FindingView>, s: Severity) -> nat
    decreases fs.len(),
{
    if fs.len() == 0 {
        0
    } else {
        severity_count(fs.drop_last(), s) + if fs.last().severity == s { 1nat } else { 0nat }
    }
}

/// The number of findings of severity `s`, for a report's summary.
pub fn count_severity(findings: &[Finding], s: Severity) -> (r: usize)
    ensures
        r == severity_count(fviews(findings@), s),
{
    let mut n: usize = 0;
    let mut i: usize = 0;
    assert(fviews(findings@).subrange(0, 0) =~= Seq::<FindingView>::empty());
    while i < findings.len()
        invariant
            i <= findings@.len(),
            n <= i,
            n == severity_count(fviews(findings@).subrange(0, i as int), s),
        decreases findings@.len() - i,
    {
        let ghost t = fviews(findings@).subrange(0, i + 1);
        assert(t.drop_last() =~= fviews(findings@).subrange(0, i as int));
        assert(t.last() == findings@[i as int]@);
        if findings[i].severity == s {
            n = n + 1;
        }
        i = i + 1;
    }
    assert(fviews(findings@).subrange(0, findings@.len() as int) =~= fviews(findings@));
    n
}

/// A finding with its associated contract name
#[derive(Debug, Clone)]
pub struct ProjectFinding {
    pub contract_name: String,
    pub finding: Finding,
}

/// The content of a project finding.
pub struct ProjectFindingView {
    pub contract_name: Seq<char>,
    pub finding: FindingView,
}

impl View for ProjectFinding {
    type V = ProjectFindingView;

    open spec fn view(&self) -> ProjectFindingView {
        ProjectFindingView { contract_name: self.contract_name@, finding: self.finding@ }
    }
}

pub open spec fn pfviews(s: Seq<ProjectFinding>) -> Seq<ProjectFindingView> {
    s.map_values(|f: ProjectFinding| f@)
}

/// The findings carried by project findings.
pub open spec fn inner_findings(s: Seq<ProjectFindingView>) -> Seq<FindingView> {
    s.map_values(|p: ProjectFindingView| p.finding)
}

/// The number of project findings of severity `s`, for a report's summary.
pub fn count_project_severity(findings: &[ProjectFinding], s: Severity) -> (r: usize)
    ensures
        r == severity_count(inner_findings(pfviews(findings@)), s),
{
    let mut n: usize = 0;
    let mut i: usize = 0;
    let ghost all = inner_findings(pfviews(findings@));
    assert(all.subrange(0, 0) =~= Seq::<FindingView>::empty());
    while i < findings.len()
        invariant
            i <= findings@.len(),
            all == inner_findings(pfviews(findings@)),
            n <= i,
            n == severity_count(all.subrange(0, i as int), s),
        decreases findings@.len() - i,
    {
        let ghost t = all.subrange(0, i + 1);
        assert(t.drop_last() =~= all.subrange(0, i as int));
        assert(t.last() == findings@[i as int].finding@);
        if findings[i].finding.severity == s {
            n = n + 1;
        }
        i = i + 1;
    }
    assert(all.subrange(0, findings@.len() as int) =~= all);
    n
}


pub open spec fn tagged(fs: Seq<FindingView>, name: Seq<char>) -> Seq<ProjectFindingView> {
    fs.map_values(|f: FindingView| ProjectFindingView { contract_name: name, finding: f })
}

/// The per-contract findings of the contracts `cs`, in order: for each, the
/// single-file findings, then the trait dispatch findings.
pub open spec fn per_contract(cs: Seq<ParsedView>) -> Seq<ProjectFindingView>
    decreases cs.len(),
{
    if cs.len() == 0 {
        seq![]
    } else {
        per_contract(cs.drop_last()) + tagged(analyze_spec(cs.last().ast), cs.last().name)
            + tagged(trait_dispatch::detect_spec(cs.last().ast), cs.last().name)
    }
}

/// A top-level list whose second element is a list headed by `name`, as in
/// `(define-public (name ...) ...)`.
pub open spec fn defines_name(t: Tree, name: Seq<char>) -> bool {
    t is List && t->List_0.len() > 1 && t->List_0[1] is List && head_of(t->List_0[1]->List_0) == Some(name)
}

/// The contract to which a cross-contract finding about function `name`
/// belongs: the first of `cs` with a top-level node that defines `name`, or "unknown".
pub open spec fn owner(cs: Seq<ParsedView>, name: Seq<char>) -> Seq<char>
    decreases cs.len(),
{
    if cs.len() == 0 {
        "unknown"@
    } else if exists|i: int| 0 <= i < cs[0].ast.len() && defines_name(#[trigger] cs[0].ast[i], name) {
        cs[0].name
    } else {
        owner(cs.drop_first(), name)
    }
}

/// All findings of a project before ordering: the per-contract ones, then
/// the cross-contract ones with their owners.
pub open spec fn project_findings(cs: Seq<ParsedView>) -> Seq<ProjectFindingView> {
    per_contract(cs) + owned(cs, cross_contract::detect_spec(cs))
}

/// Cross-contract findings, each attributed to its owner among `cs`.
pub open spec fn owned(cs: Seq<ParsedView>, fs: Seq<FindingView>) -> Seq<ProjectFindingView> {
    fs.map_values(|f: FindingView| ProjectFindingView { contract_name: owner(cs, f.function_name), finding: f })
}

/// The order of reports: by severity (critical first), then by contract name.
pub open spec fn report_before(a: ProjectFindingView, b: ProjectFindingView) -> bool {
    ||| severity_rank(a.finding.severity) < severity_rank(b.finding.severity)
    ||| (severity_rank(a.finding.severity) == severity_rank(b.finding.severity) && seq_lt(a.contract_name, b.contract_name))
}

/// Two findings that the report order does not tell apart.
pub open spec fn same_key(a: ProjectFindingView, b: ProjectFindingView) -> bool {
    severity_rank(a.finding.severity) == severity_rank(b.finding.severity) && a.contract_name == b.contract_name
}

/// Ordered: no finding comes before one that the order puts first.
pub open spec fn report_sorted(s: Seq<ProjectFindingView>) -> bool {
    forall|i: int, j: int| 0 <= i < j < s.len() ==> !report_before(#[trigger] s[j], #[trigger] s[i])
}

/// The findings of `s` with the same key as `k`, in order.
pub open spec fn with_key(s: Seq<ProjectFindingView>, k: ProjectFindingView) -> Seq<ProjectFindingView>
    decreases s.len(),
{
    if s.len() == 0 {
        seq![]
    } else {
        with_key(s.drop_last(), k) + if same_key(s.last(), k) { seq![s.last()] } else { seq![] }
    }
}

proof fn lemma_key_total(a: ProjectFindingView, b: ProjectFindingView)
    ensures
        report_before(a, b) || report_before(b, a) || same_key(a, b),
        !(report_before(a, b) && report_before(b, a)),
        same_key(a, b) ==> !report_before(a, b),
{
    lemma_seq_lt_total(a.contract_name, b.contract_name);
    lemma_seq_lt_irreflexive(a.contract_name);
    if seq_lt(a.contract_name, b.contract_name) && seq_lt(b.contract_name, a.contract_name) {
        lemma_seq_lt_transitive(a.contract_name, b.contract_name, a.contract_name);
    }
}

proof fn lemma_key_transitive(a: ProjectFindingView, b: ProjectFindingView, c: ProjectFindingView)
    requires
        report_before(a, b),
        !report_before(c, b),
    ensures
        report_before(a, c),
{
    lemma_key_total(b, c);
    if report_before(b, c) {
        if seq_lt(a.contract_name, b.contract_name) && seq_lt(b.contract_name, c.contract_name) {
            lemma_seq_lt_transitive(a.contract_name, b.contract_name, c.contract_name);
        }
    }
}

/// Inserting `x` at `p`, where everything before `p` does not come after `x`
/// and everything from `p` on comes after it, keeps the order, and adds `x`
/// at the end of the findings with its key.
proof fn lemma_insert_report(s: Seq<ProjectFindingView>, p: int, x: ProjectFindingView)
    requires
        report_sorted(s),
        0 <= p <= s.len(),
        forall|i: int| 0 <= i < p ==> !report_before(x, #[trigger] s[i]),
        forall|i: int| p <= i < s.len() ==> report_before(x, #[trigger] s[i]),
    ensures
        report_sorted(s.insert(p, x)),
        forall|k: ProjectFindingView| #[trigger] with_key(s.insert(p, x), k)
            == with_key(s, k) + if same_key(x, k) { seq![x] } else { seq![] },
    decreases s.len(),
{
    let t = s.insert(p, x);
    assert forall|a: int, b: int| 0 <= a < b < t.len() implies !report_before(#[trigger] t[b], #[trigger] t[a]) by {
        lemma_key_total(t[a], t[b]);
        if a < p && b == p {
        } else if a == p {
            lemma_key_total(x, t[b]);
        } else if a < p && b > p {
            if report_before(t[b], t[a]) {
                lemma_key_transitive(x, t[b], t[a]);
            }
        }
    }
    if p == s.len() {
        assert forall|k: ProjectFindingView| #[trigger] with_key(s.insert(p, x), k)
            == with_key(s, k) + if same_key(x, k) { seq![x] } else { seq![] } by {
            assert(s.insert(p, x).drop_last() =~= s);
        }
    } else {
        let d = s.drop_last();
        assert forall|i: int, j: int| 0 <= i < j < d.len() implies !report_before(#[trigger] d[j], #[trigger] d[i]) by {
            assert(d[i] == s[i] && d[j] == s[j]);
        }
        lemma_insert_report(d, p, x);
        assert(t.drop_last() =~= d.insert(p, x));
        assert(t.last() == s.last());
        assert forall|k: ProjectFindingView| #[trigger] with_key(s.insert(p, x), k)
            == with_key(s, k) + if same_key(x, k) { seq![x] } else { seq![] } by {
            assert(with_key(d.insert(p, x), k) == with_key(d, k) + if same_key(x, k) { seq![x] } else { seq![] });
            if same_key(x, k) {
                lemma_key_total(x, s.last());
                assert(!same_key(s.last(), k));
            }
            assert(with_key(t, k) =~= with_key(s, k) + if same_key(x, k) { seq![x] } else { seq![] });
        }
    }
}

fn severity_rank_exec(s: Severity) -> (r: u8)
    ensures
        r as int == severity_rank(s),
{
    match s {
        Severity::Critical => 0,
        Severity::High => 1,
        Severity::Medium => 2,
        Severity::Low => 3,
    }
}

fn reported_before(a: &ProjectFinding, b: &ProjectFinding) -> (r: bool)
    ensures
        r == report_before(a@, b@),
{
    let ra = severity_rank_exec(a.finding.severity);
    let rb = severity_rank_exec(b.finding.severity);
    ra < rb || (ra == rb && str_lt(a.contract_name.as_str(), b.contract_name.as_str()))
}

/// Stable sort by severity then contract name.
fn sort_findings(findings: Vec<ProjectFinding>) -> (r: Vec<ProjectFinding>)
    ensures
        r@.len() == findings@.len(),
        report_sorted(pfviews(r@)),
        forall|k: ProjectFindingView| #[trigger] with_key(pfviews(r@), k) == with_key(pfviews(findings@), k),
{
    let mut out: Vec<ProjectFinding> = Vec::new();
    let ghost input = pfviews(findings@);
    proof {
        assert(pfviews(out@) =~= Seq::<ProjectFindingView>::empty());
        assert forall|k: ProjectFindingView| #[trigger] with_key(pfviews(out@), k) == with_key(input.take(0), k) by {
            assert(input.take(0) =~= Seq::<ProjectFindingView>::empty());
        }
    }
    let ghost n = findings@.len();
    for f in it: findings
        invariant
            input == it.seq().map_values(|f: ProjectFinding| f@),
            n == it.seq().len(),
            out@.len() == it.index(),
            report_sorted(pfviews(out@)),
            forall|k: ProjectFindingView| #[trigger] with_key(pfviews(out@), k) == with_key(input.take(it.index() as int), k),
    {
        let ghost idx = it.index() as int;
        let mut p: usize = 0;
        while p < out.len() && !reported_before(&f, &out[p])
            invariant
                p <= out@.len(),
                forall|i: int| 0 <= i < p ==> !report_before(f@, #[trigger] pfviews(out@)[i]),
            decreases out@.len() - p,
        {
            p = p + 1;
        }
        proof {
            let o = pfviews(out@);
            if p < out@.len() {
                assert(report_before(f@, o[p as int]));
                assert forall|i: int| p <= i < o.len() implies report_before(f@, #[trigger] o[i]) by {
                    if i > p {
                        lemma_key_transitive(f@, o[p as int], o[i]);
                    }
                }
            }
            lemma_insert_report(o, p as int, f@);
            assert(input.take(idx + 1).drop_last() =~= input.take(idx));
            assert(input.take(idx + 1).last() == f@);
        }
        let ghost before = out@;
        out.insert(p, f);
        assert(pfviews(out@) =~= pfviews(before).insert(p as int, f@));
    }
    proof {
        assert(input.take(input.len() as int) =~= input);
    }
    out
}

fn tag_findings(out: &mut Vec<ProjectFinding>, fs: Vec<Finding>, name: &str)
    ensures
        pfviews(final(out)@) == pfviews(old(out)@) + tagged(fviews(fs@), name@),
{
    let ghost start = pfviews(out@);
    let ghost fv = fviews(fs@);
    proof {
        assert(start + tagged(fv.take(0), name@) =~= start);
    }
    for f in it: fs
        invariant
            fv == it.seq().map_values(|f: Finding| f@),
            pfviews(out@) == start + tagged(fv.take(it.index() as int), name@),
    {
        let ghost idx = it.index() as int;
        let ghost before = out@;
        out.push(ProjectFinding { contract_name: name.to_owned(), finding: f });
        assert(tagged(fv.take(idx + 1), name@) =~= tagged(fv.take(idx), name@).push(
            ProjectFindingView { contract_name: name@, finding: f@ }));
        assert(pfviews(out@) =~= pfviews(before).push(ProjectFindingView { contract_name: name@, finding: f@ }));
    }
    proof {
        assert(fv.take(fv.len() as int) =~= fv);
    }
}

/// Whether a top-level node defines the function `name`.
fn node_defines(n: &ClarityNode, name: &str) -> (r: bool)
    ensures
        r == defines_name(n@, name@),
{
    match n {
        ClarityNode::List(children, _) => {
            assert(n@ is List && n@->List_0 == trees(children@));
            if children.len() > 1 {
                assert(trees(children@)[1] == children@[1]@);
                match &children[1] {
                    ClarityNode::List(sig_children, _) => {
                        assert(children@[1]@ is List && children@[1]@->List_0 == trees(sig_children@));
                        match crate::ast::head_atom(sig_children) {
                            Some(h) => str_eq(h, name),
                            None => false,
                        }
                    },
                    ClarityNode::Atom(_, _) => false,
                }
            } else {
                false
            }
        },
        ClarityNode::Atom(_, _) => false,
    }
}

/// The contract to which a cross-contract finding about `name` belongs.
fn owner_of(contracts: &Vec<&ParsedContract>, name: &str) -> (r: String)
    ensures
        r@ == owner(contracts@.map_values(|c: &ParsedContract| c@), name@),
{
    let ghost cs = contracts@.map_values(|c: &ParsedContract| c@);
    let mut k: usize = 0;
    assert(cs.subrange(0, cs.len() as int) =~= cs);
    while k < contracts.len()
        invariant
            k <= contracts@.len(),
            cs == contracts@.map_values(|c: &ParsedContract| c@),
            owner(cs.subrange(k as int, cs.len() as int), name@) == owner(cs, name@),
        decreases contracts@.len() - k,
    {
        let c = contracts[k];
        let ghost rest = cs.subrange(k as int, cs.len() as int);
        assert(rest[0] == c@);
        let mut i: usize = 0;
        let mut found = false;
        while i < c.ast.len() && !found
            invariant
                i <= c.ast@.len(),
                found ==> exists|j: int| 0 <= j < c.ast@.len() && defines_name(#[trigger] trees(c.ast@)[j], name@),
                !found ==> forall|j: int| 0 <= j < i ==> !defines_name(#[trigger] trees(c.ast@)[j], name@),
            decreases c.ast@.len() - i, if found { 0int } else { 1int },
        {
            assert(trees(c.ast@)[i as int] == c.ast@[i as int]@);
            if node_defines(&c.ast[i], name) {
                found = true;
            } else {
                i = i + 1;
            }
        }
        if found {
            proof {
                let j = choose|j: int| 0 <= j < c.ast@.len() && defines_name(#[trigger] trees(c.ast@)[j], name@);
                assert(rest[0].ast == trees(c.ast@));
                assert(defines_name(rest[0].ast[j], name@));
            }
            return c.name.clone();
        }
        assert(rest.drop_first() =~= cs.subrange(k + 1, cs.len() as int));
        k = k + 1;
    }
    String::from_str("unknown")
}

/// Project wide analysis — per-contract and cross-contract detection,
/// sorted by severity then contract name
pub fn analyze_project(registry: &Registry, graph: &CallGraph) -> (r: Vec<ProjectFinding>)
    ensures
        r@.len() == project_findings(registry@).len(),
        report_sorted(pfviews(r@)),
        forall|k: ProjectFindingView| #[trigger] with_key(pfviews(r@), k) == with_key(project_findings(registry@), k),
{
    let mut findings: Vec<ProjectFinding> = Vec::new();
    let contracts = registry.all();
    let ghost cs = registry@;
    proof {
        assert(contracts@.map_values(|c: &ParsedContract| c@) =~= cs);
        assert(cs.subrange(0, 0) =~= Seq::<ParsedView>::empty());
        assert(pfviews(findings@) =~= Seq::<ProjectFindingView>::empty());
    }
    // run per-contract detectors first
    let mut k: usize = 0;
    while k < contracts.len()
        invariant
            k <= contracts@.len(),
            cs == registry@,
            contracts@.map_values(|c: &ParsedContract| c@) == cs,
            pfviews(findings@) == per_contract(cs.subrange(0, k as int)),
        decreases contracts@.len() - k,
    {
        let contract = contracts[k];
        assert(contracts@.map_values(|c: &ParsedContract| c@)[k as int] == contract@);
        let contract_findings = analyze(contract.ast.as_slice());
        tag_findings(&mut findings, contract_findings, contract.name.as_str());
        // trait dispatch detection needs contract name context
        let trait_findings = trait_dispatch::detect(contract.ast.as_slice(), contract.name.as_str());
        tag_findings(&mut findings, trait_findings, contract.name.as_str());
        proof {
            let t = cs.subrange(0, k + 1);
            assert(t.drop_last() =~= cs.subrange(0, k as int));
            assert(t.last() == contract@);
        }
        k = k + 1;
    }
    assert(cs.subrange(0, cs.len() as int) =~= cs);
    // run cross-contract detector across the whole registry
    let cross_findings = cross_contract::detect(registry, graph);
    let ghost cf = fviews(cross_findings@);
    let ghost base = pfviews(findings@);
    proof {
        assert(base + owned(cs, cf.take(0)) =~= base);
    }
    for f in it: cross_findings
        invariant
            cf == it.seq().map_values(|f: Finding| f@),
            cs == registry@,
            contracts@.map_values(|c: &ParsedContract| c@) == cs,
            pfviews(findings@) == base + owned(cs, cf.take(it.index() as int)),
    {
        let ghost idx = it.index() as int;
        // find which contract this finding belongs to by matching function name
        let contract_name = owner_of(&contracts, f.function_name.as_str());
        let ghost before = findings@;
        let pf = ProjectFinding { contract_name, finding: f };
        findings.push(pf);
        assert(owned(cs, cf.take(idx + 1)) =~= owned(cs, cf.take(idx)).push(pf@));
        assert(pfviews(findings@) =~= pfviews(before).push(pf@));
    }
    proof {
        assert(cf.take(cf.len() as int) =~= cf);
        assert(pfviews(findings@) =~= project_findings(cs));
    }
    // sort by severity then contract name
    sort_findings(findings)
}

} // verus!
