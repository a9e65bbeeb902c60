use vstd::prelude::*;
use crate::ast::{ClarityNode, Tree, trees, head_of, atom_at, head_atom, atom_in, is_form_of};
use crate::detector::{sig_name, extract_function_name as sig_function_name};
use crate::registry::{Registry, ParsedView, ParsedContract};
use crate::text::{str_eq, trim_dots, trim_leading_dots};

verus! {

/// A single edge in the call graph
/// represents one function calling another
#[derive(Debug, Clone, PartialEq, Eq, Hash)]
pub struct CallEdge {
    pub caller_contract: String,
    pub caller_function: String,
    pub callee_contract: String,
    pub callee_function: String,
    pub line: usize,
}

/// The texts of a call edge.
pub struct EdgeView {
    pub caller_contract: Seq<char>,
    pub caller_function: Seq<char>,
    pub callee_contract: Seq<char>,
    pub callee_function: Seq<char>,
    pub line: int,
}

impl View for CallEdge {
    type V = EdgeView;

    open spec fn view(&self) -> EdgeView {
        EdgeView {
            caller_contract: self.caller_contract@,
            caller_function: self.caller_function@,
            callee_contract: self.callee_contract@,
            callee_function: self.callee_function@,
            line: self.line as int,
        }
    }
}

/// The views of a sequence of edges.
pub open spec fn eviews(s: Seq<CallEdge>) -> Seq<EdgeView> {
    s.map_values(|e: CallEdge| e@)
}

/// A function of the project: its contract and its name.
pub type FnId = (Seq<char>, Seq<char>);

pub open spec fn caller_of(e: EdgeView) -> FnId {
    (e.caller_contract, e.caller_function)
}

pub open spec fn callee_of(e: EdgeView) -> FnId {
    (e.callee_contract, e.callee_function)
}

/// The full call graph for a project
#[derive(Debug, Default)]
pub struct CallGraph {
    /// All edges in the graph
    pub edges: Vec<CallEdge>,
}

/// Counts of a call graph, and the cycles found in it.
#[derive(Debug)]
pub struct CallGraphSummary {
    pub total_contracts: usize,
    pub total_functions: usize,
    pub total_edges: usize,
    pub cycles: Vec<Vec<(String, String)>>,
}

/// The atom at position `i` of a list, or "unknown".
pub open spec fn atom_or_unknown(ch: Seq<Tree>, i: int) -> Seq<char> {
    match atom_at(ch, i) {
        Some(a) => a,
        None => "unknown"@,
    }
}

/// The edges for the `contract-call?` expressions in a node, in pre-order:
/// `(contract-call? .contract-name function-name ...args)`.
pub open spec fn calls_in(t: Tree, cc: Seq<char>, cf: Seq<char>) -> Seq<EdgeView>
    decreases t,
{
    match t {
        Tree::Atom(_, _) => seq![],
        Tree::List(ch, line) => {
            let here = if head_of(ch) == Some("contract-call?"@) && ch.len() >= 3 {
                seq![EdgeView {
                    caller_contract: cc,
                    caller_function: cf,
                    callee_contract: trim_dots(atom_or_unknown(ch, 1)),
                    callee_function: atom_or_unknown(ch, 2),
                    line: line,
                }]
            } else {
                seq![]
            };
            here + calls_in_seq(ch, cc, cf)
        },
    }
}

pub open spec fn calls_in_seq(ns: Seq<Tree>, cc: Seq<char>, cf: Seq<char>) -> Seq<EdgeView>
    decreases ns,
{
    if ns.len() == 0 {
        seq![]
    } else {
        calls_in_seq(ns.subrange(0, ns.len() - 1), cc, cf) + calls_in(ns[ns.len() - 1], cc, cf)
    }
}

/// The name of the function a definition node defines.
pub open spec fn defined_name(t: Tree) -> Option<Seq<char>> {
    if t is List && t->List_0.len() > 1 {
        sig_name(t->List_0[1])
    } else {
        None
    }
}

/// A `define-public`, `define-private` or `define-read-only` form.
pub open spec fn is_definition(t: Tree) -> bool {
    is_form_of(t, "define-public"@) || is_form_of(t, "define-private"@) || is_form_of(t, "define-read-only"@)
}

/// The edges of the functions defined among the top-level nodes `ns` of contract `cc`.
pub open spec fn contract_calls(ns: Seq<Tree>, cc: Seq<char>) -> Seq<EdgeView>
    decreases ns.len(),
{
    if ns.len() == 0 {
        seq![]
    } else {
        let t = ns.last();
        contract_calls(ns.drop_last(), cc) + if is_definition(t) && defined_name(t) is Some {
            calls_in(t, cc, defined_name(t)->0)
        } else {
            seq![]
        }
    }
}

/// The edges of a project whose contracts, in order, are `cs`.
pub open spec fn project_calls(cs: Seq<ParsedView>) -> Seq<EdgeView>
    decreases cs.len(),
{
    if cs.len() == 0 {
        seq![]
    } else {
        project_calls(cs.drop_last()) + contract_calls(cs.last().ast, cs.last().name)
    }
}

/// The edges in `es` whose caller is `f`, in order.
pub open spec fn calls_from(es: Seq<EdgeView>, f: FnId) -> Seq<EdgeView>
    decreases es.len(),
{
    if es.len() == 0 {
        seq![]
    } else {
        calls_from(es.drop_last(), f) + if caller_of(es.last()) == f { seq![es.last()] } else { seq![] }
    }
}

/// The edges in `es` whose callee is `f`, in order.
pub open spec fn calls_to(es: Seq<EdgeView>, f: FnId) -> Seq<EdgeView>
    decreases es.len(),
{
    if es.len() == 0 {
        seq![]
    } else {
        calls_to(es.drop_last(), f) + if callee_of(es.last()) == f { seq![es.last()] } else { seq![] }
    }
}

impl CallGraph {
    pub fn new() -> (g: Self)
        ensures
            g.edges@ == Seq::<CallEdge>::empty(),
    {
        CallGraph { edges: Vec::new() }
    }

    /// Add an edge to the graph
    fn add_edge(&mut self, edge: CallEdge)
        ensures
            final(self).edges@ == old(self).edges@.push(edge),
    {
        self.edges.push(edge);
    }

    /// Get all functions that a given function calls
    pub fn calls_made_by(&self, contract: &str, function: &str) -> (r: Vec<&CallEdge>)
        ensures
            r@.map_values(|e: &CallEdge| e@) == calls_from(eviews(self.edges@), (contract@, function@)),
    {
        let mut out: Vec<&CallEdge> = Vec::new();
        let mut i: usize = 0;
        proof {
            assert(eviews(self.edges@).subrange(0, 0) =~= Seq::<EdgeView>::empty());
            assert(out@.map_values(|e: &CallEdge| e@) =~= Seq::<EdgeView>::empty());
        }
        while i < self.edges.len()
            invariant
                i <= self.edges@.len(),
                out@.map_values(|e: &CallEdge| e@) == calls_from(eviews(self.edges@).subrange(0, i as int), (contract@, function@)),
            decreases self.edges@.len() - i,
        {
            let ghost s = eviews(self.edges@).subrange(0, i + 1);
            assert(s.drop_last() =~= eviews(self.edges@).subrange(0, i as int));
            let e = &self.edges[i];
            let ghost before = out@;
            if str_eq(e.caller_contract.as_str(), contract) && str_eq(e.caller_function.as_str(), function) {
                out.push(e);
                assert(out@.map_values(|e: &CallEdge| e@) =~= before.map_values(|e: &CallEdge| e@).push(e@));
            } else {
                assert(out@.map_values(|e: &CallEdge| e@) =~= before.map_values(|e: &CallEdge| e@) + Seq::<EdgeView>::empty());
            }
            i = i + 1;
        }
        assert(eviews(self.edges@).subrange(0, self.edges@.len() as int) =~= eviews(self.edges@));
        out
    }

    /// Detect cycles in the call graph — circular calls are dangerous
    pub fn find_cycles(&self) -> (r: Vec<Vec<(String, String)>>)
        ensures
            forall|i: int| 0 <= i < r@.len() ==> is_cycle(eviews(self.edges@), #[trigger] cycle_views(r@)[i]),
            meets_every_cycle(eviews(self.edges@), cycle_views(r@)),
            exists|ix: Seq<int>| closes_on(eviews(self.edges@), cycle_views(r@), ix),
            r@.len() <= self.edges@.len(),
            r@.len() == 0 <==> !has_cycle(eviews(self.edges@)),
    {
        let mut cycles: Vec<Vec<(String, String)>> = Vec::new();
        let mut visited: Vec<(String, String)> = Vec::new();
        let mut stack: Vec<(String, String)> = Vec::new();
        // collect all unique functions
        let nodes = self.functions();
        let ghost es = eviews(self.edges@);
        let ghost mut done: Seq<FnId> = Seq::empty();
        let ghost mut closing: Seq<int> = Seq::empty();
        proof {
            assert(pairs(visited@) =~= Seq::<FnId>::empty());
            assert(pairs(stack@) =~= Seq::<FnId>::empty());
            assert(cycle_views(cycles@) =~= Seq::<Seq<FnId>>::empty());
        }
        let mut i: usize = 0;
        while i < nodes.len()
            invariant
                es == eviews(self.edges@),
                i <= nodes@.len(),
                pairs(nodes@).to_set() == endpoints(es),
                stack@.len() == 0,
                forall|j: int| 0 <= j < cycles@.len() ==> is_cycle(es, #[trigger] cycle_views(cycles@)[j]),
                dfs_ready(es, done, Seq::empty(), vset(visited@), cycle_views(cycles@)),
                closes_on(es, cycle_views(cycles@), closing),
                forall|k: int| 0 <= k < closing.len() ==> vset(visited@).contains(caller_of(es[#[trigger] closing[k]])),
                forall|k: int| 0 <= k < i ==> vset(visited@).contains(#[trigger] pairs(nodes@)[k]),
            decreases nodes@.len() - i,
        {
            let node = &nodes[i];
            assert(pairs(nodes@).contains(pairs(nodes@)[i as int]));
            assert(pairs(nodes@)[i as int] == (node.0@, node.1@));
            proof {
                assert(pairs(stack@) =~= Seq::<FnId>::empty());
            }
            if index_of(&visited, node).is_none() {
                let ghost vb = vset(visited@);
                let out = self.dfs_cycles(node, &mut visited, &mut stack, &mut cycles, Ghost(done), Ghost(closing));
                proof {
                    done = done + out@.0;
                    closing = out@.1;
                    assert(vb.subset_of(vset(visited@)));
                    assert(pairs(stack@) =~= Seq::<FnId>::empty());
                    assert(stack@.len() == 0);
                }
            }
            i = i + 1;
        }
        proof {
            assert forall|x: FnId| endpoints(es).contains(x) implies done.contains(x) by {
                assert(pairs(nodes@).to_set().contains(x));
                let k = choose|k: int| 0 <= k < nodes@.len() && pairs(nodes@)[k] == x;
                assert(vset(visited@).contains(pairs(nodes@)[k]));
            }
            lemma_found_meets_cycles(es, done, cycle_views(cycles@));
            lemma_distinct_indices(closing, es.len() as int);
            if cycles@.len() > 0 {
                assert(is_cycle(es, cycle_views(cycles@)[0]));
            } else if has_cycle(es) {
                let c = choose|c: Seq<FnId>| is_cycle(es, c);
                assert(is_cycle(es, c));
            }
        }
        cycles
    }

    /// The functions of the graph, each once, in order of first appearance.
    fn functions(&self) -> (r: Vec<(String, String)>)
        ensures
            pairs(r@).no_duplicates(),
            pairs(r@).to_set() == endpoints(eviews(self.edges@)),
    {
        let mut out: Vec<(String, String)> = Vec::new();
        let mut i: usize = 0;
        let ghost es = eviews(self.edges@);
        proof {
            assert(pairs(out@).to_set() =~= Set::<FnId>::empty());
            assert(endpoints(es.subrange(0, 0)) =~= Set::<FnId>::empty());
        }
        while i < self.edges.len()
            invariant
                es == eviews(self.edges@),
                i <= self.edges@.len(),
                pairs(out@).no_duplicates(),
                pairs(out@).to_set() == endpoints(es.subrange(0, i as int)),
            decreases self.edges@.len() - i,
        {
            let e = &self.edges[i];
            proof {
                let t = es.subrange(0, i + 1);
                assert(t.drop_last() =~= es.subrange(0, i as int));
                lemma_endpoints_step(t);
            }
            assert(es[i as int] == e@);
            let caller = (e.caller_contract.clone(), e.caller_function.clone());
            let ghost before1 = out@;
            if index_of(&out, &caller).is_none() {
                out.push(caller);
                assert(pairs(out@) =~= pairs(before1).push((caller.0@, caller.1@)));
                proof {
                    lemma_to_set_push(pairs(before1), (caller.0@, caller.1@));
                }
            } else {
                assert(pairs(out@).to_set() =~= pairs(out@).to_set().insert((caller.0@, caller.1@)));
            }
            let callee = (e.callee_contract.clone(), e.callee_function.clone());
            let ghost before2 = out@;
            if index_of(&out, &callee).is_none() {
                out.push(callee);
                assert(pairs(out@) =~= pairs(before2).push((callee.0@, callee.1@)));
                proof {
                    lemma_to_set_push(pairs(before2), (callee.0@, callee.1@));
                }
            } else {
                assert(pairs(out@).to_set() =~= pairs(out@).to_set().insert((callee.0@, callee.1@)));
            }
            assert(pairs(out@).to_set() =~= endpoints(es.subrange(0, i + 1)));
            i = i + 1;
        }
        assert(es.subrange(0, es.len() as int) =~= es);
        out
    }

    /// Depth first search to find cycles
    fn dfs_cycles(
        &self,
        node: &(String, String),
        visited: &mut Vec<(String, String)>,
        stack: &mut Vec<(String, String)>,
        cycles: &mut Vec<Vec<(String, String)>>,
        Ghost(done): Ghost<Seq<FnId>>,
        Ghost(closing): Ghost<Seq<int>>,
    ) -> (out: Ghost<(Seq<FnId>, Seq<int>)>)
        requires
            endpoints(eviews(self.edges@)).contains((node.0@, node.1@)),
            !vset(old(visited)@).contains((node.0@, node.1@)),
            is_path(eviews(self.edges@), pairs(old(stack)@)),
            pairs(old(stack)@).no_duplicates(),
            pairs(old(stack)@).to_set().subset_of(vset(old(visited)@)),
            old(stack)@.len() > 0 ==> has_edge(eviews(self.edges@), pairs(old(stack)@).last(), (node.0@, node.1@)),
            forall|j: int| 0 <= j < old(cycles)@.len() ==> is_cycle(eviews(self.edges@), #[trigger] cycle_views(old(cycles)@)[j]),
            dfs_ready(eviews(self.edges@), done, pairs(old(stack)@), vset(old(visited)@), cycle_views(old(cycles)@)),
            closes_on(eviews(self.edges@), cycle_views(old(cycles)@), closing),
            forall|k: int| 0 <= k < closing.len()
                ==> vset(old(visited)@).contains(caller_of(eviews(self.edges@)[#[trigger] closing[k]])),
        ensures
            pairs(final(stack)@) == pairs(old(stack)@),
            vset(old(visited)@).insert((node.0@, node.1@)).subset_of(vset(final(visited)@)),
            forall|j: int| 0 <= j < final(cycles)@.len() ==> is_cycle(eviews(self.edges@), #[trigger] cycle_views(final(cycles)@)[j]),
            final(cycles)@.len() >= old(cycles)@.len(),
            cycle_views(final(cycles)@).subrange(0, old(cycles)@.len() as int) == cycle_views(old(cycles)@),
            dfs_ready(eviews(self.edges@), done + out@.0, pairs(final(stack)@), vset(final(visited)@), cycle_views(final(cycles)@)),
            (done + out@.0).contains((node.0@, node.1@)),
            closes_on(eviews(self.edges@), cycle_views(final(cycles)@), out@.1),
            out@.1.len() >= closing.len(),
            out@.1.subrange(0, closing.len() as int) == closing,
            forall|k: int| 0 <= k < out@.1.len()
                ==> vset(final(visited)@).contains(caller_of(eviews(self.edges@)[#[trigger] out@.1[k]])),
            forall|k: int| closing.len() <= k < out@.1.len()
                ==> !vset(old(visited)@).contains(caller_of(eviews(self.edges@)[#[trigger] out@.1[k]])),
        decreases endpoints(eviews(self.edges@)).difference(vset(old(visited)@)).len(),
    {
        let ghost es = eviews(self.edges@);
        let ghost me = (node.0@, node.1@);
        let ghost stack0 = pairs(stack@);
        let ghost visited0 = vset(visited@);
        let ghost c0 = cycles@.len();
        let ghost found0 = cycle_views(cycles@);
        proof {
            lemma_endpoints_finite(es);
        }
        let ghost vb = visited@;
        visited.push(pair_clone(node));
        proof {
            assert(pairs(visited@) =~= pairs(vb).push(me));
            lemma_to_set_push(pairs(vb), me);
            assert(vset(visited@) =~= visited0.insert(me));
        }
        stack.push(pair_clone(node));
        proof {
            assert(pairs(stack@) =~= stack0.push(me));
            lemma_to_set_push(stack0, me);
            assert(is_path(es, pairs(stack@)));
            assert(pairs(stack@).no_duplicates());
            assert(pairs(stack@).to_set().subset_of(vset(visited@)));
        }
        let ghost mut dcur: Seq<FnId> = done;
        let ghost mut cl: Seq<int> = closing;
        proof {
            lemma_start_node(es, done, stack0, visited0, found0, me);
            assert(dcur.subrange(0, done.len() as int) =~= done);
            assert(cl.subrange(0, closing.len() as int) =~= closing);
            assert(found0.subrange(0, c0 as int) =~= found0);
        }
        let mut i: usize = 0;
        while i < self.edges.len()
            invariant
                es == eviews(self.edges@),
                me == (node.0@, node.1@),
                visited0 == vset(old(visited)@),
                endpoints(es).finite(),
                endpoints(es).contains(me),
                !visited0.contains(me),
                i <= self.edges@.len(),
                pairs(stack@) == stack0.push(me),
                is_path(es, pairs(stack@)),
                pairs(stack@).no_duplicates(),
                pairs(stack@).to_set().subset_of(vset(visited@)),
                visited0.insert(me).subset_of(vset(visited@)),
                forall|j: int| 0 <= j < cycles@.len() ==> is_cycle(es, #[trigger] cycle_views(cycles@)[j]),
                cycles@.len() >= c0,
                c0 == old(cycles)@.len(),
                found0 == cycle_views(old(cycles)@),
                cycle_views(cycles@).subrange(0, c0 as int) == found0,
                dcur.len() >= done.len(),
                dcur.subrange(0, done.len() as int) == done,
                dfs_ready(es, dcur, stack0.push(me), vset(visited@), cycle_views(cycles@)),
                forall|j: int| 0 <= j < i && caller_of(#[trigger] es[j]) == me
                    ==> dcur.contains(callee_of(es[j])) || on_found(cycle_views(cycles@), me),
                closes_on(es, cycle_views(cycles@), cl),
                cl.len() >= closing.len(),
                cl.subrange(0, closing.len() as int) == closing,
                forall|k: int| 0 <= k < cl.len() ==> vset(visited@).contains(caller_of(es[#[trigger] cl[k]])),
                forall|k: int| closing.len() <= k < cl.len() ==> !visited0.contains(caller_of(es[#[trigger] cl[k]])),
                forall|k: int| 0 <= k < cl.len() && caller_of(es[#[trigger] cl[k]]) == me ==> cl[k] < i,
            decreases self.edges@.len() - i,
        {
            let edge = &self.edges[i];
            assert(es[i as int] == edge@);
            let ghost dprev = dcur;
            let ghost clprev = cl;
            let ghost fprev = cycle_views(cycles@);
            if str_eq(edge.caller_contract.as_str(), node.0.as_str()) && str_eq(edge.caller_function.as_str(), node.1.as_str()) {
                let callee = (edge.callee_contract.clone(), edge.callee_function.clone());
                let ghost cv = (callee.0@, callee.1@);
                assert(caller_of(es[i as int]) == me);
                assert(callee_of(es[i as int]) == cv);
                assert(has_edge(es, me, cv));
                if index_of(visited, &callee).is_none() {
                    proof {
                        assert(endpoints(es).contains(cv));
                        lemma_measure_drops(endpoints(es), visited0, vset(visited@), me);
                        assert(!vset(visited@).contains(cv));
                        assert(pairs(stack@).last() == me);
                    }
                    let ghost vmid = vset(visited@);
                    let ghost cmid = cycles@.len();
                    let sub = self.dfs_cycles(&callee, visited, stack, cycles, Ghost(dcur), Ghost(cl));
                    proof {
                        assert(vmid.subset_of(vset(visited@)));
                        dcur = dprev + sub@.0;
                        cl = sub@.1;
                        assert(dcur.subrange(0, done.len() as int) =~= dprev.subrange(0, done.len() as int));
                        assert(cl.subrange(0, closing.len() as int) =~= clprev.subrange(0, closing.len() as int));
                        assert(cycle_views(cycles@).subrange(0, c0 as int)
                            =~= cycle_views(cycles@).subrange(0, cmid as int).subrange(0, c0 as int));
                        lemma_found_extend(es, dprev, fprev, cycle_views(cycles@));
                        assert forall|j: int| 0 <= j < i + 1 && caller_of(#[trigger] es[j]) == me
                            implies dcur.contains(callee_of(es[j])) || on_found(cycle_views(cycles@), me) by {
                            if j < i {
                                if dprev.contains(callee_of(es[j])) {
                                    lemma_contains_append(dprev, sub@.0, callee_of(es[j]));
                                }
                            } else {
                                assert(dcur.contains(cv));
                            }
                        }
                        assert forall|k: int| 0 <= k < cl.len() && caller_of(es[#[trigger] cl[k]]) == me implies cl[k] < i + 1 by {
                            if k < clprev.len() {
                                assert(cl[k] == cl.subrange(0, clprev.len() as int)[k]);
                            } else {
                                assert(vmid.contains(me));
                            }
                        }
                        assert forall|k: int| closing.len() <= k < cl.len() implies !visited0.contains(caller_of(es[#[trigger] cl[k]])) by {
                            if k < clprev.len() {
                                assert(cl[k] == cl.subrange(0, clprev.len() as int)[k]);
                            }
                        }
                    }
                } else {
                    match index_of(stack, &callee) {
                        Some(start) => {
                            // found a cycle — extract it from the stack
                            let mut cycle: Vec<(String, String)> = Vec::new();
                            let mut k: usize = start;
                            while k < stack.len()
                                invariant
                                    start <= k <= stack@.len(),
                                    pairs(cycle@) == pairs(stack@).subrange(start as int, k as int),
                                decreases stack@.len() - k,
                            {
                                let ghost cb = cycle@;
                                assert(pairs(stack@)[k as int] == (stack@[k as int].0@, stack@[k as int].1@));
                                let x = pair_clone(&stack[k]);
                                cycle.push(x);
                                assert(pairs(cycle@) =~= pairs(cb).push((x.0@, x.1@)));
                                assert(pairs(cycle@) =~= pairs(stack@).subrange(start as int, k + 1));
                                k = k + 1;
                            }
                            proof {
                                let c = pairs(cycle@);
                                let st = pairs(stack@);
                                assert(c.last() == st.last());
                                assert(c[0] == cv);
                                assert forall|a: int| 0 <= a < c.len() - 1 implies has_edge(es, #[trigger] c[a], c[a + 1]) by {
                                    assert(c[a] == st[start + a]);
                                    assert(c[a + 1] == st[start + a + 1]);
                                }
                                assert(c.no_duplicates());
                            }
                            let ghost cb = cycles@;
                            let ghost cyc = pairs(cycle@);
                            cycles.push(cycle);
                            proof {
                                let fnew = cycle_views(cycles@);
                                assert(fnew =~= fprev.push(cyc));
                                assert(fnew.subrange(0, c0 as int) =~= fprev.subrange(0, c0 as int));
                                assert(fnew.subrange(0, fprev.len() as int) =~= fprev);
                                lemma_found_extend(es, dcur, fprev, fnew);
                                assert(cyc.last() == me);
                                assert(cyc.contains(me));
                                assert(fnew[fprev.len() as int] == cyc);
                                assert(on_found(fnew, me));
                                cl = clprev.push(i as int);
                                assert(cl.subrange(0, closing.len() as int) =~= clprev.subrange(0, closing.len() as int));
                                assert forall|k: int| 0 <= k < clprev.len() implies clprev[k] != i by {
                                    if caller_of(es[clprev[k]]) == me {
                                        assert(clprev[k] < i);
                                    }
                                }
                                assert(cl.no_duplicates()) by {
                                    assert forall|a: int, b: int| 0 <= a < cl.len() && 0 <= b < cl.len() && a != b implies cl[a] != cl[b] by {
                                        if a < clprev.len() && b < clprev.len() {
                                            assert(cl[a] == clprev[a] && cl[b] == clprev[b]);
                                        } else if a < clprev.len() {
                                            assert(cl[a] == clprev[a]);
                                        } else if b < clprev.len() {
                                            assert(cl[b] == clprev[b]);
                                        }
                                    }
                                }
                                assert forall|k: int| 0 <= k < cl.len() implies 0 <= #[trigger] cl[k] < es.len() && fnew[k].len() > 0
                                    && caller_of(es[cl[k]]) == fnew[k].last() && callee_of(es[cl[k]]) == fnew[k][0] by {
                                    if k < clprev.len() {
                                        assert(cl[k] == clprev[k] && fnew[k] == fprev[k]);
                                    }
                                }
                                assert forall|k: int| 0 <= k < cl.len() implies vset(visited@).contains(caller_of(es[#[trigger] cl[k]])) by {
                                    if k < clprev.len() {
                                        assert(cl[k] == clprev[k]);
                                    }
                                }
                                assert forall|k: int| closing.len() <= k < cl.len() implies !visited0.contains(caller_of(es[#[trigger] cl[k]])) by {
                                    if k < clprev.len() {
                                        assert(cl[k] == clprev[k]);
                                    }
                                }
                                assert forall|k: int| 0 <= k < cl.len() && caller_of(es[#[trigger] cl[k]]) == me implies cl[k] < i + 1 by {
                                    if k < clprev.len() {
                                        assert(cl[k] == clprev[k]);
                                    }
                                }
                                assert forall|j: int| 0 <= j < i + 1 && caller_of(#[trigger] es[j]) == me
                                    implies dcur.contains(callee_of(es[j])) || on_found(fnew, me) by {
                                }
                            }
                        },
                        None => {
                            proof {
                                assert(vset(visited@).contains(cv));
                                assert(!pairs(stack@).contains(cv));
                                assert(dcur.contains(cv));
                            }
                        },
                    }
                }
            }
            i = i + 1;
        }
        let ghost sl = stack@;
        stack.pop();
        proof {
            assert(pairs(stack@) =~= pairs(sl).drop_last());
            assert(pairs(stack@) =~= stack0);
        }
        let ghost fin = dcur.subrange(done.len() as int, dcur.len() as int).push(me);
        proof {
            assert(done + fin =~= dcur.push(me));
            lemma_finish_node(es, dcur, stack0, vset(visited@), cycle_views(cycles@), me);
            assert((done + fin).last() == me);
        }
        Ghost((fin, cl))
    }

    /// The contracts of the graph, each once, in order of first appearance.
    fn contracts(&self) -> (r: Vec<String>)
        ensures
            sviews(r@).no_duplicates(),
            sviews(r@).to_set() == contract_names(eviews(self.edges@)),
    {
        let mut out: Vec<String> = Vec::new();
        let mut i: usize = 0;
        let ghost es = eviews(self.edges@);
        proof {
            assert(sviews(out@).to_set() =~= Set::<Seq<char>>::empty());
            assert(contract_names(es.subrange(0, 0)) =~= Set::<Seq<char>>::empty());
        }
        while i < self.edges.len()
            invariant
                es == eviews(self.edges@),
                i <= self.edges@.len(),
                sviews(out@).no_duplicates(),
                sviews(out@).to_set() == contract_names(es.subrange(0, i as int)),
            decreases self.edges@.len() - i,
        {
            let e = &self.edges[i];
            proof {
                let t = es.subrange(0, i + 1);
                assert(t.drop_last() =~= es.subrange(0, i as int));
                lemma_endpoints_step(t);
            }
            assert(es[i as int] == e@);
            let ghost before1 = out@;
            if !string_in(&out, e.caller_contract.as_str()) {
                out.push(e.caller_contract.clone());
                assert(sviews(out@) =~= sviews(before1).push(e.caller_contract@));
                proof {
                    lemma_to_set_push(sviews(before1), e.caller_contract@);
                }
            } else {
                assert(sviews(out@).to_set() =~= sviews(out@).to_set().insert(e.caller_contract@));
            }
            let ghost before2 = out@;
            if !string_in(&out, e.callee_contract.as_str()) {
                out.push(e.callee_contract.clone());
                assert(sviews(out@) =~= sviews(before2).push(e.callee_contract@));
                proof {
                    lemma_to_set_push(sviews(before2), e.callee_contract@);
                }
            } else {
                assert(sviews(out@).to_set() =~= sviews(out@).to_set().insert(e.callee_contract@));
            }
            assert(sviews(out@).to_set() =~= contract_names(es.subrange(0, i + 1)));
            i = i + 1;
        }
        assert(es.subrange(0, es.len() as int) =~= es);
        out
    }

    /// Get a summary of the call graph for display
    pub fn summary(&self) -> (s: CallGraphSummary)
        ensures
            s.total_contracts == contract_names(eviews(self.edges@)).len(),
            s.total_functions == endpoints(eviews(self.edges@)).len(),
            s.total_edges == self.edges@.len(),
            forall|i: int| 0 <= i < s.cycles@.len() ==> is_cycle(eviews(self.edges@), #[trigger] cycle_views(s.cycles@)[i]),
            meets_every_cycle(eviews(self.edges@), cycle_views(s.cycles@)),
            exists|ix: Seq<int>| closes_on(eviews(self.edges@), cycle_views(s.cycles@), ix),
            s.cycles@.len() <= self.edges@.len(),
            s.cycles@.len() == 0 <==> !has_cycle(eviews(self.edges@)),
    {
        let contracts = self.contracts();
        let functions = self.functions();
        proof {
            sviews(contracts@).unique_seq_to_set();
            pairs(functions@).unique_seq_to_set();
        }
        CallGraphSummary {
            total_contracts: contracts.len(),
            total_functions: functions.len(),
            total_edges: self.edges.len(),
            cycles: self.find_cycles(),
        }
    }

    /// Get all functions that call a given function
    pub fn callers_of(&self, contract: &str, function: &str) -> (r: Vec<&CallEdge>)
        ensures
            r@.map_values(|e: &CallEdge| e@) == calls_to(eviews(self.edges@), (contract@, function@)),
    {
        let mut out: Vec<&CallEdge> = Vec::new();
        let mut i: usize = 0;
        proof {
            assert(eviews(self.edges@).subrange(0, 0) =~= Seq::<EdgeView>::empty());
            assert(out@.map_values(|e: &CallEdge| e@) =~= Seq::<EdgeView>::empty());
        }
        while i < self.edges.len()
            invariant
                i <= self.edges@.len(),
                out@.map_values(|e: &CallEdge| e@) == calls_to(eviews(self.edges@).subrange(0, i as int), (contract@, function@)),
            decreases self.edges@.len() - i,
        {
            let ghost s = eviews(self.edges@).subrange(0, i + 1);
            assert(s.drop_last() =~= eviews(self.edges@).subrange(0, i as int));
            let e = &self.edges[i];
            let ghost before = out@;
            if str_eq(e.callee_contract.as_str(), contract) && str_eq(e.callee_function.as_str(), function) {
                out.push(e);
                assert(out@.map_values(|e: &CallEdge| e@) =~= before.map_values(|e: &CallEdge| e@).push(e@));
            } else {
                assert(out@.map_values(|e: &CallEdge| e@) =~= before.map_values(|e: &CallEdge| e@) + Seq::<EdgeView>::empty());
            }
            i = i + 1;
        }
        assert(eviews(self.edges@).subrange(0, self.edges@.len() as int) =~= eviews(self.edges@));
        out
    }
}

/// There is an edge in `es` from `a` to `b`.
pub open spec fn has_edge(es: Seq<EdgeView>, a: FnId, b: FnId) -> bool {
    exists|i: int| 0 <= i < es.len() && caller_of(#[trigger] es[i]) == a && callee_of(es[i]) == b
}

/// Each function of `p` calls the next one.
pub open spec fn is_path(es: Seq<EdgeView>, p: Seq<FnId>) -> bool {
    forall|k: int| 0 <= k < p.len() - 1 ==> has_edge(es, #[trigger] p[k], p[k + 1])
}

/// A circular chain of calls: distinct functions, each calling the next and
/// the last calling the first.
pub open spec fn is_cycle(es: Seq<EdgeView>, c: Seq<FnId>) -> bool {
    &&& c.len() > 0
    &&& is_path(es, c)
    &&& has_edge(es, c.last(), c[0])
    &&& c.no_duplicates()
}

/// Some chain of calls in `es` comes back to where it started.
pub open spec fn has_cycle(es: Seq<EdgeView>) -> bool {
    exists|c: Seq<FnId>| is_cycle(es, c)
}

/// `x` lies on one of the cycles `found`.
spec fn on_found(found: Seq<Seq<FnId>>, x: FnId) -> bool {
    exists|k: int| 0 <= k < found.len() && #[trigger] found[k].contains(x)
}

/// Every cycle of `es` shares a function with one of the cycles `found`: each
/// strongly connected group of functions that holds a cycle has one in `found`.
pub open spec fn meets_every_cycle(es: Seq<EdgeView>, found: Seq<Seq<FnId>>) -> bool {
    forall|c: Seq<FnId>| #[trigger] is_cycle(es, c) ==> exists|k: int, a: int|
        0 <= k < found.len() && 0 <= a < c.len() && #[trigger] found[k].contains(c[a])
}

/// The cycles `found` close on distinct edges `ix` of `es`: the k-th on the
/// edge from its last function back to its first.
pub open spec fn closes_on(es: Seq<EdgeView>, found: Seq<Seq<FnId>>, ix: Seq<int>) -> bool {
    &&& ix.len() == found.len()
    &&& ix.no_duplicates()
    &&& forall|k: int| 0 <= k < ix.len() ==> 0 <= #[trigger] ix[k] < es.len() && found[k].len() > 0
        && caller_of(es[ix[k]]) == found[k].last() && callee_of(es[ix[k]]) == found[k][0]
}

/// Each function in `d` calls only functions that come before it in `d`,
/// unless it lies on one of the cycles `found`.
spec fn finished_in_order(es: Seq<EdgeView>, d: Seq<FnId>, found: Seq<Seq<FnId>>) -> bool {
    forall|i: int, j: int|
        0 <= i < d.len() && 0 <= j < es.len() && caller_of(#[trigger] es[j]) == #[trigger] d[i]
            ==> d.subrange(0, i).contains(callee_of(es[j])) || on_found(found, d[i])
}

/// The state of the search between two visits: the visited functions are those
/// finished (`done`, in the order they were finished) and those on the stack.
spec fn dfs_ready(es: Seq<EdgeView>, done: Seq<FnId>, stack: Seq<FnId>, visited: Set<FnId>, found: Seq<Seq<FnId>>) -> bool {
    &&& done.no_duplicates()
    &&& forall|x: FnId| #[trigger] visited.contains(x) <==> (done.contains(x) || stack.contains(x))
    &&& forall|x: FnId| #[trigger] done.contains(x) ==> !stack.contains(x)
    &&& finished_in_order(es, done, found)
}

/// More cycles found keep every function that was on one on one.
proof fn lemma_found_extend(es: Seq<EdgeView>, d: Seq<FnId>, found: Seq<Seq<FnId>>, more: Seq<Seq<FnId>>)
    requires
        found.len() <= more.len(),
        more.subrange(0, found.len() as int) == found,
    ensures
        forall|x: FnId| on_found(found, x) ==> on_found(more, x),
        finished_in_order(es, d, found) ==> finished_in_order(es, d, more),
{
    assert forall|x: FnId| on_found(found, x) implies on_found(more, x) by {
        let k = choose|k: int| 0 <= k < found.len() && #[trigger] found[k].contains(x);
        assert(more[k] == more.subrange(0, found.len() as int)[k]);
    }
}

proof fn lemma_contains_append<A>(a: Seq<A>, b: Seq<A>, x: A)
    requires
        a.contains(x),
    ensures
        (a + b).contains(x),
{
    let k = choose|k: int| 0 <= k < a.len() && a[k] == x;
    assert((a + b)[k] == x);
}

/// Entering a function that was not visited keeps the search state consistent.
proof fn lemma_start_node(es: Seq<EdgeView>, done: Seq<FnId>, stack: Seq<FnId>, visited: Set<FnId>, found: Seq<Seq<FnId>>, me: FnId)
    requires
        dfs_ready(es, done, stack, visited, found),
        !visited.contains(me),
    ensures
        dfs_ready(es, done, stack.push(me), visited.insert(me), found),
{
    assert forall|x: FnId| stack.push(me).contains(x) <==> (stack.contains(x) || x == me) by {
        if stack.push(me).contains(x) {
            let k = choose|k: int| 0 <= k < stack.push(me).len() && stack.push(me)[k] == x;
            if k < stack.len() {
                assert(stack[k] == x);
            }
        }
        if stack.contains(x) {
            let k = choose|k: int| 0 <= k < stack.len() && stack[k] == x;
            assert(stack.push(me)[k] == x);
        }
        assert(stack.push(me)[stack.len() as int] == me);
    }
}

/// Leaving a function each of whose calls leads to a finished function, unless
/// it lies on a found cycle: it is finished next.
proof fn lemma_finish_node(es: Seq<EdgeView>, dcur: Seq<FnId>, stack: Seq<FnId>, visited: Set<FnId>, found: Seq<Seq<FnId>>, me: FnId)
    requires
        dfs_ready(es, dcur, stack.push(me), visited, found),
        stack.push(me).no_duplicates(),
        forall|j: int| 0 <= j < es.len() && caller_of(#[trigger] es[j]) == me
            ==> dcur.contains(callee_of(es[j])) || on_found(found, me),
    ensures
        dfs_ready(es, dcur.push(me), stack, visited, found),
{
    let d = dcur.push(me);
    let sp = stack.push(me);
    assert(sp[stack.len() as int] == me);
    assert(sp.contains(me));
    assert(!dcur.contains(me));
    assert forall|x: FnId| d.contains(x) <==> (dcur.contains(x) || x == me) by {
        if d.contains(x) {
            let k = choose|k: int| 0 <= k < d.len() && d[k] == x;
            if k < dcur.len() {
                assert(dcur[k] == x);
            }
        }
        if dcur.contains(x) {
            let k = choose|k: int| 0 <= k < dcur.len() && dcur[k] == x;
            assert(d[k] == x);
        }
        assert(d[dcur.len() as int] == me);
    }
    assert forall|x: FnId| sp.contains(x) <==> (stack.contains(x) || x == me) by {
        if sp.contains(x) {
            let k = choose|k: int| 0 <= k < sp.len() && sp[k] == x;
            if k < stack.len() {
                assert(stack[k] == x);
            }
        }
        if stack.contains(x) {
            let k = choose|k: int| 0 <= k < stack.len() && stack[k] == x;
            assert(sp[k] == x);
        }
    }
    assert(!stack.contains(me)) by {
        if stack.contains(me) {
            let k = choose|k: int| 0 <= k < stack.len() && stack[k] == me;
            assert(sp[k] == sp[stack.len() as int]);
        }
    }
    assert(d.no_duplicates()) by {
        assert forall|a: int, b: int| 0 <= a < d.len() && 0 <= b < d.len() && a != b implies d[a] != d[b] by {
            if a < dcur.len() && b < dcur.len() {
                assert(d[a] == dcur[a] && d[b] == dcur[b]);
            } else if a < dcur.len() {
                assert(dcur.contains(d[a]));
            } else if b < dcur.len() {
                assert(dcur.contains(d[b]));
            }
        }
    }
    assert forall|i: int, j: int|
        0 <= i < d.len() && 0 <= j < es.len() && caller_of(#[trigger] es[j]) == #[trigger] d[i]
        implies d.subrange(0, i).contains(callee_of(es[j])) || on_found(found, d[i]) by {
        if i < dcur.len() {
            assert(d[i] == dcur[i]);
            assert(d.subrange(0, i) =~= dcur.subrange(0, i));
        } else {
            assert(d.subrange(0, i) =~= dcur);
        }
    }
}

/// The position of the first of the functions of `c` among the finished ones
/// drops by at least one at each call along `c`, where no function of `c` lies
/// on a found cycle.
proof fn lemma_cycle_positions(es: Seq<EdgeView>, d: Seq<FnId>, found: Seq<Seq<FnId>>, c: Seq<FnId>, a: int)
    requires
        finished_in_order(es, d, found),
        d.no_duplicates(),
        is_path(es, c),
        0 <= a < c.len(),
        d.contains(c[0]),
        forall|b: int| 0 <= b < c.len() ==> !on_found(found, #[trigger] c[b]),
    ensures
        d.contains(c[a]),
        d.index_of(c[a]) <= d.index_of(c[0]) - a,
    decreases a,
{
    if a > 0 {
        lemma_cycle_positions(es, d, found, c, a - 1);
        let p = d.index_of(c[a - 1]);
        assert(0 <= p < d.len() && d[p] == c[a - 1]);
        assert(has_edge(es, c[a - 1], c[a]));
        let j = choose|j: int| 0 <= j < es.len() && caller_of(#[trigger] es[j]) == c[a - 1] && callee_of(es[j]) == c[a];
        assert(caller_of(es[j]) == d[p]);
        assert(!on_found(found, c[a - 1]));
        let before = d.subrange(0, p);
        assert(before.contains(c[a]));
        let m = choose|m: int| 0 <= m < before.len() && before[m] == c[a];
        assert(d[m] == c[a]);
        let q = d.index_of(c[a]);
        assert(0 <= q < d.len() && d[q] == c[a]);
        assert(q == m);
    }
}

/// Where every function is finished, and each calls only functions finished
/// before it unless it lies on a found cycle, every cycle meets a found one.
proof fn lemma_found_meets_cycles(es: Seq<EdgeView>, d: Seq<FnId>, found: Seq<Seq<FnId>>)
    requires
        finished_in_order(es, d, found),
        d.no_duplicates(),
        forall|x: FnId| endpoints(es).contains(x) ==> d.contains(x),
    ensures
        meets_every_cycle(es, found),
{
    assert forall|c: Seq<FnId>| #[trigger] is_cycle(es, c) implies exists|k: int, a: int|
        0 <= k < found.len() && 0 <= a < c.len() && #[trigger] found[k].contains(c[a]) by {
        if !(exists|k: int, a: int| 0 <= k < found.len() && 0 <= a < c.len() && #[trigger] found[k].contains(c[a])) {
            assert forall|b: int| 0 <= b < c.len() implies !on_found(found, #[trigger] c[b]) by {
                if on_found(found, c[b]) {
                    let k = choose|k: int| 0 <= k < found.len() && #[trigger] found[k].contains(c[b]);
                    assert(found[k].contains(c[b]));
                }
            }
            let n = c.len() - 1;
            assert(has_edge(es, c[n], c[0]));
            let j = choose|j: int| 0 <= j < es.len() && caller_of(#[trigger] es[j]) == c[n] && callee_of(es[j]) == c[0];
            assert(endpoints(es).contains(c[0]));
            lemma_cycle_positions(es, d, found, c, n);
            let p = d.index_of(c[n]);
            assert(0 <= p < d.len() && d[p] == c[n]);
            assert(caller_of(es[j]) == d[p]);
            assert(!on_found(found, c[n]));
            let before = d.subrange(0, p);
            assert(before.contains(c[0]));
            let m = choose|m: int| 0 <= m < before.len() && before[m] == c[0];
            assert(d[m] == c[0]);
            let k0 = d.index_of(c[0]);
            assert(0 <= k0 < d.len() && d[k0] == c[0]);
            assert(k0 == m);
        }
    }
}

/// Distinct indices below `n` are at most `n`.
proof fn lemma_distinct_indices(ix: Seq<int>, n: int)
    requires
        ix.no_duplicates(),
        0 <= n,
        forall|k: int| 0 <= k < ix.len() ==> 0 <= #[trigger] ix[k] < n,
    ensures
        ix.len() <= n,
{
    let r = vstd::set_lib::set_int_range(0, n);
    vstd::set_lib::lemma_int_range(0, n);
    ix.unique_seq_to_set();
    assert(ix.to_set().subset_of(r));
    vstd::set_lib::lemma_len_subset(ix.to_set(), r);
}

/// The functions that occur in `es`, as caller or callee.
pub open spec fn endpoints(es: Seq<EdgeView>) -> Set<FnId> {
    Set::new(|p: FnId| exists|j: int| 0 <= j < es.len() && (caller_of(#[trigger] es[j]) == p || callee_of(es[j]) == p))
}

/// The contracts that occur in `es`, as caller or callee.
pub open spec fn contract_names(es: Seq<EdgeView>) -> Set<Seq<char>> {
    Set::new(|c: Seq<char>| exists|j: int| 0 <= j < es.len() && ((#[trigger] es[j]).caller_contract == c || es[j].callee_contract == c))
}

pub proof fn lemma_endpoints_step(es: Seq<EdgeView>)
    requires
        es.len() > 0,
    ensures
        endpoints(es) == endpoints(es.drop_last()).insert(caller_of(es.last())).insert(callee_of(es.last())),
        contract_names(es) == contract_names(es.drop_last()).insert(es.last().caller_contract).insert(es.last().callee_contract),
{
    let d = es.drop_last();
    assert forall|p: FnId| #[trigger] endpoints(es).contains(p) == endpoints(d).insert(caller_of(es.last())).insert(callee_of(es.last())).contains(p) by {
        if endpoints(d).contains(p) {
            let j = choose|j: int| 0 <= j < d.len() && (caller_of(#[trigger] d[j]) == p || callee_of(d[j]) == p);
            assert(es[j] == d[j]);
        }
        if endpoints(es).contains(p) {
            let j = choose|j: int| 0 <= j < es.len() && (caller_of(#[trigger] es[j]) == p || callee_of(es[j]) == p);
            if j < es.len() - 1 {
                assert(es[j] == d[j]);
            }
        }
    }
    assert(endpoints(es) =~= endpoints(d).insert(caller_of(es.last())).insert(callee_of(es.last())));
    assert forall|c: Seq<char>| #[trigger] contract_names(es).contains(c) == contract_names(d).insert(es.last().caller_contract).insert(es.last().callee_contract).contains(c) by {
        if contract_names(d).contains(c) {
            let j = choose|j: int| 0 <= j < d.len() && ((#[trigger] d[j]).caller_contract == c || d[j].callee_contract == c);
            assert(es[j] == d[j]);
        }
        if contract_names(es).contains(c) {
            let j = choose|j: int| 0 <= j < es.len() && ((#[trigger] es[j]).caller_contract == c || es[j].callee_contract == c);
            if j < es.len() - 1 {
                assert(es[j] == d[j]);
            }
        }
    }
    assert(contract_names(es) =~= contract_names(d).insert(es.last().caller_contract).insert(es.last().callee_contract));
}

pub proof fn lemma_endpoints_finite(es: Seq<EdgeView>)
    ensures
        endpoints(es).finite(),
        contract_names(es).finite(),
    decreases es.len(),
{
    if es.len() == 0 {
        assert(endpoints(es) =~= Set::<FnId>::empty());
        assert(contract_names(es) =~= Set::<Seq<char>>::empty());
    } else {
        lemma_endpoints_finite(es.drop_last());
        lemma_endpoints_step(es);
    }
}

/// A summary counts no more contracts than functions, and no more functions
/// than two per edge: `total_contracts <= total_functions <= 2 * total_edges`.
pub proof fn law_summary_counts(es: Seq<EdgeView>)
    ensures
        contract_names(es).len() <= endpoints(es).len(),
        endpoints(es).len() <= 2 * es.len(),
    decreases es.len(),
{
    lemma_endpoints_finite(es);
    if es.len() > 0 {
        let d = es.drop_last();
        law_summary_counts(d);
        lemma_endpoints_finite(d);
        lemma_endpoints_step(es);
        let e1 = endpoints(d).insert(caller_of(es.last()));
        vstd::set::axiom_set_insert_len(endpoints(d), caller_of(es.last()));
        vstd::set::axiom_set_insert_len(e1, callee_of(es.last()));
    } else {
        assert(endpoints(es) =~= Set::<FnId>::empty());
    }
    let f = |p: FnId| p.0;
    assert(endpoints(es).map(f) =~= contract_names(es)) by {
        assert forall|c: Seq<char>| #[trigger] contract_names(es).contains(c) implies endpoints(es).map(f).contains(c) by {
            let j = choose|j: int| 0 <= j < es.len() && ((#[trigger] es[j]).caller_contract == c || es[j].callee_contract == c);
            if es[j].caller_contract == c {
                assert(endpoints(es).contains(caller_of(es[j])));
                assert(f(caller_of(es[j])) == c);
            } else {
                assert(endpoints(es).contains(callee_of(es[j])));
                assert(f(callee_of(es[j])) == c);
            }
        }
        assert forall|c: Seq<char>| endpoints(es).map(f).contains(c) implies #[trigger] contract_names(es).contains(c) by {
            let p = choose|p: FnId| endpoints(es).contains(p) && f(p) == c;
            let j = choose|j: int| 0 <= j < es.len() && (caller_of(#[trigger] es[j]) == p || callee_of(es[j]) == p);
            assert(es[j].caller_contract == c || es[j].callee_contract == c);
        }
    }
    vstd::set_lib::lemma_map_size_bound(endpoints(es), contract_names(es), f);
}

/// The functions named by a sequence of (contract, function) pairs.
pub open spec fn pairs(s: Seq<(String, String)>) -> Seq<FnId> {
    s.map_values(|p: (String, String)| (p.0@, p.1@))
}

pub proof fn lemma_to_set_push<A>(s: Seq<A>, x: A)
    ensures
        s.push(x).to_set() == s.to_set().insert(x),
{
    assert forall|y: A| #[trigger] s.push(x).to_set().contains(y) == s.to_set().insert(x).contains(y) by {
        if s.contains(y) {
            let j = choose|j: int| 0 <= j < s.len() && s[j] == y;
            assert(s.push(x)[j] == y);
        }
        if s.push(x).contains(y) {
            let j = choose|j: int| 0 <= j < s.push(x).len() && s.push(x)[j] == y;
            if j < s.len() {
                assert(s[j] == y);
            }
        }
        assert(s.push(x)[s.len() as int] == x);
    }
    assert(s.push(x).to_set() =~= s.to_set().insert(x));
}

fn pair_eq(a: &(String, String), b: &(String, String)) -> (r: bool)
    ensures
        r == ((a.0@, a.1@) == (b.0@, b.1@)),
{
    str_eq(a.0.as_str(), b.0.as_str()) && str_eq(a.1.as_str(), b.1.as_str())
}

fn pair_clone(a: &(String, String)) -> (r: (String, String))
    ensures
        (r.0@, r.1@) == (a.0@, a.1@),
{
    (a.0.clone(), a.1.clone())
}

/// The first index of `x` in `v`, if any.
fn index_of(v: &Vec<(String, String)>, x: &(String, String)) -> (r: Option<usize>)
    ensures
        r is None <==> !pairs(v@).contains((x.0@, x.1@)),
        r matches Some(i) ==> i < v@.len() && pairs(v@)[i as int] == (x.0@, x.1@),
{
    let mut i: usize = 0;
    while i < v.len()
        invariant
            i <= v@.len(),
            forall|j: int| 0 <= j < i ==> pairs(v@)[j] != (x.0@, x.1@),
        decreases v@.len() - i,
    {
        assert(pairs(v@)[i as int] == (v@[i as int].0@, v@[i as int].1@));
        if pair_eq(&v[i], x) {
            return Some(i);
        }
        i = i + 1;
    }
    None
}

/// The texts of a sequence of strings.
pub open spec fn sviews(s: Seq<String>) -> Seq<Seq<char>> {
    s.map_values(|x: String| x@)
}

fn string_in(v: &Vec<String>, x: &str) -> (r: bool)
    ensures
        r == sviews(v@).contains(x@),
{
    let mut i: usize = 0;
    while i < v.len()
        invariant
            i <= v@.len(),
            forall|j: int| 0 <= j < i ==> #[trigger] sviews(v@)[j] != x@,
        decreases v@.len() - i,
    {
        if str_eq(v[i].as_str(), x) {
            assert(sviews(v@)[i as int] == x@);
            return true;
        }
        i = i + 1;
    }
    false
}

/// The views of a sequence of cycles.
pub open spec fn cycle_views(cs: Seq<Vec<(String, String)>>) -> Seq<Seq<FnId>> {
    cs.map_values(|c: Vec<(String, String)>| pairs(c@))
}

/// The visited functions, as a set.
pub open spec fn vset(v: Seq<(String, String)>) -> Set<FnId> {
    pairs(v).to_set()
}

proof fn lemma_measure_drops(all: Set<FnId>, before: Set<FnId>, now: Set<FnId>, x: FnId)
    requires
        all.finite(),
        all.contains(x),
        !before.contains(x),
        before.insert(x).subset_of(now),
    ensures
        all.difference(now).len() < all.difference(before).len(),
{
    vstd::set_lib::lemma_set_subset_finite(all, all.difference(before));
    assert(all.difference(now).subset_of(all.difference(before).remove(x)));
    vstd::set_lib::lemma_len_subset(all.difference(now), all.difference(before).remove(x));
    vstd::set::axiom_set_remove_len(all.difference(before), x);
}

/// The atom at position `i` of a list, or "unknown".
fn atom_or_unknown_exec(children: &Vec<ClarityNode>, i: usize) -> (r: String)
    ensures
        r@ == atom_or_unknown(trees(children@), i as int),
{
    match atom_in(children, i) {
        Some(s) => s.to_owned(),
        None => String::from_str("unknown"),
    }
}

/// Walk a function AST and extract all contract-call? expressions
fn extract_calls(node: &ClarityNode, caller_contract: &str, caller_function: &str, graph: &mut CallGraph)
    ensures
        eviews(final(graph).edges@) == eviews(old(graph).edges@) + calls_in(node@, caller_contract@, caller_function@),
    decreases node,
{
    match node {
        ClarityNode::Atom(_, _) => {
            assert(eviews(graph.edges@) =~= eviews(graph.edges@) + Seq::<EdgeView>::empty());
        },
        ClarityNode::List(children, line) => {
            let ghost ch = trees(children@);
            assert(node@ is List && node@->List_0 == ch);
            let is_call = match head_atom(children) {
                Some(h) => str_eq(h, "contract-call?"),
                None => false,
            };
            let ghost start = eviews(graph.edges@);
            if is_call && children.len() >= 3 {
                // (contract-call? .contract-name function-name ...args)
                let callee_contract_name = trim_leading_dots(atom_or_unknown_exec(children, 1).as_str());
                let callee_function_name = atom_or_unknown_exec(children, 2);
                let edge = CallEdge {
                    caller_contract: caller_contract.to_owned(),
                    caller_function: caller_function.to_owned(),
                    callee_contract: callee_contract_name,
                    callee_function: callee_function_name,
                    line: *line,
                };
                graph.add_edge(edge);
                assert(eviews(graph.edges@) =~= start.push(edge@));
            }
            let ghost mid = eviews(graph.edges@);
            // recurse into all children
            let mut i: usize = 0;
            proof {
                assert(ch.subrange(0, 0) =~= Seq::<Tree>::empty());
                assert(mid + Seq::<EdgeView>::empty() =~= mid);
            }
            while i < children.len()
                invariant
                    i <= children@.len(),
                    ch == trees(children@),
                    eviews(graph.edges@) == mid + calls_in_seq(ch.subrange(0, i as int), caller_contract@, caller_function@),
                    forall|j: int| 0 <= j < children@.len() ==> decreases_to!(node => #[trigger] children@[j]),
                decreases children@.len() - i,
            {
                let ghost s = ch.subrange(0, i + 1);
                assert(s.subrange(0, s.len() - 1) =~= ch.subrange(0, i as int));
                assert(s[s.len() - 1] == children@[i as int]@);
                extract_calls(&children[i], caller_contract, caller_function, graph);
                assert(eviews(graph.edges@) =~= mid + calls_in_seq(s, caller_contract@, caller_function@));
                i = i + 1;
            }
            assert(ch.subrange(0, children@.len() as int) =~= ch);
            assert(eviews(graph.edges@) =~= start + calls_in(node@, caller_contract@, caller_function@));
        },
    }
}

/// Extract function name from a define-public/private/read-only node
fn extract_function_name(node: &ClarityNode) -> (r: Option<String>)
    ensures
        r is Some <==> defined_name(node@) is Some,
        r matches Some(s) ==> defined_name(node@) == Some(s@),
{
    match node {
        ClarityNode::List(children, _) => {
            assert(node@ is List && node@->List_0 == trees(children@));
            if children.len() > 1 {
                assert(trees(children@)[1] == children@[1]@);
                sig_function_name(&children[1])
            } else {
                None
            }
        },
        ClarityNode::Atom(_, _) => None,
    }
}

/// Build a call graph from the registry
pub fn build(registry: &Registry) -> (g: CallGraph)
    ensures
        eviews(g.edges@) == project_calls(registry@),
{
    let mut graph = CallGraph::new();
    let contracts = registry.all();
    let mut k: usize = 0;
    proof {
        assert(registry@.subrange(0, 0) =~= Seq::<ParsedView>::empty());
        assert(eviews(graph.edges@) =~= Seq::<EdgeView>::empty());
    }
    while k < contracts.len()
        invariant
            k <= contracts@.len(),
            contracts@.len() == registry@.len(),
            forall|i: int| 0 <= i < contracts@.len() ==> (#[trigger] contracts@[i])@ == registry@[i],
            eviews(graph.edges@) == project_calls(registry@.subrange(0, k as int)),
        decreases contracts@.len() - k,
    {
        let contract: &ParsedContract = contracts[k];
        let ghost prefix = eviews(graph.edges@);
        let ghost ast = trees(contract.ast@);
        let mut i: usize = 0;
        proof {
            assert(ast.subrange(0, 0) =~= Seq::<Tree>::empty());
            assert(prefix + Seq::<EdgeView>::empty() =~= prefix);
        }
        while i < contract.ast.len()
            invariant
                i <= contract.ast@.len(),
                ast == trees(contract.ast@),
                eviews(graph.edges@) == prefix + contract_calls(ast.subrange(0, i as int), contract.name@),
            decreases contract.ast@.len() - i,
        {
            let node = &contract.ast[i];
            let ghost s = ast.subrange(0, i + 1);
            assert(s.drop_last() =~= ast.subrange(0, i as int));
            assert(s.last() == node@);
            if node.is_form("define-public") || node.is_form("define-private") || node.is_form("define-read-only") {
                match extract_function_name(node) {
                    Some(func_name) => {
                        extract_calls(node, contract.name.as_str(), func_name.as_str(), &mut graph);
                    },
                    None => {},
                }
            }
            assert(eviews(graph.edges@) =~= prefix + contract_calls(s, contract.name@));
            i = i + 1;
        }
        proof {
            let t = registry@.subrange(0, k + 1);
            assert(t.drop_last() =~= registry@.subrange(0, k as int));
            assert(t.last() == contract@);
            assert(ast.subrange(0, ast.len() as int) =~= ast);
            assert(eviews(graph.edges@) =~= project_calls(t));
        }
        k = k + 1;
    }
    assert(registry@.subrange(0, registry@.len() as int) =~= registry@);
    graph
}

} // verus!
