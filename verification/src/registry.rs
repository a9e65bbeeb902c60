use vstd::prelude::*;
use crate::ast::{ClarityNode, Tree, trees};
use crate::loader::{ContractSource, SourceView};
use crate::parser::{Parser, parse_source, top_spec};
use crate::text::{str_eq, str_lt, seq_lt, trim_dots, trim_leading_dots, concat4, lemma_seq_lt_total,
    lemma_seq_lt_transitive, lemma_seq_lt_asymmetric, lemma_seq_lt_irreflexive};

verus! {

/// A contract with its syntax tree.
#[derive(Debug, Clone)]
pub struct ParsedContract {
    pub name: String,
    pub source: ContractSource,
    pub ast: Vec<ClarityNode>,
}

/// The contents of a parsed contract.
pub struct ParsedView {
    pub name: Seq<char>,
    pub source: SourceView,
    pub ast: Seq<Tree>,
}

impl View for ParsedContract {
    type V = ParsedView;

    open spec fn view(&self) -> ParsedView {
        ParsedView { name: self.name@, source: self.source@, ast: trees(self.ast@) }
    }
}

/// The names strictly increase along the sequence (so none occurs twice).
pub open spec fn names_sorted(s: Seq<ParsedView>) -> bool {
    forall|i: int, j: int| 0 <= i < j < s.len() ==> seq_lt(#[trigger] s[i].name, #[trigger] s[j].name)
}

/// Some contract of `s` has the name `k`.
pub open spec fn has_name(s: Seq<ParsedView>, k: Seq<char>) -> bool {
    exists|i: int| 0 <= i < s.len() && #[trigger] s[i].name == k
}

/// A contract of `s` named `k` (the one, where names are unique).
pub open spec fn named(s: Seq<ParsedView>, k: Seq<char>) -> ParsedView {
    s[choose|i: int| 0 <= i < s.len() && #[trigger] s[i].name == k]
}

/// The contracts of `s`, by name.
pub open spec fn as_map(s: Seq<ParsedView>) -> Map<Seq<char>, ParsedView> {
    Map::new(|k: Seq<char>| has_name(s, k), |k: Seq<char>| named(s, k))
}

/// What building a registry from `srcs` gives: each source parsed, in order,
/// a later source replacing an earlier one of the same name; or the error of
/// the first source that does not parse.
pub open spec fn build_spec(srcs: Seq<SourceView>) -> Result<Map<Seq<char>, ParsedView>, Seq<char>>
    decreases srcs.len(),
{
    if srcs.len() == 0 {
        Ok(Map::empty())
    } else {
        match build_spec(srcs.drop_last()) {
            Err(e) => Err(e),
            Ok(m) => {
                let s = srcs.last();
                match parse_source(s.source) {
                    Err(e) => Err("Parse error in '"@ + s.name + "': "@ + e),
                    Ok(ast) => Ok(m.insert(s.name, ParsedView { name: s.name, source: s, ast: ast })),
                }
            },
        }
    }
}

/// The contracts of a project, by name.
#[derive(Debug)]
pub struct Registry {
    contracts: Vec<ParsedContract>,
}

/// The views of a sequence of contracts.
pub open spec fn pviews(s: Seq<ParsedContract>) -> Seq<ParsedView> {
    s.map_values(|c: ParsedContract| c@)
}

impl View for Registry {
    type V = Seq<ParsedView>;

    /// The contracts in the order of their names.
    closed spec fn view(&self) -> Seq<ParsedView> {
        pviews(self.contracts@)
    }
}

proof fn lemma_unique_names(s: Seq<ParsedView>, i: int, j: int)
    requires
        names_sorted(s),
        0 <= i < s.len(),
        0 <= j < s.len(),
        s[i].name == s[j].name,
    ensures
        i == j,
{
    if i < j {
        lemma_seq_lt_irreflexive(s[i].name);
    } else if j < i {
        lemma_seq_lt_irreflexive(s[i].name);
    }
}

proof fn lemma_named(s: Seq<ParsedView>, i: int)
    requires
        names_sorted(s),
        0 <= i < s.len(),
    ensures
        has_name(s, s[i].name),
        named(s, s[i].name) == s[i],
{
    let k = s[i].name;
    assert(has_name(s, k));
    let j = choose|j: int| 0 <= j < s.len() && #[trigger] s[j].name == k;
    lemma_unique_names(s, i, j);
}

proof fn lemma_insert_sorted(s: Seq<ParsedView>, j: int, x: ParsedView)
    requires
        names_sorted(s),
        0 <= j <= s.len(),
        forall|i: int| 0 <= i < j ==> seq_lt(#[trigger] s[i].name, x.name),
        forall|i: int| j <= i < s.len() ==> seq_lt(x.name, #[trigger] s[i].name),
    ensures
        names_sorted(s.insert(j, x)),
        as_map(s.insert(j, x)) == as_map(s).insert(x.name, x),
{
    let t = s.insert(j, x);
    assert forall|a: int, b: int| 0 <= a < b < t.len() implies seq_lt(#[trigger] t[a].name, #[trigger] t[b].name) by {
        if a < j && b > j {
            lemma_seq_lt_transitive(t[a].name, x.name, t[b].name);
        }
    }
    assert forall|k: Seq<char>| #[trigger] has_name(t, k) == (has_name(s, k) || k == x.name) by {
        if has_name(s, k) {
            let i = choose|i: int| 0 <= i < s.len() && #[trigger] s[i].name == k;
            if i < j {
                assert(t[i].name == k);
            } else {
                assert(t[i + 1].name == k);
            }
        }
        if k == x.name {
            assert(t[j].name == k);
        }
        if has_name(t, k) {
            let i = choose|i: int| 0 <= i < t.len() && #[trigger] t[i].name == k;
            if i < j {
                assert(s[i].name == k);
            } else if i > j {
                assert(s[i - 1].name == k);
            }
        }
    }
    assert forall|k: Seq<char>| has_name(t, k) implies #[trigger] named(t, k) == (if k == x.name { x } else { named(s, k) }) by {
        let i = choose|i: int| 0 <= i < t.len() && #[trigger] t[i].name == k;
        lemma_named(t, i);
        if i == j {
        } else if i < j {
            lemma_named(s, i);
            assert(k != x.name) by { lemma_seq_lt_irreflexive(k); }
        } else {
            lemma_named(s, i - 1);
            assert(k != x.name) by { lemma_seq_lt_irreflexive(k); }
        }
    }
    assert(as_map(t) =~= as_map(s).insert(x.name, x));
}

proof fn lemma_update_sorted(s: Seq<ParsedView>, j: int, x: ParsedView)
    requires
        names_sorted(s),
        0 <= j < s.len(),
        s[j].name == x.name,
    ensures
        names_sorted(s.update(j, x)),
        as_map(s.update(j, x)) == as_map(s).insert(x.name, x),
{
    let t = s.update(j, x);
    assert forall|a: int, b: int| 0 <= a < b < t.len() implies seq_lt(#[trigger] t[a].name, #[trigger] t[b].name) by {
        assert(s[a].name == t[a].name && s[b].name == t[b].name);
    }
    assert forall|k: Seq<char>| #[trigger] has_name(t, k) == has_name(s, k) by {
        if has_name(s, k) {
            let i = choose|i: int| 0 <= i < s.len() && #[trigger] s[i].name == k;
            assert(t[i].name == k);
        }
        if has_name(t, k) {
            let i = choose|i: int| 0 <= i < t.len() && #[trigger] t[i].name == k;
            assert(s[i].name == k);
        }
    }
    assert forall|k: Seq<char>| has_name(t, k) implies #[trigger] named(t, k) == (if k == x.name { x } else { named(s, k) }) by {
        let i = choose|i: int| 0 <= i < t.len() && #[trigger] t[i].name == k;
        lemma_named(t, i);
        lemma_named(s, i);
        if i != j {
            if k == x.name {
                lemma_unique_names(s, i, j);
            }
        }
    }
    assert(as_map(t) =~= as_map(s).insert(x.name, x));
}

impl Default for Registry {
    fn default() -> (r: Self)
        ensures
            r@ == Seq::<ParsedView>::empty(),
    {
        Registry::new()
    }
}

impl Registry {
    #[verifier::type_invariant]
    spec fn inv(self) -> bool {
        names_sorted(pviews(self.contracts@))
    }

    pub fn new() -> (r: Self)
        ensures
            r@ == Seq::<ParsedView>::empty(),
    {
        let r = Registry { contracts: Vec::new() };
        assert(pviews(r.contracts@) =~= Seq::<ParsedView>::empty());
        r
    }

    /// Build a registry from a list of loaded contract sources
    pub fn build(sources: Vec<ContractSource>) -> (r: Result<Self, String>)
        requires
            forall|i: int| 0 <= i < sources@.len() ==> (#[trigger] sources@[i]).source@.len() < usize::MAX,
        ensures
            match build_spec(sources@.map_values(|s: ContractSource| s@)) {
                Ok(m) => r is Ok && as_map(r->Ok_0@) == m && names_sorted(r->Ok_0@),
                Err(e) => r is Err && r->Err_0@ == e,
            },
    {
        let ghost srcs = sources@.map_values(|s: ContractSource| s@);
        let mut contracts: Vec<ParsedContract> = Vec::new();
        proof {
            assert(pviews(contracts@) =~= Seq::<ParsedView>::empty());
            assert(srcs.take(0) =~= Seq::<SourceView>::empty());
            assert(as_map(pviews(contracts@)) =~= Map::<Seq<char>, ParsedView>::empty());
        }
        for source in it: sources
            invariant
                srcs == it.seq().map_values(|s: ContractSource| s@),
                forall|i: int| 0 <= i < it.seq().len() ==> (#[trigger] it.seq()[i]).source@.len() < usize::MAX,
                names_sorted(pviews(contracts@)),
                build_spec(srcs.take(it.index() as int)) is Ok,
                as_map(pviews(contracts@)) == build_spec(srcs.take(it.index() as int))->Ok_0,
        {
            let ghost k = it.index() as int;
            assert(srcs.take(k + 1).drop_last() =~= srcs.take(k));
            assert(srcs.take(k + 1).last() == source@);
            let mut parser = Parser::new(source.source.as_str());
            let ast = match parser.parse() {
                Ok(ast) => ast,
                Err(e) => {
                    let r = concat4("Parse error in '", source.name.as_str(), "': ", e.as_str());
                    proof {
                        lemma_build_error_prefix(srcs, k + 1);
                    }
                    return Err(r);
                },
            };
            let name = source.name.clone();
            let parsed = ParsedContract { name: name.clone(), source, ast };
            // keep the contracts ordered by name, one per name
            let mut j: usize = 0;
            while j < contracts.len() && str_lt(contracts[j].name.as_str(), name.as_str())
                invariant
                    j <= contracts@.len(),
                    forall|i: int| 0 <= i < j ==> seq_lt(#[trigger] pviews(contracts@)[i].name, name@),
                decreases contracts@.len() - j,
            {
                j = j + 1;
            }
            let ghost old_views = pviews(contracts@);
            if j < contracts.len() && str_eq(contracts[j].name.as_str(), name.as_str()) {
                contracts.set(j, parsed);
                proof {
                    lemma_update_sorted(old_views, j as int, parsed@);
                    assert(pviews(contracts@) =~= old_views.update(j as int, parsed@));
                }
            } else {
                proof {
                    assert forall|i: int| j <= i < old_views.len() implies seq_lt(name@, #[trigger] old_views[i].name) by {
                        if j < old_views.len() {
                            lemma_seq_lt_total(old_views[j as int].name, name@);
                            if i > j {
                                lemma_seq_lt_transitive(name@, old_views[j as int].name, old_views[i].name);
                            }
                        }
                    }
                    lemma_insert_sorted(old_views, j as int, parsed@);
                }
                contracts.insert(j, parsed);
                assert(pviews(contracts@) =~= old_views.insert(j as int, parsed@));
            }
        }
        proof {
            assert(srcs.take(srcs.len() as int) =~= srcs);
        }
        let r = Registry { contracts };
        Ok(r)
    }
}

impl Registry {
    /// Look up a contract by name: an exact match first, else the name with
    /// its leading dots removed, e.g. ".vault" -> "vault"
    pub fn get(&self, name: &str) -> (r: Option<&ParsedContract>)
        ensures
            names_sorted(self@),
            as_map(self@).contains_key(name@) ==> r is Some && r->0@ == as_map(self@)[name@],
            !as_map(self@).contains_key(name@) && as_map(self@).contains_key(trim_dots(name@))
                ==> r is Some && r->0@ == as_map(self@)[trim_dots(name@)],
            !as_map(self@).contains_key(name@) && !as_map(self@).contains_key(trim_dots(name@)) ==> r is None,
    {
        proof {
            use_type_invariant(self);
        }
        // try exact match first
        match self.find(name) {
            Some(c) => Some(c),
            None => {
                // try with leading dot stripped e.g. ".vault" -> "vault"
                let stripped = trim_leading_dots(name);
                self.find(stripped.as_str())
            },
        }
    }

    fn find(&self, name: &str) -> (r: Option<&ParsedContract>)
        ensures
            as_map(self@).contains_key(name@) ==> r is Some && r->0@ == as_map(self@)[name@],
            !as_map(self@).contains_key(name@) ==> r is None,
    {
        proof {
            use_type_invariant(self);
        }
        let mut i: usize = 0;
        while i < self.contracts.len()
            invariant
                i <= self.contracts@.len(),
                names_sorted(self@),
                self@ == pviews(self.contracts@),
                forall|j: int| 0 <= j < i ==> (#[trigger] self@[j]).name != name@,
            decreases self.contracts@.len() - i,
        {
            if str_eq(self.contracts[i].name.as_str(), name) {
                proof {
                    lemma_named(self@, i as int);
                }
                return Some(&self.contracts[i]);
            }
            i = i + 1;
        }
        None
    }

    /// Get all contracts in the registry, in the order of their names
    pub fn all(&self) -> (r: Vec<&ParsedContract>)
        ensures
            r@.len() == self@.len(),
            forall|i: int| 0 <= i < r@.len() ==> (#[trigger] r@[i])@ == self@[i],
            names_sorted(self@),
    {
        proof {
            use_type_invariant(self);
        }
        let mut out: Vec<&ParsedContract> = Vec::new();
        let mut i: usize = 0;
        while i < self.contracts.len()
            invariant
                i <= self.contracts@.len(),
                self@ == pviews(self.contracts@),
                out@.len() == i,
                forall|j: int| 0 <= j < i ==> (#[trigger] out@[j])@ == self@[j],
            decreases self.contracts@.len() - i,
        {
            out.push(&self.contracts[i]);
            i = i + 1;
        }
        out
    }

    /// Get total number of contracts
    pub fn len(&self) -> (r: usize)
        ensures
            r == self@.len(),
    {
        self.contracts.len()
    }

    /// Get all contract names, in order
    pub fn names(&self) -> (r: Vec<&str>)
        ensures
            r@.len() == self@.len(),
            forall|i: int| 0 <= i < r@.len() ==> (#[trigger] r@[i])@ == self@[i].name,
    {
        let mut out: Vec<&str> = Vec::new();
        let mut i: usize = 0;
        while i < self.contracts.len()
            invariant
                i <= self.contracts@.len(),
                self@ == pviews(self.contracts@),
                out@.len() == i,
                forall|j: int| 0 <= j < i ==> (#[trigger] out@[j])@ == self@[j].name,
            decreases self.contracts@.len() - i,
        {
            out.push(self.contracts[i].name.as_str());
            i = i + 1;
        }
        out
    }
}

proof fn lemma_build_error_prefix(srcs: Seq<SourceView>, k: int)
    requires
        0 <= k <= srcs.len(),
        build_spec(srcs.take(k)) is Err,
    ensures
        build_spec(srcs) == build_spec(srcs.take(k)),
    decreases srcs.len() - k,
{
    if k < srcs.len() {
        assert(srcs.take(k + 1).drop_last() =~= srcs.take(k));
        lemma_build_error_prefix(srcs, k + 1);
    } else {
        assert(srcs.take(k) =~= srcs);
    }
}

/// The names of the sources `srcs`.
pub open spec fn source_names(srcs: Seq<SourceView>) -> Set<Seq<char>> {
    Set::new(|n: Seq<char>| exists|i: int| 0 <= i < srcs.len() && #[trigger] srcs[i].name == n)
}

/// The last of the sources `srcs` named `n`.
pub open spec fn last_named(srcs: Seq<SourceView>, n: Seq<char>) -> SourceView
    decreases srcs.len(),
{
    if srcs.len() == 0 {
        srcs[0]
    } else if srcs.last().name == n {
        srcs.last()
    } else {
        last_named(srcs.drop_last(), n)
    }
}

/// Where every source parses, building succeeds with one contract per
/// distinct name, and the contract named `n` is the last source named `n`,
/// with its parsed syntax tree.
pub proof fn law_build_keeps_last_of_each_name(srcs: Seq<SourceView>)
    requires
        forall|i: int| 0 <= i < srcs.len() ==> (#[trigger] parse_source(srcs[i].source)) is Ok,
    ensures
        build_spec(srcs) is Ok,
        build_spec(srcs)->Ok_0.dom() == source_names(srcs),
        forall|n: Seq<char>| #[trigger] source_names(srcs).contains(n) ==> build_spec(srcs)->Ok_0[n] == (ParsedView {
            name: n,
            source: last_named(srcs, n),
            ast: parse_source(last_named(srcs, n).source)->Ok_0,
        }),
    decreases srcs.len(),
{
    if srcs.len() == 0 {
        assert(source_names(srcs) =~= Set::<Seq<char>>::empty());
        assert(build_spec(srcs)->Ok_0.dom() =~= Set::<Seq<char>>::empty());
    } else {
        let d = srcs.drop_last();
        assert forall|i: int| 0 <= i < d.len() implies (#[trigger] parse_source(d[i].source)) is Ok by {
            assert(d[i] == srcs[i]);
        }
        law_build_keeps_last_of_each_name(d);
        let s = srcs.last();
        assert(parse_source(srcs[srcs.len() - 1].source) is Ok);
        assert forall|n: Seq<char>| #[trigger] source_names(srcs).contains(n) == (source_names(d).contains(n) || n == s.name) by {
            if source_names(srcs).contains(n) {
                let i = choose|i: int| 0 <= i < srcs.len() && #[trigger] srcs[i].name == n;
                if i < d.len() {
                    assert(d[i].name == n);
                }
            }
            if source_names(d).contains(n) {
                let i = choose|i: int| 0 <= i < d.len() && #[trigger] d[i].name == n;
                assert(srcs[i].name == n);
            }
            if n == s.name {
                assert(srcs[srcs.len() - 1].name == n);
            }
        }
        assert(build_spec(srcs)->Ok_0.dom() =~= source_names(srcs));
    }
}

/// Building stops at the first source that does not parse, with an error
/// that names it: "Parse error in '<name>': <the parser's error>".
pub proof fn law_build_names_first_parse_error(srcs: Seq<SourceView>, i: int)
    requires
        0 <= i < srcs.len(),
        forall|j: int| 0 <= j < i ==> (#[trigger] parse_source(srcs[j].source)) is Ok,
        parse_source(srcs[i].source) is Err,
    ensures
        build_spec(srcs) == Err::<Map<Seq<char>, ParsedView>, Seq<char>>(
            "Parse error in '"@ + srcs[i].name + "': "@ + parse_source(srcs[i].source)->Err_0),
    decreases srcs.len(),
{
    if i < srcs.len() - 1 {
        let d = srcs.drop_last();
        assert forall|j: int| 0 <= j < i implies (#[trigger] parse_source(d[j].source)) is Ok by {
            assert(d[j] == srcs[j]);
        }
        assert(d[i] == srcs[i]);
        law_build_names_first_parse_error(d, i);
    } else {
        let d = srcs.drop_last();
        assert forall|j: int| 0 <= j < d.len() implies (#[trigger] parse_source(d[j].source)) is Ok by {
            assert(d[j] == srcs[j]);
        }
        law_build_keeps_last_of_each_name(d);
    }
}

/// A registry holds one contract per name: as many contracts as names.
pub proof fn law_registry_one_per_name(s: Seq<ParsedView>)
    requires
        names_sorted(s),
    ensures
        as_map(s).dom().finite(),
        as_map(s).dom().len() == s.len(),
{
    let names = s.map_values(|c: ParsedView| c.name);
    assert(names.no_duplicates()) by {
        assert forall|a: int, b: int| 0 <= a < names.len() && 0 <= b < names.len() && a != b implies names[a] != names[b] by {
            if names[a] == names[b] {
                lemma_unique_names(s, a, b);
            }
        }
    }
    assert forall|k: Seq<char>| #[trigger] as_map(s).dom().contains(k) == names.to_set().contains(k) by {
        if has_name(s, k) {
            let i = choose|i: int| 0 <= i < s.len() && #[trigger] s[i].name == k;
            assert(names[i] == k);
        }
        if names.contains(k) {
            let i = choose|i: int| 0 <= i < names.len() && names[i] == k;
            assert(s[i].name == k);
        }
    }
    assert(as_map(s).dom() =~= names.to_set());
    names.unique_seq_to_set();
}

} // verus!
