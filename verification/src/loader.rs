use vstd::prelude::*;
use crate::text::{str_lt, seq_lt, concat3, lemma_seq_lt_total, lemma_seq_lt_transitive, lemma_seq_lt_irreflexive};

verus! {

/// A contract's source text as loaded from a `.clar` file.
#[derive(Debug, Clone)]
pub struct ContractSource {
    /// contract name e.g. "vault"
    pub name: String,
    /// full path to the file
    pub path: String,
    /// raw source code
    pub source: String,
}

/// The texts of a `ContractSource`.
pub struct SourceView {
    pub name: Seq<char>,
    pub path: Seq<char>,
    pub source: Seq<char>,
}

impl View for ContractSource {
    type V = SourceView;

    open spec fn view(&self) -> SourceView {
        SourceView { name: self.name@, path: self.path@, source: self.source@ }
    }
}

pub open spec fn sviews(s: Seq<ContractSource>) -> Seq<SourceView> {
    s.map_values(|c: ContractSource| c@)
}

/// The contract name for a file whose name without extension is `stem`
/// (as the file system gives it, if it has one): the stem, or "unknown".
pub open spec fn name_for(stem: Option<Seq<char>>) -> Seq<char> {
    match stem {
        Some(s) => s,
        None => "unknown"@,
    }
}

/// The contract name of a file, from its name without extension.
pub fn contract_name(stem: Option<&str>) -> (r: String)
    ensures
        r@ == name_for(match stem { Some(s) => Some(s@), None => None }),
{
    match stem {
        Some(s) => s.to_owned(),
        None => String::from_str("unknown"),
    }
}

/// For a file of a directory, given its extension and its name without
/// extension: the contract it holds, named by the stem, when the extension
/// is exactly "clar"; no contract otherwise.
pub fn clar_contract_name(extension: Option<&str>, stem: Option<&str>) -> (r: Option<String>)
    ensures
        r is Some <==> (extension matches Some(e) && e@ == "clar"@),
        r matches Some(n) ==> n@ == name_for(match stem { Some(s) => Some(s@), None => None }),
{
    match extension {
        Some(e) => {
            if crate::text::str_eq(e, "clar") {
                Some(contract_name(stem))
            } else {
                None
            }
        },
        None => None,
    }
}

/// Ordered by name: no source comes after one with a greater name.
pub open spec fn sorted_by_name(s: Seq<SourceView>) -> bool {
    forall|i: int, j: int| 0 <= i < j < s.len() ==> !seq_lt(#[trigger] s[j].name, #[trigger] s[i].name)
}

/// The sources of `s` named `n`, in order.
pub open spec fn with_name(s: Seq<SourceView>, n: Seq<char>) -> Seq<SourceView>
    decreases s.len(),
{
    if s.len() == 0 {
        seq![]
    } else {
        with_name(s.drop_last(), n) + if s.last().name == n { seq![s.last()] } else { seq![] }
    }
}

proof fn lemma_insert_by_name(s: Seq<SourceView>, p: int, x: SourceView)
    requires
        sorted_by_name(s),
        0 <= p <= s.len(),
        forall|i: int| 0 <= i < p ==> !seq_lt(x.name, #[trigger] s[i].name),
        forall|i: int| p <= i < s.len() ==> seq_lt(x.name, #[trigger] s[i].name),
    ensures
        sorted_by_name(s.insert(p, x)),
        forall|n: Seq<char>| #[trigger] with_name(s.insert(p, x), n)
            == with_name(s, n) + if x.name == n { seq![x] } else { seq![] },
    decreases s.len(),
{
    let t = s.insert(p, x);
    assert forall|a: int, b: int| 0 <= a < b < t.len() implies !seq_lt(#[trigger] t[b].name, #[trigger] t[a].name) by {
        lemma_seq_lt_total(t[a].name, t[b].name);
        if a == p {
            lemma_seq_lt_irreflexive(x.name);
            if seq_lt(t[b].name, x.name) {
                lemma_seq_lt_transitive(x.name, t[b].name, x.name);
            }
        } else if a < p && b > p {
            if seq_lt(t[b].name, t[a].name) {
                lemma_seq_lt_transitive(x.name, t[b].name, t[a].name);
            }
        }
    }
    if p == s.len() {
        assert forall|n: Seq<char>| #[trigger] with_name(s.insert(p, x), n)
            == with_name(s, n) + if x.name == n { seq![x] } else { seq![] } by {
            assert(s.insert(p, x).drop_last() =~= s);
        }
    } else {
        let d = s.drop_last();
        assert forall|i: int, j: int| 0 <= i < j < d.len() implies !seq_lt(#[trigger] d[j].name, #[trigger] d[i].name) by {
            assert(d[i] == s[i] && d[j] == s[j]);
        }
        lemma_insert_by_name(d, p, x);
        assert(t.drop_last() =~= d.insert(p, x));
        assert(t.last() == s.last());
        assert forall|n: Seq<char>| #[trigger] with_name(s.insert(p, x), n)
            == with_name(s, n) + if x.name == n { seq![x] } else { seq![] } by {
            assert(with_name(d.insert(p, x), n) == with_name(d, n) + if x.name == n { seq![x] } else { seq![] });
            if x.name == n {
                lemma_seq_lt_irreflexive(x.name);
            }
            assert(with_name(t, n) =~= with_name(s, n) + if x.name == n { seq![x] } else { seq![] });
        }
    }
}

/// Completes the loading of a directory `dir` from the contracts found in it:
/// sorted by name for deterministic ordering (a stable sort), or an error when
/// there are none.
pub fn finish_loading(dir: &str, contracts: Vec<ContractSource>) -> (r: Result<Vec<ContractSource>, String>)
    ensures
        contracts@.len() == 0 ==> r is Err && r->Err_0@ == "No .clar files found in '"@ + dir@ + "'"@,
        contracts@.len() > 0 ==> r is Ok && sorted_by_name(sviews(r->Ok_0@))
            && r->Ok_0@.len() == contracts@.len()
            && forall|n: Seq<char>| #[trigger] with_name(sviews(r->Ok_0@), n) == with_name(sviews(contracts@), n),
{
    if contracts.len() == 0 {
        return Err(concat3("No .clar files found in '", dir, "'"));
    }
    let ghost input = sviews(contracts@);
    let ghost n = contracts@.len();
    let mut out: Vec<ContractSource> = Vec::new();
    proof {
        assert(sviews(out@) =~= Seq::<SourceView>::empty());
        assert forall|m: Seq<char>| #[trigger] with_name(sviews(out@), m) == with_name(input.take(0), m) by {
            assert(input.take(0) =~= Seq::<SourceView>::empty());
        }
    }
    for c in it: contracts
        invariant
            input == it.seq().map_values(|c: ContractSource| c@),
            n == it.seq().len(),
            out@.len() == it.index(),
            sorted_by_name(sviews(out@)),
            forall|m: Seq<char>| #[trigger] with_name(sviews(out@), m) == with_name(input.take(it.index() as int), m),
    {
        let ghost idx = it.index() as int;
        let mut p: usize = 0;
        while p < out.len() && !str_lt(c.name.as_str(), out[p].name.as_str())
            invariant
                p <= out@.len(),
                forall|i: int| 0 <= i < p ==> !seq_lt(c@.name, #[trigger] sviews(out@)[i].name),
            decreases out@.len() - p,
        {
            assert(sviews(out@)[p as int] == out@[p as int]@);
            p = p + 1;
        }
        proof {
            let o = sviews(out@);
            if p < out@.len() {
                assert(o[p as int] == out@[p as int]@);
                assert(seq_lt(c@.name, o[p as int].name));
                assert forall|i: int| p <= i < o.len() implies seq_lt(c@.name, #[trigger] o[i].name) by {
                    if i > p {
                        lemma_seq_lt_total(o[p as int].name, o[i].name);
                        if seq_lt(o[p as int].name, o[i].name) {
                            lemma_seq_lt_transitive(c@.name, o[p as int].name, o[i].name);
                        }
                    }
                }
            }
            lemma_insert_by_name(o, p as int, c@);
            assert(input.take(idx + 1).drop_last() =~= input.take(idx));
            assert(input.take(idx + 1).last() == c@);
        }
        let ghost before = out@;
        out.insert(p, c);
        assert(sviews(out@) =~= sviews(before).insert(p as int, c@));
    }
    proof {
        assert(input.take(input.len() as int) =~= input);
    }
    Ok(out)
}

} // verus!
