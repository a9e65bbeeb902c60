use vstd::prelude::*;

verus! {

/// The mathematical form of a syntax tree: what a `ClarityNode` denotes.
pub enum Tree {
    /// A parenthesised list of nodes, with the line it opened on.
    List(Seq<Tree>, int),
    /// A symbol, number, string literal or keyword, with its line.
    Atom(Seq<char>, int),
}

impl Tree {
    /// The line number recorded in the node.
    pub open spec fn line(self) -> int {
        match self {
            Tree::List(_, l) => l,
            Tree::Atom(_, l) => l,
        }
    }
}

/// The first child of a list, when that child is an atom.
pub open spec fn head_of(children: Seq<Tree>) -> Option<Seq<char>> {
    if children.len() > 0 && children[0] is Atom {
        Some(children[0]->Atom_0)
    } else {
        None
    }
}

/// The atom held at position `i` of a list, if there is one.
pub open spec fn atom_at(children: Seq<Tree>, i: int) -> Option<Seq<char>> {
    if 0 <= i < children.len() && children[i] is Atom {
        Some(children[i]->Atom_0)
    } else {
        None
    }
}

/// A list whose first element is the atom `name`, e.g. `(define-public ...)`.
pub open spec fn is_form_of(t: Tree, name: Seq<char>) -> bool {
    t is List && head_of(t->List_0) == Some(name)
}

/// Represents a single node in the Clarity AST
#[derive(Debug, PartialEq)]
pub enum ClarityNode {
    /// A list of nodes — e.g. (map-set balances tx-sender amount), with its line number
    List(Vec<ClarityNode>, usize),
    /// An atomic value — a symbol, number, string, or keyword, with its line number
    Atom(String, usize),
}

/// The trees denoted by a sequence of nodes.
pub open spec fn trees(v: Seq<ClarityNode>) -> Seq<Tree>
    decreases v,
{
    Seq::new(
        v.len(),
        |i: int|
            if 0 <= i < v.len() {
                v[i].view()
            } else {
                Tree::Atom(Seq::empty(), 0)
            },
    )
}

impl View for ClarityNode {
    type V = Tree;

    open spec fn view(&self) -> Tree
        decreases self,
    {
        match self {
            ClarityNode::List(children, line) => Tree::List(trees(children@), *line as int),
            ClarityNode::Atom(s, line) => Tree::Atom(s@, *line as int),
        }
    }
}

impl ClarityNode {
    /// Get the line number of this node
    pub fn line(&self) -> (l: usize)
        ensures
            l == self@.line(),
    {
        match self {
            ClarityNode::List(_, line) => *line,
            ClarityNode::Atom(_, line) => *line,
        }
    }

    /// Get the atom value if this node is an Atom
    pub fn as_atom(&self) -> (r: Option<&str>)
        ensures
            match self@ {
                Tree::Atom(s, _) => r is Some && r->0@ == s,
                Tree::List(_, _) => r is None,
            },
    {
        match self {
            ClarityNode::Atom(val, _) => Some(val.as_str()),
            _ => None,
        }
    }

    /// Get the children if this node is a List
    pub fn as_list(&self) -> (r: Option<&Vec<ClarityNode>>)
        ensures
            match self@ {
                Tree::List(ch, _) => r is Some && trees(r->0@) == ch,
                Tree::Atom(_, _) => r is None,
            },
            r matches Some(c) ==> decreases_to!(self => c@),
    {
        match self {
            ClarityNode::List(children, _) => Some(children),
            _ => None,
        }
    }

    /// Check if this node is a List whose first element matches a given name
    /// e.g. node.is_form("define-public")
    pub fn is_form(&self, name: &str) -> (r: bool)
        ensures
            r == is_form_of(self@, name@),
    {
        match self {
            ClarityNode::List(children, _) => {
                match head_atom(children) {
                    Some(s) => crate::text::str_eq(s, name),
                    None => false,
                }
            },
            ClarityNode::Atom(_, _) => false,
        }
    }
}

/// A copy of a node, with all its children.
pub fn clone_node(n: &ClarityNode) -> (r: ClarityNode)
    ensures
        r@ == n@,
    decreases n,
{
    match n {
        ClarityNode::Atom(s, line) => ClarityNode::Atom(s.clone(), *line),
        ClarityNode::List(children, line) => {
            let mut out: Vec<ClarityNode> = Vec::new();
            let mut i: usize = 0;
            while i < children.len()
                invariant
                    i <= children@.len(),
                    trees(out@) == trees(children@).subrange(0, i as int),
                    forall|j: int| 0 <= j < children@.len() ==> decreases_to!(n => #[trigger] children@[j]),
                decreases children@.len() - i,
            {
                let c = clone_node(&children[i]);
                let ghost before = out@;
                out.push(c);
                assert(trees(out@) =~= trees(before).push(c@));
                assert(trees(children@).subrange(0, i + 1) =~= trees(children@).subrange(0, i as int).push(children@[i as int]@));
                i = i + 1;
            }
            assert(trees(children@).subrange(0, children@.len() as int) =~= trees(children@));
            ClarityNode::List(out, *line)
        },
    }
}

impl Clone for ClarityNode {
    fn clone(&self) -> (r: Self)
        ensures
            r@ == self@,
    {
        clone_node(self)
    }
}

/// The first child of a list, when it is an atom.
pub fn head_atom(children: &Vec<ClarityNode>) -> (r: Option<&str>)
    ensures
        r is Some <==> head_of(trees(children@)) is Some,
        r matches Some(s) ==> head_of(trees(children@)) == Some(s@),
{
    if children.len() > 0 {
        children[0].as_atom()
    } else {
        None
    }
}

/// The atom at position `i` of a list, when there is one.
pub fn atom_in(children: &Vec<ClarityNode>, i: usize) -> (r: Option<&str>)
    ensures
        r is Some <==> atom_at(trees(children@), i as int) is Some,
        r matches Some(s) ==> atom_at(trees(children@), i as int) == Some(s@),
{
    if i < children.len() {
        children[i].as_atom()
    } else {
        None
    }
}

} // verus!
