use vstd::prelude::*;
use crate::ast::Tree;
use crate::text::is_ws;
use crate::parser::{err_end_of_input, err_unclosed, err_empty_atom, skip, atom_end, string_end, node_spec, items_spec, top_spec, parse_source, lemma_skip,
    lemma_atom_end, lemma_string_end};

verus! {

/// A tree with every line number moved by `k`.
pub open spec fn shift_tree(t: Tree, k: int) -> Tree
    decreases t,
{
    match t {
        Tree::Atom(a, l) => Tree::Atom(a, l + k),
        Tree::List(ch, l) => Tree::List(shift_trees(ch, k), l + k),
    }
}

/// Trees with every line number moved by `k`.
pub open spec fn shift_trees(s: Seq<Tree>, k: int) -> Seq<Tree>
    decreases s,
{
    Seq::new(
        s.len(),
        |i: int|
            if 0 <= i < s.len() {
                shift_tree(s[i], k)
            } else {
                Tree::Atom(Seq::empty(), 0)
            },
    )
}

proof fn lemma_shift_push(acc: Seq<Tree>, n: Tree, k: int)
    ensures
        shift_trees(acc.push(n), k) == shift_trees(acc, k).push(shift_tree(n, k)),
{
    assert(shift_trees(acc.push(n), k) =~= shift_trees(acc, k).push(shift_tree(n, k)));
}

proof fn lemma_skip_lines(s: Seq<char>, pos: int, line: int, c: bool, k: int)
    ensures
        skip(s, pos, line + k, c) == (skip(s, pos, line, c).0, skip(s, pos, line, c).1 + k),
    decreases s.len() - pos,
{
    if 0 <= pos < s.len() {
        if s[pos] == '\n' {
            lemma_skip_lines(s, pos + 1, line + 1, false, k);
        } else if c {
            lemma_skip_lines(s, pos + 1, line, true, k);
        } else if crate::text::is_ws(s[pos]) {
            lemma_skip_lines(s, pos + 1, line, false, k);
        } else if s[pos] == ';' {
            lemma_skip_lines(s, pos + 1, line, true, k);
        }
    }
}

/// Parsing a node from a later line gives the same node with its lines moved.
proof fn lemma_node_lines(s: Seq<char>, pos: int, line: int, k: int)
    ensures
        node_spec(s, pos, line + k) is Ok <==> node_spec(s, pos, line) is Ok,
        node_spec(s, pos, line) matches Ok((t, p, l)) ==> node_spec(s, pos, line + k) == Ok::<(Tree, int, int), Seq<char>>((shift_tree(t, k), p, l + k)),
    decreases s.len() - pos, 1int,
{
    if 0 <= pos <= s.len() {
        lemma_skip(s, pos, line, false);
        lemma_skip_lines(s, pos, line, false, k);
        let (p, l) = skip(s, pos, line, false);
        if p < s.len() {
            if s[p] == '(' {
                lemma_items_lines(s, p + 1, l, l, seq![], k);
                assert(shift_trees(seq![], k) =~= Seq::<Tree>::empty());
            }
        }
    }
}

proof fn lemma_items_lines(s: Seq<char>, pos: int, line: int, open: int, acc: Seq<Tree>, k: int)
    ensures
        items_spec(s, pos, line + k, open + k, shift_trees(acc, k)) is Ok <==> items_spec(s, pos, line, open, acc) is Ok,
        items_spec(s, pos, line, open, acc) matches Ok((t, p, l)) ==> items_spec(s, pos, line + k, open + k, shift_trees(acc, k))
            == Ok::<(Tree, int, int), Seq<char>>((shift_tree(t, k), p, l + k)),
    decreases s.len() - pos, 2int,
{
    if 0 <= pos <= s.len() {
        lemma_skip(s, pos, line, false);
        lemma_skip_lines(s, pos, line, false, k);
        let (p, l) = skip(s, pos, line, false);
        if p < s.len() && s[p] != ')' {
            lemma_node_lines(s, p, l, k);
            match node_spec(s, p, l) {
                Ok((n, p2, l2)) => {
                    if p < p2 <= s.len() {
                        lemma_shift_push(acc, n, k);
                        lemma_items_lines(s, p2, l2, open, acc.push(n), k);
                    }
                },
                Err(_) => {},
            }
        }
    }
}

proof fn lemma_top_lines(s: Seq<char>, pos: int, line: int, acc: Seq<Tree>, k: int)
    ensures
        top_spec(s, pos, line + k, shift_trees(acc, k)) is Ok <==> top_spec(s, pos, line, acc) is Ok,
        top_spec(s, pos, line, acc) matches Ok(ts) ==> top_spec(s, pos, line + k, shift_trees(acc, k))
            == Ok::<Seq<Tree>, Seq<char>>(shift_trees(ts, k)),
    decreases s.len() - pos,
{
    if 0 <= pos <= s.len() {
        lemma_skip(s, pos, line, false);
        lemma_skip_lines(s, pos, line, false, k);
        let (p, l) = skip(s, pos, line, false);
        if p < s.len() {
            lemma_node_lines(s, p, l, k);
            match node_spec(s, p, l) {
                Ok((n, p2, l2)) => {
                    if p < p2 <= s.len() {
                        lemma_shift_push(acc, n, k);
                        lemma_top_lines(s, p2, l2, acc.push(n), k);
                    }
                },
                Err(_) => {},
            }
        }
    }
}


proof fn lemma_skip_prefix(p: Seq<char>, s: Seq<char>, pos: int, line: int, c: bool)
    requires
        0 <= pos,
    ensures
        skip(p + s, p.len() + pos, line, c) == (skip(s, pos, line, c).0 + p.len(), skip(s, pos, line, c).1),
    decreases s.len() - pos,
{
    if pos < s.len() {
        assert((p + s)[p.len() + pos] == s[pos]);
        if s[pos] == '\n' {
            lemma_skip_prefix(p, s, pos + 1, line + 1, false);
        } else if c {
            lemma_skip_prefix(p, s, pos + 1, line, true);
        } else if crate::text::is_ws(s[pos]) {
            lemma_skip_prefix(p, s, pos + 1, line, false);
        } else if s[pos] == ';' {
            lemma_skip_prefix(p, s, pos + 1, line, true);
        }
    }
}

proof fn lemma_atom_end_prefix(p: Seq<char>, s: Seq<char>, pos: int)
    requires
        0 <= pos,
    ensures
        atom_end(p + s, p.len() + pos) == atom_end(s, pos) + p.len(),
    decreases s.len() - pos,
{
    if pos < s.len() {
        assert((p + s)[p.len() + pos] == s[pos]);
        lemma_atom_end_prefix(p, s, pos + 1);
    }
}

proof fn lemma_string_end_prefix(p: Seq<char>, s: Seq<char>, pos: int)
    requires
        0 <= pos,
    ensures
        string_end(p + s, p.len() + pos) == string_end(s, pos) + p.len(),
    decreases s.len() - pos,
{
    if pos < s.len() {
        assert((p + s)[p.len() + pos] == s[pos]);
        if s[pos] == '\\' && pos + 1 < s.len() {
            lemma_string_end_prefix(p, s, pos + 2);
        } else if s[pos] != '"' {
            lemma_string_end_prefix(p, s, pos + 1);
        }
    }
}

/// Parsing a node after a prefix gives the same node, at positions moved by
/// the prefix's length.
proof fn lemma_node_prefix(p: Seq<char>, s: Seq<char>, pos: int, line: int)
    requires
        0 <= pos <= s.len(),
    ensures
        node_spec(p + s, p.len() + pos, line) is Ok <==> node_spec(s, pos, line) is Ok,
        node_spec(s, pos, line) matches Ok((t, q, l)) ==> node_spec(p + s, p.len() + pos, line)
            == Ok::<(Tree, int, int), Seq<char>>((t, q + p.len(), l)),
        node_spec(s, pos, line) is Err ==> node_spec(p + s, p.len() + pos, line) == node_spec(s, pos, line),
    decreases s.len() - pos, 1int,
{
    let t = p + s;
    lemma_skip(s, pos, line, false);
    lemma_skip_prefix(p, s, pos, line, false);
    let (q, l) = skip(s, pos, line, false);
    if q < s.len() {
        assert(t[p.len() + q] == s[q]);
        if s[q] == '(' {
            lemma_items_prefix(p, s, q + 1, l, l, seq![]);
        } else if s[q] == '"' {
            lemma_string_end(s, q + 1);
            lemma_string_end_prefix(p, s, q + 1);
            let e = string_end(s, q + 1);
            assert(t.subrange(p.len() + q, e + p.len()) =~= s.subrange(q, e));
        } else {
            lemma_atom_end(s, q);
            lemma_atom_end_prefix(p, s, q);
            let e = atom_end(s, q);
            assert(t.subrange(p.len() + q, e + p.len()) =~= s.subrange(q, e));
        }
    }
}

proof fn lemma_items_prefix(p: Seq<char>, s: Seq<char>, pos: int, line: int, open: int, acc: Seq<Tree>)
    requires
        0 <= pos <= s.len(),
    ensures
        items_spec(p + s, p.len() + pos, line, open, acc) is Ok <==> items_spec(s, pos, line, open, acc) is Ok,
        items_spec(s, pos, line, open, acc) matches Ok((t, q, l)) ==> items_spec(p + s, p.len() + pos, line, open, acc)
            == Ok::<(Tree, int, int), Seq<char>>((t, q + p.len(), l)),
        items_spec(s, pos, line, open, acc) is Err ==> items_spec(p + s, p.len() + pos, line, open, acc)
            == items_spec(s, pos, line, open, acc),
    decreases s.len() - pos, 2int,
{
    let t = p + s;
    lemma_skip(s, pos, line, false);
    lemma_skip_prefix(p, s, pos, line, false);
    let (q, l) = skip(s, pos, line, false);
    if q < s.len() {
        assert(t[p.len() + q] == s[q]);
        if s[q] != ')' {
            lemma_node_prefix(p, s, q, l);
            match node_spec(s, q, l) {
                Ok((n, q2, l2)) => {
                    if q < q2 <= s.len() {
                        lemma_items_prefix(p, s, q2, l2, open, acc.push(n));
                    }
                },
                Err(_) => {},
            }
        }
    }
}

proof fn lemma_top_prefix(p: Seq<char>, s: Seq<char>, pos: int, line: int, acc: Seq<Tree>)
    requires
        0 <= pos <= s.len(),
    ensures
        top_spec(p + s, p.len() + pos, line, acc) == top_spec(s, pos, line, acc),
    decreases s.len() - pos,
{
    let t = p + s;
    lemma_skip(s, pos, line, false);
    lemma_skip_prefix(p, s, pos, line, false);
    let (q, l) = skip(s, pos, line, false);
    if q < s.len() {
        lemma_node_prefix(p, s, q, l);
        match node_spec(s, q, l) {
            Ok((n, q2, l2)) => {
                if q < q2 <= s.len() {
                    lemma_top_prefix(p, s, q2, l2, acc.push(n));
                }
            },
            Err(_) => {},
        }
    }
}


proof fn lemma_comment_skip(t: Seq<char>, i: int, end: int, line: int)
    requires
        0 <= i <= end < t.len(),
        t[end] == '\n',
        forall|j: int| i <= j < end ==> t[j] != '\n',
    ensures
        skip(t, i, line, true) == skip(t, end + 1, line + 1, false),
    decreases end - i,
{
    if i < end {
        lemma_comment_skip(t, i + 1, end, line);
    }
}

proof fn lemma_top_same_skip(t: Seq<char>, a: int, la: int, b: int, lb: int)
    requires
        0 <= a <= t.len(),
        0 <= b <= t.len(),
        skip(t, a, la, false) == skip(t, b, lb, false),
    ensures
        top_spec(t, a, la, seq![]) == top_spec(t, b, lb, seq![]),
{
}

/// A comment line (`;` up to a newline) before a text is ignored: the text
/// parses with it as it does without it, each node one line further down,
/// and it fails to parse with it exactly when it fails without it.
pub proof fn law_comment_line_ignored(c: Seq<char>, s: Seq<char>)
    requires
        forall|i: int| 0 <= i < c.len() ==> c[i] != '\n',
    ensures
        parse_source(seq![';'] + c + seq!['\n'] + s) is Ok <==> parse_source(s) is Ok,
        parse_source(s) matches Ok(ts) ==> parse_source(seq![';'] + c + seq!['\n'] + s)
            == Ok::<Seq<Tree>, Seq<char>>(shift_trees(ts, 1)),
{
    let p = seq![';'] + c + seq!['\n'];
    let t = p + s;
    assert(seq![';'] + c + seq!['\n'] + s =~= t);
    assert(t[0] == ';');
    assert(t[p.len() - 1] == '\n');
    assert forall|j: int| 1 <= j < p.len() - 1 implies t[j] != '\n' by {
        assert(t[j] == c[j - 1]);
    }
    lemma_comment_skip(t, 1, p.len() - 1, 1);
    lemma_top_same_skip(t, 0, 1, p.len() as int, 2);
    lemma_top_prefix(p, s, 0, 2, seq![]);
    lemma_top_lines(s, 0, 1, seq![], 1);
    assert(shift_trees(seq![], 1) =~= Seq::<Tree>::empty());
}

/// A line break before a text moves each node one line further down and
/// changes nothing else.
pub proof fn law_leading_newline(s: Seq<char>)
    ensures
        parse_source(seq!['\n'] + s) is Ok <==> parse_source(s) is Ok,
        parse_source(s) matches Ok(ts) ==> parse_source(seq!['\n'] + s)
            == Ok::<Seq<Tree>, Seq<char>>(shift_trees(ts, 1)),
{
    let p = seq!['\n'];
    let t = p + s;
    assert(t[0] == '\n');
    lemma_top_same_skip(t, 0, 1, 1, 2);
    lemma_top_prefix(p, s, 0, 2, seq![]);
    lemma_top_lines(s, 0, 1, seq![], 1);
    assert(shift_trees(seq![], 1) =~= Seq::<Tree>::empty());
}

/// Whitespace other than a line break before a text changes nothing.
pub proof fn law_leading_whitespace(w: char, s: Seq<char>)
    requires
        crate::text::is_ws(w),
        w != '\n',
    ensures
        parse_source(seq![w] + s) == parse_source(s),
{
    let p = seq![w];
    let t = p + s;
    assert(t[0] == w);
    lemma_top_same_skip(t, 0, 1, 1, 1);
    lemma_top_prefix(p, s, 0, 1, seq![]);
}

/// The nesting depth after the first `j` characters of `s`: the opening
/// minus the closing parentheses among them.
pub open spec fn paren_depth(s: Seq<char>, j: int) -> int
    decreases j,
{
    if j <= 0 {
        0
    } else {
        paren_depth(s, j - 1) + if s[j - 1] == '(' { 1int } else if s[j - 1] == ')' { -1int } else { 0int }
    }
}

/// No prefix closes more parentheses than it opens, and all are closed.
pub open spec fn balanced(s: Seq<char>) -> bool {
    &&& forall|j: int| 0 <= j <= s.len() ==> #[trigger] paren_depth(s, j) >= 0
    &&& paren_depth(s, s.len() as int) == 0
}

/// A text without string literals or comments.
pub open spec fn plain(s: Seq<char>) -> bool {
    forall|i: int| 0 <= i < s.len() ==> #[trigger] s[i] != '"' && s[i] != ';'
}

/// The number of line breaks among the first `j` characters of `s`.
pub open spec fn newlines(s: Seq<char>, j: int) -> int
    decreases j,
{
    if j <= 0 {
        0
    } else {
        newlines(s, j - 1) + if s[j - 1] == '\n' { 1int } else { 0int }
    }
}

/// The character at `k` is a `)` that closes more than was opened before it:
/// the first such.
pub open spec fn first_unmatched_close(s: Seq<char>, k: int) -> bool {
    &&& 0 <= k < s.len()
    &&& s[k] == ')'
    &&& paren_depth(s, k + 1) == -1
    &&& forall|j: int| 0 <= j <= k ==> #[trigger] paren_depth(s, j) >= 0
}

/// The character at `k` is the innermost `(` still open at the end of `s`.
pub open spec fn innermost_unclosed(s: Seq<char>, k: int) -> bool {
    &&& 0 <= k < s.len()
    &&& s[k] == '('
    &&& paren_depth(s, k + 1) == paren_depth(s, s.len() as int)
    &&& forall|j: int| k < j <= s.len() ==> #[trigger] paren_depth(s, j) >= paren_depth(s, s.len() as int)
}

proof fn lemma_skip_flat(s: Seq<char>, pos: int, line: int)
    requires
        plain(s),
        0 <= pos <= s.len(),
    ensures
        forall|j: int| pos <= j <= skip(s, pos, line, false).0 ==> #[trigger] paren_depth(s, j) == paren_depth(s, pos),
        skip(s, pos, line, false).1 == line + newlines(s, skip(s, pos, line, false).0) - newlines(s, pos),
    decreases s.len() - pos,
{
    lemma_skip(s, pos, line, false);
    if pos < s.len() {
        assert(s[pos] != ';');
        if s[pos] == '\n' {
            lemma_skip_flat(s, pos + 1, line + 1);
            assert(paren_depth(s, pos + 1) == paren_depth(s, pos));
        } else if is_ws(s[pos]) {
            lemma_skip_flat(s, pos + 1, line);
            assert(paren_depth(s, pos + 1) == paren_depth(s, pos));
        }
    }
}

proof fn lemma_atom_flat(s: Seq<char>, pos: int)
    requires
        0 <= pos <= s.len(),
    ensures
        forall|j: int| pos <= j <= atom_end(s, pos) ==> #[trigger] paren_depth(s, j) == paren_depth(s, pos),
        newlines(s, atom_end(s, pos)) == newlines(s, pos),
    decreases s.len() - pos,
{
    lemma_atom_end(s, pos);
    if pos < s.len() && !(is_ws(s[pos]) || s[pos] == '(' || s[pos] == ')') {
        lemma_atom_flat(s, pos + 1);
        assert(paren_depth(s, pos + 1) == paren_depth(s, pos));
        assert(s[pos] != '\n');
    }
}

/// An unclosed list among `[from, len)`: the error names the line of its `(`.
spec fn unclosed_at(s: Seq<char>, from: int, k: int, e: Seq<char>, l: int) -> bool {
    &&& from <= k < s.len()
    &&& s[k] == '('
    &&& paren_depth(s, k + 1) == paren_depth(s, s.len() as int)
    &&& (forall|j: int| k < j <= s.len() ==> #[trigger] paren_depth(s, j) >= paren_depth(s, s.len() as int))
    &&& e == err_unclosed(l + newlines(s, k) - newlines(s, from))
}

proof fn lemma_node_depth(s: Seq<char>, p: int, l: int)
    requires
        plain(s),
        0 <= p <= s.len(),
    ensures
        match node_spec(s, p, l) {
            Ok((t, p2, l2)) => p < p2 <= s.len() && paren_depth(s, p2) == paren_depth(s, p)
                && (forall|j: int| p <= j <= p2 ==> #[trigger] paren_depth(s, j) >= paren_depth(s, p))
                && l2 == l + newlines(s, p2) - newlines(s, p),
            Err(e) => {
                let q = skip(s, p, l, false).0;
                &&& (forall|j: int| p <= j <= q ==> #[trigger] paren_depth(s, j) == paren_depth(s, p))
                &&& {
                    ||| q >= s.len() && e == err_end_of_input()
                    ||| (q < s.len() && s[q] == ')' && e == err_empty_atom(l + newlines(s, q) - newlines(s, p)))
                    ||| (paren_depth(s, s.len() as int) > paren_depth(s, p)
                        && (forall|j: int| p <= j <= s.len() ==> #[trigger] paren_depth(s, j) >= paren_depth(s, p))
                        && exists|k: int| #[trigger] unclosed_at(s, p, k, e, l))
                }
            },
        },
    decreases s.len() - p, 1int,
{
    lemma_skip(s, p, l, false);
    lemma_skip_flat(s, p, l);
    let (q, lq) = skip(s, p, l, false);
    let d = paren_depth(s, p);
    if q < s.len() {
        assert(paren_depth(s, q) == d);
        assert(s[q] != '"');
        if s[q] == '(' {
            assert(paren_depth(s, q + 1) == d + 1);
            assert(newlines(s, q + 1) == newlines(s, q));
            lemma_items_depth(s, q + 1, lq, lq, seq![]);
            match items_spec(s, q + 1, lq, lq, seq![]) {
                Ok((t, p2, l2)) => {
                    assert forall|j: int| p <= j <= p2 implies #[trigger] paren_depth(s, j) >= d by {
                        if j <= q {
                            assert(paren_depth(s, j) == d);
                        } else if j < p2 {
                            assert(paren_depth(s, j) >= d + 1);
                        }
                    }
                },
                Err(e) => {
                    assert(paren_depth(s, s.len() as int) >= d + 1);
                    assert forall|j: int| p <= j <= s.len() implies #[trigger] paren_depth(s, j) >= d by {
                        if j <= q {
                            assert(paren_depth(s, j) == d);
                        } else {
                            assert(paren_depth(s, j) >= d + 1);
                        }
                    }
                    if paren_depth(s, s.len() as int) == paren_depth(s, q + 1) && e == err_unclosed(lq) {
                        assert(unclosed_at(s, p, q, e, l));
                    } else {
                        let k = choose|k: int| #[trigger] unclosed_at(s, q + 1, k, e, lq);
                        assert(unclosed_at(s, p, k, e, l));
                    }
                },
            }
        } else if s[q] != ')' {
            lemma_atom_flat(s, q);
            lemma_atom_end(s, q + 1);
            assert(!is_ws(s[q]));
            assert(atom_end(s, q) == atom_end(s, q + 1));
            assert(atom_end(s, q) > q);
            let e = atom_end(s, q);
            assert forall|j: int| p <= j <= e implies #[trigger] paren_depth(s, j) >= d by {
                if j <= q {
                    assert(paren_depth(s, j) == d);
                } else {
                    assert(paren_depth(s, j) == paren_depth(s, q));
                }
            }
        } else {
            lemma_atom_end(s, q);
        }
    }
}

proof fn lemma_items_depth(s: Seq<char>, pos: int, line: int, open_line: int, acc: Seq<Tree>)
    requires
        plain(s),
        0 <= pos <= s.len(),
    ensures
        match items_spec(s, pos, line, open_line, acc) {
            Ok((t, p2, l2)) => pos < p2 <= s.len() && paren_depth(s, p2) == paren_depth(s, pos) - 1
                && (forall|j: int| pos <= j < p2 ==> #[trigger] paren_depth(s, j) >= paren_depth(s, pos))
                && l2 == line + newlines(s, p2) - newlines(s, pos),
            Err(e) => (forall|j: int| pos <= j <= s.len() ==> #[trigger] paren_depth(s, j) >= paren_depth(s, pos))
                && {
                    ||| (paren_depth(s, s.len() as int) == paren_depth(s, pos) && e == err_unclosed(open_line))
                    ||| exists|k: int| #[trigger] unclosed_at(s, pos, k, e, line)
                },
        },
    decreases s.len() - pos, 2int,
{
    lemma_skip(s, pos, line, false);
    lemma_skip_flat(s, pos, line);
    let (q, lq) = skip(s, pos, line, false);
    let d = paren_depth(s, pos);
    if q < s.len() {
        assert(paren_depth(s, q) == d);
        if s[q] == ')' {
            assert(paren_depth(s, q + 1) == d - 1);
            assert(newlines(s, q + 1) == newlines(s, q));
            assert forall|j: int| pos <= j < q + 1 implies #[trigger] paren_depth(s, j) >= d by {
                assert(paren_depth(s, j) == d);
            }
        } else {
            lemma_node_depth(s, q, lq);
            lemma_skip(s, q, lq, false);
            assert(skip(s, q, lq, false).0 == q);
            match node_spec(s, q, lq) {
                Ok((n, p2, l2)) => {
                    lemma_items_depth(s, p2, l2, open_line, acc.push(n));
                    match items_spec(s, p2, l2, open_line, acc.push(n)) {
                        Ok((t, p3, l3)) => {
                            assert forall|j: int| pos <= j < p3 implies #[trigger] paren_depth(s, j) >= d by {
                                if j <= q {
                                    assert(paren_depth(s, j) == d);
                                } else if j <= p2 {
                                    assert(paren_depth(s, j) >= paren_depth(s, q));
                                } else {
                                    assert(paren_depth(s, j) >= paren_depth(s, p2));
                                }
                            }
                        },
                        Err(e) => {
                            assert forall|j: int| pos <= j <= s.len() implies #[trigger] paren_depth(s, j) >= d by {
                                if j <= q {
                                    assert(paren_depth(s, j) == d);
                                } else if j <= p2 {
                                    assert(paren_depth(s, j) >= paren_depth(s, q));
                                } else {
                                    assert(paren_depth(s, j) >= paren_depth(s, p2));
                                }
                            }
                            if !(paren_depth(s, s.len() as int) == paren_depth(s, p2) && e == err_unclosed(open_line)) {
                                let k = choose|k: int| #[trigger] unclosed_at(s, p2, k, e, l2);
                                assert(unclosed_at(s, pos, k, e, line));
                            }
                        },
                    }
                },
                Err(e) => {
                    assert forall|j: int| pos <= j <= s.len() implies #[trigger] paren_depth(s, j) >= d by {
                        if j <= q {
                            assert(paren_depth(s, j) == d);
                        } else {
                            assert(paren_depth(s, j) >= paren_depth(s, q));
                        }
                    }
                    let k = choose|k: int| #[trigger] unclosed_at(s, q, k, e, lq);
                    assert(unclosed_at(s, pos, k, e, line));
                },
            }
        }
    } else {
        assert forall|j: int| pos <= j <= s.len() implies #[trigger] paren_depth(s, j) >= d by {
            assert(paren_depth(s, j) == d);
        }
    }
}

/// A `)` at `k` is the first to close more than was opened since `from`; the
/// error names its line.
spec fn unmatched_at(s: Seq<char>, from: int, k: int, e: Seq<char>, l: int) -> bool {
    &&& from <= k < s.len()
    &&& s[k] == ')'
    &&& paren_depth(s, k + 1) == paren_depth(s, from) - 1
    &&& (forall|j: int| from <= j <= k ==> #[trigger] paren_depth(s, j) >= paren_depth(s, from))
    &&& e == err_empty_atom(l + newlines(s, k) - newlines(s, from))
}

/// A failure to parse the top-level nodes from `pos` is explained by an
/// unmatched `)` or an unclosed `(`.
spec fn top_error_explained(s: Seq<char>, pos: int, line: int, r: Result<Seq<Tree>, Seq<char>>) -> bool {
    r is Err ==> top_error_is(s, pos, line, r->Err_0)
}

spec fn top_error_is(s: Seq<char>, pos: int, line: int, e: Seq<char>) -> bool {
    ||| (exists|k: int| #[trigger] unmatched_at(s, pos, k, e, line))
    ||| ((forall|j: int| pos <= j <= s.len() ==> #[trigger] paren_depth(s, j) >= paren_depth(s, pos))
        && (exists|k: int| #[trigger] unclosed_at(s, pos, k, e, line)))
}

proof fn lemma_top_depth(s: Seq<char>, pos: int, line: int, acc: Seq<Tree>)
    requires
        plain(s),
        0 <= pos <= s.len(),
    ensures
        top_spec(s, pos, line, acc) is Ok <==> (
            (forall|j: int| pos <= j <= s.len() ==> #[trigger] paren_depth(s, j) >= paren_depth(s, pos))
            && paren_depth(s, s.len() as int) == paren_depth(s, pos)),
        top_error_explained(s, pos, line, top_spec(s, pos, line, acc)),
    decreases s.len() - pos,
{
    lemma_skip(s, pos, line, false);
    lemma_skip_flat(s, pos, line);
    let (q, lq) = skip(s, pos, line, false);
    let d = paren_depth(s, pos);
    if q >= s.len() {
        assert(q == s.len());
        assert(paren_depth(s, s.len() as int) == d);
    } else {
        assert(paren_depth(s, q) == d);
        lemma_node_depth(s, q, lq);
        lemma_skip(s, q, lq, false);
        assert(skip(s, q, lq, false).0 == q);
        match node_spec(s, q, lq) {
            Ok((n, p2, l2)) => {
                lemma_top_depth(s, p2, l2, acc.push(n));
                assert(top_spec(s, pos, line, acc) == top_spec(s, p2, l2, acc.push(n)));
                if forall|j: int| p2 <= j <= s.len() ==> #[trigger] paren_depth(s, j) >= paren_depth(s, p2) {
                    assert forall|j: int| pos <= j <= s.len() implies #[trigger] paren_depth(s, j) >= d by {
                        if j <= q {
                            assert(paren_depth(s, j) == d);
                        } else if j <= p2 {
                            assert(paren_depth(s, j) >= paren_depth(s, q));
                        } else {
                            assert(paren_depth(s, j) >= paren_depth(s, p2));
                        }
                    }
                }
                match top_spec(s, p2, l2, acc.push(n)) {
                    Ok(_) => {},
                    Err(e) => {
                        if exists|k: int| #[trigger] unmatched_at(s, p2, k, e, l2) {
                            let k = choose|k: int| #[trigger] unmatched_at(s, p2, k, e, l2);
                            assert forall|j: int| pos <= j <= k implies #[trigger] paren_depth(s, j) >= d by {
                                if j <= q {
                                    assert(paren_depth(s, j) == d);
                                } else if j <= p2 {
                                    assert(paren_depth(s, j) >= paren_depth(s, q));
                                } else {
                                    assert(paren_depth(s, j) >= paren_depth(s, p2));
                                }
                            }
                            assert(unmatched_at(s, pos, k, e, line));
                            assert(top_error_explained(s, pos, line, top_spec(s, pos, line, acc)));
                        } else {
                            let k = choose|k: int| #[trigger] unclosed_at(s, p2, k, e, l2);
                            assert(unclosed_at(s, pos, k, e, line));
                            assert forall|j: int| pos <= j <= s.len() implies #[trigger] paren_depth(s, j) >= d by {
                                if j <= q {
                                    assert(paren_depth(s, j) == d);
                                } else if j <= p2 {
                                    assert(paren_depth(s, j) >= paren_depth(s, q));
                                } else {
                                    assert(paren_depth(s, j) >= paren_depth(s, p2));
                                }
                            }
                            assert(top_error_explained(s, pos, line, top_spec(s, pos, line, acc)));
                        }
                    },
                }
            },
            Err(e) => {
                assert(top_spec(s, pos, line, acc) == Err::<Seq<Tree>, Seq<char>>(e));
                if s[q] == ')' {
                    assert(paren_depth(s, q + 1) == d - 1);
                    assert forall|j: int| pos <= j <= q implies #[trigger] paren_depth(s, j) >= d by {
                        assert(paren_depth(s, j) == d);
                    }
                    assert(e == err_empty_atom(line + newlines(s, q) - newlines(s, pos)));
                    assert(unmatched_at(s, pos, q, e, line));
                    assert(exists|k: int| #[trigger] unmatched_at(s, pos, k, e, line));
                    assert(top_error_explained(s, pos, line, top_spec(s, pos, line, acc)));
                } else {
                    let k = choose|k: int| #[trigger] unclosed_at(s, q, k, e, lq);
                    assert(unclosed_at(s, pos, k, e, line));
                    assert forall|j: int| pos <= j <= s.len() implies #[trigger] paren_depth(s, j) >= d by {
                        if j <= q {
                            assert(paren_depth(s, j) == d);
                        } else {
                            assert(paren_depth(s, j) >= paren_depth(s, q));
                        }
                    }
                    assert(exists|k: int| #[trigger] unclosed_at(s, pos, k, e, line));
                    assert(top_error_explained(s, pos, line, top_spec(s, pos, line, acc)));
                }
            },
        }
    }
}

/// A text without string literals or comments parses exactly when its
/// parentheses balance: no prefix closes more than it opens, and every one
/// opened is closed.
pub proof fn law_parse_succeeds_iff_balanced(s: Seq<char>)
    requires
        plain(s),
    ensures
        parse_source(s) is Ok <==> balanced(s),
{
    lemma_top_depth(s, 0, 1, seq![]);
    assert(paren_depth(s, 0) == 0);
}

/// A text without string literals or comments that does not parse fails at
/// the first `)` that closes more than was opened before it, with "Empty atom
/// at line L" for its line L; where every prefix is balanced or open, it fails
/// at the innermost `(` still open at the end, with "Unclosed parenthesis
/// opened at line L" for that one's line L. One of the two is always there.
pub proof fn law_parse_errors_name_the_parenthesis(s: Seq<char>)
    requires
        plain(s),
    ensures
        forall|k: int| #[trigger] first_unmatched_close(s, k)
            ==> parse_source(s) == Err::<Seq<Tree>, Seq<char>>(err_empty_atom(1 + newlines(s, k))),
        (forall|j: int| 0 <= j <= s.len() ==> #[trigger] paren_depth(s, j) >= 0)
            ==> forall|k: int| #[trigger] innermost_unclosed(s, k)
                ==> parse_source(s) == Err::<Seq<Tree>, Seq<char>>(err_unclosed(1 + newlines(s, k))),
        !balanced(s) ==> (exists|k: int| #[trigger] first_unmatched_close(s, k))
            || ((forall|j: int| 0 <= j <= s.len() ==> #[trigger] paren_depth(s, j) >= 0)
                && exists|k: int| #[trigger] innermost_unclosed(s, k)),
{
    lemma_top_depth(s, 0, 1, seq![]);
    assert(paren_depth(s, 0) == 0);
    assert(newlines(s, 0) == 0);
    let r = parse_source(s);
    assert forall|k: int| #[trigger] first_unmatched_close(s, k)
        implies r == Err::<Seq<Tree>, Seq<char>>(err_empty_atom(1 + newlines(s, k))) by {
        assert(paren_depth(s, k + 1) < 0);
        assert(!balanced(s));
        let e = r->Err_0;
        if exists|k2: int| #[trigger] unmatched_at(s, 0, k2, e, 1) {
            let k2 = choose|k2: int| #[trigger] unmatched_at(s, 0, k2, e, 1);
            if k2 < k {
                assert(paren_depth(s, k2 + 1) >= 0);
            } else if k < k2 {
                assert(paren_depth(s, k + 1) >= 0);
            }
        } else {
            assert(paren_depth(s, k + 1) >= 0);
        }
    }
    if forall|j: int| 0 <= j <= s.len() ==> #[trigger] paren_depth(s, j) >= 0 {
        assert forall|k: int| #[trigger] innermost_unclosed(s, k)
            implies r == Err::<Seq<Tree>, Seq<char>>(err_unclosed(1 + newlines(s, k))) by {
            assert(paren_depth(s, k) == paren_depth(s, s.len() as int) - 1);
            assert(paren_depth(s, k) >= 0);
            assert(!balanced(s));
            let e = r->Err_0;
            if exists|k2: int| #[trigger] unmatched_at(s, 0, k2, e, 1) {
                let k2 = choose|k2: int| #[trigger] unmatched_at(s, 0, k2, e, 1);
                assert(paren_depth(s, k2 + 1) >= 0);
            } else {
                let k2 = choose|k2: int| #[trigger] unclosed_at(s, 0, k2, e, 1);
                if k2 < k {
                    assert(paren_depth(s, k) >= paren_depth(s, s.len() as int));
                } else if k < k2 {
                    assert(paren_depth(s, k2) >= paren_depth(s, s.len() as int));
                }
            }
        }
    }
    if !balanced(s) {
        let e = r->Err_0;
        if exists|k2: int| #[trigger] unmatched_at(s, 0, k2, e, 1) {
            let k2 = choose|k2: int| #[trigger] unmatched_at(s, 0, k2, e, 1);
            assert(first_unmatched_close(s, k2));
        } else {
            let k2 = choose|k2: int| #[trigger] unclosed_at(s, 0, k2, e, 1);
            assert(innermost_unclosed(s, k2));
        }
    }
}

/// No string literal in the tree `t` (an atom that starts with `"`) holds a
/// line break.
pub open spec fn single_line_strings(t: Tree) -> bool
    decreases t,
{
    match t {
        Tree::Atom(text, _) => text.len() > 0 && text[0] == '"' ==> !text.contains('\n'),
        Tree::List(ch, _) => forall|i: int| #![trigger ch[i]] 0 <= i < ch.len() ==> single_line_strings(ch[i]),
    }
}

/// The positions `ps` of the nodes `ts` of a list or text, strictly after
/// `from` and increasing, each node found at its position.
pub open spec fn located_all(s: Seq<char>, ts: Seq<Tree>, ps: Seq<int>, from: int) -> bool
    decreases ts, 1int,
{
    &&& ps.len() == ts.len()
    &&& forall|i: int| 0 <= i < ps.len() ==> from < #[trigger] ps[i]
    &&& forall|i: int, j: int| 0 <= i < j < ps.len() ==> #[trigger] ps[i] < #[trigger] ps[j]
    &&& forall|i: int| #![trigger ts[i]] 0 <= i < ts.len() ==> located(s, ts[i], ps[i])
}

/// The node `t` starts at position `q` of `s` and its line, and that of every
/// node inside it, is one more than the line breaks before its first character:
/// a list at its `(`, with its children after it; an atom at its text.
pub open spec fn located(s: Seq<char>, t: Tree, q: int) -> bool
    decreases t, 0int,
{
    &&& 0 <= q < s.len()
    &&& t.line() == 1 + newlines(s, q)
    &&& match t {
        Tree::Atom(text, _) => text.len() > 0 && q + text.len() <= s.len() && text == s.subrange(q, q + text.len()),
        Tree::List(ch, _) => s[q] == '(' && exists|ps: Seq<int>| #![trigger ps.len()] located_all(s, ch, ps, q),
    }
}

proof fn lemma_skip_counts_lines(s: Seq<char>, pos: int, line: int, c: bool)
    requires
        0 <= pos <= s.len(),
    ensures
        skip(s, pos, line, c).1 == line + newlines(s, skip(s, pos, line, c).0) - newlines(s, pos),
    decreases s.len() - pos,
{
    if pos < s.len() {
        if s[pos] == '\n' {
            lemma_skip_counts_lines(s, pos + 1, line + 1, false);
        } else if c {
            lemma_skip_counts_lines(s, pos + 1, line, true);
        } else if is_ws(s[pos]) {
            lemma_skip_counts_lines(s, pos + 1, line, false);
        } else if s[pos] == ';' {
            lemma_skip_counts_lines(s, pos + 1, line, true);
        }
    }
}

proof fn lemma_located_push(s: Seq<char>, ts: Seq<Tree>, ps: Seq<int>, from: int, t: Tree, q: int)
    requires
        located_all(s, ts, ps, from),
        located(s, t, q),
        from < q,
        forall|i: int| 0 <= i < ps.len() ==> #[trigger] ps[i] < q,
    ensures
        located_all(s, ts.push(t), ps.push(q), from),
{
    assert(ps.len() == ts.len());
    assert(forall|i: int| 0 <= i < ts.len() ==> #[trigger] located(s, ts[i], ps[i]));
    let ts2 = ts.push(t);
    let ps2 = ps.push(q);
    assert forall|i: int| 0 <= i < ts2.len() implies #[trigger] located(s, ts2[i], ps2[i]) by {
        if i < ts.len() {
            assert(located(s, ts[i], ps[i]));
            assert(ts2[i] == ts[i] && ps2[i] == ps[i]);
        } else {
            assert(ts2[i] == t && ps2[i] == q);
        }
    }
    assert forall|i: int, j: int| 0 <= i < j < ps2.len() implies #[trigger] ps2[i] < #[trigger] ps2[j] by {
        if j < ps.len() {
            assert(ps2[i] == ps[i] && ps2[j] == ps[j]);
        } else {
            assert(ps2[i] == ps[i]);
        }
    }
}

/// No line break between `q` and `e`: the count stays the same.
proof fn lemma_no_newline_between(s: Seq<char>, q: int, e: int)
    requires
        0 <= q <= e <= s.len(),
        !s.subrange(q, e).contains('\n'),
    ensures
        newlines(s, e) == newlines(s, q),
    decreases e - q,
{
    if e > q {
        assert(s.subrange(q, e)[e - 1 - q] == s[e - 1]);
        assert(s[e - 1] != '\n');
        assert(s.subrange(q, e - 1) =~= s.subrange(q, e).subrange(0, e - 1 - q));
        let sub = s.subrange(q, e - 1);
        assert(!sub.contains('\n')) by {
            if sub.contains('\n') {
                let k = choose|k: int| 0 <= k < sub.len() && #[trigger] sub[k] == '\n';
                assert(s.subrange(q, e)[k] == '\n');
            }
        }
        lemma_no_newline_between(s, q, e - 1);
    }
}

/// A node that parses ends after where parsing started, within the text.
proof fn lemma_node_advances(s: Seq<char>, p: int, l: int)
    requires
        0 <= p <= s.len(),
    ensures
        node_spec(s, p, l) is Ok ==> p < node_spec(s, p, l)->Ok_0.1 <= s.len(),
    decreases s.len() - p, 1int,
{
    lemma_skip(s, p, l, false);
    let (q, lq) = skip(s, p, l, false);
    if q < s.len() {
        if s[q] == '(' {
            lemma_items_advance(s, q + 1, lq, lq, seq![]);
        } else if s[q] == '"' {
            lemma_string_end(s, q + 1);
        } else {
            lemma_atom_end(s, q);
        }
    }
}

/// The rest of a list that parses ends after where parsing started, within the text.
proof fn lemma_items_advance(s: Seq<char>, pos: int, line: int, open_line: int, acc: Seq<Tree>)
    requires
        0 <= pos <= s.len(),
    ensures
        items_spec(s, pos, line, open_line, acc) is Ok ==> pos < items_spec(s, pos, line, open_line, acc)->Ok_0.1 <= s.len(),
    decreases s.len() - pos, 2int,
{
    lemma_skip(s, pos, line, false);
    let (q, lq) = skip(s, pos, line, false);
    if q < s.len() && s[q] != ')' {
        lemma_node_advances(s, q, lq);
        match node_spec(s, q, lq) {
            Ok((n, p2, l2)) => {
                lemma_items_advance(s, p2, l2, open_line, acc.push(n));
            },
            Err(_) => {},
        }
    }
}

/// The items a list gathers so far come first among its children.
proof fn lemma_items_gathered(s: Seq<char>, pos: int, line: int, open_line: int, acc: Seq<Tree>)
    ensures
        items_spec(s, pos, line, open_line, acc) is Ok ==> {
            let t = items_spec(s, pos, line, open_line, acc)->Ok_0.0;
            &&& t is List
            &&& acc.len() <= t->List_0.len()
            &&& t->List_0.subrange(0, acc.len() as int) == acc
        },
    decreases s.len() - pos,
{
    if 0 <= pos <= s.len() {
        lemma_skip(s, pos, line, false);
        let (q, lq) = skip(s, pos, line, false);
        if q < s.len() && s[q] != ')' {
            match node_spec(s, q, lq) {
                Ok((n, p2, l2)) => {
                    if q < p2 <= s.len() {
                        lemma_items_gathered(s, p2, l2, open_line, acc.push(n));
                        if items_spec(s, p2, l2, open_line, acc.push(n)) is Ok {
                            let ch = items_spec(s, p2, l2, open_line, acc.push(n))->Ok_0.0->List_0;
                            assert(ch.subrange(0, acc.len() as int) =~= ch.subrange(0, acc.len() + 1int).subrange(0, acc.len() as int));
                            assert(acc.push(n).subrange(0, acc.len() as int) =~= acc);
                        }
                    }
                },
                Err(_) => {},
            }
        } else if q < s.len() {
            assert(acc.subrange(0, acc.len() as int) =~= acc);
        }
    }
}

/// The nodes gathered so far come first among the top-level nodes.
proof fn lemma_top_gathered(s: Seq<char>, pos: int, line: int, acc: Seq<Tree>)
    ensures
        top_spec(s, pos, line, acc) is Ok ==> {
            let ts = top_spec(s, pos, line, acc)->Ok_0;
            &&& acc.len() <= ts.len()
            &&& ts.subrange(0, acc.len() as int) == acc
        },
    decreases s.len() - pos,
{
    if 0 <= pos <= s.len() {
        lemma_skip(s, pos, line, false);
        let (q, lq) = skip(s, pos, line, false);
        if q < s.len() {
            match node_spec(s, q, lq) {
                Ok((n, p2, l2)) => {
                    if q < p2 <= s.len() {
                        lemma_top_gathered(s, p2, l2, acc.push(n));
                        if top_spec(s, p2, l2, acc.push(n)) is Ok {
                            let ts = top_spec(s, p2, l2, acc.push(n))->Ok_0;
                            assert(ts.subrange(0, acc.len() as int) =~= ts.subrange(0, acc.len() + 1int).subrange(0, acc.len() as int));
                            assert(acc.push(n).subrange(0, acc.len() as int) =~= acc);
                        }
                    }
                },
                Err(_) => {},
            }
        } else {
            assert(acc.subrange(0, acc.len() as int) =~= acc);
        }
    } else {
        assert(acc.subrange(0, acc.len() as int) =~= acc);
    }
}

proof fn lemma_node_located(s: Seq<char>, p: int, l: int)
    requires
        0 <= p <= s.len(),
        l == 1 + newlines(s, p),
    ensures
        node_spec(s, p, l) is Ok && single_line_strings(node_spec(s, p, l)->Ok_0.0) ==> {
            let (t, p2, l2) = node_spec(s, p, l)->Ok_0;
            &&& p < p2 <= s.len()
            &&& l2 == 1 + newlines(s, p2)
            &&& exists|q: int| p <= q < p2 && #[trigger] located(s, t, q)
        },
    decreases s.len() - p, 1int,
{
    lemma_skip(s, p, l, false);
    lemma_skip_counts_lines(s, p, l, false);
    let (q, lq) = skip(s, p, l, false);
    if q < s.len() {
        if s[q] == '(' {
            assert(newlines(s, q + 1) == newlines(s, q));
            lemma_items_located(s, q + 1, lq, seq![], seq![], q);
        } else if s[q] == '"' {
            lemma_string_end(s, q + 1);
            let e = string_end(s, q + 1);
            let t = Tree::Atom(s.subrange(q, e), lq);
            if single_line_strings(t) {
                assert(s.subrange(q, e)[0] == '"');
                lemma_no_newline_between(s, q, e);
                assert(s.subrange(q, e) == s.subrange(q, q + s.subrange(q, e).len()));
                assert(located(s, t, q));
            }
        } else {
            lemma_atom_flat(s, q);
            let e = atom_end(s, q);
            if e != q {
                lemma_atom_end(s, q);
                let t = Tree::Atom(s.subrange(q, e), lq);
                assert(s.subrange(q, e) == s.subrange(q, q + s.subrange(q, e).len()));
                assert(located(s, t, q));
            }
        }
    }
}

proof fn lemma_items_located(s: Seq<char>, pos: int, line: int, acc: Seq<Tree>, ps: Seq<int>, open: int)
    requires
        0 < pos <= s.len(),
        0 <= open < pos,
        s[open] == '(',
        line == 1 + newlines(s, pos),
        located_all(s, acc, ps, open),
        forall|i: int| 0 <= i < ps.len() ==> #[trigger] ps[i] < pos,
    ensures
        items_spec(s, pos, line, 1 + newlines(s, open), acc) is Ok
            && single_line_strings(items_spec(s, pos, line, 1 + newlines(s, open), acc)->Ok_0.0) ==> {
            let (t, p2, l2) = items_spec(s, pos, line, 1 + newlines(s, open), acc)->Ok_0;
            &&& pos < p2 <= s.len()
            &&& l2 == 1 + newlines(s, p2)
            &&& located(s, t, open)
        },
    decreases s.len() - pos, 2int,
{
    let ol = 1 + newlines(s, open);
    lemma_skip(s, pos, line, false);
    lemma_skip_counts_lines(s, pos, line, false);
    let (q, lq) = skip(s, pos, line, false);
    if q < s.len() {
        if s[q] == ')' {
            assert(newlines(s, q + 1) == newlines(s, q));
            let t = Tree::List(acc, ol);
            assert(located_all(s, acc, ps, open));
            assert(t.line() == 1 + newlines(s, open));
            assert(exists|ps0: Seq<int>| #[trigger] located_all(s, acc, ps0, open));
            assert(located(s, t, open));
        } else {
            lemma_skip(s, q, lq, false);
            match node_spec(s, q, lq) {
                Ok((n, p2, l2)) => {
                    lemma_node_advances(s, q, lq);
                    let r = items_spec(s, pos, line, ol, acc);
                    assert(r == items_spec(s, p2, l2, ol, acc.push(n)));
                    lemma_items_gathered(s, p2, l2, ol, acc.push(n));
                    if r is Ok && single_line_strings(r->Ok_0.0) {
                        let ch = r->Ok_0.0->List_0;
                        assert(ch[acc.len() as int] == acc.push(n)[acc.len() as int]);
                        assert(single_line_strings(ch[acc.len() as int]));
                        assert(single_line_strings(n));
                        lemma_node_located(s, q, lq);
                        let qn = choose|qn: int| q <= qn < p2 && #[trigger] located(s, n, qn);
                        lemma_located_push(s, acc, ps, open, n, qn);
                        let ps2 = ps.push(qn);
                        assert forall|i: int| 0 <= i < ps2.len() implies #[trigger] ps2[i] < p2 by {
                            if i < ps.len() {
                                assert(ps2[i] == ps[i]);
                            }
                        }
                        lemma_items_located(s, p2, l2, acc.push(n), ps2, open);
                    }
                },
                Err(_) => {},
            }
        }
    }
}

proof fn lemma_top_located(s: Seq<char>, pos: int, line: int, acc: Seq<Tree>, ps: Seq<int>)
    requires
        0 <= pos <= s.len(),
        line == 1 + newlines(s, pos),
        located_all(s, acc, ps, -1),
        forall|i: int| 0 <= i < ps.len() ==> #[trigger] ps[i] < pos,
    ensures
        top_spec(s, pos, line, acc) is Ok
            && (forall|i: int| #![trigger top_spec(s, pos, line, acc)->Ok_0[i]] 0 <= i < top_spec(s, pos, line, acc)->Ok_0.len()
                ==> single_line_strings(top_spec(s, pos, line, acc)->Ok_0[i]))
            ==> exists|ps2: Seq<int>| #[trigger] located_all(s, top_spec(s, pos, line, acc)->Ok_0, ps2, -1),
    decreases s.len() - pos,
{
    lemma_skip(s, pos, line, false);
    lemma_skip_counts_lines(s, pos, line, false);
    let (q, lq) = skip(s, pos, line, false);
    if q >= s.len() {
        assert(top_spec(s, pos, line, acc) == Ok::<Seq<Tree>, Seq<char>>(acc));
        assert(top_spec(s, pos, line, acc)->Ok_0 == acc);
        assert(located_all(s, top_spec(s, pos, line, acc)->Ok_0, ps, -1));
    } else {
        lemma_skip(s, q, lq, false);
        match node_spec(s, q, lq) {
            Ok((n, p2, l2)) => {
                lemma_node_advances(s, q, lq);
                let r = top_spec(s, pos, line, acc);
                assert(r == top_spec(s, p2, l2, acc.push(n)));
                lemma_top_gathered(s, p2, l2, acc.push(n));
                if r is Ok && (forall|i: int| #![trigger r->Ok_0[i]] 0 <= i < r->Ok_0.len() ==> single_line_strings(r->Ok_0[i])) {
                    let ts = r->Ok_0;
                    assert(ts[acc.len() as int] == ts.subrange(0, acc.len() + 1int)[acc.len() as int]);
                    assert(ts[acc.len() as int] == n);
                    assert(single_line_strings(n));
                    lemma_node_located(s, q, lq);
                    let qn = choose|qn: int| q <= qn < p2 && #[trigger] located(s, n, qn);
                    lemma_located_push(s, acc, ps, -1, n, qn);
                    let ps2 = ps.push(qn);
                    assert forall|i: int| 0 <= i < ps2.len() implies #[trigger] ps2[i] < p2 by {
                        if i < ps.len() {
                            assert(ps2[i] == ps[i]);
                        }
                    }
                    lemma_top_located(s, p2, l2, acc.push(n), ps2);
                }
            },
            Err(e) => {
                assert(top_spec(s, pos, line, acc) == Err::<Seq<Tree>, Seq<char>>(e));
            },
        }
    }
}

/// Where no string literal that parsing reads holds a line break, every node
/// that parsing gives, at any depth, is found at a position of the text, the
/// top-level ones and the children of each list in source order, and its line
/// is one more than the line breaks before its first character (a list's `(`,
/// an atom's text). Comments give no node.
pub proof fn law_node_lines_count_line_breaks(s: Seq<char>)
    ensures
        parse_source(s) is Ok
            && (forall|i: int| #![trigger parse_source(s)->Ok_0[i]] 0 <= i < parse_source(s)->Ok_0.len()
                ==> single_line_strings(parse_source(s)->Ok_0[i]))
            ==> exists|ps: Seq<int>| #[trigger] located_all(s, parse_source(s)->Ok_0, ps, -1),
{
    assert(newlines(s, 0) == 0);
    assert(located_all(s, seq![], seq![], -1));
    lemma_top_located(s, 0, 1, seq![], seq![]);
}

} // verus!
