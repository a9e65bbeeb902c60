use vstd::prelude::*;
use crate::ast::{ClarityNode, Tree, trees};
use crate::text::{dec, is_ws, is_whitespace, decimal, concat2, string_from_chars, chars_of};

verus! {

/// Where skipping whitespace and comments from `pos` stops, and the line
/// number there. `in_comment` holds while inside a `;;` comment.
pub open spec fn skip(s: Seq<char>, pos: int, line: int, in_comment: bool) -> (int, int)
    decreases s.len() - pos,
{
    if pos < 0 || pos >= s.len() {
        (pos, line)
    } else if s[pos] == '\n' {
        skip(s, pos + 1, line + 1, false)
    } else if in_comment {
        skip(s, pos + 1, line, true)
    } else if is_ws(s[pos]) {
        skip(s, pos + 1, line, false)
    } else if s[pos] == ';' {
        skip(s, pos + 1, line, true)
    } else {
        (pos, line)
    }
}

/// The end of an atom that starts at `pos`: the first whitespace, parenthesis
/// or the end of the input.
pub open spec fn atom_end(s: Seq<char>, pos: int) -> int
    decreases s.len() - pos,
{
    if pos < 0 || pos >= s.len() || is_ws(s[pos]) || s[pos] == '(' || s[pos] == ')' {
        pos
    } else {
        atom_end(s, pos + 1)
    }
}

/// The end of a string literal whose text starts at `pos` (just after the
/// opening quote): just after the closing quote, or the end of the input. A
/// backslash takes the character after it along.
pub open spec fn string_end(s: Seq<char>, pos: int) -> int
    decreases s.len() - pos,
{
    if pos < 0 || pos >= s.len() {
        pos
    } else if s[pos] == '\\' && pos + 1 < s.len() {
        string_end(s, pos + 2)
    } else if s[pos] == '"' {
        pos + 1
    } else {
        string_end(s, pos + 1)
    }
}

pub open spec fn err_end_of_input() -> Seq<char> {
    "Unexpected end of input"@
}

pub open spec fn err_unclosed(line: int) -> Seq<char> {
    "Unclosed parenthesis opened at line "@ + dec(line as nat)
}

pub open spec fn err_empty_atom(line: int) -> Seq<char> {
    "Empty atom at line "@ + dec(line as nat)
}

pub proof fn lemma_skip(s: Seq<char>, pos: int, line: int, in_comment: bool)
    requires
        0 <= pos <= s.len(),
    ensures
        ({
            let (p, l) = skip(s, pos, line, in_comment);
            &&& pos <= p <= s.len()
            &&& line <= l
            &&& l - line <= p - pos
            &&& skip(s, p, l, false) == (p, l)
            &&& p < s.len() ==> !is_ws(s[p]) && s[p] != ';' && s[p] != '\n'
        }),
    decreases s.len() - pos,
{
    if pos < s.len() {
        if s[pos] == '\n' {
            lemma_skip(s, pos + 1, line + 1, false);
        } else if in_comment {
            lemma_skip(s, pos + 1, line, true);
        } else if is_ws(s[pos]) {
            lemma_skip(s, pos + 1, line, false);
        } else if s[pos] == ';' {
            lemma_skip(s, pos + 1, line, true);
        }
    }
}

pub proof fn lemma_atom_end(s: Seq<char>, pos: int)
    requires
        0 <= pos <= s.len(),
    ensures
        pos <= atom_end(s, pos) <= s.len(),
    decreases s.len() - pos,
{
    if pos < s.len() && !(is_ws(s[pos]) || s[pos] == '(' || s[pos] == ')') {
        lemma_atom_end(s, pos + 1);
    }
}

pub proof fn lemma_string_end(s: Seq<char>, pos: int)
    requires
        0 <= pos <= s.len(),
    ensures
        pos <= string_end(s, pos) <= s.len(),
    decreases s.len() - pos,
{
    if pos < s.len() {
        if s[pos] == '\\' && pos + 1 < s.len() {
            lemma_string_end(s, pos + 2);
        } else if s[pos] != '"' {
            lemma_string_end(s, pos + 1);
        }
    }
}

/// Parses one node after skipping whitespace and comments: the node, the
/// position just after it and the line there.
pub open spec fn node_spec(s: Seq<char>, pos: int, line: int) -> Result<(Tree, int, int), Seq<char>>
    decreases s.len() - pos, 1int,
{
    if 0 <= pos <= s.len() {
        proof {
            lemma_skip(s, pos, line, false);
        }
        let (p, l) = skip(s, pos, line, false);
        if p >= s.len() {
            Err(err_end_of_input())
        } else if s[p] == '(' {
            items_spec(s, p + 1, l, l, seq![])
        } else if s[p] == '"' {
            let e = string_end(s, p + 1);
            Ok((Tree::Atom(s.subrange(p, e), l), e, l))
        } else {
            let e = atom_end(s, p);
            if e == p {
                Err(err_empty_atom(l))
            } else {
                Ok((Tree::Atom(s.subrange(p, e), l), e, l))
            }
        }
    } else {
        Err(err_end_of_input())
    }
}

/// Parses the rest of a list opened on line `open_line`, whose items so far
/// are `acc`, up to and including its closing parenthesis.
pub open spec fn items_spec(s: Seq<char>, pos: int, line: int, open_line: int, acc: Seq<Tree>) -> Result<(Tree, int, int), Seq<char>>
    decreases s.len() - pos, 2int,
{
    if 0 <= pos <= s.len() {
        proof {
            lemma_skip(s, pos, line, false);
        }
        let (p, l) = skip(s, pos, line, false);
        if p >= s.len() {
            Err(err_unclosed(open_line))
        } else if s[p] == ')' {
            Ok((Tree::List(acc, open_line), p + 1, l))
        } else {
            match node_spec(s, p, l) {
                Err(e) => Err(e),
                Ok((n, p2, l2)) => if p < p2 <= s.len() {
                    items_spec(s, p2, l2, open_line, acc.push(n))
                } else {
                    Err(err_end_of_input())
                },
            }
        }
    } else {
        Err(err_unclosed(open_line))
    }
}

/// Parses the top-level nodes from `pos` on, after those in `acc`.
pub open spec fn top_spec(s: Seq<char>, pos: int, line: int, acc: Seq<Tree>) -> Result<Seq<Tree>, Seq<char>>
    decreases s.len() - pos,
{
    if 0 <= pos <= s.len() {
        proof {
            lemma_skip(s, pos, line, false);
        }
        let (p, l) = skip(s, pos, line, false);
        if p >= s.len() {
            Ok(acc)
        } else {
            match node_spec(s, p, l) {
                Err(e) => Err(e),
                Ok((n, p2, l2)) => if p < p2 <= s.len() {
                    top_spec(s, p2, l2, acc.push(n))
                } else {
                    Err(err_end_of_input())
                },
            }
        }
    } else {
        Ok(acc)
    }
}

/// What parsing a whole source text gives: its top-level nodes, or an error.
pub open spec fn parse_source(s: Seq<char>) -> Result<Seq<Tree>, Seq<char>> {
    top_spec(s, 0, 1, seq![])
}

/// A recursive-descent parser over the characters of a Clarity source text.
pub struct Parser {
    source: Vec<char>,
    pos: usize,
    line: usize,
}

impl Parser {
    /// The text being parsed.
    pub closed spec fn text(&self) -> Seq<char> {
        self.source@
    }

    /// The index of the next character to read.
    pub closed spec fn position(&self) -> int {
        self.pos as int
    }

    /// The line number at the current position.
    pub closed spec fn current_line(&self) -> int {
        self.line as int
    }

    /// The parser's invariant: the position lies within the text, and the line
    /// number is at least 1 and grows no faster than the position.
    pub closed spec fn wf(&self) -> bool {
        &&& self.pos <= self.source@.len()
        &&& 1 <= self.line <= self.pos + 1
        &&& self.source@.len() < usize::MAX
    }

    pub fn new(source: &str) -> (p: Self)
        requires
            source@.len() < usize::MAX,
        ensures
            p.wf(),
            p.text() == source@,
            p.position() == 0,
            p.current_line() == 1,
    {
        Parser { source: chars_of(source), pos: 0, line: 1 }
    }

    /// Main entry point — parse the entire source file
    /// Returns a list of top-level nodes
    pub fn parse(&mut self) -> (r: Result<Vec<ClarityNode>, String>)
        requires
            old(self).wf(),
        ensures
            final(self).wf(),
            final(self).text() == old(self).text(),
            match top_spec(old(self).text(), old(self).position(), old(self).current_line(), seq![]) {
                Ok(ts) => r is Ok && trees(r->Ok_0@) == ts,
                Err(e) => r is Err && r->Err_0@ == e,
            },
    {
        let mut nodes: Vec<ClarityNode> = Vec::new();
        proof {
            assert(trees(nodes@) =~= seq![]);
        }
        loop
            invariant
                self.wf(),
                self.text() == old(self).text(),
                top_spec(self.text(), self.pos as int, self.line as int, trees(nodes@))
                    == top_spec(old(self).text(), old(self).position(), old(self).current_line(), seq![]),
            decreases self.source@.len() - self.pos,
        {
            let ghost p0 = self.pos as int;
            let ghost l0 = self.line as int;
            self.skip_whitespace_and_comments();
            proof {
                lemma_skip(self.source@, p0, l0, false);
            }
            if self.pos >= self.source.len() {
                return Ok(nodes);
            }
            let node = match self.parse_node() {
                Ok(n) => n,
                Err(e) => return Err(e),
            };
            proof {
                assert(trees(nodes@.push(node)) =~= trees(nodes@).push(node@));
            }
            nodes.push(node);
        }
    }

    /// Parse a single node — either a List or an Atom
    fn parse_node(&mut self) -> (r: Result<ClarityNode, String>)
        requires
            old(self).wf(),
        ensures
            final(self).wf(),
            final(self).text() == old(self).text(),
            match node_spec(old(self).text(), old(self).pos as int, old(self).line as int) {
                Ok((t, p, l)) => r is Ok && r->Ok_0@ == t && final(self).pos == p && final(self).line == l,
                Err(e) => r is Err && r->Err_0@ == e,
            },
            r is Ok ==> final(self).pos > old(self).pos,
        decreases old(self).source@.len() - old(self).pos, 1int,
    {
        self.skip_whitespace_and_comments();
        proof {
            lemma_skip(self.source@, old(self).pos as int, old(self).line as int, false);
        }
        if self.pos >= self.source.len() {
            return Err(String::from_str("Unexpected end of input"));
        }
        proof {
            lemma_string_end(self.source@, self.pos + 1);
            lemma_atom_end(self.source@, self.pos as int);
        }
        let c = self.current_char();
        if c == '(' {
            self.parse_list()
        } else if c == '"' {
            let r = self.parse_string();
            proof {
                lemma_string_end(self.source@, old(self).pos + 1);
            }
            r
        } else {
            self.parse_atom()
        }
    }

    /// Parse a list — everything between ( and )
    fn parse_list(&mut self) -> (r: Result<ClarityNode, String>)
        requires
            old(self).wf(),
            old(self).pos < old(self).source@.len(),
            old(self).source@[old(self).pos as int] == '(',
        ensures
            final(self).wf(),
            final(self).text() == old(self).text(),
            match items_spec(old(self).text(), old(self).pos + 1, old(self).line as int, old(self).line as int, seq![]) {
                Ok((t, p, l)) => r is Ok && r->Ok_0@ == t && final(self).pos == p && final(self).line == l,
                Err(e) => r is Err && r->Err_0@ == e,
            },
            r is Ok ==> final(self).pos > old(self).pos,
        decreases old(self).source@.len() - old(self).pos, 0int,
    {
        let line = self.line;
        self.advance();
        let mut children: Vec<ClarityNode> = Vec::new();
        proof {
            assert(trees(children@) =~= seq![]);
        }
        loop
            invariant
                self.wf(),
                self.text() == old(self).text(),
                line == old(self).line,
                self.pos > old(self).pos,
                items_spec(self.text(), self.pos as int, self.line as int, line as int, trees(children@))
                    == items_spec(old(self).text(), old(self).pos + 1, old(self).line as int, old(self).line as int, seq![]),
            decreases self.source@.len() - self.pos,
        {
            let ghost p0 = self.pos as int;
            let ghost l0 = self.line as int;
            self.skip_whitespace_and_comments();
            proof {
                lemma_skip(self.source@, p0, l0, false);
            }
            if self.pos >= self.source.len() {
                let n = decimal(line);
                return Err(concat2("Unclosed parenthesis opened at line ", n.as_str()));
            }
            if self.current_char() == ')' {
                self.advance();
                return Ok(ClarityNode::List(children, line));
            }
            let child = match self.parse_node() {
                Ok(c) => c,
                Err(e) => return Err(e),
            };
            proof {
                assert(trees(children@.push(child)) =~= trees(children@).push(child@));
            }
            children.push(child);
        }
    }

    /// Parse an atom — any token that isn't a list or string
    fn parse_atom(&mut self) -> (r: Result<ClarityNode, String>)
        requires
            old(self).wf(),
            old(self).pos < old(self).source@.len(),
        ensures
            final(self).wf(),
            final(self).text() == old(self).text(),
            final(self).line == old(self).line,
            ({
                let e = atom_end(old(self).text(), old(self).pos as int);
                if e == old(self).pos {
                    r is Err && r->Err_0@ == err_empty_atom(old(self).line as int)
                } else {
                    &&& r is Ok
                    &&& r->Ok_0@ == Tree::Atom(old(self).text().subrange(old(self).pos as int, e), old(self).line as int)
                    &&& final(self).pos == e
                }
            }),
    {
        let line = self.line;
        let ghost start = self.pos as int;
        let mut value: Vec<char> = Vec::new();
        let mut done = false;
        while !done && self.pos < self.source.len()
            invariant
                self.wf(),
                self.source == old(self).source,
                self.line == old(self).line,
                line == old(self).line,
                start == old(self).pos,
                start <= self.pos <= self.source@.len(),
                value@ == self.source@.subrange(start, self.pos as int),
                done ==> atom_end(self.source@, start) == self.pos,
                !done ==> atom_end(self.source@, self.pos as int) == atom_end(self.source@, start),
            decreases self.source@.len() - self.pos, if done { 0int } else { 1int },
        {
            let ch = self.current_char();
            if is_whitespace(ch) || ch == '(' || ch == ')' {
                done = true;
            } else {
                value.push(ch);
                self.advance();
                assert(value@ =~= self.source@.subrange(start, self.pos as int));
            }
        }
        if value.len() == 0 {
            let n = decimal(line);
            return Err(concat2("Empty atom at line ", n.as_str()));
        }
        Ok(ClarityNode::Atom(string_from_chars(&value), line))
    }

    /// Parse a string literal — handles escaped quotes
    fn parse_string(&mut self) -> (r: Result<ClarityNode, String>)
        requires
            old(self).wf(),
            old(self).pos < old(self).source@.len(),
            old(self).source@[old(self).pos as int] == '"',
        ensures
            final(self).wf(),
            final(self).text() == old(self).text(),
            final(self).line == old(self).line,
            final(self).pos == string_end(old(self).text(), old(self).pos + 1),
            r is Ok,
            r->Ok_0@ == Tree::Atom(old(self).text().subrange(old(self).pos as int, final(self).pos as int), old(self).line as int),
    {
        let line = self.line;
        let ghost start = self.pos as int;
        self.advance();
        let mut value: Vec<char> = Vec::new();
        value.push('"');
        assert(value@ =~= self.source@.subrange(start, self.pos as int));
        let mut done = false;
        while !done && self.pos < self.source.len()
            invariant
                self.wf(),
                self.source == old(self).source,
                self.line == old(self).line,
                line == old(self).line,
                start == old(self).pos,
                start < self.pos <= self.source@.len(),
                value@ == self.source@.subrange(start, self.pos as int),
                done ==> string_end(self.source@, start + 1) == self.pos,
                !done ==> string_end(self.source@, self.pos as int) == string_end(self.source@, start + 1),
            decreases self.source@.len() - self.pos, if done { 0int } else { 1int },
        {
            let ch = self.current_char();
            self.advance();
            if ch == '\\' && self.pos < self.source.len() {
                // escaped character
                value.push(ch);
                value.push(self.current_char());
                self.advance();
            } else {
                value.push(ch);
                if ch == '"' {
                    done = true;
                }
            }
            assert(value@ =~= self.source@.subrange(start, self.pos as int));
        }
        Ok(ClarityNode::Atom(string_from_chars(&value), line))
    }

    /// Skip whitespace and Clarity comments (;; ...)
    fn skip_whitespace_and_comments(&mut self)
        requires
            old(self).wf(),
        ensures
            final(self).wf(),
            final(self).source == old(self).source,
            (final(self).pos as int, final(self).line as int)
                == skip(old(self).source@, old(self).pos as int, old(self).line as int, false),
    {
        let ghost target = skip(self.source@, self.pos as int, self.line as int, false);
        let mut done = false;
        while !done && self.pos < self.source.len()
            invariant
                self.wf(),
                self.source == old(self).source,
                done ==> target == (self.pos as int, self.line as int),
                !done ==> skip(self.source@, self.pos as int, self.line as int, false) == target,
            decreases self.source@.len() - self.pos, if done { 0int } else { 1int },
        {
            let ch = self.current_char();
            if ch == '\n' {
                self.line = self.line + 1;
                self.pos = self.pos + 1;
            } else if is_whitespace(ch) {
                self.pos = self.pos + 1;
            } else if ch == ';' {
                // Clarity comments start with ;; — skip to end of line
                let ghost start = self.pos;
                while self.pos < self.source.len() && self.current_char() != '\n'
                    invariant
                        self.wf(),
                        self.source == old(self).source,
                        start <= self.pos,
                        self.pos == start ==> self.source@[start as int] == ';' && skip(self.source@, self.pos as int, self.line as int, false) == target,
                        self.pos > start ==> skip(self.source@, self.pos as int, self.line as int, true) == target,
                    decreases self.source@.len() - self.pos,
                {
                    self.pos = self.pos + 1;
                }
            } else {
                done = true;
            }
        }
    }

    fn current_char(&self) -> (c: char)
        requires
            self.pos < self.source@.len(),
        ensures
            c == self.source@[self.pos as int],
    {
        self.source[self.pos]
    }

    fn advance(&mut self)
        requires
            old(self).wf(),
            old(self).pos < old(self).source@.len(),
        ensures
            final(self).wf(),
            final(self).source == old(self).source,
            final(self).line == old(self).line,
            final(self).pos == old(self).pos + 1,
    {
        self.pos = self.pos + 1;
    }
}

} // verus!
