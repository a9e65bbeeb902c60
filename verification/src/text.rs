use vstd::prelude::*;

verus! {

/// Whether two strings hold the same characters.
pub fn str_eq(a: &str, b: &str) -> (r: bool)
    ensures
        r == (a@ == b@),
{
    let x = a.to_owned();
    let y = b.to_owned();
    x == y
}

/// Builds a `String` from a sequence of characters, by `FromIterator<char>`
/// (`collect`) of std. Its contract claims that the string holds exactly those
/// characters, in order.
#[verifier::external_body]
pub fn string_from_chars(chars: &Vec<char>) -> (s: String)
    ensures
        s@ == chars@,
{
    chars.iter().collect()
}

/// The characters of a string, in order.
pub fn chars_of(s: &str) -> (v: Vec<char>)
    ensures
        v@ == s@,
{
    let mut v: Vec<char> = Vec::new();
    for c in it: s.chars()
        invariant
            v@ == it.seq().take(it.index() as int),
            it.seq() == s@,
    {
        v.push(c);
    }
    v
}

/// The character of a decimal digit.
pub open spec fn digit_char(d: nat) -> char {
    if d == 0 { '0' }
    else if d == 1 { '1' }
    else if d == 2 { '2' }
    else if d == 3 { '3' }
    else if d == 4 { '4' }
    else if d == 5 { '5' }
    else if d == 6 { '6' }
    else if d == 7 { '7' }
    else if d == 8 { '8' }
    else { '9' }
}

/// The decimal notation of a natural number, without leading zeros.
pub open spec fn dec(n: nat) -> Seq<char>
    decreases n,
{
    if n < 10 {
        seq![digit_char(n)]
    } else {
        dec(n / 10).push(digit_char(n % 10))
    }
}

fn push_decimal(n: usize, out: &mut Vec<char>)
    ensures
        final(out)@ == old(out)@ + dec(n as nat),
    decreases n,
{
    if n >= 10 {
        push_decimal(n / 10, out);
    }
    let d = n % 10;
    let c = if d == 0 { '0' }
        else if d == 1 { '1' }
        else if d == 2 { '2' }
        else if d == 3 { '3' }
        else if d == 4 { '4' }
        else if d == 5 { '5' }
        else if d == 6 { '6' }
        else if d == 7 { '7' }
        else if d == 8 { '8' }
        else { '9' };
    out.push(c);
}

/// The decimal notation of `n`, as `format!("{}", n)` writes it.
pub fn decimal(n: usize) -> (s: String)
    ensures
        s@ == dec(n as nat),
{
    let mut v: Vec<char> = Vec::new();
    push_decimal(n, &mut v);
    assert(v@ =~= dec(n as nat));
    string_from_chars(&v)
}

/// The characters that `char::is_whitespace` accepts: those with the Unicode
/// `White_Space` property.
pub open spec fn is_ws(c: char) -> bool {
    ||| ('\u{9}' <= c && c <= '\u{d}')
    ||| c == ' '
    ||| c == '\u{85}'
    ||| c == '\u{a0}'
    ||| c == '\u{1680}'
    ||| ('\u{2000}' <= c && c <= '\u{200a}')
    ||| c == '\u{2028}'
    ||| c == '\u{2029}'
    ||| c == '\u{202f}'
    ||| c == '\u{205f}'
    ||| c == '\u{3000}'
}

/// Whether `c` is a whitespace character, as `char::is_whitespace` decides.
pub fn is_whitespace(c: char) -> (r: bool)
    ensures
        r == is_ws(c),
{
    ('\u{9}' <= c && c <= '\u{d}') || c == ' ' || c == '\u{85}' || c == '\u{a0}' || c == '\u{1680}'
        || ('\u{2000}' <= c && c <= '\u{200a}') || c == '\u{2028}' || c == '\u{2029}'
        || c == '\u{202f}' || c == '\u{205f}' || c == '\u{3000}'
}

/// `s` with all its leading '.' removed, as `str::trim_start_matches('.')` gives it.
pub open spec fn trim_dots(s: Seq<char>) -> Seq<char>
    decreases s.len(),
{
    if s.len() > 0 && s[0] == '.' {
        trim_dots(s.drop_first())
    } else {
        s
    }
}

/// Removes all leading '.' characters.
pub fn trim_leading_dots(s: &str) -> (r: String)
    ensures
        r@ == trim_dots(s@),
{
    let v = chars_of(s);
    let mut i: usize = 0;
    assert(v@.subrange(0, v@.len() as int) =~= v@);
    while i < v.len() && v[i] == '.'
        invariant
            i <= v@.len(),
            trim_dots(v@.subrange(i as int, v@.len() as int)) == trim_dots(s@),
            v@ == s@,
        decreases v@.len() - i,
    {
        assert(v@.subrange(i as int, v@.len() as int).drop_first() =~= v@.subrange(i + 1, v@.len() as int));
        i = i + 1;
    }
    let mut out: Vec<char> = Vec::new();
    let mut j: usize = i;
    while j < v.len()
        invariant
            i <= j <= v@.len(),
            out@ == v@.subrange(i as int, j as int),
        decreases v@.len() - j,
    {
        out.push(v[j]);
        j = j + 1;
        assert(out@ =~= v@.subrange(i as int, j as int));
    }
    assert(out@ =~= trim_dots(s@));
    string_from_chars(&out)
}

/// Concatenates strings.
pub fn concat2(a: &str, b: &str) -> (r: String)
    ensures
        r@ == a@ + b@,
{
    let mut s = String::from_str(a);
    s.append(b);
    s
}

/// Concatenates strings.
pub fn concat3(a: &str, b: &str, c: &str) -> (r: String)
    ensures
        r@ == a@ + b@ + c@,
{
    let mut s = String::from_str(a);
    s.append(b);
    s.append(c);
    s
}

/// Concatenates strings.
pub fn concat4(a: &str, b: &str, c: &str, d: &str) -> (r: String)
    ensures
        r@ == a@ + b@ + c@ + d@,
{
    let mut s = String::from_str(a);
    s.append(b);
    s.append(c);
    s.append(d);
    s
}

/// Concatenates strings.
pub fn concat5(a: &str, b: &str, c: &str, d: &str, e: &str) -> (r: String)
    ensures
        r@ == a@ + b@ + c@ + d@ + e@,
{
    let mut s = String::from_str(a);
    s.append(b);
    s.append(c);
    s.append(d);
    s.append(e);
    s
}

/// Concatenates strings.
pub fn concat8(a: &str, b: &str, c: &str, d: &str, e: &str, f: &str, g: &str, h: &str) -> (r: String)
    ensures
        r@ == a@ + b@ + c@ + d@ + e@ + f@ + g@ + h@,
{
    let mut s = String::from_str(a);
    s.append(b);
    s.append(c);
    s.append(d);
    s.append(e);
    s.append(f);
    s.append(g);
    s.append(h);
    s
}

/// Lexicographic order of character sequences by code point: the order of
/// `str`'s `Ord`, since UTF-8 keeps code point order byte by byte.
pub open spec fn seq_lt(a: Seq<char>, b: Seq<char>) -> bool
    decreases a.len(),
{
    if a.len() == 0 {
        b.len() > 0
    } else if b.len() == 0 {
        false
    } else if a[0] != b[0] {
        (a[0] as int) < (b[0] as int)
    } else {
        seq_lt(a.drop_first(), b.drop_first())
    }
}

pub proof fn lemma_seq_lt_irreflexive(a: Seq<char>)
    ensures
        !seq_lt(a, a),
    decreases a.len(),
{
    if a.len() > 0 {
        lemma_seq_lt_irreflexive(a.drop_first());
    }
}

pub proof fn lemma_seq_lt_transitive(a: Seq<char>, b: Seq<char>, c: Seq<char>)
    requires
        seq_lt(a, b),
        seq_lt(b, c),
    ensures
        seq_lt(a, c),
    decreases a.len(),
{
    if a.len() > 0 && b.len() > 0 && c.len() > 0 {
        if a[0] == b[0] && b[0] == c[0] {
            lemma_seq_lt_transitive(a.drop_first(), b.drop_first(), c.drop_first());
        }
    }
}

pub proof fn lemma_seq_lt_total(a: Seq<char>, b: Seq<char>)
    ensures
        a == b || seq_lt(a, b) || seq_lt(b, a),
    decreases a.len(),
{
    if a.len() > 0 && b.len() > 0 {
        if a[0] == b[0] {
            lemma_seq_lt_total(a.drop_first(), b.drop_first());
            if a.drop_first() == b.drop_first() {
                assert(a =~= seq![a[0]] + a.drop_first());
                assert(b =~= seq![b[0]] + b.drop_first());
            }
        } else {
            assert((a[0] as int) != (b[0] as int));
        }
    } else if a.len() == 0 && b.len() == 0 {
        assert(a =~= b);
    }
}

pub proof fn lemma_seq_lt_asymmetric(a: Seq<char>, b: Seq<char>)
    requires
        seq_lt(a, b),
    ensures
        !seq_lt(b, a),
        a != b,
{
    lemma_seq_lt_irreflexive(a);
    if seq_lt(b, a) {
        lemma_seq_lt_transitive(a, b, a);
    }
}

/// Whether `a` comes before `b` in the order of `str`.
pub fn str_lt(a: &str, b: &str) -> (r: bool)
    ensures
        r == seq_lt(a@, b@),
{
    let x = chars_of(a);
    let y = chars_of(b);
    let mut i: usize = 0;
    assert(x@.subrange(0, x@.len() as int) =~= x@);
    assert(y@.subrange(0, y@.len() as int) =~= y@);
    while i < x.len() && i < y.len() && x[i] == y[i]
        invariant
            i <= x@.len(),
            i <= y@.len(),
            seq_lt(x@.subrange(i as int, x@.len() as int), y@.subrange(i as int, y@.len() as int)) == seq_lt(a@, b@),
            x@ == a@,
            y@ == b@,
        decreases x@.len() - i,
    {
        assert(x@.subrange(i as int, x@.len() as int).drop_first() =~= x@.subrange(i + 1, x@.len() as int));
        assert(y@.subrange(i as int, y@.len() as int).drop_first() =~= y@.subrange(i + 1, y@.len() as int));
        i = i + 1;
    }
    if i == x.len() {
        i < y.len()
    } else if i == y.len() {
        false
    } else {
        assert(x@.subrange(i as int, x@.len() as int)[0] == x@[i as int]);
        assert(y@.subrange(i as int, y@.len() as int)[0] == y@[i as int]);
        x[i] < y[i]
    }
}

} // verus!
