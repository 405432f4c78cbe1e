//! Tokens and statements as sequences of characters: white space,
//! splitting a line into tokens, and comparing tokens and statements.
use vstd::prelude::*;

verus! {

broadcast use vstd::string::axiom_spec_iter;

/// A token, seen as its characters.
pub type Tok = Seq<char>;

/// Whether `c` is white space in Unicode (the property `White_Space`).
pub open spec fn spec_is_whitespace(c: char) -> bool {
    let n = c as u32;
    ||| 9 <= n <= 13
    ||| n == 32
    ||| n == 0x85
    ||| n == 0xA0
    ||| n == 0x1680
    ||| 0x2000 <= n <= 0x200A
    ||| n == 0x2028
    ||| n == 0x2029
    ||| n == 0x202F
    ||| n == 0x205F
    ||| n == 0x3000
}

/// Whether `c` is white space in Unicode, as `char::is_whitespace` decides it.
pub fn is_whitespace(c: char) -> (b: bool)
    ensures
        b == spec_is_whitespace(c),
{
    let n = c as u32;
    (9 <= n && n <= 13) || n == 32 || n == 0x85 || n == 0xA0 || n == 0x1680 || (0x2000 <= n && n
        <= 0x200A) || n == 0x2028 || n == 0x2029 || n == 0x202F || n == 0x205F || n == 0x3000
}

/// The pending word `cur`, as a sequence of no or one token.
pub open spec fn flush(cur: Seq<char>) -> Seq<Tok> {
    if cur.len() == 0 {
        seq![]
    } else {
        seq![cur]
    }
}

/// The maximal runs of non-white-space characters of `s` from position `i` on,
/// the first of them prefixed by `cur`.
pub open spec fn words_from(s: Seq<char>, i: int, cur: Seq<char>) -> Seq<Tok>
    decreases s.len() - i,
{
    if i >= s.len() {
        flush(cur)
    } else if spec_is_whitespace(s[i]) {
        flush(cur) + words_from(s, i + 1, seq![])
    } else {
        words_from(s, i + 1, cur.push(s[i]))
    }
}

/// The tokens of `s`: its maximal runs of non-white-space characters, in order.
pub open spec fn words(s: Seq<char>) -> Seq<Tok> {
    words_from(s, 0, seq![])
}

/// The tokens of the lines `ls`, line after line.
pub open spec fn flat_words(ls: Seq<Seq<char>>) -> Seq<Tok>
    decreases ls.len(),
{
    if ls.len() == 0 {
        seq![]
    } else {
        words(ls[0]) + flat_words(ls.drop_first())
    }
}

/// `String::push`: appends one character to a string.
#[verifier::external_body]
fn push_char(s: &mut String, c: char)
    ensures
        final(s)@ == old(s)@.push(c),
{
    s.push(c);
}

/// Splits a line into its tokens, as `str::split_whitespace` does.
pub fn split_whitespace(line: &String) -> (v: Vec<String>)
    ensures
        v.deep_view() == words(line@),
{
    let mut out: Vec<String> = Vec::new();
    let mut cur = String::new();
    for c in iter: line.chars()
        invariant
            iter.seq() == line@,
            out.deep_view() + words_from(line@, iter.index() as int, cur@) == words(line@),
    {
        let ghost i = iter.index() as int;
        let ghost before = out.deep_view();
        let ghost oc = cur@;
        assert(c == line@[i]);
        if is_whitespace(c) {
            if !cur.as_str().is_empty() {
                out.push(cur);
                cur = String::new();
            }
            assert(out.deep_view() =~= before + flush(oc));
            assert(words_from(line@, i, oc) == flush(oc) + words_from(line@, i + 1, seq![]));
            assert(cur@ =~= seq![]);
            assert(before + words_from(line@, i, oc) =~= out.deep_view() + words_from(
                line@,
                i + 1,
                cur@,
            ));
        } else {
            push_char(&mut cur, c);
            assert(words_from(line@, i, oc) == words_from(line@, i + 1, cur@));
        }
    }
    let ghost before = out.deep_view();
    if !cur.as_str().is_empty() {
        out.push(cur);
    }
    assert(out.deep_view() =~= before + words_from(line@, line@.len() as int, cur@));
    out
}

/// The token made of the two characters `a` and `b`.
pub fn token2(a: char, b: char) -> (s: String)
    ensures
        s@ == seq![a, b],
{
    let mut s = String::new();
    push_char(&mut s, a);
    push_char(&mut s, b);
    assert(s@ =~= seq![a, b]);
    s
}

/// Whether the token `t` is the two characters `a` and `b`.
pub fn is_token2(t: &String, a: char, b: char) -> (r: bool)
    ensures
        r == (t@ == seq![a, b]),
{
    let k = token2(a, b);
    *t == k
}

/// The token made of the one character `a`.
pub fn token1(a: char) -> (s: String)
    ensures
        s@ == seq![a],
{
    let mut s = String::new();
    push_char(&mut s, a);
    assert(s@ =~= seq![a]);
    s
}

/// Whether the token `t` is the one character `a`.
pub fn is_token1(t: &String, a: char) -> (r: bool)
    ensures
        r == (t@ == seq![a]),
{
    let k = token1(a);
    *t == k
}

/// A statement without its first token.
pub fn stmt_tail(s: &Vec<String>) -> (r: Vec<String>)
    requires
        s.len() > 0,
    ensures
        r.deep_view() == s.deep_view().drop_first(),
{
    let mut r: Vec<String> = Vec::new();
    let mut i: usize = 1;
    assert(r.deep_view() =~= s.deep_view().subrange(1, 1));
    while i < s.len()
        invariant
            1 <= i <= s.len(),
            r.deep_view() =~= s.deep_view().subrange(1, i as int),
        decreases s.len() - i,
    {
        let t = s[i].clone();
        let ghost before = r.deep_view();
        r.push(t);
        assert(r.deep_view() =~= before.push(t@));
        i = i + 1;
    }
    r
}

/// Whether the token starts with `$`.
pub fn starts_with_dollar(t: &String) -> (r: bool)
    ensures
        r == (t@.len() > 0 && t@[0] == '$'),
{
    let mut it = t.chars();
    let first = it.next();
    match first {
        Some(c) => c == '$',
        None => false,
    }
}

/// Whether two statements have the same tokens.
pub fn stmt_eq(a: &Vec<String>, b: &Vec<String>) -> (r: bool)
    ensures
        r == (a.deep_view() == b.deep_view()),
{
    if a.len() != b.len() {
        proof {
            assert(a.deep_view().len() != b.deep_view().len());
        }
        return false;
    }
    let mut i: usize = 0;
    while i < a.len()
        invariant
            a.len() == b.len(),
            0 <= i <= a.len(),
            forall|j: int| 0 <= j < i ==> a.deep_view()[j] == b.deep_view()[j],
        decreases a.len() - i,
    {
        if a[i] != b[i] {
            assert(a.deep_view()[i as int] != b.deep_view()[i as int]);
            return false;
        }
        i = i + 1;
    }
    assert(a.deep_view() =~= b.deep_view());
    true
}

/// A copy of a statement.
pub fn clone_stmt(a: &Vec<String>) -> (r: Vec<String>)
    ensures
        r.deep_view() == a.deep_view(),
{
    let mut r: Vec<String> = Vec::new();
    let mut i: usize = 0;
    while i < a.len()
        invariant
            0 <= i <= a.len(),
            r.deep_view() =~= a.deep_view().take(i as int),
        decreases a.len() - i,
    {
        let t = a[i].clone();
        assert(t@ == a.deep_view()[i as int]);
        let ghost before = r.deep_view();
        r.push(t);
        assert(r.deep_view() =~= before.push(t@));
        assert(a.deep_view().take(i + 1) =~= a.deep_view().take(i as int).push(t@));
        i = i + 1;
    }
    assert(a.deep_view().take(a.len() as int) =~= a.deep_view());
    r
}

/// Whether the statement holds the token `t`.
pub fn stmt_contains(s: &Vec<String>, t: &String) -> (r: bool)
    ensures
        r == s.deep_view().contains(t@),
{
    let mut i: usize = 0;
    while i < s.len()
        invariant
            0 <= i <= s.len(),
            forall|j: int| 0 <= j < i ==> s.deep_view()[j] != t@,
        decreases s.len() - i,
    {
        if s[i] == *t {
            assert(s.deep_view()[i as int] == t@);
            return true;
        }
        i = i + 1;
    }
    false
}

/// Lexicographic order on characters by code point, which for strings is
/// the order of `String`'s `Ord` (the byte order of UTF-8).
pub open spec fn tok_le(a: Tok, b: Tok) -> bool
    decreases a.len(),
{
    if a.len() == 0 {
        true
    } else if b.len() == 0 {
        false
    } else if a[0] != b[0] {
        a[0] < b[0]
    } else {
        tok_le(a.drop_first(), b.drop_first())
    }
}

/// The characters of a string.
pub fn chars_of(s: &String) -> (v: Vec<char>)
    ensures
        v@ == s@,
{
    let mut v: Vec<char> = Vec::new();
    for c in iter: s.chars()
        invariant
            v@ == iter.seq().take(iter.index() as int),
            iter.seq() == s@,
    {
        v.push(c);
    }
    v
}

/// Whether `a` comes before `b` or equals it, as `a <= b` on strings decides.
pub fn token_le(a: &String, b: &String) -> (r: bool)
    ensures
        r == tok_le(a@, b@),
{
    let x = chars_of(a);
    let y = chars_of(b);
    let mut i: usize = 0;
    assert(x@.skip(0) =~= x@);
    assert(y@.skip(0) =~= y@);
    while i < x.len() && i < y.len() && x[i] == y[i]
        invariant
            0 <= i <= x.len(),
            i <= y.len(),
            tok_le(a@, b@) == tok_le(x@.skip(i as int), y@.skip(i as int)),
        decreases x.len() - i,
    {
        assert(x@.skip(i as int).drop_first() =~= x@.skip(i + 1));
        assert(y@.skip(i as int).drop_first() =~= y@.skip(i + 1));
        i = i + 1;
    }
    if i == x.len() {
        true
    } else if i == y.len() {
        false
    } else {
        let cx = x[i];
        let cy = y[i];
        cx < cy
    }
}

/// The pair of `x` and `y`, the smaller first.
pub open spec fn norm_pair(x: Tok, y: Tok) -> (Tok, Tok) {
    if tok_le(x, y) {
        (x, y)
    } else {
        (y, x)
    }
}

/// The pair of two tokens, the smaller first, as `(min(x, y), max(x, y))`.
pub fn ordered_pair(x: &String, y: &String) -> (p: (String, String))
    ensures
        p.0@ == norm_pair(x@, y@).0,
        p.1@ == norm_pair(x@, y@).1,
{
    if token_le(x, y) {
        (x.clone(), y.clone())
    } else {
        (y.clone(), x.clone())
    }
}

} // verus!
