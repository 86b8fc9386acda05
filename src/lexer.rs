//! Turns text into a flat sequence of tokens, each with the index of the
//! character it starts at.

use vstd::prelude::*;

verus! {

/// Why a text could not be read.  Each variant carries an index into the
/// text, counted in characters.
#[derive(Debug, Clone, Copy, PartialEq, Eq, Structural)]
pub enum ParseError {
    /// A run of number characters that is no decimal literal, at its start.
    MalformedNumber(usize),
    /// A token that the grammar does not allow where it stands.
    UnexpectedToken(usize),
    /// The text ended where more was required; carries the text's length.
    UnexpectedEnd(usize),
}

/// What a literal holds.
#[derive(Debug, PartialEq)]
pub enum ParseAtom {
    String(Vec<char>),
    Bool(bool),
    Double(Vec<char>),
    Null,
}

/// One token of the text.
#[derive(Debug, PartialEq)]
pub enum ParseToken {
    Key(char),
    Id(Vec<char>),
    Atom(ParseAtom),
    Comment(Vec<char>),
}

/// A token and the index of its first character.
#[derive(Debug, PartialEq)]
pub struct Lexeme {
    pub token: ParseToken,
    pub pos: usize,
}

/// The mathematical form of a token.
pub ghost enum Tok {
    Key(char),
    Id(Seq<char>),
    Str(Seq<char>),
    Bool(bool),
    Num(Seq<char>),
    Null,
    Comment(Seq<char>),
}

impl ParseToken {
    pub open spec fn view(&self) -> Tok {
        match self {
            ParseToken::Key(c) => Tok::Key(*c),
            ParseToken::Id(w) => Tok::Id(w@),
            ParseToken::Atom(ParseAtom::String(t)) => Tok::Str(t@),
            ParseToken::Atom(ParseAtom::Bool(b)) => Tok::Bool(*b),
            ParseToken::Atom(ParseAtom::Double(x)) => Tok::Num(x@),
            ParseToken::Atom(ParseAtom::Null) => Tok::Null,
            ParseToken::Comment(t) => Tok::Comment(t@),
        }
    }
}

pub open spec fn lexemes_view(v: Seq<Lexeme>) -> Seq<(Tok, int)> {
    v.map_values(|l: Lexeme| (l.token@, l.pos as int))
}

/// Whether Unicode counts the character as alphabetic.
pub uninterp spec fn alphabetic(c: char) -> bool;

/// Relies on `char::is_alphabetic`, which depends on the character alone.
#[verifier::external_body]
fn is_alphabetic(c: char) -> (r: bool)
    ensures
        r == alphabetic(c),
{
    c.is_alphabetic()
}

pub open spec fn spec_is_digit(c: char) -> bool {
    '0' <= c <= '9'
}

pub open spec fn spec_is_kwd(c: char) -> bool {
    c == ':' || c == '{' || c == '}' || c == '[' || c == ']'
}

/// A letter or `_`: within ASCII the letters are `a`-`z` and `A`-`Z`, beyond
/// it the characters that Unicode counts as alphabetic.
pub open spec fn spec_is_id_begin(c: char) -> bool {
    if c <= '\x7f' {
        ('a' <= c <= 'z') || ('A' <= c <= 'Z') || c == '_'
    } else {
        alphabetic(c)
    }
}

pub open spec fn spec_is_comment_begin(c: char) -> bool {
    c == '/' || c == '#' || c == '('
}

pub open spec fn spec_is_double_begin(c: char) -> bool {
    spec_is_digit(c) || c == '.' || c == '-' || c == '+'
}

pub open spec fn spec_is_id_char(c: char) -> bool {
    spec_is_digit(c) || spec_is_id_begin(c)
}

pub open spec fn spec_is_double_char(c: char) -> bool {
    spec_is_double_begin(c) || c == 'e' || c == 'E'
}

fn is_digit(c: char) -> (r: bool)
    ensures
        r == spec_is_digit(c),
{
    '0' <= c && c <= '9'
}

fn is_kwd(c: char) -> (r: bool)
    ensures
        r == spec_is_kwd(c),
{
    c == ':' || c == '{' || c == '}' || c == '[' || c == ']'
}

fn is_id_begin(c: char) -> (r: bool)
    ensures
        r == spec_is_id_begin(c),
{
    if c <= '\x7f' {
        ('a' <= c && c <= 'z') || ('A' <= c && c <= 'Z') || c == '_'
    } else {
        is_alphabetic(c)
    }
}

fn is_comment_begin(c: char) -> (r: bool)
    ensures
        r == spec_is_comment_begin(c),
{
    c == '/' || c == '#' || c == '('
}

fn is_double_begin(c: char) -> (r: bool)
    ensures
        r == spec_is_double_begin(c),
{
    is_digit(c) || c == '.' || c == '-' || c == '+'
}

fn is_id_char(c: char) -> (r: bool)
    ensures
        r == spec_is_id_char(c),
{
    is_digit(c) || is_id_begin(c)
}

fn is_double_char(c: char) -> (r: bool)
    ensures
        r == spec_is_double_char(c),
{
    is_double_begin(c) || c == 'e' || c == 'E'
}

/// The end of the longest run, starting at `i`, of characters that satisfy `p`.
pub open spec fn run_end(s: Seq<char>, i: int, p: spec_fn(char) -> bool) -> int
    decreases s.len() - i,
{
    if 0 <= i < s.len() && p(s[i]) {
        run_end(s, i + 1, p)
    } else {
        i
    }
}

pub proof fn lemma_run_end(s: Seq<char>, i: int, p: spec_fn(char) -> bool)
    requires
        0 <= i <= s.len(),
    ensures
        i <= run_end(s, i, p) <= s.len(),
        forall|k: int| i <= k < run_end(s, i, p) ==> p(#[trigger] s[k]),
        run_end(s, i, p) < s.len() ==> !p(s[run_end(s, i, p)]),
        i < s.len() && p(s[i]) ==> run_end(s, i, p) > i,
    decreases s.len() - i,
{
    if i < s.len() && p(s[i]) {
        lemma_run_end(s, i + 1, p);
    }
}

pub open spec fn id_end(s: Seq<char>, i: int) -> int {
    run_end(s, i, |c: char| spec_is_id_char(c))
}

pub open spec fn number_end(s: Seq<char>, i: int) -> int {
    run_end(s, i, |c: char| spec_is_double_char(c))
}

/// Drops one leading sign.
pub open spec fn unsigned(t: Seq<char>) -> Seq<char> {
    if t.len() > 0 && (t[0] == '+' || t[0] == '-') {
        t.skip(1)
    } else {
        t
    }
}

/// Where the exponent starts: the first `e` or `E` at or after `k`.
pub open spec fn exponent_start(u: Seq<char>, k: int) -> int
    decreases u.len() - k,
{
    if 0 <= k < u.len() && u[k] != 'e' && u[k] != 'E' {
        exponent_start(u, k + 1)
    } else {
        k
    }
}

/// Digits with at most one `.` among them, and at least one digit.
pub open spec fn is_mantissa(m: Seq<char>) -> bool {
    &&& forall|k: int| 0 <= k < m.len() ==> spec_is_digit(#[trigger] m[k]) || m[k] == '.'
    &&& forall|k1: int, k2: int|
        0 <= k1 < m.len() && 0 <= k2 < m.len() && #[trigger] m[k1] == '.' && #[trigger] m[k2]
            == '.' ==> k1 == k2
    &&& exists|k: int| 0 <= k < m.len() && spec_is_digit(#[trigger] m[k])
}

/// Nothing, or `e`/`E`, an optional sign and at least one digit.
pub open spec fn is_exponent(x: Seq<char>) -> bool {
    x.len() == 0 || ((x[0] == 'e' || x[0] == 'E') && unsigned(x.skip(1)).len() > 0 && forall|k: int|
        0 <= k < unsigned(x.skip(1)).len() ==> spec_is_digit(#[trigger] unsigned(x.skip(1))[k]))
}

/// A decimal literal: an optional sign, a mantissa, an optional exponent.
pub open spec fn is_float_literal(t: Seq<char>) -> bool {
    let u = unsigned(t);
    let e = exponent_start(u, 0);
    is_mantissa(u.take(e)) && is_exponent(u.skip(e))
}

/// Whether the characters `s[lo..hi]` form a decimal literal.
#[verifier::rlimit(40)]
pub(crate) fn float_literal_ok(s: &Vec<char>, lo: usize, hi: usize) -> (r: bool)
    requires
        lo <= hi <= s.len(),
    ensures
        r == is_float_literal(s@.subrange(lo as int, hi as int)),
{
    let ghost t = s@.subrange(lo as int, hi as int);
    let mut b: usize = lo;
    if b < hi && (s[b] == '+' || s[b] == '-') {
        b = b + 1;
    }
    let ghost u = s@.subrange(b as int, hi as int);
    assert(u =~= unsigned(t));
    let mut e: usize = b;
    while e < hi && s[e] != 'e' && s[e] != 'E'
        invariant
            b <= e <= hi <= s.len(),
            u == s@.subrange(b as int, hi as int),
            exponent_start(u, e - b) == exponent_start(u, 0),
        decreases hi - e,
    {
        assert(u[e - b] == s@[e as int]);
        e = e + 1;
    }
    assert(exponent_start(u, e - b) == e - b) by {
        if e < hi {
            assert(u[e - b] == s@[e as int]);
        }
    }
    let ghost m = u.take(e - b);
    let ghost x = u.skip(e - b);
    assert(is_float_literal(t) == (is_mantissa(m) && is_exponent(x)));
    assert(forall|j: int| 0 <= j < m.len() ==> m[j] == s@[b + j]);
    let mut k: usize = b;
    let mut dot: usize = e;
    let mut digit = false;
    while k < e
        invariant
            b <= k <= e <= hi <= s.len(),
            m.len() == e - b,
            t == s@.subrange(lo as int, hi as int),
            is_float_literal(t) == (is_mantissa(m) && is_exponent(x)),
            forall|j: int| 0 <= j < m.len() ==> m[j] == s@[b + j],
            forall|j: int| 0 <= j < k - b ==> spec_is_digit(#[trigger] m[j]) || m[j] == '.',
            dot == e || (b <= dot < k && m[dot - b] == '.'),
            forall|j: int| 0 <= j < k - b && #[trigger] m[j] == '.' ==> j == dot - b,
            digit <==> exists|j: int| 0 <= j < k - b && spec_is_digit(#[trigger] m[j]),
        decreases e - k,
    {
        let c = s[k];
        assert(m[k - b] == c);
        if is_digit(c) {
            digit = true;
        } else if c == '.' {
            if dot < e {
                assert(m[dot - b] == '.' && m[k - b] == '.');
                assert(!is_mantissa(m));
                return false;
            }
            dot = k;
        } else {
            assert(!is_mantissa(m));
            return false;
        }
        k = k + 1;
    }
    if !digit {
        assert(!is_mantissa(m));
        return false;
    }
    assert(is_mantissa(m));
    if e == hi {
        assert(x.len() == 0);
        return true;
    }
    assert(x[0] == s@[e as int]);
    let mut f: usize = e + 1;
    if f < hi && (s[f] == '+' || s[f] == '-') {
        f = f + 1;
    }
    let ghost y = s@.subrange(f as int, hi as int);
    assert(y =~= unsigned(x.skip(1)));
    if f == hi {
        return false;
    }
    let mut g: usize = f;
    while g < hi
        invariant
            f <= g <= hi <= s.len(),
            y == s@.subrange(f as int, hi as int),
            y == unsigned(x.skip(1)),
            t == s@.subrange(lo as int, hi as int),
            is_float_literal(t) == (is_mantissa(m) && is_exponent(x)),
            is_mantissa(m),
            x.len() > 0,
            forall|j: int| 0 <= j < g - f ==> spec_is_digit(#[trigger] y[j]),
        decreases hi - g,
    {
        assert(y[g - f] == s@[g as int]);
        if !is_digit(s[g]) {
            assert(!spec_is_digit(y[g - f]));
            assert(!is_exponent(x));
            return false;
        }
        g = g + 1;
    }
    true
}

/// The characters `s[lo..hi]`.
fn copy_range(s: &Vec<char>, lo: usize, hi: usize) -> (r: Vec<char>)
    requires
        lo <= hi <= s.len(),
    ensures
        r@ == s@.subrange(lo as int, hi as int),
{
    let mut r: Vec<char> = Vec::new();
    let mut k: usize = lo;
    while k < hi
        invariant
            lo <= k <= hi <= s.len(),
            r@ == s@.subrange(lo as int, k as int),
        decreases hi - k,
    {
        r.push(s[k]);
        assert(r@ =~= s@.subrange(lo as int, k + 1));
        k = k + 1;
    }
    r
}

/// Reads an identifier starting at `i`: the longest run of identifier
/// characters.  Returns it and the index just after it.
fn lex_id(s: &Vec<char>, i: usize) -> (r: (Vec<char>, usize))
    requires
        i <= s.len(),
    ensures
        r.1 == id_end(s@, i as int),
        r.0@ == s@.subrange(i as int, r.1 as int),
{
    let mut j: usize = i;
    while j < s.len() && is_id_char(s[j])
        invariant
            i <= j <= s.len(),
            id_end(s@, j as int) == id_end(s@, i as int),
        decreases s.len() - j,
    {
        j = j + 1;
    }
    (copy_range(s, i, j), j)
}

/// Reads a number starting at `i`: the longest run of number characters,
/// which must form a decimal literal.
fn lex_number(s: &Vec<char>, i: usize) -> (r: Result<(Vec<char>, usize), ParseError>)
    requires
        i <= s.len(),
    ensures
        match r {
            Ok((x, j)) => j == number_end(s@, i as int) && x@ == s@.subrange(i as int, j as int)
                && is_float_literal(x@),
            Err(e) => e == ParseError::MalformedNumber(i) && !is_float_literal(
                s@.subrange(i as int, number_end(s@, i as int)),
            ),
        },
{
    let mut j: usize = i;
    while j < s.len() && is_double_char(s[j])
        invariant
            i <= j <= s.len(),
            number_end(s@, j as int) == number_end(s@, i as int),
        decreases s.len() - j,
    {
        j = j + 1;
    }
    if float_literal_ok(s, i, j) {
        Ok((copy_range(s, i, j), j))
    } else {
        Err(ParseError::MalformedNumber(i))
    }
}

/// The first index at or after `m` where `term` occurs in `s`, or the
/// length of `s` when it does not.
pub open spec fn find_term(s: Seq<char>, m: int, term: Seq<char>) -> int
    decreases s.len() - m,
{
    if m < 0 || m >= s.len() || m + term.len() > s.len() {
        s.len() as int
    } else if s.subrange(m, m + term.len()) == term {
        m
    } else {
        find_term(s, m + 1, term)
    }
}

pub proof fn lemma_find_term(s: Seq<char>, m: int, term: Seq<char>)
    requires
        0 <= m <= s.len(),
        term.len() > 0,
    ensures
        m <= find_term(s, m, term) <= s.len(),
        find_term(s, m, term) < s.len() ==> find_term(s, m, term) + term.len() <= s.len(),
    decreases s.len() - m,
{
    if m < s.len() && m + term.len() <= s.len() && s.subrange(m, m + term.len()) != term {
        lemma_find_term(s, m + 1, term);
    }
}

/// Where a comment that starts at `i` has its body, and what ends it;
/// `None` for a `/` that opens no comment.
pub open spec fn comment_form(s: Seq<char>, i: int) -> Option<(int, Seq<char>)> {
    if s[i] == '/' {
        if i + 1 < s.len() && s[i + 1] == '*' {
            Some((i + 2, seq!['*', '/']))
        } else if i + 1 < s.len() && s[i + 1] == '/' {
            Some((i + 2, seq!['\n']))
        } else {
            None
        }
    } else if s[i] == '(' {
        Some((i + 1, seq![')']))
    } else {
        Some((i + 1, seq!['\n']))
    }
}

/// The body of the comment that starts at `i`, and the index after its end.
pub open spec fn comment_spec(s: Seq<char>, i: int) -> (Seq<char>, int) {
    match comment_form(s, i) {
        None => (Seq::empty(), i + 1),
        Some((start, term)) => {
            let m = find_term(s, start, term);
            (
                s.subrange(start, m),
                if m + term.len() <= s.len() {
                    m + term.len()
                } else {
                    s.len() as int
                },
            )
        },
    }
}

pub proof fn lemma_comment_end(s: Seq<char>, i: int)
    requires
        0 <= i < s.len(),
    ensures
        i < comment_spec(s, i).1 <= s.len(),
{
    match comment_form(s, i) {
        None => {},
        Some((start, term)) => {
            lemma_find_term(s, start, term);
        },
    }
}

/// Reads a comment starting at `i`: `//` or `#` up to the end of the line,
/// `/*` up to `*/`, `(` up to `)`.  Returns the body and the index after
/// the terminator.  The terminator is spotted in a window of its own width
/// that slides over the body.
#[verifier::rlimit(40)]
fn lex_comment(s: &Vec<char>, i: usize) -> (r: (Vec<char>, usize))
    requires
        i < s.len(),
        spec_is_comment_begin(s@[i as int]),
    ensures
        (r.0@, r.1 as int) == comment_spec(s@, i as int),
{
    if s[i] == '/' && !(i + 1 < s.len() && (s[i + 1] == '*' || s[i + 1] == '/')) {
        return (Vec::new(), i + 1);
    }
    let (start, term): (usize, Vec<char>) = if s[i] == '/' {
        if s[i + 1] == '*' {
            (i + 2, vec!['*', '/'])
        } else {
            (i + 2, vec!['\n'])
        }
    } else if s[i] == '(' {
        (i + 1, vec![')'])
    } else {
        (i + 1, vec!['\n'])
    };
    assert(comment_form(s@, i as int) == Some((start as int, term@)));
    let n = term.len();
    let mut w = SlideWindow::new(n);
    let mut k: usize = start;
    while k < s.len()
        invariant
            start <= k <= s.len(),
            i < start,
            comment_form(s@, i as int) == Some((start as int, term@)),
            n == term.len(),
            n == term@.len(),
            0 < n <= 2,
            forall|j: int| 0 <= j < n ==> term@[j] != '\0',
            w.wf(),
            w.size() == n,
            w.window() == s@.subrange(
                if k >= start + n {
                    k - n
                } else {
                    start as int
                },
                k as int,
            ),
            find_term(s@, start as int, term@) == find_term(
                s@,
                if k + 1 >= start + n {
                    k + 1 - n
                } else {
                    start as int
                },
                term@,
            ),
        decreases s.len() - k,
    {
        let ghost lo: int = if k >= start + n {
            k as int - n as int
        } else {
            start as int
        };
        let ghost before = w.window();
        assert(start <= lo <= k);
        assert(before == s@.subrange(lo, k as int));
        assert(0 <= lo);
        assert(lo <= k);
        assert(k <= s@.len());
        assert(before.len() == k as int - lo);
        w.push(s[k]);
        proof {
            w.lemma_cells();
            if k - lo < n {
                assert(w.window() =~= s@.subrange(lo, k + 1));
            } else {
                assert(w.window() =~= s@.subrange(lo + 1, k + 1));
            }
        }
        if w.holds(&term) {
            proof {
                if k + 1 < start + n {
                    assert(w.cells()[n - 1] == '\0');
                }
                assert(s@.subrange(k + 1 - n, k + 1) =~= w.cells());
                assert(find_term(s@, k + 1 - n, term@) == k + 1 - n);
            }
            return (copy_range(s, start, k + 1 - n), k + 1);
        }
        proof {
            if k + 1 >= start + n {
                assert(s@.subrange(k + 1 - n, k + 1) =~= w.cells());
            }
        }
        k = k + 1;
    }
    assert(find_term(s@, start as int, term@) == s.len());
    (copy_range(s, start, s.len()), s.len())
}

/// The character that an escape `\c` stands for.
pub open spec fn spec_unescape(c: char) -> char {
    if c == 'n' {
        '\n'
    } else if c == 't' {
        '\t'
    } else if c == 'r' {
        '\r'
    } else {
        c
    }
}

fn unescape(c: char) -> (r: char)
    ensures
        r == spec_unescape(c),
{
    if c == 'n' {
        '\n'
    } else if c == 't' {
        '\t'
    } else if c == 'r' {
        '\r'
    } else {
        c
    }
}

/// `b` put in front of the text that `r` holds.
pub open spec fn join_text(b: Seq<char>, r: Result<(Seq<char>, int), ParseError>) -> Result<
    (Seq<char>, int),
    ParseError,
> {
    match r {
        Ok((t, j)) => Ok((b + t, j)),
        Err(e) => Err(e),
    }
}

/// The decoded content of a string literal from `p` up to its closing
/// quote (or the end of the text), and the index after that quote.
pub open spec fn string_body(s: Seq<char>, p: int) -> Result<(Seq<char>, int), ParseError>
    decreases s.len() - p,
{
    if p < 0 || p >= s.len() {
        Ok((Seq::empty(), s.len() as int))
    } else if s[p] == '"' {
        Ok((Seq::empty(), p + 1))
    } else if s[p] == '\\' {
        if p + 1 >= s.len() {
            Err(ParseError::UnexpectedEnd(s.len() as usize))
        } else {
            join_text(seq![spec_unescape(s[p + 1])], string_body(s, p + 2))
        }
    } else {
        join_text(seq![s[p]], string_body(s, p + 1))
    }
}

pub proof fn lemma_string_body(s: Seq<char>, p: int)
    requires
        0 <= p <= s.len(),
    ensures
        string_body(s, p) matches Ok((t, j)) ==> p <= j <= s.len(),
    decreases s.len() - p,
{
    if p < s.len() && s[p] != '"' {
        if s[p] == '\\' {
            if p + 1 < s.len() {
                lemma_string_body(s, p + 2);
            }
        } else {
            lemma_string_body(s, p + 1);
        }
    }
}

pub proof fn lemma_join_text(a: Seq<char>, b: Seq<char>, r: Result<(Seq<char>, int), ParseError>)
    ensures
        join_text(a, join_text(b, r)) == join_text(a + b, r),
{
    if let Ok((t, j)) = r {
        assert(a + (b + t) =~= (a + b) + t);
    }
}

pub open spec fn trim_last_newline(t: Seq<char>) -> Seq<char> {
    if t.len() > 0 && t.last() == '\n' {
        t.drop_last()
    } else {
        t
    }
}

/// The string literal whose opening quote is at `i`: a newline right after
/// the quote is skipped, and one right before the closing quote dropped.
pub open spec fn string_spec(s: Seq<char>, i: int) -> Result<(Seq<char>, int), ParseError> {
    let p = if i + 1 < s.len() && s[i + 1] == '\n' {
        i + 2
    } else {
        i + 1
    };
    match string_body(s, p) {
        Ok((t, j)) => Ok((trim_last_newline(t), j)),
        Err(e) => Err(e),
    }
}

fn trim_newline(b: &mut Vec<char>)
    ensures
        final(b)@ == trim_last_newline(old(b)@),
{
    if b.len() > 0 && b[b.len() - 1] == '\n' {
        b.pop();
    }
}

/// Reads the string literal whose opening quote is at `i`.
fn lex_string(s: &Vec<char>, i: usize) -> (r: Result<(Vec<char>, usize), ParseError>)
    requires
        i < s.len(),
        s@[i as int] == '"',
    ensures
        match r {
            Ok((t, j)) => string_spec(s@, i as int) == Ok::<_, ParseError>((t@, j as int)),
            Err(e) => string_spec(s@, i as int) == Err::<(Seq<char>, int), _>(e),
        },
{
    let mut p: usize = i + 1;
    if p < s.len() && s[p] == '\n' {
        p = p + 1;
    }
    let ghost body_start = p as int;
    let mut buf: Vec<char> = Vec::new();
    loop
        invariant
            body_start <= p <= s.len(),
            body_start == (if i + 1 < s.len() && s@[i + 1] == '\n' {
                i + 2
            } else {
                i + 1
            }),
            string_body(s@, body_start) == join_text(buf@, string_body(s@, p as int)),
        decreases s.len() - p,
    {
        if p >= s.len() {
            assert(buf@ + Seq::<char>::empty() =~= buf@);
            trim_newline(&mut buf);
            return Ok((buf, s.len()));
        }
        let c = s[p];
        if c == '"' {
            assert(buf@ + Seq::<char>::empty() =~= buf@);
            trim_newline(&mut buf);
            return Ok((buf, p + 1));
        }
        if c == '\\' {
            if p + 1 >= s.len() {
                return Err(ParseError::UnexpectedEnd(s.len()));
            }
            let d = unescape(s[p + 1]);
            proof {
                lemma_join_text(buf@, seq![d], string_body(s@, p + 2));
                assert(buf@ + seq![d] =~= buf@.push(d));
            }
            buf.push(d);
            p = p + 2;
        } else {
            proof {
                lemma_join_text(buf@, seq![c], string_body(s@, p + 1));
                assert(buf@ + seq![c] =~= buf@.push(c));
            }
            buf.push(c);
            p = p + 1;
        }
    }
}

/// The token that a word stands for: a keyword or an identifier.
pub open spec fn word_token(w: Seq<char>) -> Tok {
    if w == seq!['t', 'r', 'u', 'e'] {
        Tok::Bool(true)
    } else if w == seq!['f', 'a', 'l', 's', 'e'] {
        Tok::Bool(false)
    } else if w == seq!['n', 'u', 'l', 'l'] {
        Tok::Null
    } else {
        Tok::Id(w)
    }
}

fn word_to_token(w: Vec<char>) -> (r: ParseToken)
    ensures
        r@ == word_token(w@),
{
    if w.len() == 4 && w[0] == 't' && w[1] == 'r' && w[2] == 'u' && w[3] == 'e' {
        assert(w@ =~= seq!['t', 'r', 'u', 'e']);
        ParseToken::Atom(ParseAtom::Bool(true))
    } else if w.len() == 5 && w[0] == 'f' && w[1] == 'a' && w[2] == 'l' && w[3] == 's' && w[4]
        == 'e' {
        assert(w@ =~= seq!['f', 'a', 'l', 's', 'e']);
        ParseToken::Atom(ParseAtom::Bool(false))
    } else if w.len() == 4 && w[0] == 'n' && w[1] == 'u' && w[2] == 'l' && w[3] == 'l' {
        assert(w@ =~= seq!['n', 'u', 'l', 'l']);
        ParseToken::Atom(ParseAtom::Null)
    } else {
        ParseToken::Id(w)
    }
}

/// `x` put in front of the tokens that `r` holds.
pub open spec fn push_front(x: (Tok, int), r: Result<Seq<(Tok, int)>, ParseError>) -> Result<
    Seq<(Tok, int)>,
    ParseError,
> {
    match r {
        Ok(t) => Ok(seq![x] + t),
        Err(e) => Err(e),
    }
}

/// `p` put in front of the tokens that `r` holds.
pub open spec fn join_toks(p: Seq<(Tok, int)>, r: Result<Seq<(Tok, int)>, ParseError>) -> Result<
    Seq<(Tok, int)>,
    ParseError,
> {
    match r {
        Ok(t) => Ok(p + t),
        Err(e) => Err(e),
    }
}

/// The tokens of `s` from index `i` on, or the first error met.
pub open spec fn lex_from(s: Seq<char>, i: int) -> Result<Seq<(Tok, int)>, ParseError>
    decreases s.len() - i,
    via lex_from_decreases
{
    if i < 0 || i >= s.len() {
        Ok(Seq::empty())
    } else if spec_is_id_begin(s[i]) {
        let j = id_end(s, i);
        push_front((word_token(s.subrange(i, j)), i), lex_from(s, j))
    } else if spec_is_double_begin(s[i]) {
        let j = number_end(s, i);
        if is_float_literal(s.subrange(i, j)) {
            push_front((Tok::Num(s.subrange(i, j)), i), lex_from(s, j))
        } else {
            Err(ParseError::MalformedNumber(i as usize))
        }
    } else if spec_is_kwd(s[i]) {
        push_front((Tok::Key(s[i]), i), lex_from(s, i + 1))
    } else if spec_is_comment_begin(s[i]) {
        let c = comment_spec(s, i);
        push_front((Tok::Comment(c.0), i), lex_from(s, c.1))
    } else if s[i] == '"' {
        match string_spec(s, i) {
            Ok((t, j)) => push_front((Tok::Str(t), i), lex_from(s, j)),
            Err(e) => Err(e),
        }
    } else {
        lex_from(s, i + 1)
    }
}

#[via_fn]
proof fn lex_from_decreases(s: Seq<char>, i: int) {
    if 0 <= i < s.len() {
        if spec_is_id_begin(s[i]) {
            lemma_run_end(s, i, |c: char| spec_is_id_char(c));
        } else if spec_is_double_begin(s[i]) {
            lemma_run_end(s, i, |c: char| spec_is_double_char(c));
        } else if spec_is_kwd(s[i]) {
        } else if spec_is_comment_begin(s[i]) {
            lemma_comment_end(s, i);
        } else if s[i] == '"' {
            let p = if i + 1 < s.len() && s[i + 1] == '\n' {
                i + 2
            } else {
                i + 1
            };
            lemma_string_body(s, p);
        }
    }
}

/// The tokens of the whole text.
pub open spec fn lex_spec(s: Seq<char>) -> Result<Seq<(Tok, int)>, ParseError> {
    lex_from(s, 0)
}

proof fn lemma_join_push(p: Seq<(Tok, int)>, x: (Tok, int), r: Result<Seq<(Tok, int)>, ParseError>)
    ensures
        join_toks(p, push_front(x, r)) == join_toks(p.push(x), r),
{
    if let Ok(t) = r {
        assert(p + (seq![x] + t) =~= p.push(x) + t);
    }
}

proof fn lemma_view_push(v: Seq<Lexeme>, l: Lexeme)
    ensures
        lexemes_view(v.push(l)) == lexemes_view(v).push((l.token@, l.pos as int)),
{
    assert(lexemes_view(v.push(l)) =~= lexemes_view(v).push((l.token@, l.pos as int)));
}

/// Splits a text into tokens.  Characters that start no token are skipped.
#[verifier::rlimit(40)]
pub fn lex(s: &Vec<char>) -> (r: Result<Vec<Lexeme>, ParseError>)
    ensures
        match r {
            Ok(v) => lex_spec(s@) == Ok::<_, ParseError>(lexemes_view(v@)),
            Err(e) => lex_spec(s@) == Err::<Seq<(Tok, int)>, _>(e),
        },
{
    let mut ret: Vec<Lexeme> = Vec::new();
    let mut i: usize = 0;
    while i < s.len()
        invariant
            i <= s.len(),
            lex_spec(s@) == join_toks(lexemes_view(ret@), lex_from(s@, i as int)),
        decreases s.len() - i,
    {
        let c = s[i];
        let ghost old_ret = ret@;
        if is_id_begin(c) {
            let (w, j) = lex_id(s, i);
            proof {
                lemma_run_end(s@, i as int, |c: char| spec_is_id_char(c));
            }
            let tok = word_to_token(w);
            let l = Lexeme { token: tok, pos: i };
            proof {
                lemma_join_push(lexemes_view(old_ret), (l.token@, i as int), lex_from(s@, j as int));
                lemma_view_push(old_ret, l);
            }
            ret.push(l);
            i = j;
        } else if is_double_begin(c) {
            match lex_number(s, i) {
                Ok((x, j)) => {
                    proof {
                        lemma_run_end(s@, i as int, |c: char| spec_is_double_char(c));
                    }
                    let l = Lexeme { token: ParseToken::Atom(ParseAtom::Double(x)), pos: i };
                    proof {
                        lemma_join_push(lexemes_view(old_ret), (l.token@, i as int), lex_from(s@, j as int));
                        lemma_view_push(old_ret, l);
                    }
                    ret.push(l);
                    i = j;
                },
                Err(e) => {
                    return Err(e);
                },
            }
        } else if is_kwd(c) {
            let l = Lexeme { token: ParseToken::Key(c), pos: i };
            proof {
                lemma_join_push(lexemes_view(old_ret), (l.token@, i as int), lex_from(s@, i + 1));
                lemma_view_push(old_ret, l);
            }
            ret.push(l);
            i = i + 1;
        } else if is_comment_begin(c) {
            let (body, j) = lex_comment(s, i);
            proof {
                lemma_comment_end(s@, i as int);
            }
            let l = Lexeme { token: ParseToken::Comment(body), pos: i };
            proof {
                lemma_join_push(lexemes_view(old_ret), (l.token@, i as int), lex_from(s@, j as int));
                lemma_view_push(old_ret, l);
            }
            ret.push(l);
            i = j;
        } else if c == '"' {
            match lex_string(s, i) {
                Ok((t, j)) => {
                    proof {
                        let p = if i + 1 < s.len() && s@[i + 1] == '\n' {
                            i + 2
                        } else {
                            i + 1
                        };
                        lemma_string_body(s@, p as int);
                    }
                    let l = Lexeme { token: ParseToken::Atom(ParseAtom::String(t)), pos: i };
                    proof {
                        lemma_join_push(lexemes_view(old_ret), (l.token@, i as int), lex_from(s@, j as int));
                        lemma_view_push(old_ret, l);
                    }
                    ret.push(l);
                    i = j;
                },
                Err(e) => {
                    return Err(e);
                },
            }
        } else {
            i = i + 1;
        }
    }
    assert(lexemes_view(ret@) + Seq::<(Tok, int)>::empty() =~= lexemes_view(ret@));
    Ok(ret)
}

/// No quote and no backslash.
pub open spec fn plain_text(b: Seq<char>) -> bool {
    forall|k: int| 0 <= k < b.len() ==> b[k] != '"' && b[k] != '\\'
}

pub open spec fn drop_first_newline(b: Seq<char>) -> Seq<char> {
    if b.len() > 0 && b[0] == '\n' {
        b.skip(1)
    } else {
        b
    }
}

proof fn lemma_plain_body(s: Seq<char>, p: int, q: int)
    requires
        0 <= p <= q < s.len(),
        s[q] == '"',
        forall|k: int| p <= k < q ==> s[k] != '"' && s[k] != '\\',
    ensures
        string_body(s, p) == Ok::<_, ParseError>((s.subrange(p, q), q + 1)),
    decreases q - p,
{
    if p < q {
        lemma_plain_body(s, p + 1, q);
        assert(seq![s[p]] + s.subrange(p + 1, q) =~= s.subrange(p, q));
    } else {
        assert(s.subrange(p, q) =~= Seq::<char>::empty());
    }
}

/// The literal at `i` whose body, up to the closing quote at `q`, holds no
/// quote and no backslash: its text is the body without one newline right
/// after the opening quote and one right before the closing quote; inner
/// newlines stay.
pub proof fn lemma_literal_trim(s: Seq<char>, i: int, q: int)
    requires
        0 <= i < q < s.len(),
        s[i] == '"',
        s[q] == '"',
        plain_text(s.subrange(i + 1, q)),
    ensures
        string_spec(s, i) == Ok::<_, ParseError>(
            (trim_last_newline(drop_first_newline(s.subrange(i + 1, q))), q + 1),
        ),
{
    let b = s.subrange(i + 1, q);
    assert(forall|k: int| i + 1 <= k < q ==> s[k] == b[k - i - 1]);
    let p = if i + 1 < s.len() && s[i + 1] == '\n' {
        i + 2
    } else {
        i + 1
    };
    if i + 1 < q && s[i + 1] == '\n' {
        assert(b[0] == '\n');
        lemma_plain_body(s, i + 2, q);
        assert(s.subrange(i + 2, q) =~= drop_first_newline(b));
    } else {
        if i + 1 < q {
            assert(b[0] == s[i + 1]);
        } else {
            assert(b =~= Seq::<char>::empty());
        }
        lemma_plain_body(s, i + 1, q);
        assert(s.subrange(i + 1, q) =~= drop_first_newline(b));
    }
}

/// A string literal loses one newline right after its opening quote and
/// one right before its closing quote, so that a literal may start and end
/// on lines of its own.
pub proof fn lemma_multiline_literal(b: Seq<char>)
    requires
        plain_text(b),
    ensures
        lex_spec(seq!['"'] + b + seq!['"']) == Ok::<_, ParseError>(
            seq![(Tok::Str(trim_last_newline(drop_first_newline(b))), 0int)],
        ),
{
    let s = seq!['"'] + b + seq!['"'];
    let q = s.len() - 1;
    let p = if 1 < s.len() && s[1] == '\n' {
        2
    } else {
        1
    };
    assert(forall|k: int| 1 <= k < q ==> s[k] == b[k - 1]);
    lemma_plain_body(s, p, q);
    assert(s.subrange(p, q) =~= drop_first_newline(b));
    assert(lex_from(s, q + 1) == Ok::<_, ParseError>(Seq::<(Tok, int)>::empty()));
    assert(seq![(Tok::Str(trim_last_newline(drop_first_newline(b))), 0int)]
        + Seq::<(Tok, int)>::empty() =~= seq![(Tok::Str(trim_last_newline(drop_first_newline(b))), 0int)]);
}

/// The last characters pushed, up to a fixed number of them.
pub struct SlideWindow {
    arr: Vec<char>,
    id: usize,
}

impl SlideWindow {
    /// How many characters the window holds at most.
    pub closed spec fn size(&self) -> nat {
        self.arr.len() as nat
    }

    /// The characters in the window, oldest first.
    pub closed spec fn window(&self) -> Seq<char> {
        self.arr@.take(self.id as int)
    }

    /// The window's cells: its characters, then `'\0'` in the cells not
    /// yet filled.
    pub closed spec fn cells(&self) -> Seq<char> {
        self.arr@
    }

    pub closed spec fn wf(&self) -> bool {
        &&& self.id <= self.arr.len()
        &&& forall|k: int| self.id <= k < self.arr.len() ==> self.arr@[k] == '\0'
    }

    pub proof fn lemma_cells(&self)
        requires
            self.wf(),
        ensures
            self.cells().len() == self.size(),
            self.window().len() <= self.size(),
            forall|k: int| 0 <= k < self.window().len() ==> self.cells()[k] == self.window()[k],
            forall|k: int| self.window().len() <= k < self.size() ==> self.cells()[k] == '\0',
    {
    }

    /// An empty window of `n` cells.
    pub fn new(n: usize) -> (r: SlideWindow)
        ensures
            r.wf(),
            r.size() == n,
            r.window() == Seq::<char>::empty(),
    {
        let mut arr: Vec<char> = Vec::new();
        let mut k: usize = 0;
        while k < n
            invariant
                k <= n,
                arr.len() == k,
                forall|j: int| 0 <= j < k ==> arr@[j] == '\0',
            decreases n - k,
        {
            arr.push('\0');
            k = k + 1;
        }
        let r = SlideWindow { arr, id: 0 };
        assert(r.window() =~= Seq::<char>::empty());
        r
    }

    /// Adds `e` after the others; when the window is full, the oldest
    /// character leaves it.
    pub fn push(&mut self, e: char)
        requires
            old(self).wf(),
            old(self).size() > 0,
        ensures
            final(self).wf(),
            final(self).size() == old(self).size(),
            final(self).window() == (if old(self).window().len() < old(self).size() {
                old(self).window().push(e)
            } else {
                old(self).window().skip(1).push(e)
            }),
    {
        let len = self.arr.len();
        if self.id < len {
            let ghost w = self.window();
            self.arr.set(self.id, e);
            self.id = self.id + 1;
            assert(self.window() =~= w.push(e));
            return;
        }
        let ghost a = self.arr@;
        let mut i: usize = 1;
        while i < len
            invariant
                1 <= i <= len,
                len == a.len(),
                self.arr.len() == len,
                self.id == len,
                forall|j: int| 0 <= j < i - 1 ==> self.arr@[j] == a[j + 1],
                forall|j: int| i - 1 <= j < len ==> self.arr@[j] == a[j],
            decreases len - i,
        {
            let c = self.arr[i];
            self.arr.set(i - 1, c);
            i = i + 1;
        }
        self.arr.set(len - 1, e);
        assert(self.window() =~= a.take(len as int).skip(1).push(e));
    }

    /// The oldest character in the window, or `'\0'` when it is empty.
    pub fn first(&self) -> (r: char)
        requires
            self.wf(),
            self.size() > 0,
        ensures
            r == (if self.window().len() > 0 {
                self.window()[0]
            } else {
                '\0'
            }),
    {
        self.arr[0]
    }

    /// Whether the cells hold exactly `end`.
    pub fn holds(&self, end: &Vec<char>) -> (r: bool)
        ensures
            r == (self.cells() == end@),
    {
        if self.arr.len() != end.len() {
            return false;
        }
        let mut k: usize = 0;
        while k < end.len()
            invariant
                k <= end.len(),
                self.arr.len() == end.len(),
                forall|j: int| 0 <= j < k ==> self.arr@[j] == end@[j],
            decreases end.len() - k,
        {
            if self.arr[k] != end[k] {
                return false;
            }
            k = k + 1;
        }
        assert(self.arr@ =~= end@);
        true
    }
}

} // verus!
