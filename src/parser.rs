//! Builds a value tree from the tokens of a text.
//!
//! Grammar, after comments are dropped:
//! `root := '{' fields '}' | fields`, `fields := (id ':' value)*`,
//! `value := number [id] | string | bool | null | '{' fields '}' | '[' value* ']'`.
//! The root must take up every token.
//!
//! Comments are dropped before the grammar applies, everywhere: a comment
//! between a number and a name does not keep the name from being the
//! number's unit (`x: 10 # note` then `ms` on the next line reads as
//! `10 ms`).

use vstd::prelude::*;
use crate::lexer::{lex, lex_spec, lexemes_view, Lexeme, ParseAtom, ParseError, ParseToken, Tok};
use crate::value::{insert_field, lemma_list_view, lemma_object_view, trees, Shaun, ShaunMap, Tree};

verus! {

/// Relies on `str::chars` and `collect`: the characters of the text, in order.
#[verifier::external_body]
pub(crate) fn chars_of(s: &str) -> (r: Vec<char>)
    ensures
        r@ == s@,
{
    s.chars().collect()
}

/// Relies on `String: FromIterator<&char>`: a string of these characters, in order.
#[verifier::external_body]
pub(crate) fn text_of(v: &Vec<char>) -> (r: String)
    ensures
        r@ == v@,
{
    v.iter().collect()
}

/// The tokens that are no comment, in order.
pub open spec fn without_comments(t: Seq<(Tok, int)>) -> Seq<(Tok, int)>
    decreases t.len(),
{
    if t.len() == 0 {
        t
    } else if t.last().0 is Comment {
        without_comments(t.drop_last())
    } else {
        without_comments(t.drop_last()).push(t.last())
    }
}

/// The error for the token at `i`, or for the end of the tokens.
pub open spec fn unexpected(t: Seq<(Tok, int)>, i: int, end: int) -> ParseError {
    if 0 <= i < t.len() {
        ParseError::UnexpectedToken(t[i].1 as usize)
    } else {
        ParseError::UnexpectedEnd(end as usize)
    }
}

/// The value that starts at token `i`, and the index after it.  `end` is
/// the length of the text, for the error at its end.
pub open spec fn value_at(t: Seq<(Tok, int)>, i: int, end: int) -> Result<(Tree, int), ParseError>
    decreases t.len() - i, 0nat,
{
    if i < 0 || i >= t.len() {
        Err(ParseError::UnexpectedEnd(end as usize))
    } else {
        match t[i].0 {
            Tok::Num(x) => {
                if i + 1 < t.len() && t[i + 1].0 is Id {
                    Ok((Tree::Number(x, t[i + 1].0->Id_0), i + 2))
                } else {
                    Ok((Tree::Number(x, Seq::empty()), i + 1))
                }
            },
            Tok::Str(s) => Ok((Tree::Str(s), i + 1)),
            Tok::Bool(b) => Ok((Tree::Bool(b), i + 1)),
            Tok::Null => Ok((Tree::Null, i + 1)),
            Tok::Key(c) => {
                if c == '{' {
                    object_at(t, i + 1, end)
                } else if c == '[' {
                    items_at(t, i + 1, end, Seq::empty())
                } else {
                    Err(unexpected(t, i, end))
                }
            },
            _ => Err(unexpected(t, i, end)),
        }
    }
}

/// The fields of an object from token `i` on, then its closing `}`.
pub open spec fn object_at(t: Seq<(Tok, int)>, i: int, end: int) -> Result<(Tree, int), ParseError>
    decreases t.len() - i, 2nat,
{
    match fields_at(t, i, end, Seq::empty()) {
        Ok((f, k)) => {
            if 0 <= k < t.len() && t[k].0 == Tok::Key('}') {
                Ok((Tree::Object(f), k + 1))
            } else {
                Err(unexpected(t, k, end))
            }
        },
        Err(e) => Err(e),
    }
}

/// The items of a list from token `i` up to its `]`, after `acc`.
pub open spec fn items_at(t: Seq<(Tok, int)>, i: int, end: int, acc: Seq<Tree>) -> Result<
    (Tree, int),
    ParseError,
>
    decreases t.len() - i, 1nat,
{
    if i < 0 || i >= t.len() {
        Err(ParseError::UnexpectedEnd(end as usize))
    } else if t[i].0 == Tok::Key(']') {
        Ok((Tree::List(acc), i + 1))
    } else {
        match value_at(t, i, end) {
            Ok((v, k)) => {
                if i < k <= t.len() {
                    items_at(t, k, end, acc.push(v))
                } else {
                    Err(ParseError::UnexpectedEnd(end as usize))
                }
            },
            Err(e) => Err(e),
        }
    }
}

/// The fields `name: value` from token `i` on, stored into `acc`; stops at
/// the first token that is no name.
pub open spec fn fields_at(
    t: Seq<(Tok, int)>,
    i: int,
    end: int,
    acc: Seq<(Seq<char>, Tree)>,
) -> Result<(Seq<(Seq<char>, Tree)>, int), ParseError>
    decreases t.len() - i, 1nat,
{
    if 0 <= i < t.len() && t[i].0 is Id {
        if i + 1 >= t.len() {
            Err(ParseError::UnexpectedEnd(end as usize))
        } else if t[i + 1].0 != Tok::Key(':') {
            Err(unexpected(t, i + 1, end))
        } else {
            match value_at(t, i + 2, end) {
                Ok((v, k)) => {
                    if i < k <= t.len() {
                        fields_at(t, k, end, insert_field(acc, t[i].0->Id_0, v))
                    } else {
                        Err(ParseError::UnexpectedEnd(end as usize))
                    }
                },
                Err(e) => Err(e),
            }
        }
    } else {
        Ok((acc, i))
    }
}

/// The value of a whole token sequence: an object with or without braces.
pub open spec fn root_of(t: Seq<(Tok, int)>, end: int) -> Result<Tree, ParseError> {
    let r = if t.len() > 0 && t[0].0 == Tok::Key('{') {
        value_at(t, 0, end)
    } else {
        match fields_at(t, 0, end, Seq::empty()) {
            Ok((f, k)) => Ok((Tree::Object(f), k)),
            Err(e) => Err(e),
        }
    };
    match r {
        Ok((v, k)) => if k == t.len() {
            Ok(v)
        } else {
            Err(unexpected(t, k, end))
        },
        Err(e) => Err(e),
    }
}

/// What a text parses to.
pub open spec fn parse_spec(s: Seq<char>) -> Result<Tree, ParseError> {
    match lex_spec(s) {
        Ok(t) => root_of(without_comments(t), s.len() as int),
        Err(e) => Err(e),
    }
}

/// Whether an exec parse result is the spec result `s`.
pub open spec fn same_value(r: Result<(Shaun, usize), ParseError>, s: Result<(Tree, int), ParseError>) -> bool {
    match r {
        Ok((v, k)) => s == Ok::<(Tree, int), ParseError>((v@, k as int)),
        Err(e) => s == Err::<(Tree, int), ParseError>(e),
    }
}

fn copy_chars(v: &Vec<char>) -> (r: Vec<char>)
    ensures
        r@ == v@,
{
    let mut r: Vec<char> = Vec::new();
    let mut k: usize = 0;
    while k < v.len()
        invariant
            k <= v.len(),
            r@ == v@.take(k as int),
        decreases v.len() - k,
    {
        r.push(v[k]);
        assert(r@ =~= v@.take(k + 1));
        k = k + 1;
    }
    assert(v@.take(v.len() as int) =~= v@);
    r
}

fn copy_lexeme(l: &Lexeme) -> (r: Lexeme)
    ensures
        r.token@ == l.token@,
        r.pos == l.pos,
{
    let token = match &l.token {
        ParseToken::Key(c) => ParseToken::Key(*c),
        ParseToken::Id(w) => ParseToken::Id(copy_chars(w)),
        ParseToken::Atom(ParseAtom::String(t)) => ParseToken::Atom(ParseAtom::String(copy_chars(t))),
        ParseToken::Atom(ParseAtom::Bool(b)) => ParseToken::Atom(ParseAtom::Bool(*b)),
        ParseToken::Atom(ParseAtom::Double(x)) => ParseToken::Atom(ParseAtom::Double(copy_chars(x))),
        ParseToken::Atom(ParseAtom::Null) => ParseToken::Atom(ParseAtom::Null),
        ParseToken::Comment(t) => ParseToken::Comment(copy_chars(t)),
    };
    Lexeme { token, pos: l.pos }
}

/// The tokens that are no comment: the parser never looks at comments.
fn drop_comments(toks: &Vec<Lexeme>) -> (r: Vec<Lexeme>)
    ensures
        lexemes_view(r@) == without_comments(lexemes_view(toks@)),
{
    let ghost t = lexemes_view(toks@);
    let mut r: Vec<Lexeme> = Vec::new();
    let mut k: usize = 0;
    assert(t.take(0) =~= Seq::<(Tok, int)>::empty());
    assert(lexemes_view(r@) =~= Seq::<(Tok, int)>::empty());
    while k < toks.len()
        invariant
            k <= toks.len(),
            t == lexemes_view(toks@),
            lexemes_view(r@) == without_comments(t.take(k as int)),
        decreases toks.len() - k,
    {
        assert(t.take(k + 1).drop_last() =~= t.take(k as int));
        assert(t.take(k + 1).last() == t[k as int]);
        if let ParseToken::Comment(_) = &toks[k].token {
        } else {
            let l = copy_lexeme(&toks[k]);
            r.push(l);
            assert(lexemes_view(r@) =~= without_comments(t.take(k as int)).push(t[k as int]));
        }
        k = k + 1;
    }
    assert(t.take(toks.len() as int) =~= t);
    r
}

fn is_key(l: &Lexeme, c: char) -> (r: bool)
    ensures
        r == (l.token@ == Tok::Key(c)),
{
    match &l.token {
        ParseToken::Key(d) => *d == c,
        _ => false,
    }
}

fn is_id(l: &Lexeme) -> (r: bool)
    ensures
        r == (l.token@ is Id),
{
    match &l.token {
        ParseToken::Id(_) => true,
        _ => false,
    }
}

fn id_text(l: &Lexeme) -> (r: String)
    requires
        l.token@ is Id,
    ensures
        r@ == l.token@->Id_0,
{
    match &l.token {
        ParseToken::Id(w) => text_of(w),
        _ => String::new(),
    }
}

/// The literal at token `i`, with the unit that follows a number.
fn atom_to_value(toks: &Vec<Lexeme>, i: usize, end: usize) -> (r: (Shaun, usize))
    requires
        i < toks.len(),
        toks@[i as int].token is Atom,
    ensures
        same_value(Ok((r.0, r.1)), value_at(lexemes_view(toks@), i as int, end as int)),
        i < r.1 <= toks.len(),
{
    let ghost t = lexemes_view(toks@);
    assert(t[i as int] == (toks@[i as int].token@, toks@[i as int].pos as int));
    match &toks[i].token {
        ParseToken::Atom(ParseAtom::Double(x)) => {
            let xs = text_of(x);
            if i + 1 < toks.len() {
                assert(t[i + 1] == (toks@[i + 1].token@, toks@[i + 1].pos as int));
                if let ParseToken::Id(u) = &toks[i + 1].token {
                    return (Shaun::Number(xs, text_of(u)), i + 2);
                }
            }
            (Shaun::Number(xs, String::new()), i + 1)
        },
        ParseToken::Atom(ParseAtom::String(s)) => (Shaun::String(text_of(s)), i + 1),
        ParseToken::Atom(ParseAtom::Bool(b)) => (Shaun::Bool(*b), i + 1),
        _ => (Shaun::Null, i + 1),
    }
}

/// The value that starts at token `i`.
fn parse_value(toks: &Vec<Lexeme>, i: usize, end: usize) -> (r: Result<(Shaun, usize), ParseError>)
    ensures
        same_value(r, value_at(lexemes_view(toks@), i as int, end as int)),
        r matches Ok((_, k)) ==> i < k <= toks.len(),
    decreases toks.len() - i, 0nat,
{
    let ghost t = lexemes_view(toks@);
    if i >= toks.len() {
        return Err(ParseError::UnexpectedEnd(end));
    }
    assert(t[i as int] == (toks@[i as int].token@, toks@[i as int].pos as int));
    match &toks[i].token {
        ParseToken::Atom(_) => Ok(atom_to_value(toks, i, end)),
        ParseToken::Key(c) => {
            if *c == '{' {
                parse_object(toks, i + 1, end)
            } else if *c == '[' {
                parse_list(toks, i + 1, end)
            } else {
                Err(ParseError::UnexpectedToken(toks[i].pos))
            }
        },
        _ => Err(ParseError::UnexpectedToken(toks[i].pos)),
    }
}

/// The fields of an object from token `i` on, then its closing `}`.
fn parse_object(toks: &Vec<Lexeme>, i: usize, end: usize) -> (r: Result<(Shaun, usize), ParseError>)
    requires
        i <= toks.len(),
    ensures
        same_value(r, object_at(lexemes_view(toks@), i as int, end as int)),
        r matches Ok((_, k)) ==> i < k <= toks.len(),
    decreases toks.len() - i, 2nat,
{
    let ghost t = lexemes_view(toks@);
    match parse_raw_object(toks, i, end) {
        Ok((m, k)) => {
            if k < toks.len() {
                assert(t[k as int] == (toks@[k as int].token@, toks@[k as int].pos as int));
                if is_key(&toks[k], '}') {
                    proof {
                        lemma_object_view(m);
                    }
                    return Ok((Shaun::Object(m), k + 1));
                }
                Err(ParseError::UnexpectedToken(toks[k].pos))
            } else {
                Err(ParseError::UnexpectedEnd(end))
            }
        },
        Err(e) => Err(e),
    }
}

/// The fields `name: value` from token `i` on, up to the first token that
/// is no name.  A later field replaces an earlier one of the same name.
fn parse_raw_object(toks: &Vec<Lexeme>, i: usize, end: usize) -> (r: Result<(ShaunMap, usize), ParseError>)
    requires
        i <= toks.len(),
    ensures
        match r {
            Ok((m, k)) => fields_at(lexemes_view(toks@), i as int, end as int, Seq::empty())
                == Ok::<_, ParseError>((m@, k as int)) && i <= k <= toks.len() && m.wf(),
            Err(e) => fields_at(lexemes_view(toks@), i as int, end as int, Seq::empty()) == Err::<
                (Seq<(Seq<char>, Tree)>, int),
                _,
            >(e),
        },
    decreases toks.len() - i, 1nat,
{
    let ghost t = lexemes_view(toks@);
    let mut obj = ShaunMap::new();
    let mut j: usize = i;
    loop
        invariant
            i <= j <= toks.len(),
            t == lexemes_view(toks@),
            obj.wf(),
            fields_at(t, i as int, end as int, Seq::empty()) == fields_at(t, j as int, end as int, obj@),
        decreases toks.len() - j,
    {
        if j < toks.len() {
            assert(t[j as int] == (toks@[j as int].token@, toks@[j as int].pos as int));
        }
        if j < toks.len() && is_id(&toks[j]) {
            if j + 1 >= toks.len() {
                return Err(ParseError::UnexpectedEnd(end));
            }
            assert(t[j + 1] == (toks@[j + 1].token@, toks@[j + 1].pos as int));
            if !is_key(&toks[j + 1], ':') {
                return Err(ParseError::UnexpectedToken(toks[j + 1].pos));
            }
            match parse_value(toks, j + 2, end) {
                Ok((v, k)) => {
                    let name = id_text(&toks[j]);
                    obj.insert(name, v);
                    j = k;
                },
                Err(e) => {
                    return Err(e);
                },
            }
        } else {
            return Ok((obj, j));
        }
    }
}

/// The items of a list from token `i` up to its closing `]`.
fn parse_list(toks: &Vec<Lexeme>, i: usize, end: usize) -> (r: Result<(Shaun, usize), ParseError>)
    requires
        i <= toks.len(),
    ensures
        same_value(r, items_at(lexemes_view(toks@), i as int, end as int, Seq::empty())),
        r matches Ok((_, k)) ==> i < k <= toks.len(),
    decreases toks.len() - i, 1nat,
{
    let ghost t = lexemes_view(toks@);
    let mut list: Vec<Shaun> = Vec::new();
    let mut j: usize = i;
    assert(trees(list@) =~= Seq::<Tree>::empty());
    loop
        invariant
            i <= j <= toks.len(),
            t == lexemes_view(toks@),
            items_at(t, i as int, end as int, Seq::empty()) == items_at(t, j as int, end as int, trees(list@)),
        decreases toks.len() - j,
    {
        if j >= toks.len() {
            return Err(ParseError::UnexpectedEnd(end));
        }
        assert(t[j as int] == (toks@[j as int].token@, toks@[j as int].pos as int));
        if is_key(&toks[j], ']') {
            proof {
                lemma_list_view(list);
            }
            return Ok((Shaun::List(list), j + 1));
        }
        match parse_value(toks, j, end) {
            Ok((v, k)) => {
                let ghost before = list@;
                list.push(v);
                assert(trees(list@) =~= trees(before).push(v@));
                j = k;
            },
            Err(e) => {
                return Err(e);
            },
        }
    }
}

/// The value of a whole token sequence: an object with or without its
/// braces, which must take up every token.
fn parse_all(toks: &Vec<Lexeme>, end: usize) -> (r: Result<Shaun, ParseError>)
    ensures
        match r {
            Ok(v) => root_of(lexemes_view(toks@), end as int) == Ok::<_, ParseError>(v@),
            Err(e) => root_of(lexemes_view(toks@), end as int) == Err::<Tree, _>(e),
        },
{
    let ghost t = lexemes_view(toks@);
    if toks.len() > 0 {
        assert(t[0] == (toks@[0].token@, toks@[0].pos as int));
    }
    let r = if toks.len() > 0 && is_key(&toks[0], '{') {
        parse_value(toks, 0, end)
    } else {
        match parse_raw_object(toks, 0, end) {
            Ok((m, k)) => {
                proof {
                    lemma_object_view(m);
                }
                Ok((Shaun::Object(m), k))
            },
            Err(e) => Err(e),
        }
    };
    match r {
        Ok((v, k)) => {
            if k == toks.len() {
                Ok(v)
            } else {
                assert(t[k as int] == (toks@[k as int].token@, toks@[k as int].pos as int));
                Err(ParseError::UnexpectedToken(toks[k].pos))
            }
        },
        Err(e) => Err(e),
    }
}

/// Parses a text.  Comments are skipped wherever they stand, also between
/// a number and its unit.
pub fn parse_str(s: &str) -> (r: Result<Shaun, ParseError>)
    ensures
        match r {
            Ok(v) => parse_spec(s@) == Ok::<_, ParseError>(v@),
            Err(e) => parse_spec(s@) == Err::<Tree, _>(e),
        },
{
    let chars = chars_of(s);
    match lex(&chars) {
        Ok(toks) => {
            let kept = drop_comments(&toks);
            parse_all(&kept, chars.len())
        },
        Err(e) => Err(e),
    }
}

/// Parses a text held in a `String`, as `parse_str` does.
pub fn parse_string(s: String) -> (r: Result<Shaun, ParseError>)
    ensures
        match r {
            Ok(v) => parse_spec(s@) == Ok::<_, ParseError>(v@),
            Err(e) => parse_spec(s@) == Err::<Tree, _>(e),
        },
{
    parse_str(s.as_str())
}

} // verus!
