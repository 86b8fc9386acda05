//! Printing a value and parsing the text back gives the value again.

use vstd::prelude::*;
use crate::lexer::{
    exponent_start, is_float_literal, join_text, lemma_join_text, lex_from, lex_spec, push_front,
    run_end, spec_is_digit, spec_is_double_char, spec_is_id_char, string_body, string_spec, unsigned,
    word_token, Tok,
};
use crate::parser::{
    fields_at, items_at, object_at, parse_spec, root_of, value_at, without_comments,
};
use crate::value::{
    insert_field, key_lt, lemma_key_lt_asymmetric, lemma_key_lt_irreflexive, sorted_fields, Tree,
};
use crate::visitor::{emit, escape_text, field_lines, indent_add, join_lines, list_lines, spaces};

verus! {

/// The kinds of the tokens, without their positions.
pub open spec fn kinds(t: Seq<(Tok, int)>) -> Seq<Tok> {
    t.map_values(|x: (Tok, int)| x.0)
}

/// Lexing from `i` passes `j`, having produced tokens of the kinds `ks`
/// in between.
pub open spec fn lexes(s: Seq<char>, i: int, j: int, ks: Seq<Tok>) -> bool {
    &&& (lex_from(s, i) is Ok <==> lex_from(s, j) is Ok)
    &&& (lex_from(s, i) is Ok ==> kinds(lex_from(s, i)->Ok_0) == ks + kinds(lex_from(s, j)->Ok_0))
}

proof fn lemma_lexes_trans(s: Seq<char>, i: int, j: int, k: int, a: Seq<Tok>, b: Seq<Tok>)
    requires
        lexes(s, i, j, a),
        lexes(s, j, k, b),
    ensures
        lexes(s, i, k, a + b),
{
    if lex_from(s, i) is Ok {
        assert(a + (b + kinds(lex_from(s, k)->Ok_0)) =~= (a + b) + kinds(lex_from(s, k)->Ok_0));
    }
}

proof fn lemma_lexes_one(s: Seq<char>, i: int, j: int, x: (Tok, int))
    requires
        lex_from(s, i) == push_front(x, lex_from(s, j)),
    ensures
        lexes(s, i, j, seq![x.0]),
{
    if let Ok(t) = lex_from(s, j) {
        assert(kinds(seq![x] + t) =~= seq![x.0] + kinds(t));
    }
}

proof fn lemma_lexes_none(s: Seq<char>, i: int, j: int)
    requires
        lex_from(s, i) == lex_from(s, j),
    ensures
        lexes(s, i, j, Seq::empty()),
{
    if let Ok(t) = lex_from(s, j) {
        assert(Seq::<Tok>::empty() + kinds(t) =~= kinds(t));
    }
}

proof fn lemma_lexes_spaces(s: Seq<char>, i: int, n: nat)
    requires
        0 <= i,
        i + n <= s.len(),
        s.subrange(i, i + n) == spaces(n),
    ensures
        lexes(s, i, i + n, Seq::empty()),
    decreases n,
{
    if n == 0 {
        lemma_lexes_none(s, i, i);
    } else {
        assert(s[i] == s.subrange(i, i + n)[0]);
        lemma_lexes_none(s, i, i + 1);
        assert forall|k: int| 0 <= k < n - 1 implies #[trigger] s.subrange(i + 1, i + n)[k] == ' ' by {
            assert(s.subrange(i + 1, i + n)[k] == s.subrange(i, i + n)[k + 1]);
        }
        assert(s.subrange(i + 1, i + n) =~= spaces((n - 1) as nat));
        lemma_lexes_spaces(s, i + 1, (n - 1) as nat);
        lemma_lexes_trans(s, i, i + 1, i + n, Seq::empty(), Seq::empty());
        assert(Seq::<Tok>::empty() + Seq::<Tok>::empty() =~= Seq::<Tok>::empty());
    }
}

proof fn lemma_run_to(s: Seq<char>, i: int, j: int, p: spec_fn(char) -> bool)
    requires
        0 <= i <= j <= s.len(),
        forall|k: int| i <= k < j ==> p(#[trigger] s[k]),
        j == s.len() || !p(s[j]),
    ensures
        run_end(s, i, p) == j,
    decreases j - i,
{
    if i < j {
        lemma_run_to(s, i + 1, j, p);
    }
}

/// `s[i..i + x.len()] == x`.
pub open spec fn at(s: Seq<char>, i: int, x: Seq<char>) -> bool {
    0 <= i && i + x.len() <= s.len() && s.subrange(i, i + x.len()) == x
}

proof fn lemma_at_split(s: Seq<char>, i: int, x: Seq<char>, y: Seq<char>)
    requires
        at(s, i, x + y),
    ensures
        at(s, i, x),
        at(s, i + x.len(), y),
{
    let w = s.subrange(i, i + x.len() + y.len());
    assert(w == x + y);
    assert forall|k: int| 0 <= k < x.len() implies s[i + k] == x[k] by {
        assert(w[k] == s[i + k]);
        assert(w[k] == (x + y)[k]);
    }
    assert forall|k: int| 0 <= k < y.len() implies s[i + x.len() + k] == y[k] by {
        assert(w[x.len() + k] == s[i + x.len() + k]);
        assert(w[x.len() + k] == (x + y)[x.len() + k]);
    }
    assert(s.subrange(i, i + x.len()) =~= x);
    assert(s.subrange(i + x.len(), i + x.len() + y.len()) =~= y);
}

/// Where a word or a number ends in printed text.
pub open spec fn boundary(s: Seq<char>, j: int) -> bool {
    j == s.len() || (0 <= j < s.len() && (s[j] == ' ' || s[j] == '\n' || s[j] == ':'))
}

pub open spec fn ascii_letter(c: char) -> bool {
    ('a' <= c <= 'z') || ('A' <= c <= 'Z') || c == '_'
}

/// An ASCII identifier that is no keyword.
pub open spec fn is_name(w: Seq<char>) -> bool {
    &&& w.len() > 0
    &&& ascii_letter(w[0])
    &&& forall|k: int| 0 <= k < w.len() ==> ascii_letter(#[trigger] w[k]) || spec_is_digit(w[k])
    &&& w != seq!['t', 'r', 'u', 'e']
    &&& w != seq!['f', 'a', 'l', 's', 'e']
    &&& w != seq!['n', 'u', 'l', 'l']
}

proof fn lemma_lex_word(s: Seq<char>, i: int, w: Seq<char>)
    requires
        at(s, i, w),
        w.len() > 0,
        ascii_letter(w[0]),
        forall|k: int| 0 <= k < w.len() ==> ascii_letter(#[trigger] w[k]) || spec_is_digit(w[k]),
        boundary(s, i + w.len()),
    ensures
        lexes(s, i, i + w.len(), seq![word_token(w)]),
{
    assert forall|k: int| i <= k < i + w.len() implies spec_is_id_char(#[trigger] s[k]) by {
        assert(s[k] == w[k - i]);
    }
    assert(s[i] == w[0]);
    lemma_run_to(s, i, i + w.len(), |c: char| spec_is_id_char(c));
    lemma_lexes_one(s, i, i + w.len(), (word_token(w), i));
}

proof fn lemma_exponent_start(u: Seq<char>, k: int)
    requires
        0 <= k <= u.len(),
    ensures
        k <= exponent_start(u, k) <= u.len(),
    decreases u.len() - k,
{
    if k < u.len() && u[k] != 'e' && u[k] != 'E' {
        lemma_exponent_start(u, k + 1);
    }
}

proof fn lemma_float_chars(x: Seq<char>)
    requires
        is_float_literal(x),
    ensures
        x.len() > 0,
        spec_is_digit(x[0]) || x[0] == '.' || x[0] == '+' || x[0] == '-',
        forall|k: int| 0 <= k < x.len() ==> spec_is_double_char(#[trigger] x[k]),
{
    let u = unsigned(x);
    let off = x.len() - u.len();
    let e = exponent_start(u, 0);
    lemma_exponent_start(u, 0);
    let m = u.take(e);
    let xx = u.skip(e);
    assert(forall|k: int| 0 <= k < u.len() ==> u[k] == x[k + off]);
    assert(m.len() > 0);
    assert(m[0] == u[0]);
    assert forall|k: int| 0 <= k < x.len() implies spec_is_double_char(#[trigger] x[k]) by {
        if k >= off {
            let k2 = k - off;
            if k2 < e {
                assert(m[k2] == u[k2]);
            } else {
                let kk = k2 - e;
                assert(xx[kk] == u[k2]);
                if kk > 0 {
                    let y = xx.skip(1);
                    assert(y[kk - 1] == xx[kk]);
                    let z = unsigned(y);
                    if z.len() < y.len() && kk == 1 {
                    } else {
                        assert(z[kk - 1 - (y.len() - z.len())] == y[kk - 1]);
                    }
                }
            }
        }
    }
}

proof fn lemma_lex_number(s: Seq<char>, i: int, x: Seq<char>)
    requires
        at(s, i, x),
        is_float_literal(x),
        boundary(s, i + x.len()),
    ensures
        lexes(s, i, i + x.len(), seq![Tok::Num(x)]),
{
    lemma_float_chars(x);
    assert forall|k: int| i <= k < i + x.len() implies spec_is_double_char(#[trigger] s[k]) by {
        assert(s[k] == x[k - i]);
    }
    assert(s[i] == x[0]);
    lemma_run_to(s, i, i + x.len(), |c: char| spec_is_double_char(c));
    lemma_lexes_one(s, i, i + x.len(), (Tok::Num(x), i));
}

proof fn lemma_lex_key(s: Seq<char>, i: int, c: char)
    requires
        0 <= i < s.len(),
        s[i] == c,
        c == ':' || c == '{' || c == '}' || c == '[' || c == ']',
    ensures
        lexes(s, i, i + 1, seq![Tok::Key(c)]),
{
    lemma_lexes_one(s, i, i + 1, (Tok::Key(c), i));
}

proof fn lemma_lex_skip(s: Seq<char>, i: int)
    requires
        0 <= i < s.len(),
        s[i] == ' ' || s[i] == '\n',
    ensures
        lexes(s, i, i + 1, Seq::empty()),
{
    lemma_lexes_none(s, i, i + 1);
}

/// A string as the printer writes it, quoted, with backslashes and quotes
/// escaped, reads back as the same string wherever it stands in a text, unless it
/// starts or ends with a newline, which a literal drops.
pub proof fn lemma_escaped_literal(s: Seq<char>, i: int, t: Seq<char>)
    requires
        at(s, i, seq!['"'] + escape_text(t) + seq!['"']),
        t.len() > 0 ==> t[0] != '\n' && t.last() != '\n',
    ensures
        s[i] == '"',
        string_spec(s, i) == Ok::<_, crate::lexer::ParseError>((t, i + escape_text(t).len() + 2)),
{
    let e = escape_text(t);
    let q = i + e.len() + 1;
    lemma_at_split(s, i, seq!['"'] + e, seq!['"']);
    lemma_at_split(s, i, seq!['"'], e);
    assert(s[i] == s.subrange(i, i + 1)[0]);
    assert(s[q] == s.subrange(q, q + 1)[0]);
    if t.len() > 0 {
        lemma_escape_first(t);
        assert(s[i + 1] == e[0]);
    } else {
        assert(s[i + 1] == '"');
    }
    lemma_escaped_body(s, i + 1, t);
    assert(t + Seq::<char>::empty() =~= t);
}

proof fn lemma_lex_string(s: Seq<char>, i: int, t: Seq<char>)
    requires
        at(s, i, seq!['"'] + escape_text(t) + seq!['"']),
        t.len() > 0 ==> t[0] != '\n' && t.last() != '\n',
    ensures
        lexes(s, i, i + escape_text(t).len() + 2, seq![Tok::Str(t)]),
{
    lemma_escaped_literal(s, i, t);
    lemma_lexes_one(s, i, i + escape_text(t).len() + 2, (Tok::Str(t), i));
}

/// A number without a unit.
pub open spec fn unitless(v: Tree) -> bool {
    v matches Tree::Number(_, u) && u.len() == 0
}

/// The values that print to text which parses back to them: strings that
/// neither start nor end with a newline, numbers whose literal is a decimal
/// literal and whose unit is empty or a name, fields whose keys are names
/// and in ascending order, and no number without a unit before a further
/// field (the next key would read as its unit).
pub open spec fn printable(v: Tree) -> bool
    decreases v,
{
    match v {
        Tree::Null => true,
        Tree::Bool(_) => true,
        Tree::Str(t) => t.len() > 0 ==> t[0] != '\n' && t.last() != '\n',
        Tree::Number(x, u) => is_float_literal(x) && (u.len() == 0 || is_name(u)),
        Tree::List(items) => forall|k: int| 0 <= k < items.len() ==> printable(#[trigger] items[k]),
        Tree::Object(f) => sorted_fields(f) && forall|k: int|
            0 <= k < f.len() ==> is_name(#[trigger] f[k].0) && printable(f[k].1) && (k + 1 < f.len()
                ==> !unitless(f[k].1)),
    }
}

/// The pieces one after the other.
pub open spec fn join_kinds(parts: Seq<Seq<Tok>>) -> Seq<Tok>
    decreases parts.len(),
{
    if parts.len() == 0 {
        Seq::empty()
    } else {
        join_kinds(parts.drop_last()) + parts.last()
    }
}

/// The kinds of the tokens that the printed text of `v` consists of.
pub open spec fn toks(v: Tree) -> Seq<Tok>
    decreases v, 1nat,
{
    match v {
        Tree::Null => seq![Tok::Null],
        Tree::Bool(b) => seq![Tok::Bool(b)],
        Tree::Str(t) => seq![Tok::Str(t)],
        Tree::Number(x, u) => if u.len() == 0 {
            seq![Tok::Num(x)]
        } else {
            seq![Tok::Num(x), Tok::Id(u)]
        },
        Tree::List(items) => seq![Tok::Key('[')] + join_kinds(item_toks(items)) + seq![Tok::Key(']')],
        Tree::Object(f) => seq![Tok::Key('{')] + join_kinds(field_toks(f)) + seq![Tok::Key('}')],
    }
}

pub open spec fn item_toks(items: Seq<Tree>) -> Seq<Seq<Tok>>
    decreases items, 0nat,
{
    Seq::new(
        items.len(),
        |k: int|
            if 0 <= k < items.len() {
                toks(items[k])
            } else {
                Seq::empty()
            },
    )
}

pub open spec fn field_toks(f: Seq<(Seq<char>, Tree)>) -> Seq<Seq<Tok>>
    decreases f, 0nat,
{
    Seq::new(
        f.len(),
        |k: int|
            if 0 <= k < f.len() {
                seq![Tok::Id(f[k].0), Tok::Key(':')] + toks(f[k].1)
            } else {
                Seq::empty()
            },
    )
}

/// Where printed text of a value may end: at the end, or before a newline.
pub open spec fn end_ok(s: Seq<char>, j: int) -> bool {
    j == s.len() || (0 <= j < s.len() && s[j] == '\n')
}

#[verifier::rlimit(40)]
proof fn lemma_lex_emit(s: Seq<char>, i: int, v: Tree, level: nat)
    requires
        printable(v),
        at(s, i, emit(v, level)),
        end_ok(s, i + emit(v, level).len()),
    ensures
        lexes(s, i, i + emit(v, level).len(), toks(v)),
    decreases v, 2nat, 0int,
{
    let e = emit(v, level);
    match v {
        Tree::Null => {
            lemma_lex_word(s, i, seq!['n', 'u', 'l', 'l']);
        },
        Tree::Bool(b) => {
            if b {
                lemma_lex_word(s, i, seq!['t', 'r', 'u', 'e']);
            } else {
                lemma_lex_word(s, i, seq!['f', 'a', 'l', 's', 'e']);
            }
        },
        Tree::Str(t) => {
            lemma_lex_string(s, i, t);
        },
        Tree::Number(x, u) => {
            lemma_at_split(s, i, x + seq![' '], u);
            lemma_at_split(s, i, x, seq![' ']);
            let a = i + x.len();
            assert(s[a] == s.subrange(a, a + 1)[0]);
            lemma_lex_number(s, i, x);
            lemma_lex_skip(s, a);
            lemma_lexes_trans(s, i, a, a + 1, seq![Tok::Num(x)], Seq::empty());
            assert(seq![Tok::Num(x)] + Seq::<Tok>::empty() =~= seq![Tok::Num(x)]);
            if u.len() > 0 {
                lemma_lex_word(s, a + 1, u);
                lemma_lexes_trans(s, i, a + 1, a + 1 + u.len(), seq![Tok::Num(x)], seq![Tok::Id(u)]);
                assert(seq![Tok::Num(x)] + seq![Tok::Id(u)] =~= seq![Tok::Num(x), Tok::Id(u)]);
            }
        },
        Tree::List(items) => {
            let l = list_lines(items, level);
            let j = join_lines(l);
            let open = seq!['[', ' ', '\n'];
            lemma_at_split(s, i, open + j + spaces(level), seq![']']);
            lemma_at_split(s, i, open + j, spaces(level));
            lemma_at_split(s, i, open, j);
            assert(s[i] == s.subrange(i, i + 3)[0]);
            assert(s[i + 1] == s.subrange(i, i + 3)[1]);
            assert(s[i + 2] == s.subrange(i, i + 3)[2]);
            lemma_lex_key(s, i, '[');
            lemma_lex_skip(s, i + 1);
            lemma_lex_skip(s, i + 2);
            assert(l.take(items.len() as int) =~= l);
            assert(item_toks(items).take(items.len() as int) =~= item_toks(items));
            lemma_lex_items(s, i + 3, items, level, items.len() as int);
            let b = i + 3 + j.len();
            lemma_lexes_spaces(s, b, level);
            let c = b + level;
            assert(s[c] == s.subrange(c, c + 1)[0]);
            lemma_lex_key(s, c, ']');
            let jk = join_kinds(item_toks(items));
            lemma_lexes_trans(s, i, i + 1, i + 2, seq![Tok::Key('[')], Seq::empty());
            lemma_lexes_trans(s, i, i + 2, i + 3, seq![Tok::Key('[')] + Seq::empty(), Seq::empty());
            assert(seq![Tok::Key('[')] + Seq::<Tok>::empty() + Seq::<Tok>::empty() =~= seq![Tok::Key('[')]);
            lemma_lexes_trans(s, i, i + 3, b, seq![Tok::Key('[')], jk);
            lemma_lexes_trans(s, i, b, c, seq![Tok::Key('[')] + jk, Seq::empty());
            assert(seq![Tok::Key('[')] + jk + Seq::<Tok>::empty() =~= seq![Tok::Key('[')] + jk);
            lemma_lexes_trans(s, i, c, c + 1, seq![Tok::Key('[')] + jk, seq![Tok::Key(']')]);
        },
        Tree::Object(f) => {
            let l = field_lines(f, level);
            let j = join_lines(l);
            let open = seq!['{', ' ', '\n'];
            lemma_at_split(s, i, open + j + spaces(level), seq!['}']);
            lemma_at_split(s, i, open + j, spaces(level));
            lemma_at_split(s, i, open, j);
            assert(s[i] == s.subrange(i, i + 3)[0]);
            assert(s[i + 1] == s.subrange(i, i + 3)[1]);
            assert(s[i + 2] == s.subrange(i, i + 3)[2]);
            lemma_lex_key(s, i, '{');
            lemma_lex_skip(s, i + 1);
            lemma_lex_skip(s, i + 2);
            assert(l.take(f.len() as int) =~= l);
            assert(field_toks(f).take(f.len() as int) =~= field_toks(f));
            lemma_lex_fields(s, i + 3, f, level, f.len() as int);
            let b = i + 3 + j.len();
            lemma_lexes_spaces(s, b, level);
            let c = b + level;
            assert(s[c] == s.subrange(c, c + 1)[0]);
            lemma_lex_key(s, c, '}');
            let jk = join_kinds(field_toks(f));
            lemma_lexes_trans(s, i, i + 1, i + 2, seq![Tok::Key('{')], Seq::empty());
            lemma_lexes_trans(s, i, i + 2, i + 3, seq![Tok::Key('{')] + Seq::empty(), Seq::empty());
            assert(seq![Tok::Key('{')] + Seq::<Tok>::empty() + Seq::<Tok>::empty() =~= seq![Tok::Key('{')]);
            lemma_lexes_trans(s, i, i + 3, b, seq![Tok::Key('{')], jk);
            lemma_lexes_trans(s, i, b, c, seq![Tok::Key('{')] + jk, Seq::empty());
            assert(seq![Tok::Key('{')] + jk + Seq::<Tok>::empty() =~= seq![Tok::Key('{')] + jk);
            lemma_lexes_trans(s, i, c, c + 1, seq![Tok::Key('{')] + jk, seq![Tok::Key('}')]);
        },
    }
}

#[verifier::rlimit(40)]
proof fn lemma_lex_items(s: Seq<char>, p: int, items: Seq<Tree>, level: nat, k: int)
    requires
        0 <= k <= items.len(),
        forall|j: int| 0 <= j < items.len() ==> printable(#[trigger] items[j]),
        at(s, p, join_lines(list_lines(items, level).take(k))),
    ensures
        lexes(
            s,
            p,
            p + join_lines(list_lines(items, level).take(k)).len(),
            join_kinds(item_toks(items).take(k)),
        ),
    decreases items, 1nat, k,
{
    let l = list_lines(items, level);
    let t = item_toks(items);
    if k == 0 {
        assert(l.take(0) =~= Seq::<Seq<char>>::empty());
        assert(t.take(0) =~= Seq::<Seq<Tok>>::empty());
        lemma_lexes_none(s, p, p);
    } else {
        assert(l.take(k).drop_last() =~= l.take(k - 1));
        assert(t.take(k).drop_last() =~= t.take(k - 1));
        let prev = join_lines(l.take(k - 1));
        let inner = indent_add(level, 2);
        let line = l[k - 1];
        assert(line == spaces(inner) + emit(items[k - 1], inner) + seq!['\n']);
        lemma_at_split(s, p, prev, line);
        lemma_lex_items(s, p, items, level, k - 1);
        let q = p + prev.len();
        let ev = emit(items[k - 1], inner);
        lemma_at_split(s, q, spaces(inner) + ev, seq!['\n']);
        lemma_at_split(s, q, spaces(inner), ev);
        let r = q + inner + ev.len();
        assert(s[r] == s.subrange(r, r + 1)[0]);
        lemma_lexes_spaces(s, q, inner);
        lemma_lex_emit(s, q + inner, items[k - 1], inner);
        lemma_lex_skip(s, r);
        let pk = join_kinds(t.take(k - 1));
        lemma_lexes_trans(s, p, q, q + inner, pk, Seq::empty());
        assert(pk + Seq::<Tok>::empty() =~= pk);
        lemma_lexes_trans(s, p, q + inner, r, pk, toks(items[k - 1]));
        lemma_lexes_trans(s, p, r, r + 1, pk + toks(items[k - 1]), Seq::empty());
        assert(pk + toks(items[k - 1]) + Seq::<Tok>::empty() =~= pk + toks(items[k - 1]));
        assert(t.take(k).last() == toks(items[k - 1]));
    }
}

/// Every key is a name, every value printable.
pub open spec fn fields_printable(f: Seq<(Seq<char>, Tree)>) -> bool {
    forall|j: int| 0 <= j < f.len() ==> is_name(#[trigger] f[j].0) && printable(f[j].1)
}

#[verifier::rlimit(40)]
proof fn lemma_lex_fields(s: Seq<char>, p: int, f: Seq<(Seq<char>, Tree)>, level: nat, k: int)
    requires
        0 <= k <= f.len(),
        fields_printable(f),
        at(s, p, join_lines(field_lines(f, level).take(k))),
    ensures
        lexes(
            s,
            p,
            p + join_lines(field_lines(f, level).take(k)).len(),
            join_kinds(field_toks(f).take(k)),
        ),
    decreases f, 1nat, k,
{
    let l = field_lines(f, level);
    let t = field_toks(f);
    if k == 0 {
        assert(l.take(0) =~= Seq::<Seq<char>>::empty());
        assert(t.take(0) =~= Seq::<Seq<Tok>>::empty());
        lemma_lexes_none(s, p, p);
    } else {
        assert(l.take(k).drop_last() =~= l.take(k - 1));
        assert(t.take(k).drop_last() =~= t.take(k - 1));
        let prev = join_lines(l.take(k - 1));
        let inner = indent_add(level, 2);
        let key = f[k - 1].0;
        let val = f[k - 1].1;
        assert(is_name(key) && printable(val));
        let vl = indent_add(inner, key.len() + 2);
        let ev = emit(val, vl);
        let line = l[k - 1];
        assert(line == spaces(inner) + key + seq![':', ' '] + ev + seq!['\n']);
        lemma_at_split(s, p, prev, line);
        lemma_lex_fields(s, p, f, level, k - 1);
        let q = p + prev.len();
        lemma_at_split(s, q, spaces(inner) + key + seq![':', ' '] + ev, seq!['\n']);
        lemma_at_split(s, q, spaces(inner) + key + seq![':', ' '], ev);
        lemma_at_split(s, q, spaces(inner) + key, seq![':', ' ']);
        lemma_at_split(s, q, spaces(inner), key);
        let a = q + inner;
        let b = a + key.len();
        let c = b + 2;
        let r = c + ev.len();
        assert(s[b] == s.subrange(b, b + 2)[0]);
        assert(s[b + 1] == s.subrange(b, b + 2)[1]);
        assert(s[r] == s.subrange(r, r + 1)[0]);
        lemma_lexes_spaces(s, q, inner);
        lemma_lex_word(s, a, key);
        lemma_lex_key(s, b, ':');
        lemma_lex_skip(s, b + 1);
        lemma_lex_emit(s, c, val, vl);
        lemma_lex_skip(s, r);
        let pk = join_kinds(t.take(k - 1));
        let idk = seq![Tok::Id(key)];
        let colon = seq![Tok::Key(':')];
        let e0 = Seq::<Tok>::empty();
        lemma_lexes_trans(s, p, q, a, pk, e0);
        assert(pk + e0 =~= pk);
        lemma_lexes_trans(s, p, a, b, pk, idk);
        lemma_lexes_trans(s, p, b, b + 1, pk + idk, colon);
        lemma_lexes_trans(s, p, b + 1, c, pk + idk + colon, e0);
        assert(pk + idk + colon + e0 =~= pk + idk + colon);
        lemma_lexes_trans(s, p, c, r, pk + idk + colon, toks(val));
        lemma_lexes_trans(s, p, r, r + 1, pk + idk + colon + toks(val), e0);
        assert(pk + idk + colon + toks(val) + e0 =~= pk + (seq![Tok::Id(key), Tok::Key(':')] + toks(val)));
        assert(t.take(k).last() == seq![Tok::Id(key), Tok::Key(':')] + toks(val));
    }
}

/// The tokens from `i` on have the kinds `ks`.
pub open spec fn occurs(t: Seq<(Tok, int)>, i: int, ks: Seq<Tok>) -> bool {
    0 <= i && i + ks.len() <= t.len() && forall|k: int| 0 <= k < ks.len() ==> #[trigger] t[i + k].0 == ks[k]
}

proof fn lemma_occurs_split(t: Seq<(Tok, int)>, i: int, a: Seq<Tok>, b: Seq<Tok>)
    requires
        occurs(t, i, a + b),
    ensures
        occurs(t, i, a),
        occurs(t, i + a.len(), b),
{
    assert forall|k: int| 0 <= k < a.len() implies #[trigger] t[i + k].0 == a[k] by {
        assert((a + b)[k] == a[k]);
    }
    assert forall|k: int| 0 <= k < b.len() implies #[trigger] t[i + a.len() + k].0 == b[k] by {
        assert((a + b)[a.len() + k] == b[k]);
        assert(t[i + (a.len() + k)].0 == (a + b)[a.len() + k]);
    }
}

/// The end of the tokens, or a closing brace.
pub open spec fn closes(t: Seq<(Tok, int)>, j: int) -> bool {
    j == t.len() || (0 <= j < t.len() && t[j].0 == Tok::Key('}'))
}

/// A token that can start a value.
pub open spec fn starts_value(x: Tok) -> bool {
    x is Null || x is Bool || x is Str || x is Num || x == Tok::Key('[') || x == Tok::Key('{')
}

proof fn lemma_first_tok(v: Tree)
    ensures
        toks(v).len() > 0,
        starts_value(toks(v)[0]),
{
}

/// What may follow a value's tokens: anything but a name when the value
/// is a number without a unit.
pub open spec fn follow_ok(t: Seq<(Tok, int)>, j: int, v: Tree) -> bool {
    unitless(v) ==> (j >= t.len() || !(t[j].0 is Id))
}

proof fn lemma_insert_last(e: Seq<(Seq<char>, Tree)>, k: Seq<char>, v: Tree)
    requires
        forall|j: int| 0 <= j < e.len() ==> key_lt(#[trigger] e[j].0, k),
    ensures
        insert_field(e, k, v) == e.push((k, v)),
    decreases e.len(),
{
    if e.len() > 0 {
        lemma_key_lt_irreflexive(k);
        lemma_key_lt_asymmetric(e[0].0, k);
        assert forall|j: int| 0 <= j < e.skip(1).len() implies key_lt(#[trigger] e.skip(1)[j].0, k) by {
            assert(e.skip(1)[j] == e[j + 1]);
        }
        lemma_insert_last(e.skip(1), k, v);
        assert(seq![e[0]] + e.skip(1).push((k, v)) =~= e.push((k, v)));
    }
}

proof fn lemma_parse_value(t: Seq<(Tok, int)>, i: int, end: int, v: Tree)
    requires
        printable(v),
        occurs(t, i, toks(v)),
        follow_ok(t, i + toks(v).len(), v),
    ensures
        value_at(t, i, end) == Ok::<_, crate::lexer::ParseError>((v, i + toks(v).len())),
    decreases v, 2nat, 0int,
{
    assert(t[i + 0].0 == toks(v)[0]);
    match v {
        Tree::Number(x, u) => {
            if u.len() > 0 {
                assert(t[i + 1].0 == toks(v)[1]);
            } else {
                assert(u =~= Seq::<char>::empty());
            }
        },
        Tree::List(items) => {
            lemma_parse_list(t, i, end, items);
        },
        Tree::Object(f) => {
            lemma_parse_object(t, i, end, f);
        },
        _ => {},
    }
}

proof fn lemma_parse_list(t: Seq<(Tok, int)>, i: int, end: int, items: Seq<Tree>)
    requires
        printable(Tree::List(items)),
        occurs(t, i, toks(Tree::List(items))),
    ensures
        value_at(t, i, end) == Ok::<_, crate::lexer::ParseError>(
            (Tree::List(items), i + toks(Tree::List(items)).len()),
        ),
    decreases items, 3nat, 0int,
{
    let jk = join_kinds(item_toks(items));
    lemma_occurs_split(t, i, seq![Tok::Key('[')] + jk, seq![Tok::Key(']')]);
    lemma_occurs_split(t, i, seq![Tok::Key('[')], jk);
    assert(t[i + 0].0 == Tok::Key('['));
    let c = i + 1 + jk.len();
    assert(t[c + 0].0 == Tok::Key(']'));
    assert(item_toks(items).take(items.len() as int) =~= item_toks(items));
    assert(items.take(items.len() as int) =~= items);
    lemma_parse_items(t, i + 1, end, items, items.len() as int);
    assert(items.take(0) =~= Seq::<Tree>::empty());
}

proof fn lemma_parse_object(t: Seq<(Tok, int)>, i: int, end: int, f: Seq<(Seq<char>, Tree)>)
    requires
        printable(Tree::Object(f)),
        occurs(t, i, toks(Tree::Object(f))),
    ensures
        value_at(t, i, end) == Ok::<_, crate::lexer::ParseError>(
            (Tree::Object(f), i + toks(Tree::Object(f)).len()),
        ),
    decreases f, 3nat, 0int,
{
    let jk = join_kinds(field_toks(f));
    lemma_occurs_split(t, i, seq![Tok::Key('{')] + jk, seq![Tok::Key('}')]);
    lemma_occurs_split(t, i, seq![Tok::Key('{')], jk);
    assert(t[i + 0].0 == Tok::Key('{'));
    let c = i + 1 + jk.len();
    assert(t[c + 0].0 == Tok::Key('}'));
    assert(field_toks(f).take(f.len() as int) =~= field_toks(f));
    assert(f.take(f.len() as int) =~= f);
    lemma_parse_fields(t, i + 1, end, f, f.len() as int);
    assert(f.take(0) =~= Seq::<(Seq<char>, Tree)>::empty());
}

#[verifier::rlimit(40)]
proof fn lemma_parse_items(t: Seq<(Tok, int)>, p: int, end: int, items: Seq<Tree>, k: int)
    requires
        0 <= k <= items.len(),
        forall|j: int| 0 <= j < items.len() ==> printable(#[trigger] items[j]),
        occurs(t, p, join_kinds(item_toks(items))),
        p + join_kinds(item_toks(items)).len() < t.len(),
        t[p + join_kinds(item_toks(items)).len()].0 == Tok::Key(']'),
    ensures
        items_at(t, p, end, Seq::empty()) == items_at(
            t,
            p + join_kinds(item_toks(items).take(k)).len(),
            end,
            items.take(k),
        ),
    decreases items, 1nat, k,
{
    let it = item_toks(items);
    if k == 0 {
        assert(it.take(0) =~= Seq::<Seq<Tok>>::empty());
        assert(items.take(0) =~= Seq::<Tree>::empty());
    } else {
        lemma_parse_items(t, p, end, items, k - 1);
        assert(it.take(k).drop_last() =~= it.take(k - 1));
        let pre = join_kinds(it.take(k - 1));
        let cur = toks(items[k - 1]);
        assert(it.take(k).last() == cur);
        let rest = it.skip(k);
        lemma_join_kinds_split(it, k);
        lemma_occurs_split(t, p, join_kinds(it.take(k)), join_kinds(rest));
        lemma_occurs_split(t, p, pre, cur);
        let q = p + pre.len();
        let r = q + cur.len();
        lemma_first_tok(items[k - 1]);
        assert(t[q + 0].0 == cur[0]);
        if r < p + join_kinds(it).len() {
            assert(rest.len() > 0);
            assert(rest[0] == toks(items[k]));
            lemma_first_tok(items[k]);
            assert(join_kinds(rest) == join_kinds(rest.take(1)) + join_kinds(rest.skip(1))) by {
                lemma_join_kinds_split(rest, 1);
            }
            assert(rest.take(1).drop_last() =~= Seq::<Seq<Tok>>::empty());
            assert(join_kinds(rest.take(1).drop_last()) == Seq::<Tok>::empty());
            assert(Seq::<Tok>::empty() + rest.take(1).last() =~= rest[0]);
            assert(join_kinds(rest.take(1)) == rest[0]);
            lemma_occurs_split(t, r, join_kinds(rest.take(1)), join_kinds(rest.skip(1)));
            assert(t[r + 0].0 == toks(items[k])[0]);
        }
        lemma_parse_value(t, q, end, items[k - 1]);
        assert(items.take(k - 1).push(items[k - 1]) =~= items.take(k));
    }
}

proof fn lemma_join_kinds_split(parts: Seq<Seq<Tok>>, k: int)
    requires
        0 <= k <= parts.len(),
    ensures
        join_kinds(parts) == join_kinds(parts.take(k)) + join_kinds(parts.skip(k)),
    decreases parts.len(),
{
    if k == parts.len() {
        assert(parts.take(k) =~= parts);
        assert(parts.skip(k) =~= Seq::<Seq<Tok>>::empty());
        assert(join_kinds(parts) + Seq::<Tok>::empty() =~= join_kinds(parts));
    } else {
        lemma_join_kinds_split(parts.drop_last(), k);
        assert(parts.drop_last().take(k) =~= parts.take(k));
        assert(parts.skip(k).drop_last() =~= parts.drop_last().skip(k));
        assert(parts.skip(k).last() == parts.last());
        assert(join_kinds(parts.take(k)) + join_kinds(parts.drop_last().skip(k)) + parts.last()
            =~= join_kinds(parts.take(k)) + (join_kinds(parts.drop_last().skip(k)) + parts.last()));
    }
}

#[verifier::rlimit(40)]
proof fn lemma_parse_fields(t: Seq<(Tok, int)>, p: int, end: int, f: Seq<(Seq<char>, Tree)>, k: int)
    requires
        0 <= k <= f.len(),
        printable(Tree::Object(f)),
        occurs(t, p, join_kinds(field_toks(f))),
        closes(t, p + join_kinds(field_toks(f)).len()),
    ensures
        fields_at(t, p, end, Seq::empty()) == fields_at(
            t,
            p + join_kinds(field_toks(f).take(k)).len(),
            end,
            f.take(k),
        ),
    decreases f, 1nat, k,
{
    let ft = field_toks(f);
    if k == 0 {
        assert(ft.take(0) =~= Seq::<Seq<Tok>>::empty());
        assert(f.take(0) =~= Seq::<(Seq<char>, Tree)>::empty());
    } else {
        lemma_parse_fields(t, p, end, f, k - 1);
        assert(ft.take(k).drop_last() =~= ft.take(k - 1));
        let pre = join_kinds(ft.take(k - 1));
        let key = f[k - 1].0;
        let val = f[k - 1].1;
        assert(is_name(key) && printable(val));
        let head = seq![Tok::Id(key), Tok::Key(':')];
        let cur = head + toks(val);
        assert(ft.take(k).last() == cur);
        lemma_join_kinds_split(ft, k);
        lemma_occurs_split(t, p, join_kinds(ft.take(k)), join_kinds(ft.skip(k)));
        lemma_occurs_split(t, p, pre, cur);
        let q = p + pre.len();
        lemma_occurs_split(t, q, head, toks(val));
        assert(t[q + 0].0 == Tok::Id(key));
        assert(t[q + 1].0 == Tok::Key(':'));
        let r = q + cur.len();
        if k == f.len() {
            assert(ft.take(k) =~= ft);
        } else {
            assert(!unitless(val));
        }
        lemma_parse_value(t, q + 2, end, val);
        assert forall|j: int| 0 <= j < f.take(k - 1).len() implies key_lt(
            #[trigger] f.take(k - 1)[j].0,
            key,
        ) by {
            assert(f.take(k - 1)[j] == f[j]);
        }
        lemma_insert_last(f.take(k - 1), key, val);
        assert(f.take(k - 1).push((key, val)) =~= f.take(k));
    }
}

proof fn lemma_no_comment(parts: Seq<Seq<Tok>>)
    requires
        forall|j: int, m: int|
            0 <= j < parts.len() && 0 <= m < parts[j].len() ==> !(#[trigger] parts[j][m] is Comment),
    ensures
        forall|m: int| 0 <= m < join_kinds(parts).len() ==> !(#[trigger] join_kinds(parts)[m] is Comment),
    decreases parts.len(),
{
    if parts.len() > 0 {
        lemma_no_comment(parts.drop_last());
        let a = join_kinds(parts.drop_last());
        assert forall|m: int| 0 <= m < join_kinds(parts).len() implies !(
        #[trigger] join_kinds(parts)[m] is Comment) by {
            if m >= a.len() {
                assert(join_kinds(parts)[m] == parts[parts.len() - 1][m - a.len()]);
            } else {
                assert(join_kinds(parts)[m] == a[m]);
            }
        }
    }
}

proof fn lemma_toks_no_comment(v: Tree)
    ensures
        forall|m: int| 0 <= m < toks(v).len() ==> !(#[trigger] toks(v)[m] is Comment),
    decreases v, 1nat,
{
    match v {
        Tree::List(items) => {
            let it = item_toks(items);
            assert forall|j: int, m: int| 0 <= j < it.len() && 0 <= m < it[j].len() implies !(
            #[trigger] it[j][m] is Comment) by {
                lemma_toks_no_comment(items[j]);
            }
            lemma_no_comment(it);
            let jk = join_kinds(it);
            assert forall|m: int| 0 <= m < toks(v).len() implies !(#[trigger] toks(v)[m] is Comment) by {
                if 0 < m <= jk.len() {
                    assert(toks(v)[m] == jk[m - 1]);
                }
            }
        },
        Tree::Object(f) => {
            let ft = field_toks(f);
            assert forall|j: int, m: int| 0 <= j < ft.len() && 0 <= m < ft[j].len() implies !(
            #[trigger] ft[j][m] is Comment) by {
                lemma_toks_no_comment(f[j].1);
                if m >= 2 {
                    assert(ft[j][m] == toks(f[j].1)[m - 2]);
                }
            }
            lemma_no_comment(ft);
            let jk = join_kinds(ft);
            assert forall|m: int| 0 <= m < toks(v).len() implies !(#[trigger] toks(v)[m] is Comment) by {
                if 0 < m <= jk.len() {
                    assert(toks(v)[m] == jk[m - 1]);
                }
            }
        },
        _ => {},
    }
}

proof fn lemma_without_comments(t: Seq<(Tok, int)>)
    requires
        forall|m: int| 0 <= m < t.len() ==> !(#[trigger] t[m].0 is Comment),
    ensures
        without_comments(t) == t,
    decreases t.len(),
{
    if t.len() > 0 {
        lemma_without_comments(t.drop_last());
        assert(t.drop_last().push(t.last()) =~= t);
    }
}

/// A printable object, printed at indentation zero (what
/// `PrettyPrinter::print` writes, by its contract), parses back to the same
/// object (what `parse_str` returns, by its contract).
#[verifier::rlimit(40)]
pub proof fn lemma_round_trip(v: Tree)
    requires
        v is Object,
        printable(v),
    ensures
        parse_spec(emit(v, 0)) == Ok::<_, crate::lexer::ParseError>(v),
{
    let s = emit(v, 0);
    assert(s.subrange(0, s.len() as int) =~= s);
    lemma_lex_emit(s, 0, v, 0);
    assert(lex_from(s, s.len() as int) == Ok::<_, crate::lexer::ParseError>(Seq::<(Tok, int)>::empty()));
    let t = lex_spec(s)->Ok_0;
    assert(kinds(Seq::<(Tok, int)>::empty()) =~= Seq::<Tok>::empty());
    assert(toks(v) + Seq::<Tok>::empty() =~= toks(v));
    assert(kinds(t) == toks(v));
    lemma_toks_no_comment(v);
    assert forall|m: int| 0 <= m < t.len() implies !(#[trigger] t[m].0 is Comment) by {
        assert(kinds(t)[m] == t[m].0);
    }
    lemma_without_comments(t);
    assert forall|k: int| 0 <= k < toks(v).len() implies #[trigger] t[0 + k].0 == toks(v)[k] by {
        assert(kinds(t)[k] == t[k].0);
    }
    lemma_parse_value(t, 0, s.len() as int, v);
    assert(t[0int].0 == Tok::Key('{'));
}

proof fn lemma_escape_first(t: Seq<char>)
    requires
        t.len() > 0,
    ensures
        escape_text(t).len() > 0,
        escape_text(t)[0] == (if t[0] == '\\' || t[0] == '"' {
            '\\'
        } else {
            t[0]
        }),
    decreases t.len(),
{
    if t.len() > 1 {
        lemma_escape_first(t.drop_last());
        assert(t.drop_last()[0] == t[0]);
    } else {
        assert(t.drop_last() =~= Seq::<char>::empty());
        assert(escape_text(t.drop_last()) == Seq::<char>::empty());
    }
}

/// Decoding the escaped form of `u`, found in `s` at `p`, gives back `u`
/// and goes on after it.
proof fn lemma_escaped_body(s: Seq<char>, p: int, u: Seq<char>)
    requires
        0 <= p,
        p + escape_text(u).len() <= s.len(),
        s.subrange(p, p + escape_text(u).len()) == escape_text(u),
    ensures
        string_body(s, p) == join_text(u, string_body(s, p + escape_text(u).len())),
    decreases u.len(),
{
    if u.len() == 0 {
        if let Ok((t, j)) = string_body(s, p) {
            assert(Seq::<char>::empty() + t =~= t);
        }
    } else {
        let w = u.drop_last();
        let c = u.last();
        let ew = escape_text(w);
        let m = p + ew.len();
        assert(s.subrange(p, m) =~= s.subrange(p, p + escape_text(u).len()).subrange(0, ew.len() as int));
        assert(escape_text(u).subrange(0, ew.len() as int) =~= ew);
        lemma_escaped_body(s, p, w);
        assert(s[m] == escape_text(u)[ew.len() as int]);
        if c == '\\' || c == '"' {
            assert(s[m + 1] == escape_text(u)[ew.len() as int + 1]);
            assert(string_body(s, m) == join_text(seq![c], string_body(s, m + 2)));
            lemma_join_text(w, seq![c], string_body(s, m + 2));
        } else {
            assert(string_body(s, m) == join_text(seq![c], string_body(s, m + 1)));
            lemma_join_text(w, seq![c], string_body(s, m + 1));
        }
        assert(w + seq![c] =~= u);
    }
}

/// The text `k: v1`, a newline, `k: v2`.
pub open spec fn two_fields(k: Seq<char>, v1: Tree, v2: Tree) -> Seq<char> {
    k + seq![':', ' '] + emit(v1, 0) + seq!['\n'] + k + seq![':', ' '] + emit(v2, 0)
}

/// The text `k: v` lexes to a name, a colon and the value's tokens.
#[verifier::rlimit(40)]
proof fn lemma_lex_field(s: Seq<char>, i: int, k: Seq<char>, v: Tree)
    requires
        is_name(k),
        printable(v),
        at(s, i, k + seq![':', ' '] + emit(v, 0)),
        end_ok(s, i + k.len() + 2 + emit(v, 0).len()),
    ensures
        lexes(
            s,
            i,
            i + k.len() + 2 + emit(v, 0).len(),
            seq![Tok::Id(k), Tok::Key(':')] + toks(v),
        ),
{
    let cs = seq![':', ' '];
    let e = emit(v, 0);
    lemma_at_split(s, i, k + cs, e);
    lemma_at_split(s, i, k, cs);
    let a = i + k.len();
    let b = a + 2;
    let c = b + e.len();
    assert(s[a] == s.subrange(a, a + 2)[0]);
    assert(s[a + 1] == s.subrange(a, a + 2)[1]);
    lemma_lex_word(s, i, k);
    lemma_lex_key(s, a, ':');
    lemma_lex_skip(s, a + 1);
    lemma_lex_emit(s, b, v, 0);
    let e0 = Seq::<Tok>::empty();
    let k1 = seq![Tok::Id(k)];
    let kc = seq![Tok::Key(':')];
    lemma_lexes_trans(s, i, a, a + 1, k1, kc);
    lemma_lexes_trans(s, i, a + 1, b, k1 + kc, e0);
    lemma_lexes_trans(s, i, b, c, k1 + kc + e0, toks(v));
    assert(k1 + kc + e0 + toks(v) =~= seq![Tok::Id(k), Tok::Key(':')] + toks(v));
}

proof fn lemma_two_fields_lex(k: Seq<char>, v1: Tree, v2: Tree)
    requires
        is_name(k),
        printable(v1),
        printable(v2),
    ensures
        lex_spec(two_fields(k, v1, v2)) is Ok,
        kinds(lex_spec(two_fields(k, v1, v2))->Ok_0) == seq![Tok::Id(k), Tok::Key(':')] + toks(v1)
            + seq![Tok::Id(k), Tok::Key(':')] + toks(v2),
{
    let cs = seq![':', ' '];
    let nl = seq!['\n'];
    let f1 = k + cs + emit(v1, 0);
    let f2 = k + cs + emit(v2, 0);
    let s = two_fields(k, v1, v2);
    assert(s =~= f1 + nl + f2);
    let n = s.len() as int;
    assert(s.subrange(0, n) =~= s);
    lemma_at_split(s, 0, f1 + nl, f2);
    lemma_at_split(s, 0, f1, nl);
    let c1 = f1.len() as int;
    assert(s[c1] == s.subrange(c1, c1 + 1)[0]);
    lemma_lex_field(s, 0, k, v1);
    lemma_lex_skip(s, c1);
    lemma_lex_field(s, c1 + 1, k, v2);
    let t1 = seq![Tok::Id(k), Tok::Key(':')] + toks(v1);
    let t2 = seq![Tok::Id(k), Tok::Key(':')] + toks(v2);
    let e0 = Seq::<Tok>::empty();
    lemma_lexes_trans(s, 0, c1, c1 + 1, t1, e0);
    lemma_lexes_trans(s, 0, c1 + 1, n, t1 + e0, t2);
    let ks = t1 + t2;
    assert(t1 + e0 + t2 =~= ks);
    assert(seq![Tok::Id(k), Tok::Key(':')] + toks(v1) + seq![Tok::Id(k), Tok::Key(':')] + toks(v2) =~= ks);
    assert(lex_from(s, n) == Ok::<_, crate::lexer::ParseError>(Seq::<(Tok, int)>::empty()));
    assert(kinds(Seq::<(Tok, int)>::empty()) =~= Seq::<Tok>::empty());
    assert(ks + Seq::<Tok>::empty() =~= ks);
}

#[verifier::rlimit(40)]
proof fn lemma_two_fields_parse(t: Seq<(Tok, int)>, end: int, k: Seq<char>, v1: Tree, v2: Tree)
    requires
        printable(v1),
        printable(v2),
        !unitless(v1),
        kinds(t) == seq![Tok::Id(k), Tok::Key(':')] + toks(v1) + seq![Tok::Id(k), Tok::Key(':')]
            + toks(v2),
    ensures
        root_of(t, end) == Ok::<_, crate::lexer::ParseError>(Tree::Object(seq![(k, v2)])),
{
    let head = seq![Tok::Id(k), Tok::Key(':')];
    let ks = head + toks(v1) + head + toks(v2);
    assert forall|j: int| 0 <= j < ks.len() implies #[trigger] t[0 + j].0 == ks[j] by {
        assert(kinds(t)[j] == t[j].0);
    }
    lemma_occurs_split(t, 0, head + toks(v1) + head, toks(v2));
    lemma_occurs_split(t, 0, head + toks(v1), head);
    lemma_occurs_split(t, 0, head, toks(v1));
    let p1 = 2 + toks(v1).len() as int;
    assert(kinds(t)[0] == t[0int].0);
    assert(kinds(t)[1] == t[1int].0);
    assert(ks[0] == Tok::Id(k));
    assert(ks[1] == Tok::Key(':'));
    assert(t.len() == ks.len());
    assert(t[p1 + 0].0 == Tok::Id(k));
    assert(t[p1 + 1].0 == Tok::Key(':'));
    lemma_parse_value(t, 2, end, v1);
    lemma_parse_value(t, p1 + 2, end, v2);
    let one = insert_field(Seq::empty(), k, v1);
    assert(one == seq![(k, v1)]);
    assert(insert_field(one, k, v2) =~= seq![(k, v2)]);
    let n = t.len() as int;
    assert(p1 + 2 + toks(v2).len() == n);
    assert(fields_at(t, n, end, seq![(k, v2)]) == Ok::<_, crate::lexer::ParseError>((seq![(k, v2)], n)));
    assert(fields_at(t, p1, end, one) == fields_at(t, n, end, seq![(k, v2)]));
    assert(fields_at(t, 0, end, Seq::empty()) == fields_at(t, p1, end, one));
    assert(t[0int].0 != Tok::Key('{'));
}

/// A field given twice keeps the value given last: `k: v1` then `k: v2`
/// parses to the object whose only field is `k: v2`.  The first value is no
/// number without a unit, as the repeated key would read as its unit.
#[verifier::rlimit(40)]
pub proof fn lemma_duplicate_key(k: Seq<char>, v1: Tree, v2: Tree)
    requires
        is_name(k),
        printable(v1),
        printable(v2),
        !unitless(v1),
    ensures
        parse_spec(two_fields(k, v1, v2)) == Ok::<_, crate::lexer::ParseError>(
            Tree::Object(seq![(k, v2)]),
        ),
{
    let s = two_fields(k, v1, v2);
    lemma_two_fields_lex(k, v1, v2);
    let t = lex_spec(s)->Ok_0;
    let l1 = toks(v1).len() as int;
    let ks = seq![Tok::Id(k), Tok::Key(':')] + toks(v1) + seq![Tok::Id(k), Tok::Key(':')] + toks(v2);
    lemma_toks_no_comment(v1);
    lemma_toks_no_comment(v2);
    assert(t.len() == kinds(t).len());
    assert(ks.len() == 4 + l1 + toks(v2).len());
    assert forall|m: int| 0 <= m < t.len() implies !(#[trigger] t[m].0 is Comment) by {
        assert(kinds(t)[m] == t[m].0);
        if 2 <= m < 2 + l1 {
            assert(ks[m] == toks(v1)[m - 2]);
        } else if m >= 4 + l1 {
            assert(ks[m] == toks(v2)[m - (4 + l1)]);
        }
    }
    lemma_without_comments(t);
    lemma_two_fields_parse(t, s.len() as int, k, v1, v2);
}
/// Root braces may be left out: the fields of a printable object, printed
/// without the braces around them, parse to the same object as the text
/// with the braces.
#[verifier::rlimit(40)]
pub proof fn lemma_root_braces(f: Seq<(Seq<char>, Tree)>)
    requires
        printable(Tree::Object(f)),
    ensures
        parse_spec(join_lines(field_lines(f, 0))) == parse_spec(emit(Tree::Object(f), 0)),
        parse_spec(join_lines(field_lines(f, 0))) == Ok::<_, crate::lexer::ParseError>(Tree::Object(f)),
{
    lemma_round_trip(Tree::Object(f));
    let l = field_lines(f, 0);
    let s = join_lines(l);
    let n = s.len() as int;
    assert(s.subrange(0, n) =~= s);
    assert(l.take(f.len() as int) =~= l);
    let ft = field_toks(f);
    assert(ft.take(f.len() as int) =~= ft);
    lemma_lex_fields(s, 0, f, 0, f.len() as int);
    assert(lex_from(s, n) == Ok::<_, crate::lexer::ParseError>(Seq::<(Tok, int)>::empty()));
    let t = lex_spec(s)->Ok_0;
    let jk = join_kinds(ft);
    assert(kinds(Seq::<(Tok, int)>::empty()) =~= Seq::<Tok>::empty());
    assert(jk + Seq::<Tok>::empty() =~= jk);
    assert(kinds(t) == jk);
    assert forall|j: int, m: int| 0 <= j < ft.len() && 0 <= m < ft[j].len() implies !(
    #[trigger] ft[j][m] is Comment) by {
        lemma_toks_no_comment(f[j].1);
        if m >= 2 {
            assert(ft[j][m] == toks(f[j].1)[m - 2]);
        }
    }
    lemma_no_comment(ft);
    assert forall|m: int| 0 <= m < t.len() implies !(#[trigger] t[m].0 is Comment) by {
        assert(kinds(t)[m] == t[m].0);
    }
    lemma_without_comments(t);
    assert forall|k: int| 0 <= k < jk.len() implies #[trigger] t[0 + k].0 == jk[k] by {
        assert(kinds(t)[k] == t[k].0);
    }
    assert(t.len() == jk.len());
    lemma_parse_fields(t, 0, n, f, f.len() as int);
    assert(f.take(f.len() as int) =~= f);
    if t.len() > 0 {
        assert(kinds(t)[0] == t[0int].0);
        assert(ft.len() > 0);
        lemma_join_kinds_split(ft, 1);
        assert(ft.take(1).drop_last() =~= Seq::<Seq<Tok>>::empty());
        assert(join_kinds(ft.take(1).drop_last()) == Seq::<Tok>::empty());
        assert(Seq::<Tok>::empty() + ft.take(1).last() =~= ft[0]);
        assert(jk[0] == ft[0][0]);
    }
}

} // verus!
