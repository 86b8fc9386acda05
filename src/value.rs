//! The value tree produced by the parser, and its accessors.

use vstd::prelude::*;
use crate::lexer::{float_literal_ok, is_float_literal};
use crate::parser::chars_of;

verus! {

/// What went wrong when a value was read as something it is not.
#[derive(Debug, Clone, Copy, PartialEq, Eq, Structural)]
pub enum ShaunError {
    NotANumber,
    NotAString,
    NotABool,
    NotAList,
    NotAnObject,
    OutOfBound,
    AttributeNotFound,
}

/// A parsed value.
///
/// A number keeps its decimal literal exactly as written (for instance
/// `10.5`) together with its unit, which is empty when none followed.
#[derive(Debug, PartialEq)]
pub enum Shaun {
    Null,
    Number(String, String),
    String(String),
    Bool(bool),
    List(Vec<Shaun>),
    Object(ShaunMap),
}

/// The fields of an object: each key at most once, kept in ascending order
/// of keys, so that two objects with the same fields are equal whatever
/// order the fields were inserted in.
#[derive(Debug, PartialEq)]
pub struct ShaunMap {
    pub(crate) entries: Vec<(String, Shaun)>,
}

/// The mathematical form of a value.
pub ghost enum Tree {
    Null,
    Number(Seq<char>, Seq<char>),
    Str(Seq<char>),
    Bool(bool),
    List(Seq<Tree>),
    Object(Seq<(Seq<char>, Tree)>),
}

impl Shaun {
    pub open(crate) spec fn view(&self) -> Tree
        decreases self,
    {
        match self {
            Shaun::Null => Tree::Null,
            Shaun::Number(x, u) => Tree::Number(x@, u@),
            Shaun::String(s) => Tree::Str(s@),
            Shaun::Bool(b) => Tree::Bool(*b),
            Shaun::List(l) => Tree::List(
                Seq::new(
                    l.len() as nat,
                    |i: int|
                        if 0 <= i < l.len() {
                            l[i].view()
                        } else {
                            Tree::Null
                        },
                ),
            ),
            Shaun::Object(m) => Tree::Object(
                Seq::new(
                    m.entries.len() as nat,
                    |i: int|
                        if 0 <= i < m.entries.len() {
                            (m.entries[i].0@, m.entries[i].1.view())
                        } else {
                            (Seq::empty(), Tree::Null)
                        },
                ),
            ),
        }
    }
}

/// Lexicographic order of keys, character by character.
pub open spec fn key_lt(a: Seq<char>, b: Seq<char>) -> bool
    decreases a.len(),
{
    if a.len() == 0 {
        b.len() > 0
    } else if b.len() == 0 {
        false
    } else if a[0] != b[0] {
        a[0] < b[0]
    } else {
        key_lt(a.skip(1), b.skip(1))
    }
}

pub proof fn lemma_key_lt_irreflexive(a: Seq<char>)
    ensures
        !key_lt(a, a),
    decreases a.len(),
{
    if a.len() > 0 {
        lemma_key_lt_irreflexive(a.skip(1));
    }
}

pub proof fn lemma_key_lt_total(a: Seq<char>, b: Seq<char>)
    ensures
        a == b || key_lt(a, b) || key_lt(b, a),
    decreases a.len(),
{
    if a.len() > 0 && b.len() > 0 && a[0] == b[0] {
        lemma_key_lt_total(a.skip(1), b.skip(1));
        if a.skip(1) == b.skip(1) {
            assert(a =~= seq![a[0]] + a.skip(1));
            assert(b =~= seq![b[0]] + b.skip(1));
        }
    } else if a.len() == 0 && b.len() == 0 {
        assert(a =~= b);
    }
}

pub proof fn lemma_key_lt_transitive(a: Seq<char>, b: Seq<char>, c: Seq<char>)
    requires
        key_lt(a, b),
        key_lt(b, c),
    ensures
        key_lt(a, c),
    decreases a.len(),
{
    if a.len() > 0 && b.len() > 0 && c.len() > 0 && a[0] == b[0] && b[0] == c[0] {
        lemma_key_lt_transitive(a.skip(1), b.skip(1), c.skip(1));
    }
}

pub proof fn lemma_key_lt_asymmetric(a: Seq<char>, b: Seq<char>)
    requires
        key_lt(a, b),
    ensures
        !key_lt(b, a),
{
    if key_lt(b, a) {
        lemma_key_lt_transitive(a, b, a);
        lemma_key_lt_irreflexive(a);
    }
}

/// Relies on `Ord for str`, which orders strings lexicographically by
/// their bytes, that is by code points, one character after the other.
#[verifier::external_body]
fn compare_keys(a: &str, b: &str) -> (r: std::cmp::Ordering)
    ensures
        (r == std::cmp::Ordering::Less) == key_lt(a@, b@),
        (r == std::cmp::Ordering::Equal) == (a@ == b@),
{
    a.cmp(b)
}

/// Fields whose keys ascend strictly.
pub open spec fn sorted_fields(e: Seq<(Seq<char>, Tree)>) -> bool {
    forall|i: int, j: int| 0 <= i < j < e.len() ==> key_lt(#[trigger] e[i].0, #[trigger] e[j].0)
}

/// The value stored under `k`, if any.
pub open spec fn lookup(e: Seq<(Seq<char>, Tree)>, k: Seq<char>) -> Option<Tree>
    decreases e.len(),
{
    if e.len() == 0 {
        None
    } else if e[0].0 == k {
        Some(e[0].1)
    } else {
        lookup(e.skip(1), k)
    }
}

/// `e` with `v` stored under `k`: the field of that key, if there is one,
/// is replaced; else a field is added where the key order puts it.
pub open spec fn insert_field(e: Seq<(Seq<char>, Tree)>, k: Seq<char>, v: Tree) -> Seq<
    (Seq<char>, Tree),
>
    decreases e.len(),
{
    if e.len() == 0 {
        seq![(k, v)]
    } else if e[0].0 == k {
        seq![(k, v)] + e.skip(1)
    } else if key_lt(k, e[0].0) {
        seq![(k, v)] + e
    } else {
        seq![e[0]] + insert_field(e.skip(1), k, v)
    }
}

/// After storing `v` under `k`, looking `k` up gives `v`, and every other
/// key gives what it gave before: the last value stored under a key wins.
pub proof fn lemma_insert_lookup(e: Seq<(Seq<char>, Tree)>, k: Seq<char>, v: Tree, k2: Seq<char>)
    ensures
        lookup(insert_field(e, k, v), k2) == (if k2 == k {
            Some(v)
        } else {
            lookup(e, k2)
        }),
    decreases e.len(),
{
    let ins = insert_field(e, k, v);
    if e.len() == 0 {
        assert(ins == seq![(k, v)]);
        assert(ins.len() == 1);
        assert(ins[0] == (k, v));
        assert(lookup(ins, k2) == if k2 == k { Some(v) } else { lookup(ins.skip(1), k2) });
        assert(ins.skip(1) =~= Seq::<(Seq<char>, Tree)>::empty());
    } else if e[0].0 == k {
        assert(ins[0] == (k, v));
        assert(ins.skip(1) =~= e.skip(1));
    } else if key_lt(k, e[0].0) {
        assert(ins[0] == (k, v));
        assert(ins.skip(1) =~= e);
    } else {
        lemma_insert_lookup(e.skip(1), k, v, k2);
        assert(ins[0] == e[0]);
        assert(ins.skip(1) =~= insert_field(e.skip(1), k, v));
    }
}

pub open spec fn trees(l: Seq<Shaun>) -> Seq<Tree> {
    l.map_values(|x: Shaun| x@)
}

pub proof fn lemma_list_view(l: Vec<Shaun>)
    ensures
        Shaun::List(l)@ == Tree::List(trees(l@)),
{
    if let Tree::List(s) = Shaun::List(l)@ {
        assert(s =~= trees(l@));
    }
}

pub proof fn lemma_object_view(m: ShaunMap)
    ensures
        Shaun::Object(m)@ == Tree::Object(m@),
{
    if let Tree::Object(s) = Shaun::Object(m)@ {
        assert(s =~= m@);
    }
}

impl ShaunMap {
    pub open(crate) spec fn view(&self) -> Seq<(Seq<char>, Tree)> {
        Seq::new(self.entries.len() as nat, |i: int| (self.entries[i].0@, self.entries[i].1@))
    }

    /// Keys ascend strictly.
    pub open(crate) spec fn wf(&self) -> bool {
        sorted_fields(self@)
    }

    /// An object without fields.
    pub fn new() -> (r: ShaunMap)
        ensures
            r@ == Seq::<(Seq<char>, Tree)>::empty(),
            r.wf(),
    {
        ShaunMap { entries: Vec::new() }
    }

    /// The number of fields.
    pub fn len(&self) -> (r: usize)
        ensures
            r == self@.len(),
    {
        self.entries.len()
    }

    /// The fields, in ascending order of keys.
    pub fn entries(&self) -> (r: &Vec<(String, Shaun)>)
        ensures
            r.len() == self@.len(),
            forall|i: int| 0 <= i < r.len() ==> (#[trigger] r@[i].0@, r@[i].1@) == self@[i],
    {
        &self.entries
    }

    /// The value stored under `key`, if any.
    pub fn get(&self, key: &str) -> (r: Option<&Shaun>)
        ensures
            r matches Some(v) ==> exists|i: int|
                0 <= i < self@.len() && #[trigger] self@[i] == (key@, v@),
            r is None ==> forall|i: int| 0 <= i < self@.len() ==> (#[trigger] self@[i]).0 != key@,
            r matches Some(v) ==> lookup(self@, key@) == Some(v@),
            r is None ==> lookup(self@, key@) is None,
    {
        let mut i: usize = 0;
        assert(self@.skip(0) =~= self@);
        while i < self.entries.len()
            invariant
                i <= self.entries.len(),
                forall|j: int| 0 <= j < i ==> (#[trigger] self@[j]).0 != key@,
                lookup(self@, key@) == lookup(self@.skip(i as int), key@),
            decreases self.entries.len() - i,
        {
            assert(self@.skip(i as int)[0] == self@[i as int]);
            if let std::cmp::Ordering::Equal = compare_keys(self.entries[i].0.as_str(), key) {
                assert(self@[i as int] == (key@, self.entries[i as int].1@));
                return Some(&self.entries[i].1);
            }
            assert(self@.skip(i as int).skip(1) =~= self@.skip(i + 1));
            i = i + 1;
        }
        assert(self@.skip(i as int) =~= Seq::<(Seq<char>, Tree)>::empty());
        None
    }

    /// Stores `value` under `key`, replacing what was stored there.
    #[verifier::rlimit(40)]
    pub fn insert(&mut self, key: String, value: Shaun)
        ensures
            old(self).wf() ==> final(self).wf(),
            final(self)@ == insert_field(old(self)@, key@, value@),
    {
        let ghost e = self@;
        let ghost k = key@;
        let ghost v = value@;
        let mut i: usize = 0;
        assert(e.skip(0) =~= e);
        assert(e.take(0) + insert_field(e, k, v) =~= insert_field(e, k, v));
        while i < self.entries.len()
            invariant
                i <= self.entries.len(),
                self@ == e,
                old(self)@ == e,
                k == key@,
                v == value@,
                forall|j: int| 0 <= j < i ==> key_lt(#[trigger] e[j].0, k),
                insert_field(e, k, v) == e.take(i as int) + insert_field(e.skip(i as int), k, v),
            decreases self.entries.len() - i,
        {
            let o = compare_keys(self.entries[i].0.as_str(), key.as_str());
            let ghost ki = e[i as int].0;
            assert(ki == self.entries[i as int].0@);
            assert((o == std::cmp::Ordering::Less) == key_lt(ki, k));
            assert(e.skip(i as int)[0] == e[i as int]);
            assert(e.skip(i as int).skip(1) =~= e.skip(i + 1));
            match o {
                std::cmp::Ordering::Equal => {
                assert(insert_field(e.skip(i as int), k, v) == seq![(k, v)] + e.skip(i + 1));
                self.entries.set(i, (key, value));
                assert(self@ =~= e.update(i as int, (k, v)));
                assert(e.update(i as int, (k, v)) =~= e.take(i as int) + (seq![(k, v)] + e.skip(i + 1)));
                assert(self@ == insert_field(e, k, v));
                proof {
                    if sorted_fields(e) {
                        assert forall|a: int, b: int| 0 <= a < b < self@.len() implies key_lt(
                            #[trigger] self@[a].0,
                            #[trigger] self@[b].0,
                        ) by {
                            assert(self@[a].0 == e[a].0 && self@[b].0 == e[b].0);
                        }
                    }
                }
                return;
                },
                std::cmp::Ordering::Greater => {
                proof {
                    lemma_key_lt_total(ki, k);
                }
                assert(insert_field(e.skip(i as int), k, v) == seq![(k, v)] + e.skip(i as int));
                self.entries.insert(i, (key, value));
                assert(self@ =~= e.insert(i as int, (k, v)));
                assert(e.insert(i as int, (k, v)) =~= e.take(i as int) + (seq![(k, v)] + e.skip(i as int)));
                proof {
                    if sorted_fields(e) {
                        assert forall|a: int, b: int| 0 <= a < b < self@.len() implies key_lt(
                            #[trigger] self@[a].0,
                            #[trigger] self@[b].0,
                        ) by {
                            if b == i {
                                assert(self@[a].0 == e[a].0);
                            } else if a == i {
                                assert(e.insert(i as int, (k, v))[b] == e[b - 1]);
                                assert(self@[b].0 == e[b - 1].0);
                                if b - 1 > i {
                                    lemma_key_lt_transitive(k, ki, e[b - 1].0);
                                }
                            } else if a < i {
                                assert(self@[a].0 == e[a].0);
                                if b < i {
                                    assert(self@[b].0 == e[b].0);
                                } else {
                                    assert(e.insert(i as int, (k, v))[b] == e[b - 1]);
                                    assert(self@[b].0 == e[b - 1].0);
                                }
                            } else {
                                assert(e.insert(i as int, (k, v))[a] == e[a - 1]);
                                assert(e.insert(i as int, (k, v))[b] == e[b - 1]);
                                assert(self@[a].0 == e[a - 1].0 && self@[b].0 == e[b - 1].0);
                            }
                        }
                    }
                }
                return;
                },
                std::cmp::Ordering::Less => {},
            }
            proof {
                lemma_key_lt_asymmetric(ki, k);
                assert(e.skip(i as int).skip(1) =~= e.skip(i + 1));
                assert(e.take(i as int) + seq![e[i as int]] =~= e.take(i + 1));
                assert(e.take(i as int) + (seq![e[i as int]] + insert_field(e.skip(i + 1), k, v))
                    =~= e.take(i + 1) + insert_field(e.skip(i + 1), k, v));
            }
            i = i + 1;
        }
        assert(e.skip(i as int) =~= Seq::<(Seq<char>, Tree)>::empty());
        self.entries.push((key, value));
        assert(self@ =~= e.take(i as int) + seq![(k, v)]);
        proof {
            if sorted_fields(e) {
                assert forall|a: int, b: int| 0 <= a < b < self@.len() implies key_lt(
                    #[trigger] self@[a].0,
                    #[trigger] self@[b].0,
                ) by {
                    if b < e.len() {
                        assert(self@[a].0 == e[a].0 && self@[b].0 == e[b].0);
                    } else {
                        assert(self@[a].0 == e[a].0);
                    }
                }
            }
        }
    }
}

impl Shaun {
    /// A number from its decimal literal and its unit; `None` when the
    /// literal is no decimal number.
    pub fn number(literal: String, unit: String) -> (r: Option<Shaun>)
        ensures
            r is Some <==> is_float_literal(literal@),
            r matches Some(v) ==> v@ == Tree::Number(literal@, unit@),
    {
        let cs = chars_of(literal.as_str());
        let ok = float_literal_ok(&cs, 0, cs.len());
        assert(cs@.subrange(0, cs.len() as int) =~= cs@);
        if ok {
            Some(Shaun::Number(literal, unit))
        } else {
            None
        }
    }

    pub fn is_object(&self) -> (r: bool)
        ensures
            r == (self@ is Object),
    {
        match self {
            Shaun::Object(_) => true,
            _ => false,
        }
    }

    pub fn is_list(&self) -> (r: bool)
        ensures
            r == (self@ is List),
    {
        match self {
            Shaun::List(_) => true,
            _ => false,
        }
    }

    pub fn is_null(&self) -> (r: bool)
        ensures
            r == (self@ is Null),
    {
        match self {
            Shaun::Null => true,
            _ => false,
        }
    }

    pub fn is_number(&self) -> (r: bool)
        ensures
            r == (self@ is Number),
    {
        match self {
            Shaun::Number(_, _) => true,
            _ => false,
        }
    }

    pub fn is_string(&self) -> (r: bool)
        ensures
            r == (self@ is Str),
    {
        match self {
            Shaun::String(_) => true,
            _ => false,
        }
    }

    pub fn is_bool(&self) -> (r: bool)
        ensures
            r == (self@ is Bool),
    {
        match self {
            Shaun::Bool(_) => true,
            _ => false,
        }
    }

    /// The items of a list.
    pub fn to_vec(&self) -> (r: Result<&Vec<Shaun>, ShaunError>)
        ensures
            match r {
                Ok(l) => self@ == Tree::List(trees(l@)),
                Err(e) => e == ShaunError::NotAList && !(self@ is List),
            },
    {
        match self {
            Shaun::List(l) => {
                proof {
                    lemma_list_view(*l);
                }
                Ok(l)
            },
            _ => Err(ShaunError::NotAList),
        }
    }

    /// The fields of an object.
    pub fn to_map(&self) -> (r: Result<&ShaunMap, ShaunError>)
        ensures
            match r {
                Ok(m) => self@ == Tree::Object(m@),
                Err(e) => e == ShaunError::NotAnObject && !(self@ is Object),
            },
    {
        match self {
            Shaun::Object(m) => {
                proof {
                    lemma_object_view(*m);
                }
                Ok(m)
            },
            _ => Err(ShaunError::NotAnObject),
        }
    }

    /// The value stored under `key` in an object.
    pub fn get(&self, key: &str) -> (r: Result<&Shaun, ShaunError>)
        ensures
            !(self@ is Object) ==> r == Err::<&Shaun, ShaunError>(ShaunError::NotAnObject),
            self@ is Object ==> match r {
                Ok(v) => exists|i: int|
                    0 <= i < self@->Object_0.len() && #[trigger] self@->Object_0[i] == (key@, v@),
                Err(e) => e == ShaunError::AttributeNotFound && forall|i: int|
                    0 <= i < self@->Object_0.len() ==> (#[trigger] self@->Object_0[i]).0 != key@,
            },
            self@ is Object ==> match r {
                Ok(v) => lookup(self@->Object_0, key@) == Some(v@),
                Err(_) => lookup(self@->Object_0, key@) is None,
            },
    {
        match self {
            Shaun::Object(m) => {
                proof {
                    lemma_object_view(*m);
                }
                match m.get(key) {
                    Some(v) => {
                        let ghost i = choose|i: int| 0 <= i < m@.len() && #[trigger] m@[i] == (key@, v@);
                        assert(self@ == Tree::Object(m@));
                        assert(m@[i] == (key@, v@));
                        assert(self@->Object_0[i] == (key@, v@));
                        Ok(v)
                    },
                    None => Err(ShaunError::AttributeNotFound),
                }
            },
            _ => Err(ShaunError::NotAnObject),
        }
    }

    /// The item at `index` in a list.
    pub fn at(&self, index: usize) -> (r: Result<&Shaun, ShaunError>)
        ensures
            match self@ {
                Tree::List(l) => if index < l.len() {
                    r matches Ok(v) && v@ == l[index as int]
                } else {
                    r == Err::<&Shaun, ShaunError>(ShaunError::OutOfBound)
                },
                _ => r == Err::<&Shaun, ShaunError>(ShaunError::NotAList),
            },
    {
        match self {
            Shaun::List(l) => {
                proof {
                    lemma_list_view(*l);
                }
                if l.len() <= index {
                    Err(ShaunError::OutOfBound)
                } else {
                    Ok(&l[index])
                }
            },
            _ => Err(ShaunError::NotAList),
        }
    }

    /// The magnitude of a number, as its decimal literal.
    pub fn into_number(self) -> (r: Result<String, ShaunError>)
        ensures
            match self@ {
                Tree::Number(x, _) => r matches Ok(s) && s@ == x,
                _ => r == Err::<String, ShaunError>(ShaunError::NotANumber),
            },
    {
        match self {
            Shaun::Number(x, _) => Ok(x),
            _ => Err(ShaunError::NotANumber),
        }
    }

    /// The text of a string.
    pub fn into_string(self) -> (r: Result<String, ShaunError>)
        ensures
            match self@ {
                Tree::Str(t) => r matches Ok(s) && s@ == t,
                _ => r == Err::<String, ShaunError>(ShaunError::NotAString),
            },
    {
        match self {
            Shaun::String(s) => Ok(s),
            _ => Err(ShaunError::NotAString),
        }
    }

    /// The flag of a boolean.
    pub fn into_bool(self) -> (r: Result<bool, ShaunError>)
        ensures
            match self@ {
                Tree::Bool(b) => r == Ok::<bool, ShaunError>(b),
                _ => r == Err::<bool, ShaunError>(ShaunError::NotABool),
            },
    {
        match self {
            Shaun::Bool(b) => Ok(b),
            _ => Err(ShaunError::NotABool),
        }
    }

    /// The items of a list, moved out.
    pub fn into_list(self) -> (r: Result<Vec<Shaun>, ShaunError>)
        ensures
            match r {
                Ok(l) => self@ == Tree::List(trees(l@)),
                Err(e) => e == ShaunError::NotAList && !(self@ is List),
            },
    {
        match self {
            Shaun::List(l) => {
                proof {
                    lemma_list_view(l);
                }
                Ok(l)
            },
            _ => Err(ShaunError::NotAList),
        }
    }

    /// The fields of an object, moved out.
    pub fn into_map(self) -> (r: Result<ShaunMap, ShaunError>)
        ensures
            match r {
                Ok(m) => self@ == Tree::Object(m@),
                Err(e) => e == ShaunError::NotAnObject && !(self@ is Object),
            },
    {
        match self {
            Shaun::Object(m) => {
                proof {
                    lemma_object_view(m);
                }
                Ok(m)
            },
            _ => Err(ShaunError::NotAnObject),
        }
    }
}

impl From<bool> for Shaun {
    fn from(x: bool) -> (r: Shaun) {
        Shaun::Bool(x)
    }
}

impl vstd::std_specs::convert::FromSpecImpl<bool> for Shaun {
    open spec fn obeys_from_spec() -> bool {
        true
    }

    open spec fn from_spec(v: bool) -> Shaun {
        Shaun::Bool(v)
    }
}

impl From<String> for Shaun {
    fn from(x: String) -> (r: Shaun) {
        Shaun::String(x)
    }
}

impl vstd::std_specs::convert::FromSpecImpl<String> for Shaun {
    open spec fn obeys_from_spec() -> bool {
        true
    }

    open spec fn from_spec(v: String) -> Shaun {
        Shaun::String(v)
    }
}

impl From<&str> for Shaun {
    fn from(x: &str) -> (r: Shaun)
        ensures
            r@ == Tree::Str(x@),
    {
        Shaun::String(x.to_owned())
    }
}

/// No `Shaun` value can be written down in a specification from a string
/// slice, so the contract of `from` is stated on the function itself.
impl vstd::std_specs::convert::FromSpecImpl<&str> for Shaun {
    open spec fn obeys_from_spec() -> bool {
        false
    }

    open spec fn from_spec(v: &str) -> Shaun {
        arbitrary()
    }
}

impl From<Vec<bool>> for Shaun {
    /// A list of booleans.
    fn from(x: Vec<bool>) -> (r: Shaun)
        ensures
            r@ == Tree::List(x@.map_values(|b: bool| Tree::Bool(b))),
    {
        let mut out: Vec<Shaun> = Vec::new();
        let mut i: usize = 0;
        while i < x.len()
            invariant
                i <= x.len(),
                trees(out@) == x@.take(i as int).map_values(|b: bool| Tree::Bool(b)),
            decreases x.len() - i,
        {
            let ghost before = out@;
            out.push(Shaun::Bool(x[i]));
            assert(trees(out@) =~= trees(before).push(Tree::Bool(x@[i as int])));
            assert(x@.take(i + 1).map_values(|b: bool| Tree::Bool(b)) =~= x@.take(i as int).map_values(
                |b: bool| Tree::Bool(b),
            ).push(Tree::Bool(x@[i as int])));
            i = i + 1;
        }
        assert(x@.take(x.len() as int) =~= x@);
        proof {
            lemma_list_view(out);
        }
        Shaun::List(out)
    }
}

impl vstd::std_specs::convert::FromSpecImpl<Vec<bool>> for Shaun {
    open spec fn obeys_from_spec() -> bool {
        false
    }

    open spec fn from_spec(v: Vec<bool>) -> Shaun {
        arbitrary()
    }
}

impl From<Vec<String>> for Shaun {
    /// A list of strings.
    fn from(x: Vec<String>) -> (r: Shaun)
        ensures
            r@ == Tree::List(x@.map_values(|s: String| Tree::Str(s@))),
    {
        let mut out: Vec<Shaun> = Vec::new();
        let mut i: usize = 0;
        while i < x.len()
            invariant
                i <= x.len(),
                trees(out@) == x@.take(i as int).map_values(|s: String| Tree::Str(s@)),
            decreases x.len() - i,
        {
            let ghost before = out@;
            out.push(Shaun::String(x[i].clone()));
            assert(trees(out@) =~= trees(before).push(Tree::Str(x@[i as int]@)));
            assert(x@.take(i + 1).map_values(|s: String| Tree::Str(s@)) =~= x@.take(i as int).map_values(
                |s: String| Tree::Str(s@),
            ).push(Tree::Str(x@[i as int]@)));
            i = i + 1;
        }
        assert(x@.take(x.len() as int) =~= x@);
        proof {
            lemma_list_view(out);
        }
        Shaun::List(out)
    }
}

impl vstd::std_specs::convert::FromSpecImpl<Vec<String>> for Shaun {
    open spec fn obeys_from_spec() -> bool {
        false
    }

    open spec fn from_spec(v: Vec<String>) -> Shaun {
        arbitrary()
    }
}

impl From<Vec<&str>> for Shaun {
    /// A list of strings.
    fn from(x: Vec<&str>) -> (r: Shaun)
        ensures
            r@ == Tree::List(x@.map_values(|s: &str| Tree::Str(s@))),
    {
        let mut out: Vec<Shaun> = Vec::new();
        let mut i: usize = 0;
        while i < x.len()
            invariant
                i <= x.len(),
                trees(out@) == x@.take(i as int).map_values(|s: &str| Tree::Str(s@)),
            decreases x.len() - i,
        {
            let ghost before = out@;
            out.push(Shaun::String(x[i].to_owned()));
            assert(trees(out@) =~= trees(before).push(Tree::Str(x@[i as int]@)));
            assert(x@.take(i + 1).map_values(|s: &str| Tree::Str(s@)) =~= x@.take(i as int).map_values(
                |s: &str| Tree::Str(s@),
            ).push(Tree::Str(x@[i as int]@)));
            i = i + 1;
        }
        assert(x@.take(x.len() as int) =~= x@);
        proof {
            lemma_list_view(out);
        }
        Shaun::List(out)
    }
}

impl vstd::std_specs::convert::FromSpecImpl<Vec<&str>> for Shaun {
    open spec fn obeys_from_spec() -> bool {
        false
    }

    open spec fn from_spec(v: Vec<&str>) -> Shaun {
        arbitrary()
    }
}

impl From<Vec<Shaun>> for Shaun {
    fn from(x: Vec<Shaun>) -> (r: Shaun) {
        Shaun::List(x)
    }
}

impl vstd::std_specs::convert::FromSpecImpl<Vec<Shaun>> for Shaun {
    open spec fn obeys_from_spec() -> bool {
        true
    }

    open spec fn from_spec(v: Vec<Shaun>) -> Shaun {
        Shaun::List(v)
    }
}

impl From<ShaunMap> for Shaun {
    fn from(x: ShaunMap) -> (r: Shaun) {
        Shaun::Object(x)
    }
}

impl vstd::std_specs::convert::FromSpecImpl<ShaunMap> for Shaun {
    open spec fn obeys_from_spec() -> bool {
        true
    }

    open spec fn from_spec(v: ShaunMap) -> Shaun {
        Shaun::Object(v)
    }
}

impl Shaun {
    /// The items of a list, to change in place.
    pub fn to_mut_vec(&mut self) -> (r: Result<&mut Vec<Shaun>, ShaunError>)
        ensures
            match *old(self) {
                Shaun::List(l) => r matches Ok(v) && *v == l && *final(self) == Shaun::List(*final(v)),
                _ => r == Err::<&mut Vec<Shaun>, ShaunError>(ShaunError::NotAList) && *final(self) == *old(self),
            },
    {
        match self {
            Shaun::List(l) => Ok(l),
            _ => Err(ShaunError::NotAList),
        }
    }

    /// The fields of an object, to change in place.
    pub fn to_mut_map(&mut self) -> (r: Result<&mut ShaunMap, ShaunError>)
        ensures
            match *old(self) {
                Shaun::Object(m) => r matches Ok(v) && *v == m && *final(self) == Shaun::Object(*final(v)),
                _ => r == Err::<&mut ShaunMap, ShaunError>(ShaunError::NotAnObject) && *final(self) == *old(self),
            },
    {
        match self {
            Shaun::Object(m) => Ok(m),
            _ => Err(ShaunError::NotAnObject),
        }
    }

    /// The item at `index` in a list, to change in place.
    pub fn at_mut(&mut self, index: usize) -> (r: Result<&mut Shaun, ShaunError>)
        ensures
            match *old(self) {
                Shaun::List(l) => if index < l.len() {
                    r matches Ok(v) && *v == l@[index as int] && (*final(self) matches Shaun::List(l2)
                        && l2@ == l@.update(index as int, *final(v)))
                } else {
                    r == Err::<&mut Shaun, ShaunError>(ShaunError::OutOfBound) && *final(self) == *old(self)
                },
                _ => r == Err::<&mut Shaun, ShaunError>(ShaunError::NotAList) && *final(self) == *old(self),
            },
    {
        match self {
            Shaun::List(l) => {
                if l.len() <= index {
                    Err(ShaunError::OutOfBound)
                } else {
                    Ok(&mut l[index])
                }
            },
            _ => Err(ShaunError::NotAList),
        }
    }

    /// The value stored under `key` in an object, to change in place.
    pub fn get_mut(&mut self, key: &str) -> (r: Result<&mut Shaun, ShaunError>)
        ensures
            match *old(self) {
                Shaun::Object(m) => match r {
                    Ok(v) => exists|i: int|
                        0 <= i < m@.len() && #[trigger] m@[i] == (key@, v@) && (*final(self) matches Shaun::Object(m2)
                            && m2@ == m@.update(i, (key@, (*final(v))@))),
                    Err(e) => e == ShaunError::AttributeNotFound && *final(self) == *old(self)
                        && forall|i: int| 0 <= i < m@.len() ==> (#[trigger] m@[i]).0 != key@,
                },
                _ => r == Err::<&mut Shaun, ShaunError>(ShaunError::NotAnObject) && *final(self) == *old(self),
            },
    {
        match self {
            Shaun::Object(m) => {
                match m.get_mut(key) {
                    Some(v) => Ok(v),
                    None => Err(ShaunError::AttributeNotFound),
                }
            },
            _ => Err(ShaunError::NotAnObject),
        }
    }

    /// Calls the one callback of `visitor` that matches this value, with
    /// its content.
    pub fn visit_with<T: crate::visitor::Visitor>(&self, visitor: &mut T)
        ensures
            match self@ {
                Tree::Null => old(visitor).null_done(*final(visitor)),
                Tree::Number(x, u) => old(visitor).number_done(*final(visitor), x, u),
                Tree::Str(t) => old(visitor).string_done(*final(visitor), t),
                Tree::Bool(b) => old(visitor).bool_done(*final(visitor), b),
                Tree::List(items) => old(visitor).list_done(*final(visitor), items),
                Tree::Object(f) => old(visitor).object_done(*final(visitor), f),
            },
    {
        proof {
            match self {
                Shaun::List(l) => lemma_list_view(*l),
                Shaun::Object(o) => lemma_object_view(*o),
                _ => {},
            }
        }
        match self {
            Shaun::Null => visitor.visit_null(),
            Shaun::Number(v, u) => visitor.visit_number(v, u),
            Shaun::String(v) => visitor.visit_string(v),
            Shaun::Bool(v) => visitor.visit_bool(v),
            Shaun::List(l) => visitor.visit_list(l),
            Shaun::Object(o) => visitor.visit_object(o),
        }
    }
}

impl ShaunMap {
    /// The value stored under `key`, if any, to change in place.
    pub fn get_mut(&mut self, key: &str) -> (r: Option<&mut Shaun>)
        ensures
            match r {
                Some(v) => exists|i: int|
                    0 <= i < old(self)@.len() && #[trigger] old(self)@[i] == (key@, v@)
                        && final(self)@ == old(self)@.update(i, (key@, (*final(v))@)),
                None => *final(self) == *old(self) && forall|i: int|
                    0 <= i < old(self)@.len() ==> (#[trigger] old(self)@[i]).0 != key@,
            },
    {
        let mut i: usize = 0;
        while i < self.entries.len()
            invariant
                i <= self.entries.len(),
                *self == *old(self),
                forall|j: int| 0 <= j < i ==> (#[trigger] self@[j]).0 != key@,
            decreases self.entries.len() - i,
        {
            if let std::cmp::Ordering::Equal = compare_keys(self.entries[i].0.as_str(), key) {
                let ghost e = self@;
                let entry = &mut self.entries[i];
                proof {
                    assert(e[i as int] == (key@, entry.1@));
                }
                return Some(&mut entry.1);
            }
            i = i + 1;
        }
        None
    }
}

impl Clone for Shaun {
    fn clone(&self) -> (r: Shaun)
        ensures
            r@ == self@,
    {
        self.deep_copy()
    }
}

impl Clone for ShaunMap {
    fn clone(&self) -> (r: ShaunMap)
        ensures
            r@ == self@,
    {
        Shaun::copy_map(self)
    }
}

impl Shaun {
    fn deep_copy(&self) -> (r: Shaun)
        ensures
            r@ == self@,
        decreases self, 2nat,
    {
        match self {
            Shaun::Null => Shaun::Null,
            Shaun::Number(x, u) => Shaun::Number(x.clone(), u.clone()),
            Shaun::String(s) => Shaun::String(s.clone()),
            Shaun::Bool(b) => Shaun::Bool(*b),
            Shaun::List(l) => {
                let out = Shaun::copy_list(l);
                proof {
                    lemma_list_view(*l);
                    lemma_list_view(out);
                }
                Shaun::List(out)
            },
            Shaun::Object(m) => {
                let copy = Shaun::copy_map(m);
                proof {
                    lemma_object_view(*m);
                    lemma_object_view(copy);
                }
                Shaun::Object(copy)
            },
        }
    }

    fn copy_list(l: &Vec<Shaun>) -> (r: Vec<Shaun>)
        ensures
            trees(r@) == trees(l@),
        decreases l, 1nat,
    {
        let mut out: Vec<Shaun> = Vec::new();
        let mut i: usize = 0;
        while i < l.len()
            invariant
                i <= l.len(),
                out.len() == i,
                forall|j: int| 0 <= j < i ==> (#[trigger] out@[j])@ == l@[j]@,
            decreases l.len() - i,
        {
            out.push(l[i].deep_copy());
            i = i + 1;
        }
        assert(trees(out@) =~= trees(l@));
        out
    }

    fn copy_map(m: &ShaunMap) -> (r: ShaunMap)
        ensures
            r@ == m@,
        decreases m, 1nat,
    {
        let mut out: Vec<(String, Shaun)> = Vec::new();
        let mut i: usize = 0;
        while i < m.entries.len()
            invariant
                i <= m.entries.len(),
                out.len() == i,
                forall|j: int|
                    0 <= j < i ==> (#[trigger] out@[j]).0@ == m.entries@[j].0@ && out@[j].1@
                        == m.entries@[j].1@,
            decreases m.entries.len() - i,
        {
            proof {
                assert(decreases_to!(m.entries => m.entries[i as int]));
            }
            out.push((m.entries[i].0.clone(), m.entries[i].1.deep_copy()));
            i = i + 1;
        }
        let copy = ShaunMap { entries: out };
        assert(copy@ =~= m@);
        copy
    }
}

} // verus!
