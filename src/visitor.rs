//! Traversal of a value by double dispatch, and a pretty-printer built on it.

use vstd::prelude::*;
use crate::parser::{chars_of, text_of};
use crate::value::{lemma_list_view, lemma_object_view, trees, Shaun, ShaunMap, Tree};

verus! {

/// One callback for each kind of value.  `Shaun::visit_with` calls the one
/// that matches the value; a visitor recurses into lists and objects itself.
///
/// Each callback comes with a relation between the visitor before and after
/// it, so that what a traversal does can be stated in terms of them.  By
/// default a relation claims nothing; an implementation that states what its
/// callbacks do (as `PrettyPrinter` does) defines them.
pub trait Visitor: Sized {
    /// What `visit_null` does: `after` follows from `self`.
    open spec fn null_done(&self, after: Self) -> bool {
        true
    }

    /// What `visit_number` does with a number's literal and unit.
    open spec fn number_done(&self, after: Self, value: Seq<char>, unit: Seq<char>) -> bool {
        true
    }

    /// What `visit_string` does with a string's text.
    open spec fn string_done(&self, after: Self, value: Seq<char>) -> bool {
        true
    }

    /// What `visit_bool` does with a flag.
    open spec fn bool_done(&self, after: Self, value: bool) -> bool {
        true
    }

    /// What `visit_list` does with a list's items.
    open spec fn list_done(&self, after: Self, items: Seq<Tree>) -> bool {
        true
    }

    /// What `visit_object` does with an object's fields.
    open spec fn object_done(&self, after: Self, fields: Seq<(Seq<char>, Tree)>) -> bool {
        true
    }

    fn visit_null(&mut self)
        ensures
            old(self).null_done(*final(self)),
    ;

    fn visit_number(&mut self, value: &String, unit: &String)
        ensures
            old(self).number_done(*final(self), value@, unit@),
    ;

    fn visit_string(&mut self, value: &String)
        ensures
            old(self).string_done(*final(self), value@),
    ;

    fn visit_bool(&mut self, value: &bool)
        ensures
            old(self).bool_done(*final(self), *value),
    ;

    fn visit_list(&mut self, list: &Vec<Shaun>)
        ensures
            old(self).list_done(*final(self), trees(list@)),
    ;

    fn visit_object(&mut self, object: &ShaunMap)
        ensures
            old(self).object_done(*final(self), object@),
    ;
}

/// `n` spaces.
pub open spec fn spaces(n: nat) -> Seq<char> {
    Seq::new(n, |i: int| ' ')
}

/// An indentation grown by `n`, held at the largest `usize`.
pub open spec fn indent_add(level: nat, n: nat) -> nat {
    if level + n > usize::MAX {
        usize::MAX as nat
    } else {
        level + n
    }
}

/// The pieces one after the other.
pub open spec fn join_lines(parts: Seq<Seq<char>>) -> Seq<char>
    decreases parts.len(),
{
    if parts.len() == 0 {
        Seq::empty()
    } else {
        join_lines(parts.drop_last()) + parts.last()
    }
}

/// A string's text with `\` and `"` preceded by a backslash.
pub open spec fn escape_text(s: Seq<char>) -> Seq<char>
    decreases s.len(),
{
    if s.len() == 0 {
        Seq::empty()
    } else if s.last() == '\\' || s.last() == '"' {
        escape_text(s.drop_last()) + seq!['\\', s.last()]
    } else {
        escape_text(s.drop_last()) + seq![s.last()]
    }
}

/// The text printed for `v` when the current indentation is `level`.
pub open spec fn emit(v: Tree, level: nat) -> Seq<char>
    decreases v, 1nat,
{
    match v {
        Tree::Null => seq!['n', 'u', 'l', 'l'],
        Tree::Number(x, u) => x + seq![' '] + u,
        Tree::Str(s) => seq!['"'] + escape_text(s) + seq!['"'],
        Tree::Bool(b) => if b {
            seq!['t', 'r', 'u', 'e']
        } else {
            seq!['f', 'a', 'l', 's', 'e']
        },
        Tree::List(items) => seq!['[', ' ', '\n'] + join_lines(list_lines(items, level)) + spaces(
            level,
        ) + seq![']'],
        Tree::Object(f) => seq!['{', ' ', '\n'] + join_lines(field_lines(f, level)) + spaces(level)
            + seq!['}'],
    }
}

/// The lines of a list's items: each on its own line, indented by two more.
pub open spec fn list_lines(items: Seq<Tree>, level: nat) -> Seq<Seq<char>>
    decreases items, 0nat,
{
    Seq::new(
        items.len(),
        |i: int|
            if 0 <= i < items.len() {
                spaces(indent_add(level, 2)) + emit(items[i], indent_add(level, 2)) + seq!['\n']
            } else {
                Seq::empty()
            },
    )
}

/// The lines of an object's fields: `key: value`, the value indented so
/// that what it spans lines up after the key.
pub open spec fn field_lines(f: Seq<(Seq<char>, Tree)>, level: nat) -> Seq<Seq<char>>
    decreases f, 0nat,
{
    Seq::new(
        f.len(),
        |i: int|
            if 0 <= i < f.len() {
                spaces(indent_add(level, 2)) + f[i].0 + seq![':', ' '] + emit(
                    f[i].1,
                    indent_add(indent_add(level, 2), f[i].0.len() + 2),
                ) + seq!['\n']
            } else {
                Seq::empty()
            },
    )
}

/// Writes a value as indented text into a buffer.
pub struct PrettyPrinter {
    pub(crate) level: usize,
    pub(crate) buffer: Vec<char>,
}

impl PrettyPrinter {
    /// The text written so far.
    pub open(crate) spec fn text(&self) -> Seq<char> {
        self.buffer@
    }

    /// The current indentation.
    pub open(crate) spec fn indent(&self) -> nat {
        self.level as nat
    }

    /// `after` is this printer with the text of `v` appended at the current
    /// indentation, and the same indentation.
    pub open(crate) spec fn printed(&self, after: PrettyPrinter, v: Tree) -> bool {
        after.text() == self.text() + emit(v, self.indent()) && after.indent() == self.indent()
    }

    /// A printer that appends to `b`, at indentation zero.
    pub fn to(b: String) -> (r: PrettyPrinter)
        ensures
            r.text() == b@,
            r.indent() == 0,
    {
        PrettyPrinter { level: 0, buffer: chars_of(b.as_str()) }
    }

    /// The text written so far.
    pub fn result(&self) -> (r: String)
        ensures
            r@ == self.text(),
    {
        text_of(&self.buffer)
    }

    fn push_all(&mut self, cs: &Vec<char>)
        ensures
            final(self).buffer@ == old(self).buffer@ + cs@,
            final(self).level == old(self).level,
    {
        let ghost start = self.buffer@;
        let mut k: usize = 0;
        while k < cs.len()
            invariant
                k <= cs.len(),
                self.level == old(self).level,
                start == old(self).buffer@,
                self.buffer@ == start + cs@.take(k as int),
            decreases cs.len() - k,
        {
            self.buffer.push(cs[k]);
            assert(start + cs@.take(k + 1) =~= (start + cs@.take(k as int)).push(cs@[k as int]));
            k = k + 1;
        }
        assert(cs@.take(cs.len() as int) =~= cs@);
    }

    fn write_indent(&mut self)
        ensures
            final(self).buffer@ == old(self).buffer@ + spaces(old(self).level as nat),
            final(self).level == old(self).level,
    {
        let ghost start = self.buffer@;
        let mut k: usize = 0;
        while k < self.level
            invariant
                k <= self.level,
                self.level == old(self).level,
                start == old(self).buffer@,
                self.buffer@ == start + spaces(k as nat),
            decreases self.level - k,
        {
            self.buffer.push(' ');
            assert(start + spaces((k + 1) as nat) =~= (start + spaces(k as nat)).push(' '));
            k = k + 1;
        }
    }

    fn write_number(&mut self, value: &String, unit: &String)
        ensures
            final(self).buffer@ == old(self).buffer@ + emit(Tree::Number(value@, unit@), old(self).level as nat),
            final(self).level == old(self).level,
    {
        self.push_all(&chars_of(value.as_str()));
        self.buffer.push(' ');
        self.push_all(&chars_of(unit.as_str()));
        assert(self.buffer@ =~= old(self).buffer@ + (value@ + seq![' '] + unit@));
    }

    fn write_string(&mut self, value: &String)
        ensures
            final(self).buffer@ == old(self).buffer@ + emit(Tree::Str(value@), old(self).level as nat),
            final(self).level == old(self).level,
    {
        let cs = chars_of(value.as_str());
        let ghost start = self.buffer@;
        self.buffer.push('"');
        let mut k: usize = 0;
        assert(cs@.take(0) =~= Seq::<char>::empty());
        assert(self.buffer@ =~= start + seq!['"'] + escape_text(cs@.take(0)));
        while k < cs.len()
            invariant
                k <= cs.len(),
                self.level == old(self).level,
                start == old(self).buffer@,
                self.buffer@ == start + seq!['"'] + escape_text(cs@.take(k as int)),
            decreases cs.len() - k,
        {
            let c = cs[k];
            assert(cs@.take(k + 1).drop_last() =~= cs@.take(k as int));
            assert(cs@.take(k + 1).last() == c);
            if c == '\\' || c == '"' {
                self.buffer.push('\\');
                self.buffer.push(c);
                assert(self.buffer@ =~= start + seq!['"'] + (escape_text(cs@.take(k as int)) + seq!['\\', c]));
            } else {
                self.buffer.push(c);
                assert(self.buffer@ =~= start + seq!['"'] + (escape_text(cs@.take(k as int)) + seq![c]));
            }
            k = k + 1;
        }
        assert(cs@.take(cs.len() as int) =~= cs@);
        self.buffer.push('"');
        assert(self.buffer@ =~= start + (seq!['"'] + escape_text(value@) + seq!['"']));
    }

    /// Writes `v` at the current indentation.
    pub fn print(&mut self, v: &Shaun)
        ensures
            final(self).text() == old(self).text() + emit(v@, old(self).indent()),
            final(self).indent() == old(self).indent(),
        decreases v, 2nat,
    {
        match v {
            Shaun::Null => {
                self.push_all(&vec!['n', 'u', 'l', 'l']);
            },
            Shaun::Number(x, u) => {
                self.write_number(x, u);
            },
            Shaun::String(s) => {
                self.write_string(s);
            },
            Shaun::Bool(b) => {
                if *b {
                    self.push_all(&vec!['t', 'r', 'u', 'e']);
                } else {
                    self.push_all(&vec!['f', 'a', 'l', 's', 'e']);
                }
            },
            Shaun::List(l) => {
                proof {
                    lemma_list_view(*l);
                }
                self.print_list(l);
            },
            Shaun::Object(m) => {
                proof {
                    lemma_object_view(*m);
                }
                self.print_object(m);
            },
        }
    }

    /// Writes a list: `[ `, each item on its own line two columns further
    /// in, then `]` at the current indentation.
    #[verifier::rlimit(40)]
    pub fn print_list(&mut self, list: &Vec<Shaun>)
        ensures
            final(self).text() == old(self).text() + emit(Tree::List(trees(list@)), old(self).indent()),
            final(self).indent() == old(self).indent(),
        decreases list, 1nat,
    {
        let ghost start = self.buffer@;
        let base = self.level;
        let inner = if base > usize::MAX - 2 {
            usize::MAX
        } else {
            base + 2
        };
        let ghost lines = list_lines(trees(list@), base as nat);
        self.buffer.push('[');
        self.buffer.push(' ');
        self.buffer.push('\n');
        assert(lines.take(0) =~= Seq::<Seq<char>>::empty());
        assert(self.buffer@ =~= start + seq!['[', ' ', '\n'] + join_lines(lines.take(0)));
        let mut i: usize = 0;
        while i < list.len()
            invariant
                i <= list.len(),
                self.level == base,
                base == old(self).level,
                inner == indent_add(base as nat, 2),
                start == old(self).buffer@,
                lines == list_lines(trees(list@), base as nat),
                self.buffer@ == start + seq!['[', ' ', '\n'] + join_lines(lines.take(i as int)),
            decreases list.len() - i,
        {
            let ghost before = self.buffer@;
            self.level = inner;
            self.write_indent();
            self.print(&list[i]);
            self.buffer.push('\n');
            self.level = base;
            assert(lines.take(i + 1).drop_last() =~= lines.take(i as int));
            assert(lines[i as int] == spaces(inner as nat) + emit(list@[i as int]@, inner as nat) + seq!['\n']);
            assert(self.buffer@ =~= before + lines[i as int]);
            i = i + 1;
        }
        assert(lines.take(list.len() as int) =~= lines);
        self.write_indent();
        self.buffer.push(']');
        assert(self.buffer@ =~= start + (seq!['[', ' ', '\n'] + join_lines(lines) + spaces(base as nat) + seq![']']));
    }

    /// Writes an object: `{ `, each field as `key: value` on its own line
    /// two columns further in, then `}` at the current indentation.
    #[verifier::rlimit(40)]
    pub fn print_object(&mut self, m: &ShaunMap)
        ensures
            final(self).text() == old(self).text() + emit(Tree::Object(m@), old(self).indent()),
            final(self).indent() == old(self).indent(),
        decreases m, 1nat,
    {
        let ghost start = self.buffer@;
        let base = self.level;
        let inner = if base > usize::MAX - 2 {
            usize::MAX
        } else {
            base + 2
        };
        let ghost lines = field_lines(m@, base as nat);
        self.buffer.push('{');
        self.buffer.push(' ');
        self.buffer.push('\n');
        assert(lines.take(0) =~= Seq::<Seq<char>>::empty());
        assert(self.buffer@ =~= start + seq!['{', ' ', '\n'] + join_lines(lines.take(0)));
        let mut i: usize = 0;
        while i < m.entries.len()
            invariant
                i <= m.entries.len(),
                self.level == base,
                base == old(self).level,
                inner == indent_add(base as nat, 2),
                start == old(self).buffer@,
                lines == field_lines(m@, base as nat),
                self.buffer@ == start + seq!['{', ' ', '\n'] + join_lines(lines.take(i as int)),
            decreases m.entries.len() - i,
        {
            let ghost before = self.buffer@;
            let key = &m.entries[i].0;
            let kc = chars_of(key.as_str());
            let kl = kc.len();
            let value_level = if inner > usize::MAX - 2 || kl > usize::MAX - 2 - inner {
                usize::MAX
            } else {
                inner + kl + 2
            };
            self.level = inner;
            self.write_indent();
            self.push_all(&kc);
            self.buffer.push(':');
            self.buffer.push(' ');
            self.level = value_level;
            proof {
                assert(decreases_to!(m.entries => m.entries[i as int]));
            }
            self.print(&m.entries[i].1);
            self.buffer.push('\n');
            self.level = base;
            assert(lines.take(i + 1).drop_last() =~= lines.take(i as int));
            assert(m@[i as int] == (key@, m.entries[i as int].1@));
            assert(value_level == indent_add(inner as nat, key@.len() + 2));
            assert(self.buffer@ =~= before + lines[i as int]);
            i = i + 1;
        }
        assert(lines.take(m.entries.len() as int) =~= lines);
        self.write_indent();
        self.buffer.push('}');
        assert(self.buffer@ =~= start + (seq!['{', ' ', '\n'] + join_lines(lines) + spaces(base as nat) + seq!['}']));
    }
}

/// Each callback appends the text of its value at the current indentation
/// and leaves the indentation as it was.
impl Visitor for PrettyPrinter {
    open spec fn null_done(&self, after: Self) -> bool {
        self.printed(after, Tree::Null)
    }

    open spec fn number_done(&self, after: Self, value: Seq<char>, unit: Seq<char>) -> bool {
        self.printed(after, Tree::Number(value, unit))
    }

    open spec fn string_done(&self, after: Self, value: Seq<char>) -> bool {
        self.printed(after, Tree::Str(value))
    }

    open spec fn bool_done(&self, after: Self, value: bool) -> bool {
        self.printed(after, Tree::Bool(value))
    }

    open spec fn list_done(&self, after: Self, items: Seq<Tree>) -> bool {
        self.printed(after, Tree::List(items))
    }

    open spec fn object_done(&self, after: Self, fields: Seq<(Seq<char>, Tree)>) -> bool {
        self.printed(after, Tree::Object(fields))
    }

    fn visit_null(&mut self)
        ensures
            final(self).text() == old(self).text() + emit(Tree::Null, old(self).indent()),
            final(self).indent() == old(self).indent(),
    {
        self.print(&Shaun::Null);
    }

    fn visit_number(&mut self, value: &String, unit: &String)
        ensures
            final(self).text() == old(self).text() + emit(Tree::Number(value@, unit@), old(self).indent()),
            final(self).indent() == old(self).indent(),
    {
        self.write_number(value, unit);
    }

    fn visit_string(&mut self, value: &String)
        ensures
            final(self).text() == old(self).text() + emit(Tree::Str(value@), old(self).indent()),
            final(self).indent() == old(self).indent(),
    {
        self.write_string(value);
    }

    fn visit_bool(&mut self, value: &bool)
        ensures
            final(self).text() == old(self).text() + emit(Tree::Bool(*value), old(self).indent()),
            final(self).indent() == old(self).indent(),
    {
        self.print(&Shaun::Bool(*value));
    }

    fn visit_list(&mut self, list: &Vec<Shaun>)
        ensures
            final(self).text() == old(self).text() + emit(Tree::List(trees(list@)), old(self).indent()),
            final(self).indent() == old(self).indent(),
    {
        self.print_list(list);
    }

    fn visit_object(&mut self, object: &ShaunMap)
        ensures
            final(self).text() == old(self).text() + emit(Tree::Object(object@), old(self).indent()),
            final(self).indent() == old(self).indent(),
    {
        self.print_object(object);
    }
}

} // verus!
