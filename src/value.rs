//! The value tree produced by parsing, its model, and typed accessors.
use vstd::prelude::*;
use crate::number::{Decimal, Number};

verus! {

broadcast use {vstd::seq::axiom_seq_index_decreases, vstd::std_specs::vec::axiom_vec_decreases_to_view};

/// An ordered list of entries, each with an optional name.
pub type Table = Vec<(Option<String>, Value)>;

/// A parsed value: a nested table or one of the three kinds of atom.
#[derive(Debug, PartialEq)]
pub enum Value {
    Object(Table),
    String(String),
    Float(Number),
    Bool(bool),
}

/// The model of a value: what it holds, with strings as character sequences.
pub enum Tree {
    Object(Seq<(Option<Seq<char>>, Tree)>),
    String(Seq<char>),
    Float(Decimal),
    Bool(bool),
}

/// The four kinds of value.
#[derive(Clone, Copy, Debug, PartialEq, Eq, Structural)]
pub enum Kind {
    Table,
    String,
    Number,
    Bool,
}

/// Why an accessor could not give what was asked of it.
#[derive(Clone, Copy, Debug, PartialEq, Eq, Structural)]
pub enum AccessError {
    /// The value is of kind `found`, not of kind `expected`.
    WrongKind { expected: Kind, found: Kind },
    /// No entry of the table has the name asked for.
    MissingKey,
}

pub open spec fn key_view(k: Option<String>) -> Option<Seq<char>> {
    match k {
        Some(s) => Some(s@),
        None => None,
    }
}

/// The model of a table's entries.
pub open spec fn entries_view(t: Seq<(Option<String>, Value)>) -> Seq<(Option<Seq<char>>, Tree)> {
    Seq::new(t.len(), |i: int| (key_view(t[i].0), t[i].1.tree()))
}

/// The model of a table is the model of its entries.
pub proof fn lemma_object_tree(t: Table)
    ensures
        Value::Object(t).tree() == Tree::Object(entries_view(t@)),
{
    if let Tree::Object(es) = Value::Object(t).tree() {
        assert(es =~= entries_view(t@));
    }
}

/// The value of the first entry of `es` named `key`, if there is one.
pub open spec fn lookup(es: Seq<(Option<Seq<char>>, Tree)>, key: Seq<char>) -> Option<Tree>
    decreases es.len(),
{
    if es.len() == 0 {
        None
    } else if es[0].0 == Some(key) {
        Some(es[0].1)
    } else {
        lookup(es.drop_first(), key)
    }
}

impl Value {
    /// The model of this value.
    pub open spec fn tree(&self) -> Tree
        decreases self,
    {
        match self {
            Value::Object(t) => Tree::Object(
                Seq::new(
                    t@.len(),
                    |i: int|
                        if 0 <= i < t@.len() {
                            (key_view(t@[i].0), t@[i].1.tree())
                        } else {
                            (None, Tree::Bool(false))
                        },
                ),
            ),
            Value::String(s) => Tree::String(s@),
            Value::Float(n) => Tree::Float(n@),
            Value::Bool(b) => Tree::Bool(*b),
        }
    }

    pub open spec fn kind(&self) -> Kind {
        match self {
            Value::Object(_) => Kind::Table,
            Value::String(_) => Kind::String,
            Value::Float(_) => Kind::Number,
            Value::Bool(_) => Kind::Bool,
        }
    }

    /// The entries of this value if it is a table.
    pub fn table(&self) -> (r: Result<&Table, AccessError>)
        ensures
            r matches Ok(t) ==> *self == Value::Object(*t),
            r matches Err(e) ==> !(self is Object) && e == (AccessError::WrongKind {
                expected: Kind::Table,
                found: self.kind(),
            }),
            r is Ok <==> self is Object,
    {
        match self {
            Value::Object(t) => Ok(t),
            Value::String(_) => Err(AccessError::WrongKind { expected: Kind::Table, found: Kind::String }),
            Value::Float(_) => Err(AccessError::WrongKind { expected: Kind::Table, found: Kind::Number }),
            Value::Bool(_) => Err(AccessError::WrongKind { expected: Kind::Table, found: Kind::Bool }),
        }
    }

    /// A copy of the text of this value if it is a string.
    pub fn string(&self) -> (r: Result<String, AccessError>)
        ensures
            r matches Ok(s) ==> self.tree() == Tree::String(s@),
            r matches Err(e) ==> e == (AccessError::WrongKind {
                expected: Kind::String,
                found: self.kind(),
            }),
            r is Ok <==> self is String,
    {
        match self {
            Value::String(s) => Ok(s.clone()),
            Value::Object(_) => Err(AccessError::WrongKind { expected: Kind::String, found: Kind::Table }),
            Value::Float(_) => Err(AccessError::WrongKind { expected: Kind::String, found: Kind::Number }),
            Value::Bool(_) => Err(AccessError::WrongKind { expected: Kind::String, found: Kind::Bool }),
        }
    }

    /// A copy of the number held by this value if it is one.
    pub fn number(&self) -> (r: Result<Number, AccessError>)
        ensures
            r matches Ok(n) ==> self.tree() == Tree::Float(n@),
            r matches Err(e) ==> e == (AccessError::WrongKind {
                expected: Kind::Number,
                found: self.kind(),
            }),
            r is Ok <==> self is Float,
    {
        match self {
            Value::Float(n) => Ok(n.copied()),
            Value::Object(_) => Err(AccessError::WrongKind { expected: Kind::Number, found: Kind::Table }),
            Value::String(_) => Err(AccessError::WrongKind { expected: Kind::Number, found: Kind::String }),
            Value::Bool(_) => Err(AccessError::WrongKind { expected: Kind::Number, found: Kind::Bool }),
        }
    }

    /// A copy of this value and everything it holds.
    pub fn duplicate(&self) -> (r: Value)
        ensures
            r.tree() == self.tree(),
        decreases self,
    {
        match self {
            Value::Object(t) => {
                let mut out: Table = Vec::new();
                let mut i: usize = 0;
                while i < t.len()
                    invariant
                        *self == Value::Object(*t),
                        i <= t@.len(),
                        out@.len() == i,
                        forall|j: int| 0 <= j < i ==> key_view(#[trigger] out@[j].0) == key_view(t@[j].0)
                            && out@[j].1.tree() == t@[j].1.tree(),
                    decreases t.len() - i,
                {
                    let k = match &t[i].0 {
                        Some(s) => Some(s.clone()),
                        None => None,
                    };
                    proof {
                        assert(decreases_to!(*self => self->Object_0));
                        assert(decreases_to!(*t => t@));
                        assert(decreases_to!(t@ => t@[i as int]));
                        assert(decreases_to!(t@[i as int] => t@[i as int].1));
                    }
                    let v = t[i].1.duplicate();
                    out.push((k, v));
                    i += 1;
                }
                let r = Value::Object(out);
                assert(r.tree() == self.tree()) by {
                    if let Tree::Object(a) = r.tree() {
                        if let Tree::Object(b) = self.tree() {
                            assert(a =~= b);
                        }
                    }
                }
                r
            },
            Value::String(s) => Value::String(s.clone()),
            Value::Float(n) => Value::Float(n.copied()),
            Value::Bool(b) => Value::Bool(*b),
        }
    }

    /// The value of the first entry named `key`, if this value is a table.
    pub fn get(&self, key: &str) -> (r: Result<Value, AccessError>)
        ensures
            r matches Ok(v) ==> self.tree() matches Tree::Object(es) && lookup(es, key@) == Some(
                v.tree(),
            ),
            r matches Err(e) ==> match self.tree() {
                Tree::Object(es) => lookup(es, key@) is None && e == AccessError::MissingKey,
                _ => e == (AccessError::WrongKind { expected: Kind::Table, found: self.kind() }),
            },
    {
        let t = self.table()?;
        let want = key.to_owned();
        let ghost es = match self.tree() {
            Tree::Object(es) => es,
            _ => Seq::empty(),
        };
        let mut i: usize = 0;
        assert(es.subrange(0, es.len() as int) =~= es);
        while i < t.len()
            invariant
                *self == Value::Object(*t),
                self.tree() == Tree::Object(es),
                want@ == key@,
                i <= t@.len(),
                es.len() == t@.len(),
                lookup(es, key@) == lookup(es.subrange(i as int, es.len() as int), key@),
            decreases t.len() - i,
        {
            assert(es[i as int] == (key_view(t@[i as int].0), t@[i as int].1.tree()));
            assert(es.subrange(i as int, es.len() as int).drop_first() =~= es.subrange(
                i + 1,
                es.len() as int,
            ));
            let hit = match &t[i].0 {
                Some(k) => *k == want,
                None => false,
            };
            if hit {
                return Ok(t[i].1.duplicate());
            }
            i += 1;
        }
        Err(AccessError::MissingKey)
    }
}

} // verus!
