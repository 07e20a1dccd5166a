//! The value model: the closed set of variants a document can hold, and its
//! mathematical deep view used by all contracts.

use vstd::prelude::*;

verus! {

/// A value of the format: a scalar, an ordered list, or a mapping whose keys
/// are unique and whose insertion order is preserved.
///
/// A float is carried as its textual form (the token that matched the float
/// grammar, see [`crate::scalar::is_float_text`]), so the tree itself stays
/// within exactly representable data.
#[derive(Debug, PartialEq)]
pub enum Value {
    String(String),
    Integer(i64),
    Float(String),
    Boolean(bool),
    Null,
    List(Vec<Value>),
    Mapping(Vec<(String, Value)>),
}

/// The mathematical shape of a [`Value`]: the same variants over `Seq` and
/// `int`, used in specifications.
#[verifier::ext_equal]
pub enum Vs {
    Str(Seq<char>),
    Int(int),
    Float(Seq<char>),
    Bool(bool),
    Null,
    List(Seq<Vs>),
    Mapping(Seq<(Seq<char>, Vs)>),
}

impl Value {
    /// The deep view of a value: every `String` becomes its character
    /// sequence and every `Vec` becomes a `Seq`, recursively.
    pub open spec fn dv(self) -> Vs
        decreases self,
    {
        match self {
            Value::String(s) => Vs::Str(s@),
            Value::Integer(i) => Vs::Int(i as int),
            Value::Float(t) => Vs::Float(t@),
            Value::Boolean(b) => Vs::Bool(b),
            Value::Null => Vs::Null,
            Value::List(items) => Vs::List(dv_seq(items@)),
            Value::Mapping(entries) => Vs::Mapping(dv_entries(entries@)),
        }
    }
}

/// The deep views of a sequence of values, elementwise.
pub open spec fn dv_seq(items: Seq<Value>) -> Seq<Vs>
    decreases items,
{
    if items.len() == 0 {
        Seq::empty()
    } else {
        seq![items[0].dv()] + dv_seq(items.drop_first())
    }
}

/// The deep views of a sequence of map entries, elementwise.
pub open spec fn dv_entries(entries: Seq<(String, Value)>) -> Seq<(Seq<char>, Vs)>
    decreases entries,
{
    if entries.len() == 0 {
        Seq::empty()
    } else {
        seq![(entries[0].0@, entries[0].1.dv())] + dv_entries(entries.drop_first())
    }
}

/// The deep view of a sequence of values, elementwise.
pub proof fn lemma_dv_seq_index(items: Seq<Value>)
    ensures
        dv_seq(items).len() == items.len(),
        forall|i: int| 0 <= i < items.len() ==> dv_seq(items)[i] == items[i].dv(),
    decreases items.len(),
{
    if items.len() > 0 {
        lemma_dv_seq_index(items.drop_first());
        assert(forall|i: int| 1 <= i < items.len() ==> items.drop_first()[i - 1] == items[i]);
    }
}

/// The deep view of a sequence of map entries, elementwise.
pub proof fn lemma_dv_entries_index(entries: Seq<(String, Value)>)
    ensures
        dv_entries(entries).len() == entries.len(),
        forall|i: int| 0 <= i < entries.len() ==> dv_entries(entries)[i] == (
            entries[i].0@,
            entries[i].1.dv(),
        ),
    decreases entries.len(),
{
    if entries.len() > 0 {
        lemma_dv_entries_index(entries.drop_first());
        assert(forall|i: int| 1 <= i < entries.len() ==> entries.drop_first()[i - 1] == entries[i]);
    }
}

} // verus!
