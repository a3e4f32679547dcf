//! Documents: tree-shaped values, their identifiers and their text.
//!
//! A document is a [`Value`]. The engine reads two things from it: the
//! identifier bound to the key `id` of a mapping, and the text fragments of
//! its scalars in traversal order.

use crate::tokenizer::texts;
use vstd::prelude::*;

verus! {

/// A number inside a document.
#[derive(Debug, PartialEq)]
pub enum Number {
    /// A non-negative integer.
    Unsigned(u64),
    /// An integer that may be negative.
    Signed(i64),
    /// Any other number, held as its canonical text.
    Decimal(String),
}

/// A tree-shaped document value.
#[derive(Debug, PartialEq)]
pub enum Value {
    /// No value.
    Absent,
    /// A truth value.
    Boolean(bool),
    /// A number.
    Number(Number),
    /// A piece of text.
    Text(String),
    /// A list of values.
    Sequence(Vec<Value>),
    /// A list of bindings from keys to values, in order.
    Mapping(Vec<(String, Value)>),
}

/// The decimal digit `0` to `9` as a character.
pub open spec fn digit(d: nat) -> char {
    (('0' as u8) + d) as char
}

/// The decimal representation of `n`, without leading zeros.
pub open spec fn decimal(n: nat) -> Seq<char>
    decreases n,
{
    if n < 10 {
        seq![digit(n)]
    } else {
        decimal(n / 10).push(digit(n % 10))
    }
}

/// The decimal representation of `n`, with a minus sign when it is negative.
pub open spec fn signed_decimal(n: int) -> Seq<char> {
    if n < 0 {
        seq!['-'] + decimal((-n) as nat)
    } else {
        decimal(n as nat)
    }
}

/// The text of a truth value.
pub open spec fn boolean_text(b: bool) -> Seq<char> {
    if b {
        seq!['t', 'r', 'u', 'e']
    } else {
        seq!['f', 'a', 'l', 's', 'e']
    }
}

/// The key under which a document holds its identifier.
pub open spec fn id_key() -> Seq<char> {
    seq!['i', 'd']
}

impl Number {
    /// The canonical text of the number.
    pub open spec fn text(self) -> Seq<char> {
        match self {
            Number::Unsigned(n) => decimal(n as nat),
            Number::Signed(n) => signed_decimal(n as int),
            Number::Decimal(s) => s@,
        }
    }

    /// The number as an unsigned integer, where it is one.
    pub open spec fn unsigned(self) -> Option<u64> {
        match self {
            Number::Unsigned(n) => Some(n),
            Number::Signed(n) => if n >= 0 {
                Some(n as u64)
            } else {
                None
            },
            Number::Decimal(_) => None,
        }
    }

    /// Returns the number as an unsigned integer, where it is one.
    pub fn as_u64(&self) -> (r: Option<u64>)
        ensures
            r == self.unsigned(),
    {
        match self {
            Number::Unsigned(n) => Some(*n),
            Number::Signed(n) => if *n >= 0 {
                Some(*n as u64)
            } else {
                None
            },
            Number::Decimal(_) => None,
        }
    }

    /// Returns the canonical text of the number.
    pub fn to_text(&self) -> (s: String)
        ensures
            s@ == self.text(),
    {
        match self {
            Number::Unsigned(n) => unsigned_text(*n),
            Number::Signed(n) => signed_text(*n),
            Number::Decimal(s) => s.clone(),
        }
    }
}

/// The position of the first binding of `key` at or after `from`.
pub open spec fn first_binding(fields: Seq<(String, Value)>, key: Seq<char>, from: nat) -> Option<
    int,
>
    decreases fields.len() - from,
{
    if from >= fields.len() {
        None
    } else if fields[from as int].0@ == key {
        Some(from as int)
    } else {
        first_binding(fields, key, from + 1)
    }
}

/// The fragments of the first `upto` values of `items`, in order.
pub open spec fn fragments_of_items(items: Seq<Value>, upto: nat) -> Seq<Seq<char>>
    decreases items, upto,
{
    if upto == 0 || upto > items.len() {
        Seq::empty()
    } else {
        fragments_of_items(items, (upto - 1) as nat) + fragments(items[upto - 1])
    }
}

/// The fragments of the values of the first `upto` bindings of `fields`, in
/// order. Keys contribute nothing.
pub open spec fn fragments_of_fields(fields: Seq<(String, Value)>, upto: nat) -> Seq<Seq<char>>
    decreases fields, upto,
{
    if upto == 0 || upto > fields.len() {
        Seq::empty()
    } else {
        fragments_of_fields(fields, (upto - 1) as nat) + fragments(fields[upto - 1].1)
    }
}

/// The text fragments of a document, in pre-order: a text as it stands, a
/// number or truth value as its canonical text, nothing for an absent value,
/// and for a list or a mapping the fragments of its members in order.
pub open spec fn fragments(v: Value) -> Seq<Seq<char>>
    decreases v,
{
    match v {
        Value::Absent => Seq::empty(),
        Value::Boolean(b) => seq![boolean_text(b)],
        Value::Number(n) => seq![n.text()],
        Value::Text(s) => seq![s@],
        Value::Sequence(items) => fragments_of_items(items@, items@.len()),
        Value::Mapping(fields) => fragments_of_fields(fields@, fields@.len()),
    }
}

/// Formats a non-negative integer through `serde_json::Number`, whose
/// `Display` writes an integer in decimal, without sign or leading zeros.
#[verifier::external_body]
fn unsigned_text(n: u64) -> (s: String)
    ensures
        s@ == decimal(n as nat),
{
    serde_json::Number::from(n).to_string()
}

/// Formats an integer through `serde_json::Number`, whose `Display` writes an
/// integer in decimal, with a leading minus sign when it is negative.
#[verifier::external_body]
fn signed_text(n: i64) -> (s: String)
    ensures
        s@ == signed_decimal(n as int),
{
    serde_json::Number::from(n).to_string()
}

impl Value {
    /// The value bound to `key`, where this is a mapping that binds it; the
    /// first binding counts.
    pub open spec fn field(self, key: Seq<char>) -> Option<Value> {
        match self {
            Value::Mapping(fields) => match first_binding(fields@, key, 0) {
                Some(at) => Some(fields@[at].1),
                None => None,
            },
            _ => None,
        }
    }

    /// The value as an unsigned integer, where it is one.
    pub open spec fn unsigned(self) -> Option<u64> {
        match self {
            Value::Number(n) => n.unsigned(),
            _ => None,
        }
    }

    /// The identifier of the document: the unsigned integer bound to `id`.
    pub open spec fn id(self) -> Option<u64> {
        match self.field(id_key()) {
            Some(bound) => bound.unsigned(),
            None => None,
        }
    }

    /// Whether `after` is this value with `id` as its identifier: a mapping
    /// has the value of its first `id` binding replaced, or a binding added
    /// at its end where it had none; any other value is unchanged.
    pub open spec fn identified_as(self, id: u64, after: Value) -> bool {
        match self {
            Value::Mapping(fields) => {
                &&& after matches Value::Mapping(changed)
                &&& match first_binding(fields@, id_key(), 0) {
                    Some(at) => {
                        &&& changed@.len() == fields@.len()
                        &&& changed@[at].0 == fields@[at].0
                        &&& changed@[at].1 == Value::Number(Number::Unsigned(id))
                        &&& forall|i: int|
                            0 <= i < fields@.len() && i != at ==> changed@[i] == fields@[i]
                    },
                    None => {
                        &&& changed@.len() == fields@.len() + 1
                        &&& changed@.drop_last() == fields@
                        &&& changed@.last().0@ == id_key()
                        &&& changed@.last().1 == Value::Number(Number::Unsigned(id))
                    },
                }
            },
            _ => after == self,
        }
    }

    /// Returns the value bound to `key`, where this is a mapping that binds
    /// it.
    pub fn get(&self, key: &str) -> (r: Option<&Value>)
        ensures
            match r {
                Some(found) => self.field(key@) == Some(*found),
                None => self.field(key@) is None,
            },
    {
        match self {
            Value::Mapping(fields) => {
                match find_binding(fields, key) {
                    Some(at) => Some(&fields[at].1),
                    None => None,
                }
            },
            _ => None,
        }
    }

    /// Returns the value as an unsigned integer, where it is one.
    pub fn as_u64(&self) -> (r: Option<u64>)
        ensures
            r == self.unsigned(),
    {
        match self {
            Value::Number(n) => n.as_u64(),
            _ => None,
        }
    }

    /// Returns the identifier of the document, where it has one.
    pub fn document_id(&self) -> (r: Option<u64>)
        ensures
            r == self.id(),
    {
        proof {
            reveal_strlit("id");
            assert("id"@ =~= id_key());
        }
        match self.get("id") {
            Some(bound) => bound.as_u64(),
            None => None,
        }
    }

    /// Returns the document with `id` written into it as its identifier.
    pub fn with_id(self, id: u64) -> (after: Value)
        ensures
            self.identified_as(id, after),
            self is Mapping ==> after.id() == Some(id),
            !(self is Mapping) ==> after.id() is None,
    {
        match self {
            Value::Mapping(fields) => {
                let mut fields = fields;
                let ghost before = fields@;
                proof {
                    reveal_strlit("id");
                    assert("id"@ =~= id_key());
                }
                match find_binding(&fields, "id") {
                    Some(at) => {
                        fields[at].1 = Value::Number(Number::Unsigned(id));
                        proof {
                            lemma_first_binding_keeps(before, fields@, id_key(), 0);
                        }
                    },
                    None => {
                        let key = String::from_str("id");
                        fields.push((key, Value::Number(Number::Unsigned(id))));
                        proof {
                            assert(fields@.drop_last() == before);
                            lemma_first_binding_appended(before, fields@, id_key(), 0);
                        }
                    },
                }
                Value::Mapping(fields)
            },
            other => other,
        }
    }
}

/// Changing values, or adding bindings behind the first binding of `key`,
/// leaves that first binding where it is.
proof fn lemma_first_binding_keeps(
    before: Seq<(String, Value)>,
    after: Seq<(String, Value)>,
    key: Seq<char>,
    from: nat,
)
    requires
        after.len() == before.len(),
        forall|i: int| 0 <= i < before.len() ==> (#[trigger] after[i]).0@ == before[i].0@,
    ensures
        first_binding(after, key, from) == first_binding(before, key, from),
    decreases before.len() - from,
{
    if from < before.len() && before[from as int].0@ != key {
        lemma_first_binding_keeps(before, after, key, from + 1);
    }
}

/// A binding of `key` added at the end of a list that did not bind `key` is
/// the first binding of `key`.
proof fn lemma_first_binding_appended(
    before: Seq<(String, Value)>,
    after: Seq<(String, Value)>,
    key: Seq<char>,
    from: nat,
)
    requires
        from <= before.len(),
        after.len() == before.len() + 1,
        after.drop_last() == before,
        after.last().0@ == key,
        first_binding(before, key, from) is None,
    ensures
        first_binding(after, key, from) == Some(before.len() as int),
    decreases before.len() - from,
{
    if from < before.len() {
        assert(after[from as int] == after.drop_last()[from as int]);
        lemma_first_binding_appended(before, after, key, from + 1);
    }
}

/// Finds the first binding of `key`.
fn find_binding(fields: &Vec<(String, Value)>, key: &str) -> (r: Option<usize>)
    ensures
        match r {
            Some(at) => first_binding(fields@, key@, 0) == Some(at as int) && at < fields.len(),
            None => first_binding(fields@, key@, 0) is None,
        },
{
    let wanted = String::from_str(key);
    let mut i: usize = 0;
    while i < fields.len()
        invariant
            i <= fields.len(),
            wanted@ == key@,
            first_binding(fields@, key@, 0) == first_binding(fields@, key@, i as nat),
        decreases fields.len() - i,
    {
        if fields[i].0 == wanted {
            return Some(i);
        }
        i = i + 1;
    }
    None
}

/// Collects the text fragments of a document in traversal order.
pub fn flatten(v: &Value) -> (out: Vec<String>)
    ensures
        texts(out@) == fragments(*v),
    decreases v,
{
    match v {
        Value::Absent => Vec::new(),
        Value::Boolean(b) => {
            proof {
                reveal_strlit("true");
                reveal_strlit("false");
            }
            let text = if *b {
                String::from_str("true")
            } else {
                String::from_str("false")
            };
            assert(text@ =~= boolean_text(*b));
            let mut out: Vec<String> = Vec::new();
            out.push(text);
            assert(texts(out@) =~= seq![text@]);
            out
        },
        Value::Number(n) => {
            let text = n.to_text();
            let mut out: Vec<String> = Vec::new();
            out.push(text);
            assert(texts(out@) =~= seq![text@]);
            out
        },
        Value::Text(s) => {
            let text = s.clone();
            let mut out: Vec<String> = Vec::new();
            out.push(text);
            assert(texts(out@) =~= seq![text@]);
            out
        },
        Value::Sequence(items) => {
            let mut out: Vec<String> = Vec::new();
            let mut i: usize = 0;
            assert(decreases_to!(v => items));
            while i < items.len()
                invariant
                    i <= items.len(),
                    texts(out@) == fragments_of_items(items@, i as nat),
                    decreases_to!(v => items),
                decreases items.len() - i,
            {
                proof {
                    vstd::std_specs::vec::axiom_vec_index_decreases(*items, i as int);
                }
                let mut part = flatten(&items[i]);
                proof {
                    assert(texts(out@ + part@) =~= texts(out@) + texts(part@));
                }
                out.append(&mut part);
                i = i + 1;
            }
            out
        },
        Value::Mapping(fields) => {
            let mut out: Vec<String> = Vec::new();
            let mut i: usize = 0;
            assert(decreases_to!(v => fields));
            while i < fields.len()
                invariant
                    i <= fields.len(),
                    texts(out@) == fragments_of_fields(fields@, i as nat),
                    decreases_to!(v => fields),
                decreases fields.len() - i,
            {
                proof {
                    vstd::std_specs::vec::axiom_vec_index_decreases(*fields, i as int);
                }
                let mut part = flatten(&fields[i].1);
                proof {
                    assert(texts(out@ + part@) =~= texts(out@) + texts(part@));
                }
                out.append(&mut part);
                i = i + 1;
            }
            out
        },
    }
}

} // verus!
