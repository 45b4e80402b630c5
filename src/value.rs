//! The structured payload shared by both storage models, and its canonical text.

use crate::text::{append, int_text, signed_text};
use vstd::prelude::*;

verus! {

/// A string, a signed integer, or a mapping from string keys to values.
pub enum Value {
    String(String),
    Number(i64),
    Object(Vec<(String, Value)>),
}

/// The number of fields of an object, zero for a scalar.
pub open spec fn field_count(v: Value) -> nat {
    match v {
        Value::Object(fields) => fields@.len(),
        _ => 0,
    }
}

/// No key occurs twice among `fields`.
pub open spec fn keys_distinct(fields: Seq<(String, Value)>) -> bool {
    forall|i: int, j: int|
        0 <= i < fields.len() && 0 <= j < fields.len() && i != j ==> #[trigger] fields[i].0@
            != #[trigger] fields[j].0@
}

/// A value is a mapping where it is an object: at every level, no object
/// holds a key twice.
pub open spec fn value_wf(v: Value) -> bool
    decreases v, field_count(v) + 1,
{
    match v {
        Value::Object(fields) => keys_distinct(fields@) && fields_wf(v, fields@.len()),
        _ => true,
    }
}

/// The first `n` field values of the object `v` are well formed.
pub open spec fn fields_wf(v: Value, n: nat) -> bool
    decreases v, n,
{
    match v {
        Value::Object(fields) => {
            if n == 0 || n > fields@.len() {
                true
            } else {
                fields_wf(v, (n - 1) as nat) && value_wf(fields@[n - 1].1)
            }
        },
        _ => true,
    }
}

/// `s` between double quotes.
pub open spec fn quoted(s: Seq<char>) -> Seq<char> {
    seq!['"'] + s + seq!['"']
}

/// The canonical text of a value, under which it is indexed: a string in
/// double quotes, an integer in decimal, an object as `{"k":v,...}` with its
/// fields in the order they are held.
pub open spec fn serialize(v: Value) -> Seq<char>
    decreases v, field_count(v) + 1,
{
    match v {
        Value::String(s) => quoted(s@),
        Value::Number(n) => int_text(n as int),
        Value::Object(fields) => seq!['{'] + fields_text(v, fields@.len()) + seq!['}'],
    }
}

/// The text of the first `n` fields of the object `v`, separated by commas.
pub open spec fn fields_text(v: Value, n: nat) -> Seq<char>
    decreases v, n,
{
    match v {
        Value::Object(fields) => {
            if n == 0 || n > fields@.len() {
                Seq::empty()
            } else {
                let f = fields@[n - 1];
                let item = quoted(f.0@) + seq![':'] + serialize(f.1);
                if n == 1 {
                    item
                } else {
                    fields_text(v, (n - 1) as nat) + seq![','] + item
                }
            }
        },
        _ => Seq::empty(),
    }
}

/// Each field value of an object is smaller than the object.
proof fn lemma_field_smaller(v: Value, i: int)
    requires
        v is Object,
        0 <= i < v->Object_0@.len(),
    ensures
        decreases_to!(v => v->Object_0@[i].1),
{
    match v {
        Value::Object(fields) => {
            assert(decreases_to!(v => fields));
            assert(decreases_to!(fields => fields@));
            assert(decreases_to!(fields@ => fields@[i]));
            assert(decreases_to!(fields@[i] => fields@[i].1));
        },
        _ => {},
    }
}

impl Value {
    /// The canonical text of this value (see `serialize`).
    pub fn serialized(&self) -> (r: String)
        ensures
            r@ == serialize(*self),
        decreases *self,
    {
        match self {
            Value::String(s) => {
                let mut r = String::new();
                append(&mut r, "\"");
                append(&mut r, s.as_str());
                append(&mut r, "\"");
                proof {
                    reveal_strlit("\"");
                }
                assert(r@ =~= quoted(s@));
                r
            },
            Value::Number(n) => signed_text(*n),
            Value::Object(fields) => {
                let mut r = String::new();
                append(&mut r, "{");
                proof {
                    reveal_strlit("{");
                    reveal_strlit("}");
                    reveal_strlit(",");
                    reveal_strlit(":");
                    reveal_strlit("\"");
                }
                let mut i: usize = 0;
                while i < fields.len()
                    invariant
                        *self == Value::Object(*fields),
                        i <= fields@.len(),
                        r@ == seq!['{'] + fields_text(*self, i as nat),
                    decreases fields@.len() - i,
                {
                    proof {
                        reveal_strlit(",");
                        reveal_strlit("\"");
                        reveal_strlit("\":");
                    }
                    let ghost r0 = r@;
                    if i > 0 {
                        append(&mut r, ",");
                    }
                    assert(r@ == if i > 0 { r0 + seq![','] } else { r0 });
                    append(&mut r, "\"");
                    append(&mut r, fields[i].0.as_str());
                    append(&mut r, "\":");
                    proof {
                        lemma_field_smaller(*self, i as int);
                    }
                    let inner = fields[i].1.serialized();
                    append(&mut r, inner.as_str());
                    proof {
                        reveal_strlit("\":");
                    }
                    assert(r@ =~= (if i > 0 { r0 + seq![','] } else { r0 }) + quoted(fields@[i as int].0@) + seq![':'] + inner@);
                    let ghost item = quoted(fields@[i as int].0@) + seq![':'] + serialize(
                        fields@[i as int].1,
                    );
                    assert(fields_text(*self, (i + 1) as nat) == if i == 0 {
                        item
                    } else {
                        fields_text(*self, i as nat) + seq![','] + item
                    });
                    i = i + 1;
                    assert(r@ =~= seq!['{'] + fields_text(*self, i as nat));
                }
                append(&mut r, "}");
                assert(r@ =~= serialize(*self));
                r
            },
        }
    }
}

} // verus!
