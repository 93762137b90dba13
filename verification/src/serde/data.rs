//! The value side of the Serde data model: how Serde's data becomes COSY
//! values, and what a COSY value offers each kind of Serde request.
use vstd::prelude::*;
use crate::value::{Node, Shape, Value, ValueKind, ObjectMap, insert_entry, kind_model, value_model,
    values_model, lemma_values_model_push};

verus! {

/// Error type for Serde serialization.
#[derive(Debug, Clone, PartialEq)]
pub struct SerializeError(pub String);

/// Error type for Serde deserialization.
#[derive(Debug, Clone, PartialEq)]
pub struct DeserializeError(pub String);

impl SerializeError {
    /// "Serialization error: message".
    pub fn to_string(&self) -> (s: String)
        ensures
            s@ == "Serialization error: "@ + self.0@,
    {
        let mut s = String::from_str("Serialization error: ");
        s.append(self.0.as_str());
        s
    }
}

impl DeserializeError {
    /// "Deserialization error: message".
    pub fn to_string(&self) -> (s: String)
        ensures
            s@ == "Deserialization error: "@ + self.0@,
    {
        let mut s = String::from_str("Deserialization error: ");
        s.append(self.0.as_str());
        s
    }
}

/// An error of deserialization with a fixed message.
fn de_error(msg: &str) -> (e: DeserializeError)
    ensures
        e.0@ == msg@,
{
    DeserializeError(String::from_str(msg))
}

/// The integer that a `u64` is stored as: its two's-complement reading as
/// an `i64`, so that values past `i64::MAX` wrap to negative numbers.
pub open spec fn stored_u64(v: u64) -> i64 {
    if v <= i64::MAX {
        v as i64
    } else {
        (v - 0x1_0000_0000_0000_0000) as i64
    }
}

/// Builds COSY values from the data that Serde hands over.
pub struct ValueSerializer;

impl ValueSerializer {
    /// An unsigned integer, stored as a signed one (see `stored_u64`).
    pub fn serialize_u64(v: u64) -> (r: Value)
        ensures
            r@ == (Node { shape: Shape::Integer(stored_u64(v)), comments: Seq::empty() }),
    {
        let i: i64 = if v <= 0x7fff_ffff_ffff_ffff {
            v as i64
        } else {
            let below: u64 = v - 0x8000_0000_0000_0000;
            let j: i64 = below as i64;
            j - 0x7fff_ffff_ffff_ffff - 1
        };
        Value::integer(i)
    }

    /// A character, as a string of one character.
    pub fn serialize_char(c: char) -> (r: Value)
        ensures
            r@ == (Node { shape: Shape::Str(seq![c]), comments: Seq::empty() }),
    {
        let mut s = String::new();
        crate::text::push_char(&mut s, c);
        assert(s@ =~= seq![c]);
        Value::string(s)
    }

    /// Bytes, as an array of integers.
    pub fn serialize_bytes(v: &[u8]) -> (r: Value)
        ensures
            r@.comments.len() == 0,
            r@.shape is Array,
            r@.shape->Array_0.len() == v@.len(),
            forall|i: int|
                0 <= i < v@.len() ==> #[trigger] r@.shape->Array_0[i] == (Node {
                    shape: Shape::Integer(v@[i] as i64),
                    comments: Seq::empty(),
                }),
    {
        let mut items: Vec<Value> = Vec::new();
        let mut k: usize = 0;
        while k < v.len()
            invariant
                0 <= k <= v@.len(),
                values_model(items@).len() == k,
                forall|i: int|
                    0 <= i < k ==> #[trigger] values_model(items@)[i] == (Node {
                        shape: Shape::Integer(v@[i] as i64),
                        comments: Seq::empty(),
                    }),
            decreases v@.len() - k,
        {
            let item = Value::integer(v[k] as i64);
            proof {
                lemma_values_model_push(items@, item);
            }
            items.push(item);
            k = k + 1;
        }
        Value::array(items)
    }

    /// A unit variant, as its name.
    pub fn serialize_unit_variant(variant: &str) -> (r: Value)
        ensures
            r@ == (Node { shape: Shape::Str(variant@), comments: Seq::empty() }),
    {
        Value::string(String::from_str(variant))
    }

    /// A newtype variant, as an object with the variant's name as its one key.
    pub fn serialize_newtype_variant(variant: &str, value: Value) -> (r: Value)
        ensures
            r@ == (Node { shape: Shape::Object(seq![(variant@, value@)]), comments: Seq::empty() }),
    {
        let mut m = ObjectMap::new();
        m.insert(String::from_str(variant), value);
        assert(m@ =~= seq![(variant@, value@)]);
        Value::object(m)
    }
}

/// An object being built from a Serde map or struct: the entries so far and
/// the key waiting for its value.
#[derive(Debug, PartialEq)]
pub struct SerializeObject {
    pub object: ObjectMap,
    pub next_key: Option<String>,
}

impl SerializeObject {
    /// An empty object, with `next_key` waiting for a value.
    pub fn new(next_key: Option<String>) -> (o: SerializeObject)
        ensures
            o.object@.len() == 0,
            o.next_key == next_key,
    {
        SerializeObject { object: ObjectMap::new(), next_key }
    }

    /// Take a serialized key: it must be a string.
    pub fn serialize_key(&mut self, key: Value) -> (r: Result<(), SerializeError>)
        ensures
            final(self).object == old(self).object,
            match key.kind {
                ValueKind::String(s) => r is Ok && final(self).next_key == Some(s),
                _ => r matches Err(e) && e.0@ == "keys must be strings"@ && final(self).next_key
                    == old(self).next_key,
            },
    {
        match key.kind {
            ValueKind::String(s) => {
                self.next_key = Some(s);
                Ok(())
            },
            _ => Err(SerializeError(String::from_str("keys must be strings"))),
        }
    }

    /// Take a serialized value for the waiting key.
    pub fn serialize_value(&mut self, value: Value) -> (r: Result<(), SerializeError>)
        ensures
            match old(self).next_key {
                Some(k) => r is Ok && final(self).next_key is None && final(self).object@
                    == insert_entry(old(self).object@, k@, value@),
                None => r matches Err(e) && e.0@ == "serialize_value called before serialize_key"@
                    && final(self).object == old(self).object && final(self).next_key is None,
            },
    {
        let waiting = self.next_key.take();
        match waiting {
            Some(k) => {
                self.object.insert(k, value);
                Ok(())
            },
            None => Err(SerializeError(String::from_str("serialize_value called before serialize_key"))),
        }
    }

    /// Set a struct field.
    pub fn serialize_field(&mut self, key: &str, value: Value)
        ensures
            final(self).object@ == insert_entry(old(self).object@, key@, value@),
            final(self).next_key == old(self).next_key,
    {
        self.object.insert(String::from_str(key), value);
    }

    /// The object built.
    pub fn end(self) -> (r: Value)
        ensures
            r@ == (Node { shape: Shape::Object(self.object@), comments: Seq::empty() }),
    {
        Value::object(self.object)
    }
}

/// How an enum is read from a value.
#[derive(Debug, PartialEq)]
pub enum EnumForm {
    /// A string names a unit variant.
    Unit(String),
    /// An object with one key names a newtype variant and holds its content.
    Newtype(String, Value),
}

/// Reads COSY values for the requests of Serde's data model.
#[derive(Debug, PartialEq)]
pub struct ValueDeserializer {
    pub value: Value,
}

impl ValueDeserializer {
    pub fn new(value: Value) -> (d: ValueDeserializer)
        ensures
            d.value == value,
    {
        ValueDeserializer { value }
    }

    /// A boolean.
    pub fn deserialize_bool(self) -> (r: Result<bool, DeserializeError>)
        ensures
            match self.value.kind {
                ValueKind::Bool(b) => r == Ok::<bool, DeserializeError>(b),
                _ => r matches Err(e) && e.0@ == "expected bool"@,
            },
    {
        match self.value.kind {
            ValueKind::Bool(b) => Ok(b),
            _ => Err(de_error("expected bool")),
        }
    }

    /// A signed integer.
    pub fn deserialize_i64(self) -> (r: Result<i64, DeserializeError>)
        ensures
            match self.value.kind {
                ValueKind::Integer(i) => r == Ok::<i64, DeserializeError>(i),
                _ => r matches Err(e) && e.0@ == "expected integer"@,
            },
    {
        match self.value.kind {
            ValueKind::Integer(i) => Ok(i),
            _ => Err(de_error("expected integer")),
        }
    }

    /// An unsigned integer: a non-negative integer.
    pub fn deserialize_u64(self) -> (r: Result<u64, DeserializeError>)
        ensures
            match self.value.kind {
                ValueKind::Integer(i) => if i >= 0 {
                    r matches Ok(u) && u == i
                } else {
                    r matches Err(e) && e.0@ == "expected non-negative integer"@
                },
                _ => r matches Err(e) && e.0@ == "expected integer"@,
            },
    {
        match self.value.kind {
            ValueKind::Integer(i) => if i >= 0 {
                Ok(i as u64)
            } else {
                Err(de_error("expected non-negative integer"))
            },
            _ => Err(de_error("expected integer")),
        }
    }

    /// A string.
    pub fn deserialize_string(self) -> (r: Result<String, DeserializeError>)
        ensures
            match self.value.kind {
                ValueKind::String(s) => r matches Ok(t) && t == s,
                _ => r matches Err(e) && e.0@ == "expected string"@,
            },
    {
        match self.value.kind {
            ValueKind::String(s) => Ok(s),
            _ => Err(de_error("expected string")),
        }
    }

    /// The items of an array.
    pub fn deserialize_seq(self) -> (r: Result<Vec<Value>, DeserializeError>)
        ensures
            match self.value.kind {
                ValueKind::Array(a) => r matches Ok(t) && t == a,
                _ => r matches Err(e) && e.0@ == "expected array"@,
            },
    {
        match self.value.kind {
            ValueKind::Array(a) => Ok(a),
            _ => Err(de_error("expected array")),
        }
    }

    /// The entries of an object.
    pub fn deserialize_map(self) -> (r: Result<ObjectMap, DeserializeError>)
        ensures
            match self.value.kind {
                ValueKind::Object(m) => r matches Ok(t) && t == m,
                _ => r matches Err(e) && e.0@ == "expected object"@,
            },
    {
        match self.value.kind {
            ValueKind::Object(m) => Ok(m),
            _ => Err(de_error("expected object")),
        }
    }

    /// An optional value: `null` is none.
    pub fn deserialize_option(self) -> (r: Option<Value>)
        ensures
            match self.value.kind {
                ValueKind::Null => r is None,
                _ => r == Some(self.value),
            },
    {
        match self.value.kind {
            ValueKind::Null => None,
            _ => Some(self.value),
        }
    }

    /// An enum: a string names a unit variant, an object with exactly one
    /// entry a newtype variant.
    pub fn deserialize_enum(self) -> (r: Result<EnumForm, DeserializeError>)
        ensures
            match self.value.kind {
                ValueKind::String(s) => r matches Ok(EnumForm::Unit(t)) && t == s,
                ValueKind::Object(m) => if m@.len() == 1 {
                    r matches Ok(EnumForm::Newtype(k, v)) && k@ == m@[0].0 && v@ == m@[0].1
                } else {
                    r matches Err(e) && e.0@
                        == "enum variants with multiple fields are not supported (use newtype or unit variants)"@
                },
                _ => r matches Err(e) && e.0@ == "expected enum (string or single-key object)"@,
            },
    {
        match self.value.kind {
            ValueKind::String(s) => Ok(EnumForm::Unit(s)),
            ValueKind::Object(m) => {
                let mut entries = m.into_entries();
                proof {
                    crate::value::lemma_entries_model(entries@);
                }
                if entries.len() == 1 {
                    let (k, v) = entries.remove(0);
                    Ok(EnumForm::Newtype(k, v))
                } else {
                    Err(
                        de_error(
                            "enum variants with multiple fields are not supported (use newtype or unit variants)",
                        ),
                    )
                }
            },
            _ => Err(de_error("expected enum (string or single-key object)")),
        }
    }
}

} // verus!
