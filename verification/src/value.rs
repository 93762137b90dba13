//! The document tree of a COSY configuration and its mathematical model.
use vstd::prelude::*;
use crate::text::{str_eq, int_text, push_int};

verus! {

/// Mathematical model of a value's variant.
///
/// A float is modelled by the decimal text it was written with; objects are
/// sequences of entries in insertion order.
pub enum Shape {
    Null,
    Bool(bool),
    Integer(i64),
    Float(Seq<char>),
    Str(Seq<char>),
    Array(Seq<Node>),
    Object(Seq<(Seq<char>, Node)>),
}

/// Mathematical model of a value: its variant and the comments attached to it.
pub struct Node {
    pub shape: Shape,
    pub comments: Seq<Seq<char>>,
}

/// A COSY value: the data and the comments written before it.
#[derive(Debug)]
pub struct Value {
    pub kind: ValueKind,
    pub comments: Vec<String>,
}

/// The data variant of a COSY value.
#[derive(Debug)]
pub enum ValueKind {
    Null,
    Bool(bool),
    Integer(i64),
    /// A float, held as the decimal text that denotes it.
    Float(String),
    String(String),
    Array(Vec<Value>),
    Object(ObjectMap),
}

/// An object: string keys mapped to values, in insertion order; no key
/// occurs twice. Two objects are equal (`==`) when they hold the same keys
/// with equal values, whatever the order of their entries.
///
/// The entries are kept in a vector: Verus does not accept
/// `indexmap::IndexMap` declared with values of this recursive type.
#[derive(Debug)]
pub struct ObjectMap {
    pub(crate) entries: Vec<(String, Value)>,
}

pub open spec fn strings_model(s: Seq<String>) -> Seq<Seq<char>> {
    s.map_values(|x: String| x@)
}

pub open spec fn value_model(v: Value) -> Node
    decreases v,
{
    Node { shape: kind_model(v.kind), comments: strings_model(v.comments@) }
}

pub open spec fn kind_model(k: ValueKind) -> Shape
    decreases k,
{
    match k {
        ValueKind::Null => Shape::Null,
        ValueKind::Bool(b) => Shape::Bool(b),
        ValueKind::Integer(i) => Shape::Integer(i),
        ValueKind::Float(t) => Shape::Float(t@),
        ValueKind::String(s) => Shape::Str(s@),
        ValueKind::Array(a) => Shape::Array(values_model(a@)),
        ValueKind::Object(m) => Shape::Object(entries_model(m.entry_seq())),
    }
}

pub open spec fn values_model(s: Seq<Value>) -> Seq<Node>
    decreases s,
{
    if s.len() == 0 {
        Seq::empty()
    } else {
        values_model(s.drop_last()).push(value_model(s.last()))
    }
}

pub open spec fn entries_model(s: Seq<(String, Value)>) -> Seq<(Seq<char>, Node)>
    decreases s,
{
    if s.len() == 0 {
        Seq::empty()
    } else {
        entries_model(s.drop_last()).push((s.last().0@, value_model(s.last().1)))
    }
}

} // verus!

verus! {

impl View for Value {
    type V = Node;

    open spec fn view(&self) -> Node {
        value_model(*self)
    }
}

impl View for ObjectMap {
    type V = Seq<(Seq<char>, Node)>;

    open spec fn view(&self) -> Seq<(Seq<char>, Node)> {
        entries_model(self.entry_seq())
    }
}

/// The first position at which `key` occurs among the entries, if any.
pub open spec fn find_key(entries: Seq<(Seq<char>, Node)>, key: Seq<char>) -> Option<int>
    decreases entries.len(),
{
    if entries.len() == 0 {
        None
    } else {
        match find_key(entries.drop_last(), key) {
            Some(i) => Some(i),
            None => if entries.last().0 == key {
                Some(entries.len() - 1)
            } else {
                None
            },
        }
    }
}

/// The keys of an object, in order.
pub open spec fn keys_of(entries: Seq<(Seq<char>, Node)>) -> Seq<Seq<char>> {
    entries.map_values(|e: (Seq<char>, Node)| e.0)
}

/// No key occurs twice among the entries.
pub open spec fn distinct_keys(entries: Seq<(Seq<char>, Node)>) -> bool {
    forall|i: int, j: int|
        0 <= i < j < entries.len() ==> #[trigger] entries[i].0 != #[trigger] entries[j].0
}

/// The entries after setting `key` to `val`: an existing key keeps its place,
/// a new key goes to the end.
pub open spec fn insert_entry(entries: Seq<(Seq<char>, Node)>, key: Seq<char>, val: Node) -> Seq<
    (Seq<char>, Node),
> {
    match find_key(entries, key) {
        Some(i) => entries.update(i, (key, val)),
        None => entries.push((key, val)),
    }
}

/// No object anywhere in the value has a key twice.
pub open spec fn well_keyed(n: Node) -> bool
    decreases n,
{
    match n.shape {
        Shape::Object(es) => distinct_keys(es) && forall|i: int|
            0 <= i < es.len() ==> well_keyed(#[trigger] es[i].1),
        Shape::Array(items) => forall|i: int| 0 <= i < items.len() ==> well_keyed(#[trigger] items[i]),
        _ => true,
    }
}

/// Setting a key in entries with distinct keys and well-keyed values keeps
/// both properties, given a well-keyed value.
pub proof fn lemma_insert_entry_well_keyed(entries: Seq<(Seq<char>, Node)>, key: Seq<char>, val: Node)
    requires
        distinct_keys(entries),
        forall|i: int| 0 <= i < entries.len() ==> well_keyed(#[trigger] entries[i].1),
        well_keyed(val),
    ensures
        distinct_keys(insert_entry(entries, key, val)),
        forall|i: int|
            0 <= i < insert_entry(entries, key, val).len() ==> well_keyed(
                #[trigger] insert_entry(entries, key, val)[i].1,
            ),
{
    lemma_find_key(entries, key);
    let r = insert_entry(entries, key, val);
    match find_key(entries, key) {
        Some(k) => {
            assert forall|a: int, b: int| 0 <= a < b < r.len() implies #[trigger] r[a].0 != #[trigger] r[b].0 by {
                assert(r[a].0 == entries[a].0);
                assert(r[b].0 == entries[b].0);
            }
        },
        None => {
            assert forall|a: int, b: int| 0 <= a < b < r.len() implies #[trigger] r[a].0 != #[trigger] r[b].0 by {
                assert(r[a] == entries[a]);
                if b < entries.len() {
                    assert(r[b] == entries[b]);
                }
            }
            assert forall|i: int| 0 <= i < r.len() implies well_keyed(#[trigger] r[i].1) by {
                if i < entries.len() {
                    assert(r[i] == entries[i]);
                }
            }
        },
    }
}

/// Setting a key among entries with distinct keys keeps them distinct.
pub proof fn lemma_insert_entry_distinct(entries: Seq<(Seq<char>, Node)>, key: Seq<char>, val: Node)
    requires
        distinct_keys(entries),
    ensures
        distinct_keys(insert_entry(entries, key, val)),
{
    lemma_find_key(entries, key);
    let r = insert_entry(entries, key, val);
    match find_key(entries, key) {
        Some(k) => {
            assert forall|a: int, b: int| 0 <= a < b < r.len() implies #[trigger] r[a].0 != #[trigger] r[b].0 by {
                assert(r[a].0 == entries[a].0);
                assert(r[b].0 == entries[b].0);
            }
        },
        None => {
            assert forall|a: int, b: int| 0 <= a < b < r.len() implies #[trigger] r[a].0 != #[trigger] r[b].0 by {
                assert(r[a] == entries[a]);
                if b < entries.len() {
                    assert(r[b] == entries[b]);
                }
            }
        },
    }
}

/// Removing an entry keeps the other keys distinct.
pub proof fn lemma_remove_distinct(entries: Seq<(Seq<char>, Node)>, i: int)
    requires
        distinct_keys(entries),
        0 <= i < entries.len(),
    ensures
        distinct_keys(entries.remove(i)),
{
    let r = entries.remove(i);
    assert forall|a: int, b: int| 0 <= a < b < r.len() implies #[trigger] r[a].0 != #[trigger] r[b].0 by {
        let a2 = if a < i { a } else { a + 1 };
        let b2 = if b < i { b } else { b + 1 };
        assert(r[a] == entries[a2]);
        assert(r[b] == entries[b2]);
    }
}

/// The type name of a value's variant, as reported in messages.
pub open spec fn shape_type_name(s: Shape) -> Seq<char> {
    match s {
        Shape::Null => "null"@,
        Shape::Bool(_) => "boolean"@,
        Shape::Integer(_) => "integer"@,
        Shape::Float(_) => "float"@,
        Shape::Str(_) => "string"@,
        Shape::Array(_) => "array"@,
        Shape::Object(_) => "object"@,
    }
}

pub proof fn lemma_find_key(entries: Seq<(Seq<char>, Node)>, key: Seq<char>)
    ensures
        match find_key(entries, key) {
            Some(i) => 0 <= i < entries.len() && entries[i].0 == key && forall|j: int|
                0 <= j < i ==> #[trigger] entries[j].0 != key,
            None => forall|j: int| 0 <= j < entries.len() ==> #[trigger] entries[j].0 != key,
        },
    decreases entries.len(),
{
    if entries.len() > 0 {
        lemma_find_key(entries.drop_last(), key);
        let d = entries.drop_last();
        assert forall|j: int| 0 <= j < d.len() implies d[j] == entries[j] by {}
    }
}

pub proof fn lemma_values_model(s: Seq<Value>)
    ensures
        values_model(s).len() == s.len(),
        forall|i: int| 0 <= i < s.len() ==> #[trigger] values_model(s)[i] == value_model(s[i]),
    decreases s.len(),
{
    if s.len() > 0 {
        lemma_values_model(s.drop_last());
    }
}

pub proof fn lemma_entries_model(s: Seq<(String, Value)>)
    ensures
        entries_model(s).len() == s.len(),
        forall|i: int|
            0 <= i < s.len() ==> #[trigger] entries_model(s)[i] == (s[i].0@, value_model(s[i].1)),
    decreases s.len(),
{
    if s.len() > 0 {
        lemma_entries_model(s.drop_last());
    }
}

pub proof fn lemma_values_model_push(s: Seq<Value>, v: Value)
    ensures
        values_model(s.push(v)) == values_model(s).push(value_model(v)),
{
    assert(s.push(v).drop_last() =~= s);
}

pub proof fn lemma_entries_model_push(s: Seq<(String, Value)>, e: (String, Value))
    ensures
        entries_model(s.push(e)) == entries_model(s).push((e.0@, value_model(e.1))),
{
    assert(s.push(e).drop_last() =~= s);
}

pub proof fn lemma_entries_model_update(s: Seq<(String, Value)>, i: int, e: (String, Value))
    requires
        0 <= i < s.len(),
    ensures
        entries_model(s.update(i, e)) == entries_model(s).update(i, (e.0@, value_model(e.1))),
{
    lemma_entries_model(s);
    lemma_entries_model(s.update(i, e));
    assert(entries_model(s.update(i, e)) =~= entries_model(s).update(i, (e.0@, value_model(e.1))));
}

/// The display text of a value's data; comments are not shown.
pub open spec fn display_shape(s: Shape) -> Seq<char>
    decreases s, 0int,
{
    match s {
        Shape::Null => "null"@,
        Shape::Bool(b) => if b {
            "true"@
        } else {
            "false"@
        },
        Shape::Integer(i) => int_text(i as int),
        Shape::Float(t) => t,
        Shape::Str(t) => "\""@ + t + "\""@,
        Shape::Array(items) => "["@ + display_items(items, items.len() as int) + "]"@,
        Shape::Object(es) => "{"@ + display_entries(es, es.len() as int) + "}"@,
    }
}

/// The first `k` items shown, separated by ", ".
pub open spec fn display_items(items: Seq<Node>, k: int) -> Seq<char>
    decreases items, k,
{
    if k <= 0 || k > items.len() {
        Seq::empty()
    } else if k == 1 {
        display_shape(items[0].shape)
    } else {
        display_items(items, k - 1) + ", "@ + display_shape(items[k - 1].shape)
    }
}

/// The first `k` entries shown as "key: value", separated by ", ".
pub open spec fn display_entries(es: Seq<(Seq<char>, Node)>, k: int) -> Seq<char>
    decreases es, k,
{
    if k <= 0 || k > es.len() {
        Seq::empty()
    } else if k == 1 {
        es[0].0 + ": "@ + display_shape(es[0].1.shape)
    } else {
        display_entries(es, k - 1) + ", "@ + es[k - 1].0 + ": "@ + display_shape(es[k - 1].1.shape)
    }
}

/// Append the display text of `k` to `out`.
fn push_display(out: &mut String, k: &ValueKind)
    ensures
        final(out)@ == old(out)@ + display_shape(kind_model(*k)),
    decreases kind_model(*k),
{
    let ghost o = out@;
    match k {
        ValueKind::Null => out.append("null"),
        ValueKind::Bool(b) => if *b {
            out.append("true")
        } else {
            out.append("false")
        },
        ValueKind::Integer(i) => push_int(out, *i),
        ValueKind::Float(t) => out.append(t.as_str()),
        ValueKind::String(t) => {
            out.append("\"");
            out.append(t.as_str());
            out.append("\"");
            assert(out@ =~= o + ("\""@ + t@ + "\""@));
        },
        ValueKind::Array(arr) => {
            let ghost items = values_model(arr@);
            proof {
                lemma_values_model(arr@);
            }
            out.append("[");
            let mut i: usize = 0;
            while i < arr.len()
                invariant
                    0 <= i <= arr@.len(),
                    items == values_model(arr@),
                    items.len() == arr@.len(),
                    forall|j: int| 0 <= j < arr@.len() ==> #[trigger] items[j] == value_model(arr@[j]),
                    kind_model(*k) == Shape::Array(items),
                    out@ == o + "["@ + display_items(items, i as int),
                decreases arr@.len() - i,
            {
                let ghost before = out@;
                if i > 0 {
                    out.append(", ");
                }
                assert(items[i as int].shape == kind_model(arr@[i as int].kind));
                proof {
                    let sh = Shape::Array(items);
                    assert(decreases_to!(sh => sh->Array_0));
                    assert(decreases_to!(items => items[i as int]));
                    assert(decreases_to!(items[i as int] => items[i as int].shape));
                }
                push_display(out, &arr[i].kind);
                if i > 0 {
                    assert(out@ =~= o + "["@ + display_items(items, i as int + 1));
                } else {
                    assert(out@ =~= o + "["@ + display_items(items, 1));
                }
                i = i + 1;
            }
            out.append("]");
            assert(out@ =~= o + display_shape(kind_model(*k)));
        },
        ValueKind::Object(m) => {
            let ghost es = entries_model(m.entries@);
            proof {
                lemma_entries_model(m.entries@);
            }
            out.append("{");
            let mut i: usize = 0;
            while i < m.entries.len()
                invariant
                    0 <= i <= m.entries@.len(),
                    es == entries_model(m.entries@),
                    es.len() == m.entries@.len(),
                    forall|j: int|
                        0 <= j < m.entries@.len() ==> #[trigger] es[j] == (
                            m.entries@[j].0@,
                            value_model(m.entries@[j].1),
                        ),
                    kind_model(*k) == Shape::Object(es),
                    out@ == o + "{"@ + display_entries(es, i as int),
                decreases m.entries@.len() - i,
            {
                if i > 0 {
                    out.append(", ");
                }
                out.append(m.entries[i].0.as_str());
                out.append(": ");
                assert(es[i as int].1.shape == kind_model(m.entries@[i as int].1.kind));
                proof {
                    let sh = Shape::Object(es);
                    assert(decreases_to!(sh => sh->Object_0));
                    assert(decreases_to!(es => es[i as int]));
                    assert(decreases_to!(es[i as int] => es[i as int].1));
                    assert(decreases_to!(es[i as int].1 => es[i as int].1.shape));
                }
                push_display(out, &m.entries[i].1.kind);
                if i > 0 {
                    assert(out@ =~= o + "{"@ + display_entries(es, i as int + 1));
                } else {
                    assert(out@ =~= o + "{"@ + display_entries(es, 1));
                }
                i = i + 1;
            }
            out.append("}");
            assert(out@ =~= o + display_shape(kind_model(*k)));
        },
    }
}

impl ValueKind {
    /// The display text of this data, as `{a: 1, b: [true, "x"]}`.
    pub fn to_string(&self) -> (s: String)
        ensures
            s@ == display_shape(kind_model(*self)),
    {
        let mut s = String::new();
        push_display(&mut s, self);
        assert(s@ =~= display_shape(kind_model(*self)));
        s
    }

    /// The name of this variant's type.
    pub fn kind_name(&self) -> (r: &'static str)
        ensures
            r@ == shape_type_name(kind_model(*self)),
    {
        match self {
            ValueKind::Null => "null",
            ValueKind::Bool(_) => "boolean",
            ValueKind::Integer(_) => "integer",
            ValueKind::Float(_) => "float",
            ValueKind::String(_) => "string",
            ValueKind::Array(_) => "array",
            ValueKind::Object(_) => "object",
        }
    }
}

/// A copy of a list of strings.
fn copy_strings(v: &Vec<String>) -> (r: Vec<String>)
    ensures
        strings_model(r@) == strings_model(v@),
{
    let mut r: Vec<String> = Vec::new();
    let mut k: usize = 0;
    while k < v.len()
        invariant
            0 <= k <= v@.len(),
            r@.len() == k,
            forall|j: int| 0 <= j < k ==> (#[trigger] r@[j])@ == v@[j]@,
        decreases v@.len() - k,
    {
        r.push(v[k].clone());
        k = k + 1;
    }
    assert(strings_model(r@) =~= strings_model(v@));
    r
}

/// A copy of a value's data.
fn copy_kind(k: &ValueKind) -> (r: ValueKind)
    ensures
        kind_model(r) == kind_model(*k),
    decreases kind_model(*k),
{
    match k {
        ValueKind::Null => ValueKind::Null,
        ValueKind::Bool(b) => ValueKind::Bool(*b),
        ValueKind::Integer(i) => ValueKind::Integer(*i),
        ValueKind::Float(t) => ValueKind::Float(t.clone()),
        ValueKind::String(t) => ValueKind::String(t.clone()),
        ValueKind::Array(arr) => {
            let ghost items = values_model(arr@);
            proof {
                lemma_values_model(arr@);
            }
            let mut out: Vec<Value> = Vec::new();
            let mut i: usize = 0;
            while i < arr.len()
                invariant
                    0 <= i <= arr@.len(),
                    items == values_model(arr@),
                    items.len() == arr@.len(),
                    forall|j: int| 0 <= j < arr@.len() ==> #[trigger] items[j] == value_model(arr@[j]),
                    kind_model(*k) == Shape::Array(items),
                    values_model(out@) == items.take(i as int),
                decreases arr@.len() - i,
            {
                proof {
                    let sh = Shape::Array(items);
                    assert(decreases_to!(sh => sh->Array_0));
                    assert(decreases_to!(items => items[i as int]));
                    assert(decreases_to!(items[i as int] => items[i as int].shape));
                    assert(items[i as int].shape == kind_model(arr@[i as int].kind));
                }
                let kk = copy_kind(&arr[i].kind);
                let cs = copy_strings(&arr[i].comments);
                let item = Value { kind: kk, comments: cs };
                proof {
                    lemma_values_model_push(out@, item);
                    assert(items.take(i + 1) =~= items.take(i as int).push(item@));
                }
                out.push(item);
                i = i + 1;
            }
            assert(items.take(i as int) =~= items);
            ValueKind::Array(out)
        },
        ValueKind::Object(m) => {
            let ghost es = entries_model(m.entries@);
            proof {
                use_type_invariant(m);
                lemma_entries_model(m.entries@);
            }
            let mut out: Vec<(String, Value)> = Vec::new();
            let mut i: usize = 0;
            while i < m.entries.len()
                invariant
                    0 <= i <= m.entries@.len(),
                    es == entries_model(m.entries@),
                    es.len() == m.entries@.len(),
                    forall|j: int|
                        0 <= j < m.entries@.len() ==> #[trigger] es[j] == (
                            m.entries@[j].0@,
                            value_model(m.entries@[j].1),
                        ),
                    kind_model(*k) == Shape::Object(es),
                    entries_model(out@) == es.take(i as int),
                decreases m.entries@.len() - i,
            {
                proof {
                    let sh = Shape::Object(es);
                    assert(decreases_to!(sh => sh->Object_0));
                    assert(decreases_to!(es => es[i as int]));
                    assert(decreases_to!(es[i as int] => es[i as int].1));
                    assert(decreases_to!(es[i as int].1 => es[i as int].1.shape));
                    assert(es[i as int].1.shape == kind_model(m.entries@[i as int].1.kind));
                }
                let kk = copy_kind(&m.entries[i].1.kind);
                let cs = copy_strings(&m.entries[i].1.comments);
                let e = (m.entries[i].0.clone(), Value { kind: kk, comments: cs });
                proof {
                    lemma_entries_model_push(out@, e);
                    assert(es.take(i + 1) =~= es.take(i as int).push((e.0@, value_model(e.1))));
                }
                out.push(e);
                i = i + 1;
            }
            assert(es.take(i as int) =~= es);
            ValueKind::Object(ObjectMap { entries: out })
        },
    }
}

impl Clone for Value {
    /// A copy of this value, comments included.
    fn clone(&self) -> (r: Value)
        ensures
            r@ == self@,
    {
        self.deep_clone()
    }
}

impl Clone for ValueKind {
    /// A copy of this data.
    fn clone(&self) -> (r: ValueKind)
        ensures
            kind_model(r) == kind_model(*self),
    {
        copy_kind(self)
    }
}

impl Clone for ObjectMap {
    /// A copy of this object, entries in the same order.
    fn clone(&self) -> (r: ObjectMap)
        ensures
            r@ == self@,
    {
        let ghost es = self@;
        proof {
            use_type_invariant(self);
            lemma_entries_model(self.entries@);
        }
        let mut out: Vec<(String, Value)> = Vec::new();
        let mut i: usize = 0;
        assert(entries_model(out@) =~= es.take(0));
        while i < self.entries.len()
            invariant
                0 <= i <= self.entries@.len(),
                es == self@,
                es.len() == self.entries@.len(),
                forall|j: int| 0 <= j < es.len() ==> #[trigger] es[j] == (
                    self.entries@[j].0@,
                    self.entries@[j].1@,
                ),
                entries_model(out@) == es.take(i as int),
            decreases self.entries@.len() - i,
        {
            let e = (self.entries[i].0.clone(), self.entries[i].1.deep_clone());
            proof {
                lemma_entries_model_push(out@, e);
                assert(es.take(i + 1) =~= es.take(i as int).push((e.0@, value_model(e.1))));
            }
            out.push(e);
            i = i + 1;
        }
        assert(es.take(i as int) =~= es);
        ObjectMap { entries: out }
    }
}

impl From<ValueKind> for Value {
    /// A value of the given data, without comments.
    fn from(x: ValueKind) -> (v: Value)
        ensures
            v@ == (Node { shape: kind_model(x), comments: Seq::empty() }),
    {
        Value::new(x)
    }
}

impl vstd::std_specs::convert::FromSpecImpl<ValueKind> for Value {
    /// Values hold `Vec`s, which no spec expression builds; what `from`
    /// gives is stated on each impl of `from` instead.
    open spec fn obeys_from_spec() -> bool {
        false
    }

    open spec fn from_spec(x: ValueKind) -> Value {
        choose|v: Value| v@ == (Node { shape: kind_model(x), comments: Seq::empty() })
    }
}

impl From<bool> for Value {
    /// A boolean value.
    fn from(x: bool) -> (v: Value)
        ensures
            v@ == (Node { shape: Shape::Bool(x), comments: Seq::empty() }),
    {
        Value::boolean(x)
    }
}

impl vstd::std_specs::convert::FromSpecImpl<bool> for Value {
    /// Values hold `Vec`s, which no spec expression builds; what `from`
    /// gives is stated on each impl of `from` instead.
    open spec fn obeys_from_spec() -> bool {
        false
    }

    open spec fn from_spec(x: bool) -> Value {
        choose|v: Value| v@ == (Node { shape: Shape::Bool(x), comments: Seq::empty() })
    }
}

impl From<i64> for Value {
    /// An integer value.
    fn from(x: i64) -> (v: Value)
        ensures
            v@ == (Node { shape: Shape::Integer(x), comments: Seq::empty() }),
    {
        Value::integer(x)
    }
}

impl vstd::std_specs::convert::FromSpecImpl<i64> for Value {
    /// Values hold `Vec`s, which no spec expression builds; what `from`
    /// gives is stated on each impl of `from` instead.
    open spec fn obeys_from_spec() -> bool {
        false
    }

    open spec fn from_spec(x: i64) -> Value {
        choose|v: Value| v@ == (Node { shape: Shape::Integer(x), comments: Seq::empty() })
    }
}

impl From<String> for Value {
    /// A string value.
    fn from(x: String) -> (v: Value)
        ensures
            v@ == (Node { shape: Shape::Str(x@), comments: Seq::empty() }),
    {
        Value::string(x)
    }
}

impl vstd::std_specs::convert::FromSpecImpl<String> for Value {
    /// Values hold `Vec`s, which no spec expression builds; what `from`
    /// gives is stated on each impl of `from` instead.
    open spec fn obeys_from_spec() -> bool {
        false
    }

    open spec fn from_spec(x: String) -> Value {
        choose|v: Value| v@ == (Node { shape: Shape::Str(x@), comments: Seq::empty() })
    }
}

impl From<&str> for Value {
    /// A string value.
    fn from(x: &str) -> (v: Value)
        ensures
            v@ == (Node { shape: Shape::Str(x@), comments: Seq::empty() }),
    {
        Value::string(String::from_str(x))
    }
}

impl vstd::std_specs::convert::FromSpecImpl<&str> for Value {
    /// Values hold `Vec`s, which no spec expression builds; what `from`
    /// gives is stated on each impl of `from` instead.
    open spec fn obeys_from_spec() -> bool {
        false
    }

    open spec fn from_spec(x: &str) -> Value {
        choose|v: Value| v@ == (Node { shape: Shape::Str(x@), comments: Seq::empty() })
    }
}

impl Value {
    /// Every object in this value, at any depth, has distinct keys.
    pub fn keys_distinct(&self)
        ensures
            well_keyed(self@),
        decreases self@,
    {
        let ghost n = self@;
        match &self.kind {
            ValueKind::Object(m) => {
                proof {
                    use_type_invariant(m);
                    lemma_entries_model(m.entries@);
                }
                let ghost es = m@;
                let mut i: usize = 0;
                while i < m.entries.len()
                    invariant
                        n == self@,
                        n.shape == Shape::Object(es),
                        es == m@,
                        es.len() == m.entries@.len(),
                        forall|j: int| 0 <= j < es.len() ==> #[trigger] es[j] == (
                            m.entries@[j].0@,
                            value_model(m.entries@[j].1),
                        ),
                        0 <= i <= es.len(),
                        forall|j: int| 0 <= j < i ==> well_keyed(#[trigger] es[j].1),
                    decreases es.len() - i,
                {
                    assert(es[i as int].1 == m.entries@[i as int].1@);
                    assert(decreases_to!(n => es[i as int].1)) by {
                        assert(decreases_to!(n => n.shape));
                        assert(decreases_to!(n.shape => n.shape->Object_0));
                        assert(decreases_to!(es => es[i as int]));
                    }
                    m.entries[i].1.keys_distinct();
                    i = i + 1;
                }
            },
            ValueKind::Array(arr) => {
                proof {
                    lemma_values_model(arr@);
                }
                let ghost items = values_model(arr@);
                let mut i: usize = 0;
                while i < arr.len()
                    invariant
                        n == self@,
                        n.shape == Shape::Array(items),
                        items == values_model(arr@),
                        items.len() == arr@.len(),
                        forall|j: int| 0 <= j < items.len() ==> #[trigger] items[j] == arr@[j]@,
                        0 <= i <= items.len(),
                        forall|j: int| 0 <= j < i ==> well_keyed(#[trigger] items[j]),
                    decreases items.len() - i,
                {
                    assert(decreases_to!(n => items[i as int])) by {
                        assert(decreases_to!(n => n.shape));
                        assert(decreases_to!(n.shape => n.shape->Array_0));
                        assert(decreases_to!(items => items[i as int]));
                    }
                    arr[i].keys_distinct();
                    i = i + 1;
                }
            },
            _ => {},
        }
    }
}

impl Value {
    /// A copy of this value, comments included.
    pub fn deep_clone(&self) -> (r: Value)
        ensures
            r@ == self@,
    {
        Value { kind: copy_kind(&self.kind), comments: copy_strings(&self.comments) }
    }

    pub fn new(kind: ValueKind) -> (v: Value)
        ensures
            v.kind == kind,
            v.comments@.len() == 0,
            v@ == (Node { shape: kind_model(kind), comments: Seq::empty() }),
    {
        let v = Value { kind, comments: Vec::new() };
        assert(strings_model(v.comments@) =~= Seq::empty());
        v
    }

    pub fn with_comments(kind: ValueKind, comments: Vec<String>) -> (v: Value)
        ensures
            v.kind == kind,
            v.comments == comments,
            v@ == (Node { shape: kind_model(kind), comments: strings_model(comments@) }),
    {
        Value { kind, comments }
    }

    /// The display text of this value's data; comments are not shown.
    pub fn to_string(&self) -> (s: String)
        ensures
            s@ == display_shape(self@.shape),
    {
        self.kind.to_string()
    }

    /// The name of this value's type.
    pub fn kind_name(&self) -> (r: &'static str)
        ensures
            r@ == shape_type_name(self@.shape),
    {
        self.kind.kind_name()
    }

    pub fn null() -> (v: Value)
        ensures
            v@ == (Node { shape: Shape::Null, comments: Seq::empty() }),
    {
        Value::new(ValueKind::Null)
    }

    pub fn boolean(b: bool) -> (v: Value)
        ensures
            v@ == (Node { shape: Shape::Bool(b), comments: Seq::empty() }),
    {
        Value::new(ValueKind::Bool(b))
    }

    pub fn integer(i: i64) -> (v: Value)
        ensures
            v@ == (Node { shape: Shape::Integer(i), comments: Seq::empty() }),
    {
        Value::new(ValueKind::Integer(i))
    }

    /// A float value, given by the decimal text that denotes it.
    pub fn float(text: String) -> (v: Value)
        ensures
            v@ == (Node { shape: Shape::Float(text@), comments: Seq::empty() }),
    {
        Value::new(ValueKind::Float(text))
    }

    pub fn string(s: String) -> (v: Value)
        ensures
            v@ == (Node { shape: Shape::Str(s@), comments: Seq::empty() }),
    {
        Value::new(ValueKind::String(s))
    }

    pub fn array(arr: Vec<Value>) -> (v: Value)
        ensures
            v@ == (Node { shape: Shape::Array(values_model(arr@)), comments: Seq::empty() }),
    {
        Value::new(ValueKind::Array(arr))
    }

    pub fn object(obj: ObjectMap) -> (v: Value)
        ensures
            v@ == (Node { shape: Shape::Object(obj@), comments: Seq::empty() }),
    {
        Value::new(ValueKind::Object(obj))
    }
}

/// The entries of an object are those its field holds.
pub(crate) broadcast proof fn lemma_entry_seq(m: ObjectMap)
    ensures
        #[trigger] m.entry_seq() == m.entries@,
{
}

impl ObjectMap {
    /// The entries, in order.
    pub closed spec fn entry_seq(self) -> Seq<(String, Value)> {
        self.entries@
    }

    /// No key occurs twice among the entries.
    #[verifier::type_invariant]
    pub open spec fn has_distinct_keys(self) -> bool {
        distinct_keys(self@)
    }

    /// The entries, in order; their keys are distinct.
    pub fn into_entries(self) -> (es: Vec<(String, Value)>)
        ensures
            entries_model(es@) == self@,
            distinct_keys(self@),
    {
        proof {
            use_type_invariant(&self);
        }
        self.entries
    }

    /// An empty object.
    pub fn new() -> (m: ObjectMap)
        ensures
            m@ == Seq::<(Seq<char>, Node)>::empty(),
    {
        let m = ObjectMap { entries: Vec::new() };
        assert(entries_model(m.entries@) =~= Seq::empty());
        m
    }

    /// Number of entries.
    pub fn len(&self) -> (n: usize)
        ensures
            n == self@.len(),
    {
        proof {
            lemma_entries_model(self.entries@);
        }
        self.entries.len()
    }

    /// Whether there are no entries.
    pub fn is_empty(&self) -> (b: bool)
        ensures
            b == (self@.len() == 0),
    {
        self.len() == 0
    }

    /// The position of `key`, if present.
    pub fn position(&self, key: &str) -> (r: Option<usize>)
        ensures
            r matches Some(i) ==> find_key(self@, key@) == Some(i as int) && i < self@.len()
                && self@[i as int].0 == key@,
            r is None ==> find_key(self@, key@) is None,
    {
        proof {
            lemma_entries_model(self.entries@);
            lemma_find_key(self@, key@);
        }
        let mut i: usize = 0;
        while i < self.entries.len()
            invariant
                0 <= i <= self.entries.len(),
                self@.len() == self.entries@.len(),
                forall|j: int| 0 <= j < i ==> #[trigger] self@[j].0 != key@,
                forall|j: int|
                    0 <= j < self.entries@.len() ==> #[trigger] self@[j] == (
                        self.entries@[j].0@,
                        value_model(self.entries@[j].1),
                    ),
                match find_key(self@, key@) {
                    Some(k) => 0 <= k < self@.len() && self@[k].0 == key@ && forall|j: int|
                        0 <= j < k ==> #[trigger] self@[j].0 != key@,
                    None => forall|j: int| 0 <= j < self@.len() ==> #[trigger] self@[j].0 != key@,
                },
            decreases self.entries.len() - i,
        {
            if str_eq(self.entries[i].0.as_str(), key) {
                assert(self@[i as int].0 == key@);
                return Some(i);
            }
            i = i + 1;
        }
        None
    }

    /// Whether `key` is present.
    pub fn contains_key(&self, key: &str) -> (b: bool)
        ensures
            b == (find_key(self@, key@) is Some),
    {
        self.position(key).is_some()
    }

    /// The value stored under `key`, if present.
    pub fn get(&self, key: &str) -> (r: Option<&Value>)
        ensures
            r matches Some(v) ==> find_key(self@, key@) matches Some(i) && v@ == self@[i].1,
            r is None ==> find_key(self@, key@) is None,
    {
        proof {
            lemma_entries_model(self.entries@);
        }
        match self.position(key) {
            Some(i) => Some(&self.entries[i].1),
            None => None,
        }
    }

    /// Set `key` to `value`: an existing key keeps its position and gets the
    /// new value, a new key is appended.
    pub fn insert(&mut self, key: String, value: Value)
        ensures
            final(self)@ == insert_entry(old(self)@, key@, value@),
    {
        proof {
            use_type_invariant(&*self);
            lemma_entries_model(self.entries@);
            lemma_insert_entry_distinct(self@, key@, value@);
        }
        let pos = self.position(key.as_str());
        let mut entries: Vec<(String, Value)> = Vec::new();
        std::mem::swap(&mut entries, &mut self.entries);
        match pos {
            Some(i) => {
                proof {
                    lemma_entries_model_update(entries@, i as int, (key, value));
                }
                entries.set(i, (key, value));
            },
            None => {
                proof {
                    lemma_entries_model_push(entries@, (key, value));
                }
                entries.push((key, value));
            },
        }
        self.entries = entries;
    }

    /// The keys, in order.
    pub fn keys(&self) -> (ks: Vec<&String>)
        ensures
            ks@.len() == self@.len(),
            forall|i: int| 0 <= i < ks@.len() ==> #[trigger] ks@[i]@ == self@[i].0,
    {
        proof {
            lemma_entries_model(self.entries@);
        }
        let mut ks: Vec<&String> = Vec::new();
        let mut i: usize = 0;
        while i < self.entries.len()
            invariant
                0 <= i <= self.entries.len(),
                ks@.len() == i,
                self@.len() == self.entries@.len(),
                forall|j: int|
                    0 <= j < self.entries@.len() ==> #[trigger] self@[j] == (
                        self.entries@[j].0@,
                        value_model(self.entries@[j].1),
                    ),
                forall|j: int| 0 <= j < i ==> #[trigger] ks@[j]@ == self@[j].0,
            decreases self.entries.len() - i,
        {
            ks.push(&self.entries[i].0);
            i = i + 1;
        }
        ks
    }
}

} // verus!

verus! {

/// The entries without the first entry for `key`, if there is one.
pub open spec fn remove_key(entries: Seq<(Seq<char>, Node)>, key: Seq<char>) -> Seq<(Seq<char>, Node)> {
    match find_key(entries, key) {
        Some(i) => entries.remove(i),
        None => entries,
    }
}

pub proof fn lemma_entries_model_remove(s: Seq<(String, Value)>, i: int)
    requires
        0 <= i < s.len(),
    ensures
        entries_model(s.remove(i)) == entries_model(s).remove(i),
{
    lemma_entries_model(s);
    lemma_entries_model(s.remove(i));
    assert(entries_model(s.remove(i)) =~= entries_model(s).remove(i));
}

impl ObjectMap {
    /// Remove the entry for `key`, keeping the order of the others; returns
    /// its value.
    pub fn shift_remove(&mut self, key: &str) -> (r: Option<Value>)
        ensures
            final(self)@ == remove_key(old(self)@, key@),
            match find_key(old(self)@, key@) {
                Some(i) => r matches Some(v) && v@ == old(self)@[i].1,
                None => r is None,
            },
    {
        proof {
            use_type_invariant(&*self);
            lemma_entries_model(self.entries@);
        }
        match self.position(key) {
            Some(i) => {
                proof {
                    lemma_entries_model_remove(self.entries@, i as int);
                    lemma_remove_distinct(self@, i as int);
                }
                let mut entries: Vec<(String, Value)> = Vec::new();
                std::mem::swap(&mut entries, &mut self.entries);
                let (_, v) = entries.remove(i);
                self.entries = entries;
                Some(v)
            },
            None => None,
        }
    }
}

} // verus!
