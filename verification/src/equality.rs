//! Equality of values: the same comments and the same data, where two
//! objects are equal when they hold the same keys with equal values,
//! whatever the order of their entries.
use vstd::prelude::*;
use vstd::std_specs::cmp::PartialEqSpecImpl;
use crate::value::{Node, Shape, Value, ValueKind, ObjectMap, find_key, kind_model, values_model,
    lemma_values_model, lemma_entries_model, strings_model, lemma_find_key};
use crate::text::str_eq;

verus! {

broadcast use crate::value::lemma_entry_seq;

/// Two values are equal: the same comments and equal data.
pub open spec fn same_node(a: Node, b: Node) -> bool
    decreases a,
{
    a.comments == b.comments && same_shape(a.shape, b.shape)
}

/// Two data variants are equal. Arrays compare item by item, objects key
/// by key whatever their order, floats by the text that denotes them.
pub open spec fn same_shape(a: Shape, b: Shape) -> bool
    decreases a,
{
    match a {
        Shape::Array(x) => match b {
            Shape::Array(y) => same_items(x, y),
            _ => false,
        },
        Shape::Object(x) => match b {
            Shape::Object(y) => same_entries(x, y),
            _ => false,
        },
        _ => a == b,
    }
}

/// Two item sequences are equal, position by position.
pub open spec fn same_items(x: Seq<Node>, y: Seq<Node>) -> bool
    decreases x,
{
    x.len() == y.len() && forall|i: int| 0 <= i < x.len() ==> same_node(#[trigger] x[i], y[i])
}

/// Two objects are equal: as many entries, and each key of the first found
/// in the second with an equal value.
pub open spec fn same_entries(x: Seq<(Seq<char>, Node)>, y: Seq<(Seq<char>, Node)>) -> bool
    decreases x,
{
    x.len() == y.len() && forall|i: int|
        0 <= i < x.len() ==> match find_key(y, #[trigger] x[i].0) {
            Some(j) => same_node(x[i].1, y[j].1),
            None => false,
        }
}

/// Whether two lists of comments are the same.
fn comments_equal(a: &Vec<String>, b: &Vec<String>) -> (r: bool)
    ensures
        r == (strings_model(a@) == strings_model(b@)),
{
    if a.len() != b.len() {
        assert(strings_model(a@).len() != strings_model(b@).len());
        return false;
    }
    let mut i: usize = 0;
    while i < a.len()
        invariant
            a@.len() == b@.len(),
            0 <= i <= a@.len(),
            forall|j: int| 0 <= j < i ==> #[trigger] a@[j]@ == b@[j]@,
        decreases a@.len() - i,
    {
        if !str_eq(a[i].as_str(), b[i].as_str()) {
            assert(strings_model(a@)[i as int] != strings_model(b@)[i as int]);
            return false;
        }
        i = i + 1;
    }
    assert(strings_model(a@) =~= strings_model(b@));
    true
}

/// Whether two values are equal.
fn values_equal(a: &Value, b: &Value) -> (r: bool)
    ensures
        r == same_node(a@, b@),
    decreases a@, 1int,
{
    assert(decreases_to!(a@ => a@.shape));
    if !comments_equal(&a.comments, &b.comments) {
        return false;
    }
    kinds_equal(&a.kind, &b.kind)
}

/// Whether two data variants are equal.
fn kinds_equal(a: &ValueKind, b: &ValueKind) -> (r: bool)
    ensures
        r == same_shape(kind_model(*a), kind_model(*b)),
    decreases kind_model(*a), 0int,
{
    match a {
        ValueKind::Null => matches!(b, ValueKind::Null),
        ValueKind::Bool(x) => match b {
            ValueKind::Bool(y) => *x == *y,
            _ => false,
        },
        ValueKind::Integer(x) => match b {
            ValueKind::Integer(y) => *x == *y,
            _ => false,
        },
        ValueKind::Float(x) => match b {
            ValueKind::Float(y) => str_eq(x.as_str(), y.as_str()),
            _ => false,
        },
        ValueKind::String(x) => match b {
            ValueKind::String(y) => str_eq(x.as_str(), y.as_str()),
            _ => false,
        },
        ValueKind::Array(x) => match b {
            ValueKind::Array(y) => {
                let ghost xs = values_model(x@);
                let ghost ys = values_model(y@);
                proof {
                    lemma_values_model(x@);
                    lemma_values_model(y@);
                }
                if x.len() != y.len() {
                    assert(same_shape(kind_model(*a), kind_model(*b)) == same_items(xs, ys));
                    return false;
                }
                let mut i: usize = 0;
                while i < x.len()
                    invariant
                        xs == values_model(x@),
                        ys == values_model(y@),
                        xs.len() == x@.len() == y@.len() == ys.len(),
                        forall|j: int| 0 <= j < xs.len() ==> #[trigger] xs[j] == x@[j]@,
                        forall|j: int| 0 <= j < ys.len() ==> #[trigger] ys[j] == y@[j]@,
                        kind_model(*a) == Shape::Array(xs),
                        kind_model(*b) == Shape::Array(ys),
                        0 <= i <= x@.len(),
                        forall|j: int| 0 <= j < i ==> same_node(#[trigger] xs[j], ys[j]),
                    decreases x@.len() - i,
                {
                    assert(decreases_to!(kind_model(*a) => xs[i as int])) by {
                        let sh = Shape::Array(xs);
                        assert(decreases_to!(sh => sh->Array_0));
                        assert(decreases_to!(xs => xs[i as int]));
                    }
                    if !values_equal(&x[i], &y[i]) {
                        assert(same_shape(kind_model(*a), kind_model(*b)) == same_items(xs, ys));
                        assert(!same_node(xs[i as int], ys[i as int]));
                        return false;
                    }
                    i = i + 1;
                }
                assert(same_shape(kind_model(*a), kind_model(*b)) == same_items(xs, ys));
                true
            },
            _ => false,
        },
        ValueKind::Object(x) => match b {
            ValueKind::Object(y) => {
                assert(decreases_to!(kind_model(*a) => x@)) by {
                    let sh = Shape::Object(x@);
                    assert(decreases_to!(sh => sh->Object_0));
                }
                maps_equal(x, y)
            },
            _ => false,
        },
    }
}

/// Whether two objects hold the same keys with equal values.
fn maps_equal(a: &ObjectMap, b: &ObjectMap) -> (r: bool)
    ensures
        r == same_entries(a@, b@),
    decreases a@, 0int,
{
    let ghost xs = a@;
    let ghost ys = b@;
    proof {
        lemma_entries_model(a.entries@);
    }
    if a.len() != b.len() {
        return false;
    }
    let mut i: usize = 0;
    while i < a.entries.len()
        invariant
            xs == a@,
            ys == b@,
            xs.len() == a.entries@.len() == ys.len(),
            forall|j: int|
                0 <= j < xs.len() ==> #[trigger] xs[j] == (a.entries@[j].0@, a.entries@[j].1@),
            0 <= i <= xs.len(),
            forall|j: int|
                #![trigger xs[j]]
                0 <= j < i ==> match find_key(ys, xs[j].0) {
                    Some(k) => same_node(xs[j].1, ys[k].1),
                    None => false,
                },
        decreases xs.len() - i,
    {
        assert(xs[i as int] == (a.entries@[i as int].0@, a.entries@[i as int].1@));
        match b.get(a.entries[i].0.as_str()) {
            None => {
                assert(find_key(ys, xs[i as int].0) is None);
                return false;
            },
            Some(w) => {
                assert(decreases_to!(xs => xs[i as int].1)) by {
                    assert(decreases_to!(xs => xs[i as int]));
                }
                if !values_equal(&a.entries[i].1, w) {
                    let ghost k = find_key(ys, xs[i as int].0)->Some_0;
                    assert(!same_node(xs[i as int].1, ys[k].1));
                    return false;
                }
            },
        }
        i = i + 1;
    }
    true
}

impl PartialEq for Value {
    fn eq(&self, other: &Value) -> (r: bool) {
        values_equal(self, other)
    }
}

impl PartialEqSpecImpl for Value {
    open spec fn obeys_eq_spec() -> bool {
        true
    }

    open spec fn eq_spec(&self, other: &Value) -> bool {
        same_node(self@, other@)
    }
}

impl PartialEq for ValueKind {
    fn eq(&self, other: &ValueKind) -> (r: bool) {
        kinds_equal(self, other)
    }
}

impl PartialEqSpecImpl for ValueKind {
    open spec fn obeys_eq_spec() -> bool {
        true
    }

    open spec fn eq_spec(&self, other: &ValueKind) -> bool {
        same_shape(kind_model(*self), kind_model(*other))
    }
}

impl PartialEq for ObjectMap {
    fn eq(&self, other: &ObjectMap) -> (r: bool) {
        maps_equal(self, other)
    }
}

impl PartialEqSpecImpl for ObjectMap {
    open spec fn obeys_eq_spec() -> bool {
        true
    }

    open spec fn eq_spec(&self, other: &ObjectMap) -> bool {
        same_entries(self@, other@)
    }
}

} // verus!
