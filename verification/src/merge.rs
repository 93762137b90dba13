//! Deep merging of configuration values.
use vstd::prelude::*;
use crate::value::{Node, Shape, Value, ValueKind, ObjectMap, find_key, value_model, lemma_entries_model, entries_model,
    distinct_keys, lemma_find_key, well_keyed};

verus! {

broadcast use crate::value::lemma_entry_seq;

/// The result of merging `over` into `base`.
///
/// Two objects merge key by key, in the order of `over`'s keys: a key of
/// `over` that `base` already has is merged into `base`'s value in place, a
/// new key is appended; the merged object keeps `base`'s comments. In every
/// other case `over` replaces `base` whole.
pub open spec fn merged(base: Node, over: Node) -> Node
    decreases over,
{
    match base.shape {
        Shape::Object(be) => match over.shape {
            Shape::Object(oe) => Node {
                shape: Shape::Object(merged_entries(be, oe)),
                comments: base.comments,
            },
            _ => over,
        },
        _ => over,
    }
}

/// The entries of `base` after merging in the entries of `over` one by one.
pub open spec fn merged_entries(base: Seq<(Seq<char>, Node)>, over: Seq<(Seq<char>, Node)>) -> Seq<
    (Seq<char>, Node),
>
    decreases over,
{
    if over.len() == 0 {
        base
    } else {
        let acc = merged_entries(base, over.drop_last());
        let k = over.last().0;
        let v = over.last().1;
        match find_key(acc, k) {
            Some(i) => acc.update(i, (k, merged(acc[i].1, v))),
            None => acc.push((k, v)),
        }
    }
}

/// Merge `over` into `base`, consuming both.
pub fn merge_values(base: Value, over: Value) -> (r: Value)
    ensures
        r@ == merged(base@, over@),
    decreases over@,
{
    let Value { kind: bk, comments: bc } = base;
    let Value { kind: ok, comments: oc } = over;
    match bk {
        ValueKind::Object(bm) => match ok {
            ValueKind::Object(om) => {
                let ghost om_model = om@;
                assert(decreases_to!(over@ => om_model));
                let m = merge_maps(bm, om);
                Value { kind: ValueKind::Object(m), comments: bc }
            },
            other => Value { kind: other, comments: oc },
        },
        _ => Value { kind: ok, comments: oc },
    }
}

/// Merge the entries of `over` into `base`, one by one and in order.
pub(crate) fn merge_maps(base: ObjectMap, over: ObjectMap) -> (r: ObjectMap)
    ensures
        r@ == merged_entries(base@, over@),
    decreases over@,
{
    let ghost oe = over@;
    let ghost be = base@;
    let mut acc = base;
    let mut rest = over.entries;
    let mut n: usize = 0;
    let total = rest.len();
    proof {
        lemma_entries_model(rest@);
        assert(oe.take(0) =~= Seq::empty());
    }
    while rest.len() > 0
        invariant
            n + rest@.len() == oe.len(),
            forall|j: int|
                0 <= j < rest@.len() ==> oe[n + j] == (
                    #[trigger] rest@[j].0@,
                    value_model(rest@[j].1),
                ),
            acc@ == merged_entries(be, oe.take(n as int)),
            oe == over@,
            oe.len() == total,
        decreases rest@.len(),
    {
        let ghost r0 = rest@;
        let (k, v) = rest.remove(0);
        assert(oe[n + 0] == (r0[0].0@, value_model(r0[0].1)));
        assert(oe[n as int] == (k@, v@));
        assert forall|j: int| 0 <= j < rest@.len() implies oe[(n + 1) + j] == (
            #[trigger] rest@[j].0@,
            value_model(rest@[j].1),
        ) by {
            assert(rest@[j] == r0[j + 1]);
            assert(oe[n + (j + 1)] == (r0[j + 1].0@, value_model(r0[j + 1].1)));
        }
        assert(oe.take(n + 1).drop_last() =~= oe.take(n as int));
        assert(oe.take(n + 1).last() == oe[n as int]);
        proof {
            lemma_entries_model(acc.entries@);
        }
        match acc.position(k.as_str()) {
            Some(i) => {
                let ghost acc_model = acc@;
                proof {
                    use_type_invariant(&acc);
                }
                let mut entries = acc.entries;
                let (ek, ev) = entries.remove(i);
                assert(ev@ == acc_model[i as int].1);
                assert(decreases_to!(oe => oe[n as int].1));
                let mv = merge_values(ev, v);
                proof {
                    let s0 = entries@;
                    lemma_entries_model(s0);
                }
                entries.insert(i, (k, mv));
                proof {
                    lemma_entries_model(entries@);
                    let upd = acc_model.update(i as int, (oe[n as int].0, mv@));
                    assert(entries_model(entries@) =~= upd);
                    assert forall|a: int, b: int| 0 <= a < b < upd.len() implies #[trigger] upd[a].0
                        != #[trigger] upd[b].0 by {
                        assert(upd[a].0 == acc_model[a].0);
                        assert(upd[b].0 == acc_model[b].0);
                    }
                }
                acc = ObjectMap { entries };
            },
            None => {
                acc.insert(k, v);
            },
        }
        n = n + 1;
    }
    assert(oe.take(n as int) =~= oe);
    acc
}

/// Deeply merge `override_val` into `base`.
///
/// Objects merge key by key, recursively; arrays and all other values are
/// replaced by the override.
pub fn merge(base: &mut Value, override_val: Value)
    ensures
        final(base)@ == merged(old(base)@, override_val@),
{
    let mut b = Value::null();
    std::mem::swap(&mut b, base);
    *base = merge_values(b, override_val);
}

/// The value at `key` among the entries, if any.
pub open spec fn lookup(es: Seq<(Seq<char>, Node)>, key: Seq<char>) -> Option<Node> {
    match find_key(es, key) {
        Some(i) => Some(es[i].1),
        None => None,
    }
}

/// What merging makes of one key: the merge of both values where both
/// sides have it, else the value of the side that has it.
pub open spec fn merged_lookup(b: Option<Node>, o: Option<Node>) -> Option<Node> {
    match o {
        Some(ov) => match b {
            Some(bv) => Some(merged(bv, ov)),
            None => Some(ov),
        },
        None => b,
    }
}

/// Among entries with distinct keys, a key is found exactly where it stands.
pub proof fn lemma_find_key_distinct(es: Seq<(Seq<char>, Node)>, i: int)
    requires
        distinct_keys(es),
        0 <= i < es.len(),
    ensures
        find_key(es, es[i].0) == Some(i),
{
    lemma_find_key(es, es[i].0);
}

/// Keeping every key in place keeps where each key is found.
proof fn lemma_find_key_same_keys(a: Seq<(Seq<char>, Node)>, b: Seq<(Seq<char>, Node)>, key: Seq<char>)
    requires
        a.len() == b.len(),
        forall|j: int| 0 <= j < a.len() ==> #[trigger] a[j].0 == b[j].0,
    ensures
        find_key(a, key) == find_key(b, key),
{
    lemma_find_key(a, key);
    lemma_find_key(b, key);
    match find_key(a, key) {
        Some(i) => {
            assert(b[i].0 == key);
            match find_key(b, key) {
                Some(j) => {
                    if j < i {
                        assert(a[j].0 == key);
                    }
                    if i < j {
                        assert(b[i].0 == key);
                    }
                },
                None => {},
            }
        },
        None => {
            match find_key(b, key) {
                Some(j) => {
                    assert(a[j].0 == key);
                },
                None => {},
            }
        },
    }
}

/// Appending a key that is not present makes it found at the end, and keeps
/// where the other keys are found.
proof fn lemma_find_key_push(a: Seq<(Seq<char>, Node)>, e: (Seq<char>, Node), key: Seq<char>)
    requires
        find_key(a, e.0) is None,
    ensures
        find_key(a.push(e), key) == if key == e.0 {
            Some(a.len() as int)
        } else {
            find_key(a, key)
        },
{
    assert(a.push(e).drop_last() =~= a);
}

/// Merging two objects with distinct keys: the result has distinct keys, the
/// base's keys stay in their places, and each key holds what
/// `merged_lookup` makes of the two sides: a key of one side only keeps its
/// value, a key of both sides holds the merge of the two values.
pub proof fn lemma_merged_entries(base: Seq<(Seq<char>, Node)>, over: Seq<(Seq<char>, Node)>)
    requires
        distinct_keys(base),
        distinct_keys(over),
    ensures
        distinct_keys(merged_entries(base, over)),
        merged_entries(base, over).len() >= base.len(),
        forall|i: int| 0 <= i < base.len() ==> #[trigger] merged_entries(base, over)[i].0 == base[i].0,
        forall|key: Seq<char>|
            #[trigger] lookup(merged_entries(base, over), key) == merged_lookup(
                lookup(base, key),
                lookup(over, key),
            ),
    decreases over.len(),
{
    if over.len() > 0 {
        let prev = over.drop_last();
        assert(distinct_keys(prev));
        lemma_merged_entries(base, prev);
        let acc = merged_entries(base, prev);
        let k = over.last().0;
        let v = over.last().1;
        lemma_find_key(prev, k);
        assert forall|j: int| 0 <= j < prev.len() implies #[trigger] prev[j].0 != k by {
            assert(over[j] == prev[j]);
        }
        assert(lookup(prev, k) is None);
        let m = merged_entries(base, over);
        match find_key(acc, k) {
            Some(i) => {
                lemma_find_key(acc, k);
                assert(m == acc.update(i, (k, merged(acc[i].1, v))));
                assert forall|j: int| 0 <= j < acc.len() implies #[trigger] m[j].0 == acc[j].0 by {}
                assert forall|key: Seq<char>|
                    #[trigger] lookup(m, key) == merged_lookup(lookup(base, key), lookup(over, key)) by {
                    lemma_find_key_same_keys(m, acc, key);
                    lemma_find_key(over, key);
                    lemma_find_key(prev, key);
                    lemma_find_key(acc, key);
                    if key == k {
                        lemma_find_key_distinct(over, over.len() - 1);
                        assert(lookup(acc, k) == lookup(base, k));
                    } else {
                        assert(find_key(over, key) == find_key(prev, key));
                        match find_key(acc, key) {
                            Some(j) => {
                                assert(m[j] == acc[j]);
                            },
                            None => {},
                        }
                        match find_key(prev, key) {
                            Some(j) => {
                                assert(over[j] == prev[j]);
                            },
                            None => {},
                        }
                        assert(lookup(acc, key) == merged_lookup(lookup(base, key), lookup(prev, key)));
                        assert(lookup(over, key) == lookup(prev, key));
                        assert(lookup(m, key) == lookup(acc, key));
                    }
                }
                assert forall|a: int, b: int|
                    0 <= a < b < m.len() implies #[trigger] m[a].0 != #[trigger] m[b].0 by {
                    assert(m[a].0 == acc[a].0);
                    assert(m[b].0 == acc[b].0);
                }
            },
            None => {
                assert(m == acc.push((k, v)));
                lemma_find_key(acc, k);
                assert forall|key: Seq<char>|
                    #[trigger] lookup(m, key) == merged_lookup(lookup(base, key), lookup(over, key)) by {
                    lemma_find_key_push(acc, (k, v), key);
                    lemma_find_key(acc, key);
                    lemma_find_key(over, key);
                    lemma_find_key(prev, key);
                    if key == k {
                        lemma_find_key_distinct(over, over.len() - 1);
                        assert(lookup(acc, k) is None);
                    } else {
                        assert(find_key(over, key) == find_key(prev, key));
                        match find_key(acc, key) {
                            Some(j) => {
                                assert(m[j] == acc[j]);
                            },
                            None => {},
                        }
                        match find_key(prev, key) {
                            Some(j) => {
                                assert(over[j] == prev[j]);
                            },
                            None => {},
                        }
                        assert(lookup(acc, key) == merged_lookup(lookup(base, key), lookup(prev, key)));
                        assert(lookup(over, key) == lookup(prev, key));
                        assert(lookup(m, key) == lookup(acc, key));
                    }
                }
                assert forall|a: int, b: int|
                    0 <= a < b < m.len() implies #[trigger] m[a].0 != #[trigger] m[b].0 by {
                    if b == acc.len() {
                        assert(m[a] == acc[a]);
                    } else {
                        assert(m[a] == acc[a]);
                        assert(m[b] == acc[b]);
                    }
                }
            },
        }
    }
}

/// Merging an object with distinct keys into an empty one gives its entries.
pub proof fn lemma_merged_entries_into_empty(over: Seq<(Seq<char>, Node)>)
    requires
        distinct_keys(over),
    ensures
        merged_entries(Seq::empty(), over) == over,
    decreases over.len(),
{
    if over.len() > 0 {
        let prev = over.drop_last();
        assert(distinct_keys(prev));
        lemma_merged_entries_into_empty(prev);
        let k = over.last().0;
        lemma_find_key(prev, k);
        assert forall|j: int| 0 <= j < prev.len() implies #[trigger] prev[j].0 != k by {
            assert(over[j] == prev[j]);
        }
        assert(over =~= prev.push(over.last()));
    }
}

/// Merging an empty object into an object changes nothing.
pub proof fn lemma_merged_empty_override(base: Node)
    requires
        base.shape is Object,
    ensures
        merged(base, Node { shape: Shape::Object(Seq::empty()), comments: Seq::empty() }) == base,
{
}

/// An override that is not an object, or a base that is not one, replaces
/// the base whole.
pub proof fn lemma_merged_replaces(base: Node, over: Node)
    requires
        !(base.shape is Object) || !(over.shape is Object),
    ensures
        merged(base, over) == over,
{
}

/// Merging a value into itself changes nothing, when no object in it has a
/// key twice.
pub proof fn lemma_merged_self(n: Node)
    requires
        well_keyed(n),
    ensures
        merged(n, n) == n,
    decreases n, 1int,
{
    if let Shape::Object(es) = n.shape {
        lemma_merged_entries_self(es, es.len() as int);
        assert(es.take(es.len() as int) =~= es);
    }
}

proof fn lemma_merged_entries_self(es: Seq<(Seq<char>, Node)>, j: int)
    requires
        distinct_keys(es),
        forall|i: int| 0 <= i < es.len() ==> well_keyed(#[trigger] es[i].1),
        0 <= j <= es.len(),
    ensures
        merged_entries(es, es.take(j)) == es,
    decreases es, j,
{
    if j > 0 {
        let over = es.take(j);
        assert(over.drop_last() =~= es.take(j - 1));
        assert(over.last() == es[j - 1]);
        lemma_merged_entries_self(es, j - 1);
        lemma_find_key_distinct(es, j - 1);
        lemma_merged_self(es[j - 1].1);
        assert(es.update(j - 1, (es[j - 1].0, es[j - 1].1)) =~= es);
    } else {
        assert(es.take(0) =~= Seq::<(Seq<char>, Node)>::empty());
    }
}

} // verus!
