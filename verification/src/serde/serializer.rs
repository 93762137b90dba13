//! The COSY serializer: values back to text, with comments and key order.
use vstd::prelude::*;
use crate::value::{Node, Shape, Value, ValueKind, ObjectMap, value_model, values_model, entries_model, lemma_values_model, lemma_entries_model, strings_model};
use crate::text::{chars_of, int_text, push_char, push_int};

verus! {

broadcast use crate::value::lemma_entry_seq;

/// Serialization options for controlling output format.
#[derive(Debug, Clone, Copy, PartialEq)]
pub struct SerializeOptions {
    /// Number of spaces per indentation level (default: 4).
    pub indent_size: usize,
    /// Use newlines as separators in objects and arrays (default: true).
    pub use_newlines: bool,
    /// Add trailing commas (default: false).
    pub trailing_commas: bool,
}

impl Default for SerializeOptions {
    fn default() -> (o: SerializeOptions)
        ensures
            o.indent_size == 4,
            o.use_newlines,
            !o.trailing_commas,
    {
        SerializeOptions { indent_size: 4, use_newlines: true, trailing_commas: false }
    }
}

/// `n` spaces.
pub open spec fn spaces(n: nat) -> Seq<char> {
    Seq::new(n, |i: int| ' ')
}

/// The indentation of nesting level `level`.
pub open spec fn indent_text(level: nat, o: SerializeOptions) -> Seq<char> {
    spaces(level * (o.indent_size as nat))
}

/// Comment lines, each indented by `ind`.
pub open spec fn comment_lines(comments: Seq<Seq<char>>, ind: Seq<char>) -> Seq<char>
    decreases comments.len(),
{
    if comments.len() == 0 {
        Seq::empty()
    } else {
        comment_lines(comments.drop_last(), ind) + ind + "// "@ + comments.last() + "\n"@
    }
}

/// How a character is written inside a string literal.
pub open spec fn escape_char(c: char) -> Seq<char> {
    if c == '\n' {
        "\\n"@
    } else if c == '\t' {
        "\\t"@
    } else if c == '\r' {
        "\\r"@
    } else if c == '\\' {
        "\\\\"@
    } else if c == '"' {
        "\\\""@
    } else {
        seq![c]
    }
}

/// The characters of a string with escapes applied.
pub open spec fn escape_text(s: Seq<char>) -> Seq<char>
    decreases s.len(),
{
    if s.len() == 0 {
        Seq::empty()
    } else {
        escape_text(s.drop_last()) + escape_char(s.last())
    }
}

/// What follows element `i` of `len` in multi-line layout.
pub open spec fn line_sep(i: int, len: int, o: SerializeOptions) -> Seq<char> {
    if i < len - 1 {
        ",\n"@
    } else if o.trailing_commas {
        ",\n"@
    } else {
        "\n"@
    }
}

/// What follows element `i` of `len` in single-line layout.
pub open spec fn inline_sep(i: int, len: int, o: SerializeOptions) -> Seq<char> {
    if i < len - 1 {
        ", "@
    } else if o.trailing_commas {
        ","@
    } else {
        Seq::empty()
    }
}

/// A value at nesting level `level`: its comments, then its data.
pub open spec fn ser_value(n: Node, level: nat, o: SerializeOptions) -> Seq<char>
    decreases n, 0int,
{
    comment_lines(n.comments, indent_text(level, o)) + ser_shape(n.shape, level, o)
}

/// A value's data at nesting level `level`.
pub open spec fn ser_shape(s: Shape, level: nat, o: SerializeOptions) -> Seq<char>
    decreases s, 0int,
{
    match s {
        Shape::Null => "null"@,
        Shape::Bool(b) => if b {
            "true"@
        } else {
            "false"@
        },
        Shape::Integer(i) => int_text(i as int),
        Shape::Float(t) => t,
        Shape::Str(t) => "\""@ + escape_text(t) + "\""@,
        Shape::Array(items) => if items.len() == 0 {
            "[]"@
        } else if o.use_newlines && items.len() > 1 {
            "[\n"@ + array_lines(items, items.len() as int, level + 1, o) + indent_text(level, o)
                + "]"@
        } else {
            "["@ + array_inline(items, items.len() as int, level, o) + "]"@
        },
        Shape::Object(es) => if es.len() == 0 {
            "{}"@
        } else if o.use_newlines {
            "{\n"@ + object_lines(es, es.len() as int, level + 1, o) + indent_text(level, o) + "}"@
        } else {
            "{"@ + object_inline(es, es.len() as int, level, o) + "}"@
        },
    }
}

/// The first `k` items of an array, one per line at level `level`.
pub open spec fn array_lines(items: Seq<Node>, k: int, level: nat, o: SerializeOptions) -> Seq<char>
    decreases items, k,
{
    if k <= 0 || k > items.len() {
        Seq::empty()
    } else {
        array_lines(items, k - 1, level, o) + indent_text(level, o) + ser_value(
            items[k - 1],
            level,
            o,
        ) + line_sep(k - 1, items.len() as int, o)
    }
}

/// The first `k` items of an array on one line.
pub open spec fn array_inline(items: Seq<Node>, k: int, level: nat, o: SerializeOptions) -> Seq<char>
    decreases items, k,
{
    if k <= 0 || k > items.len() {
        Seq::empty()
    } else {
        array_inline(items, k - 1, level, o) + ser_value(items[k - 1], level, o) + inline_sep(
            k - 1,
            items.len() as int,
            o,
        )
    }
}

/// The first `k` entries of an object, one per line at level `level`, each
/// preceded by its value's comments.
pub open spec fn object_lines(es: Seq<(Seq<char>, Node)>, k: int, level: nat, o: SerializeOptions) -> Seq<
    char,
>
    decreases es, k,
{
    if k <= 0 || k > es.len() {
        Seq::empty()
    } else {
        let e = es[k - 1];
        object_lines(es, k - 1, level, o) + comment_lines(e.1.comments, indent_text(level, o))
            + indent_text(level, o) + e.0 + ": "@ + ser_shape(e.1.shape, level, o) + line_sep(
            k - 1,
            es.len() as int,
            o,
        )
    }
}

/// The first `k` entries of an object on one line (a value's comments still
/// end their own lines).
pub open spec fn object_inline(es: Seq<(Seq<char>, Node)>, k: int, level: nat, o: SerializeOptions) -> Seq<
    char,
>
    decreases es, k,
{
    if k <= 0 || k > es.len() {
        Seq::empty()
    } else {
        let e = es[k - 1];
        object_inline(es, k - 1, level, o) + comment_lines(e.1.comments, Seq::empty()) + e.0
            + ": "@ + ser_shape(e.1.shape, level, o) + inline_sep(k - 1, es.len() as int, o)
    }
}

} // verus!

verus! {

/// Whether the last character of `t` that is not a space or a line break,
/// before its final character, is a comma.
pub open spec fn comma_before_close(t: Seq<char>) -> bool {
    exists|k: int|
        0 <= k < t.len() - 1 && #[trigger] t[k] == ',' && forall|m: int|
            k < m < t.len() - 1 ==> #[trigger] t[m] == ' ' || t[m] == '\n'
}

proof fn lemma_comma_lines(pre: Seq<char>, ind: Seq<char>, close: Seq<char>)
    requires
        forall|m: int| 0 <= m < ind.len() ==> #[trigger] ind[m] == ' ',
        close.len() == 1,
    ensures
        comma_before_close(pre + ",\n"@ + ind + close),
        (pre + ",\n"@ + ind + close).last() == close[0],
{
    reveal_strlit(",\n");
    let t = pre + ",\n"@ + ind + close;
    let k = pre.len() as int;
    assert(t[k] == ',');
    assert forall|m: int| k < m < t.len() - 1 implies #[trigger] t[m] == ' ' || t[m] == '\n' by {
        if m == k + 1 {
            assert(t[m] == '\n');
        } else {
            assert(t[m] == ind[m - k - 2]);
        }
    }
}

proof fn lemma_comma_inline(pre: Seq<char>, close: Seq<char>)
    requires
        close.len() == 1,
    ensures
        comma_before_close(pre + ","@ + close),
        (pre + ","@ + close).last() == close[0],
{
    reveal_strlit(",");
    let t = pre + ","@ + close;
    assert(t[pre.len() as int] == ',');
}

proof fn lemma_trailing_comma_array(items: Seq<Node>, level: nat, o: SerializeOptions)
    requires
        o.trailing_commas,
        items.len() > 0,
    ensures
        comma_before_close(ser_shape(Shape::Array(items), level, o)),
        ser_shape(Shape::Array(items), level, o).last() == ']',
{
    reveal_strlit("]");
    let n = items.len() as int;
    let t = ser_shape(Shape::Array(items), level, o);
    if o.use_newlines && n > 1 {
        let ind = indent_text(level, o);
        let pre = "[\n"@ + array_lines(items, n - 1, level + 1, o) + indent_text(level + 1, o) + ser_value(
            items[n - 1],
            level + 1,
            o,
        );
        assert(line_sep(n - 1, n, o) == ",\n"@);
        assert(t =~= pre + ",\n"@ + ind + "]"@);
        lemma_comma_lines(pre, ind, "]"@);
    } else {
        let pre = "["@ + array_inline(items, n - 1, level, o) + ser_value(items[n - 1], level, o);
        assert(inline_sep(n - 1, n, o) == ","@);
        assert(t =~= pre + ","@ + "]"@);
        lemma_comma_inline(pre, "]"@);
    }
}

proof fn lemma_trailing_comma_object(es: Seq<(Seq<char>, Node)>, level: nat, o: SerializeOptions)
    requires
        o.trailing_commas,
        es.len() > 0,
    ensures
        comma_before_close(ser_shape(Shape::Object(es), level, o)),
        ser_shape(Shape::Object(es), level, o).last() == '}',
{
    reveal_strlit("}");
    let n = es.len() as int;
    let e = es[n - 1];
    let t = ser_shape(Shape::Object(es), level, o);
    if o.use_newlines {
        let ind = indent_text(level, o);
        let pre = "{\n"@ + object_lines(es, n - 1, level + 1, o) + comment_lines(
            e.1.comments,
            indent_text(level + 1, o),
        ) + indent_text(level + 1, o) + e.0 + ": "@ + ser_shape(e.1.shape, level + 1, o);
        assert(line_sep(n - 1, n, o) == ",\n"@);
        assert(t =~= pre + ",\n"@ + ind + "}"@);
        lemma_comma_lines(pre, ind, "}"@);
    } else {
        let pre = "{"@ + object_inline(es, n - 1, level, o) + comment_lines(e.1.comments, Seq::empty()) + e.0
            + ": "@ + ser_shape(e.1.shape, level, o);
        assert(inline_sep(n - 1, n, o) == ","@);
        assert(t =~= pre + ","@ + "}"@);
        lemma_comma_inline(pre, "}"@);
    }
}

/// With trailing commas asked for, a non-empty array or object is written
/// with a comma after its last element, in either layout: the last
/// character before its closing bracket that is not a space or a line
/// break is a comma.
pub proof fn lemma_trailing_comma(s: Shape, level: nat, o: SerializeOptions)
    requires
        o.trailing_commas,
        (s matches Shape::Array(items) && items.len() > 0) || (s matches Shape::Object(es) && es.len() > 0),
    ensures
        comma_before_close(ser_shape(s, level, o)),
        ser_shape(s, level, o).last() == if s is Array {
            ']'
        } else {
            '}'
        },
{
    match s {
        Shape::Array(items) => lemma_trailing_comma_array(items, level, o),
        Shape::Object(es) => lemma_trailing_comma_object(es, level, o),
        _ => {},
    }
}

pub open spec fn max_nat(a: nat, b: nat) -> nat {
    if a >= b {
        a
    } else {
        b
    }
}

/// How deeply arrays and objects nest in a value (0 for a scalar).
pub open spec fn node_depth(n: Node) -> nat
    decreases n, 0int,
{
    match n.shape {
        Shape::Array(items) => 1 + items_depth(items, items.len() as int),
        Shape::Object(es) => 1 + entries_depth(es, es.len() as int),
        _ => 0,
    }
}

pub open spec fn items_depth(items: Seq<Node>, k: int) -> nat
    decreases items, k,
{
    if k <= 0 || k > items.len() {
        0
    } else {
        max_nat(items_depth(items, k - 1), node_depth(items[k - 1]))
    }
}

pub open spec fn entries_depth(es: Seq<(Seq<char>, Node)>, k: int) -> nat
    decreases es, k,
{
    if k <= 0 || k > es.len() {
        0
    } else {
        max_nat(entries_depth(es, k - 1), node_depth(es[k - 1].1))
    }
}

pub proof fn lemma_items_depth(items: Seq<Node>, k: int, i: int)
    requires
        0 <= i < k <= items.len(),
    ensures
        node_depth(items[i]) <= items_depth(items, k),
    decreases k,
{
    if i < k - 1 {
        lemma_items_depth(items, k - 1, i);
    }
}

pub proof fn lemma_entries_depth(es: Seq<(Seq<char>, Node)>, k: int, i: int)
    requires
        0 <= i < k <= es.len(),
    ensures
        node_depth(es[i].1) <= entries_depth(es, k),
    decreases k,
{
    if i < k - 1 {
        lemma_entries_depth(es, k - 1, i);
    }
}

/// Whether indentation up to `depth` levels below `level` fits in a `usize`.
pub open spec fn indent_fits(level: nat, depth: nat, o: SerializeOptions) -> bool {
    &&& level + depth <= usize::MAX
    &&& (level + depth) * (o.indent_size as nat) <= usize::MAX
}

pub proof fn lemma_indent_fits_less(level: nat, depth: nat, l2: nat, d2: nat, o: SerializeOptions)
    requires
        indent_fits(level, depth, o),
        l2 + d2 <= level + depth,
    ensures
        indent_fits(l2, d2, o),
        l2 * (o.indent_size as nat) <= usize::MAX,
{
    vstd::arithmetic::mul::lemma_mul_inequality(
        (l2 + d2) as int,
        (level + depth) as int,
        o.indent_size as int,
    );
    vstd::arithmetic::mul::lemma_mul_inequality(l2 as int, (l2 + d2) as int, o.indent_size as int);
}

/// Serializer for converting a value back to COSY text.
pub struct Serializer {
    pub options: SerializeOptions,
    pub indent_level: usize,
}

impl Default for Serializer {
    fn default() -> (s: Serializer)
        ensures
            s.options.indent_size == 4,
            s.options.use_newlines,
            !s.options.trailing_commas,
            s.indent_level == 0,
    {
        Self::new()
    }
}

impl Serializer {
    /// A serializer with default options.
    pub fn new() -> (s: Serializer)
        ensures
            s.options.indent_size == 4,
            s.options.use_newlines,
            !s.options.trailing_commas,
            s.indent_level == 0,
    {
        Serializer { options: SerializeOptions::default(), indent_level: 0 }
    }

    /// A serializer with custom options.
    pub fn with_options(options: SerializeOptions) -> (s: Serializer)
        ensures
            s.options == options,
            s.indent_level == 0,
    {
        Serializer { options, indent_level: 0 }
    }

    /// The indentation of the current level.
    pub fn indent(&self) -> (s: String)
        requires
            self.indent_level * self.options.indent_size <= usize::MAX,
        ensures
            s@ == indent_text(self.indent_level as nat, self.options),
    {
        let n = self.indent_level * self.options.indent_size;
        let mut s = String::new();
        let mut k: usize = 0;
        while k < n
            invariant
                k <= n,
                s@ == spaces(k as nat),
            decreases n - k,
        {
            push_char(&mut s, ' ');
            k = k + 1;
            assert(s@ =~= spaces(k as nat));
        }
        assert(s@ =~= indent_text(self.indent_level as nat, self.options));
        s
    }

    /// A string literal with escapes.
    pub fn serialize_string(&self, s: &str) -> (r: String)
        ensures
            r@ == "\""@ + escape_text(s@) + "\""@,
    {
        let cs = chars_of(s);
        let mut result = String::from_str("\"");
        let mut k: usize = 0;
        while k < cs.len()
            invariant
                0 <= k <= cs@.len(),
                cs@ == s@,
                result@ == "\""@ + escape_text(cs@.take(k as int)),
            decreases cs@.len() - k,
        {
            let ch = cs[k];
            let ghost before = result@;
            if ch == '\n' {
                result.append("\\n");
            } else if ch == '\t' {
                result.append("\\t");
            } else if ch == '\r' {
                result.append("\\r");
            } else if ch == '\\' {
                result.append("\\\\");
            } else if ch == '"' {
                result.append("\\\"");
            } else {
                push_char(&mut result, ch);
            }
            proof {
                assert(cs@.take(k + 1).drop_last() =~= cs@.take(k as int));
                assert(cs@.take(k + 1).last() == ch);
                assert(before + escape_char(ch) == result@);
            }
            k = k + 1;
        }
        assert(cs@.take(cs@.len() as int) =~= s@);
        result.append("\"");
        result
    }

    /// Append the comment lines of `comments` at the current indentation.
    fn push_comments(&self, result: &mut String, comments: &Vec<String>, indented: bool)
        requires
            self.indent_level * self.options.indent_size <= usize::MAX,
        ensures
            final(result)@ == old(result)@ + comment_lines(
                strings_model(comments@),
                if indented {
                    indent_text(self.indent_level as nat, self.options)
                } else {
                    Seq::empty()
                },
            ),
    {
        let ghost ind = if indented {
            indent_text(self.indent_level as nat, self.options)
        } else {
            Seq::<char>::empty()
        };
        let ghost cm = strings_model(comments@);
        let mut k: usize = 0;
        assert(cm.take(0) =~= Seq::<Seq<char>>::empty());
        while k < comments.len()
            invariant
                0 <= k <= comments@.len(),
                cm == strings_model(comments@),
                cm.len() == comments@.len(),
                self.indent_level * self.options.indent_size <= usize::MAX,
                ind == (if indented {
                    indent_text(self.indent_level as nat, self.options)
                } else {
                    Seq::<char>::empty()
                }),
                result@ == old(result)@ + comment_lines(cm.take(k as int), ind),
            decreases comments@.len() - k,
        {
            if indented {
                let ind_s = self.indent();
                result.append(ind_s.as_str());
            }
            result.append("// ");
            result.append(comments[k].as_str());
            result.append("\n");
            proof {
                assert(cm.take(k + 1).drop_last() =~= cm.take(k as int));
                assert(cm.take(k + 1).last() == comments@[k as int]@);
            }
            k = k + 1;
        }
        assert(cm.take(comments@.len() as int) =~= cm);
    }
}

} // verus!

verus! {

impl Serializer {
    /// Serialize a value to a COSY string at the current indentation.
    pub fn serialize(&mut self, value: &Value) -> (r: String)
        requires
            indent_fits(old(self).indent_level as nat, node_depth(value@), old(self).options),
        ensures
            r@ == ser_value(value@, old(self).indent_level as nat, old(self).options),
            final(self).options == old(self).options,
            final(self).indent_level == old(self).indent_level,
    {
        self.serialize_value(value)
    }

    fn serialize_value(&mut self, value: &Value) -> (r: String)
        requires
            indent_fits(old(self).indent_level as nat, node_depth(value@), old(self).options),
        ensures
            r@ == ser_value(value@, old(self).indent_level as nat, old(self).options),
            final(self).options == old(self).options,
            final(self).indent_level == old(self).indent_level,
        decreases value@, 1int,
    {
        proof {
            lemma_indent_fits_less(
                self.indent_level as nat,
                node_depth(value@),
                self.indent_level as nat,
                0,
                self.options,
            );
        }
        let mut result = String::new();
        self.push_comments(&mut result, &value.comments, true);
        let k = self.serialize_value_kind(&value.kind);
        result.append(k.as_str());
        result
    }

    fn serialize_value_kind(&mut self, kind: &ValueKind) -> (r: String)
        requires
            indent_fits(
                old(self).indent_level as nat,
                node_depth(Node { shape: crate::value::kind_model(*kind), comments: Seq::empty() }),
                old(self).options,
            ),
        ensures
            r@ == ser_shape(crate::value::kind_model(*kind), old(self).indent_level as nat, old(self).options),
            final(self).options == old(self).options,
            final(self).indent_level == old(self).indent_level,
        decreases crate::value::kind_model(*kind), 0int,
    {
        match kind {
            ValueKind::Null => String::from_str("null"),
            ValueKind::Bool(b) => if *b {
                String::from_str("true")
            } else {
                String::from_str("false")
            },
            ValueKind::Integer(i) => {
                let mut s = String::new();
                push_int(&mut s, *i);
                assert(s@ =~= int_text(*i as int));
                s
            },
            ValueKind::Float(f) => f.clone(),
            ValueKind::String(s) => self.serialize_string(s.as_str()),
            ValueKind::Array(arr) => self.serialize_array(arr),
            ValueKind::Object(obj) => self.serialize_object(obj),
        }
    }

    fn serialize_array(&mut self, arr: &Vec<Value>) -> (r: String)
        requires
            indent_fits(
                old(self).indent_level as nat,
                node_depth(Node { shape: Shape::Array(values_model(arr@)), comments: Seq::empty() }),
                old(self).options,
            ),
        ensures
            r@ == ser_shape(Shape::Array(values_model(arr@)), old(self).indent_level as nat, old(self).options),
            final(self).options == old(self).options,
            final(self).indent_level == old(self).indent_level,
        decreases values_model(arr@), 2int,
    {
        let ghost items = values_model(arr@);
        let ghost lvl = self.indent_level as nat;
        let ghost o = self.options;
        let ghost d = node_depth(Node { shape: Shape::Array(items), comments: Seq::empty() });
        proof {
            lemma_values_model(arr@);
        }
        if arr.len() == 0 {
            return String::from_str("[]");
        }
        let n = arr.len();
        let mut result;
        if self.options.use_newlines && arr.len() > 1 {
            result = String::from_str("[\n");
            self.indent_level = self.indent_level + 1;
            let mut i: usize = 0;
            while i < n
                invariant
                    n == arr@.len() == items.len(),
                    n > 1,
                    items == values_model(arr@),
                    forall|j: int| 0 <= j < n ==> #[trigger] items[j] == value_model(arr@[j]),
                    self.options == o,
                    self.indent_level == lvl + 1,
                    indent_fits(lvl, d, o),
                    d == 1 + items_depth(items, n as int),
                    0 <= i <= n,
                    result@ == "[\n"@ + array_lines(items, i as int, lvl + 1, o),
                decreases n - i,
            {
                proof {
                    lemma_items_depth(items, n as int, i as int);
                    lemma_indent_fits_less(lvl, d, lvl + 1, node_depth(items[i as int]), o);
                    lemma_indent_fits_less(lvl, d, lvl + 1, 0, o);
                }
                let ind = self.indent();
                result.append(ind.as_str());
                let item = self.serialize_value(&arr[i]);
                result.append(item.as_str());
                if i < n - 1 {
                    result.append(",\n");
                } else if self.options.trailing_commas {
                    result.append(",\n");
                } else {
                    result.append("\n");
                }
                i = i + 1;
            }
            self.indent_level = self.indent_level - 1;
            proof {
                lemma_indent_fits_less(lvl, d, lvl, 0, o);
            }
            let ind = self.indent();
            result.append(ind.as_str());
        } else {
            result = String::from_str("[");
            let mut i: usize = 0;
            while i < n
                invariant
                    n == arr@.len() == items.len(),
                    n > 0,
                    items == values_model(arr@),
                    forall|j: int| 0 <= j < n ==> #[trigger] items[j] == value_model(arr@[j]),
                    self.options == o,
                    self.indent_level == lvl,
                    indent_fits(lvl, d, o),
                    d == 1 + items_depth(items, n as int),
                    0 <= i <= n,
                    result@ == "["@ + array_inline(items, i as int, lvl, o),
                decreases n - i,
            {
                proof {
                    lemma_items_depth(items, n as int, i as int);
                    lemma_indent_fits_less(lvl, d, lvl, node_depth(items[i as int]), o);
                }
                let item = self.serialize_value(&arr[i]);
                result.append(item.as_str());
                if i < n - 1 {
                    result.append(", ");
                } else if self.options.trailing_commas {
                    result.append(",");
                }
                i = i + 1;
            }
        }
        result.append("]");
        result
    }

    #[verifier::rlimit(40)]
    fn serialize_object(&mut self, obj: &ObjectMap) -> (r: String)
        requires
            indent_fits(
                old(self).indent_level as nat,
                node_depth(Node { shape: Shape::Object(obj@), comments: Seq::empty() }),
                old(self).options,
            ),
        ensures
            r@ == ser_shape(Shape::Object(obj@), old(self).indent_level as nat, old(self).options),
            final(self).options == old(self).options,
            final(self).indent_level == old(self).indent_level,
        decreases obj@, 2int,
    {
        let ghost es = obj@;
        let ghost lvl = self.indent_level as nat;
        let ghost o = self.options;
        let ghost d = node_depth(Node { shape: Shape::Object(es), comments: Seq::empty() });
        proof {
            lemma_entries_model(obj.entries@);
        }
        if obj.entries.len() == 0 {
            return String::from_str("{}");
        }
        let n = obj.entries.len();
        let mut result;
        if self.options.use_newlines {
            result = String::from_str("{\n");
            self.indent_level = self.indent_level + 1;
            let mut i: usize = 0;
            while i < n
                invariant
                    n == obj.entries@.len() == es.len(),
                    n > 0,
                    es == obj@,
                    forall|j: int|
                        0 <= j < n ==> #[trigger] es[j] == (
                            obj.entries@[j].0@,
                            value_model(obj.entries@[j].1),
                        ),
                    self.options == o,
                    self.indent_level == lvl + 1,
                    indent_fits(lvl, d, o),
                    d == 1 + entries_depth(es, n as int),
                    0 <= i <= n,
                    result@ == "{\n"@ + object_lines(es, i as int, lvl + 1, o),
                decreases n - i,
            {
                proof {
                    lemma_entries_depth(es, n as int, i as int);
                    lemma_indent_fits_less(lvl, d, lvl + 1, node_depth(es[i as int].1), o);
                    lemma_indent_fits_less(lvl, d, lvl + 1, 0, o);
                    assert(node_depth(Node { shape: es[i as int].1.shape, comments: Seq::empty() })
                        == node_depth(es[i as int].1));
                }
                let entry = &obj.entries[i];
                self.push_comments(&mut result, &entry.1.comments, true);
                let ind = self.indent();
                result.append(ind.as_str());
                result.append(entry.0.as_str());
                result.append(": ");
                let k = self.serialize_value_kind(&entry.1.kind);
                result.append(k.as_str());
                if i < n - 1 {
                    result.append(",\n");
                } else if self.options.trailing_commas {
                    result.append(",\n");
                } else {
                    result.append("\n");
                }
                i = i + 1;
            }
            self.indent_level = self.indent_level - 1;
            proof {
                lemma_indent_fits_less(lvl, d, lvl, 0, o);
            }
            let ind = self.indent();
            result.append(ind.as_str());
        } else {
            result = String::from_str("{");
            let mut i: usize = 0;
            while i < n
                invariant
                    n == obj.entries@.len() == es.len(),
                    n > 0,
                    es == obj@,
                    forall|j: int|
                        0 <= j < n ==> #[trigger] es[j] == (
                            obj.entries@[j].0@,
                            value_model(obj.entries@[j].1),
                        ),
                    self.options == o,
                    self.indent_level == lvl,
                    indent_fits(lvl, d, o),
                    d == 1 + entries_depth(es, n as int),
                    0 <= i <= n,
                    result@ == "{"@ + object_inline(es, i as int, lvl, o),
                decreases n - i,
            {
                proof {
                    lemma_entries_depth(es, n as int, i as int);
                    lemma_indent_fits_less(lvl, d, lvl, node_depth(es[i as int].1), o);
                    assert(node_depth(Node { shape: es[i as int].1.shape, comments: Seq::empty() })
                        == node_depth(es[i as int].1));
                }
                let entry = &obj.entries[i];
                self.push_comments(&mut result, &entry.1.comments, false);
                result.append(entry.0.as_str());
                result.append(": ");
                let k = self.serialize_value_kind(&entry.1.kind);
                result.append(k.as_str());
                if i < n - 1 {
                    result.append(", ");
                } else if self.options.trailing_commas {
                    result.append(",");
                }
                i = i + 1;
            }
        }
        result.append("}");
        result
    }
}

/// How deeply arrays and objects nest in `value`, or `None` when that
/// number does not fit in a `usize`.
fn depth_of(value: &Value) -> (d: Option<usize>)
    ensures
        match d {
            Some(x) => x == node_depth(value@),
            None => node_depth(value@) > usize::MAX,
        },
    decreases value@,
{
    let ghost n = value@;
    match &value.kind {
        ValueKind::Array(arr) => {
            let ghost items = crate::value::values_model(arr@);
            proof {
                crate::value::lemma_values_model(arr@);
            }
            let mut best: usize = 0;
            let mut i: usize = 0;
            while i < arr.len()
                invariant
                    0 <= i <= arr@.len(),
                    items == crate::value::values_model(arr@),
                    items.len() == arr@.len(),
                    forall|j: int| 0 <= j < items.len() ==> #[trigger] items[j] == arr@[j]@,
                    n == value@,
                    n.shape == Shape::Array(items),
                    best == items_depth(items, i as int),
                decreases arr@.len() - i,
            {
                assert(decreases_to!(n => items[i as int])) by {
                    assert(decreases_to!(n => n.shape));
                    assert(decreases_to!(n.shape => n.shape->Array_0));
                    assert(decreases_to!(items => items[i as int]));
                }
                match depth_of(&arr[i]) {
                    None => {
                        proof {
                            lemma_items_depth(items, items.len() as int, i as int);
                        }
                        return None;
                    },
                    Some(d) => {
                        if d > best {
                            best = d;
                        }
                    },
                }
                i = i + 1;
            }
            if best == usize::MAX {
                None
            } else {
                Some(best + 1)
            }
        },
        ValueKind::Object(map) => {
            let ghost es = map@;
            proof {
                crate::value::lemma_entries_model(map.entries@);
            }
            let mut best: usize = 0;
            let mut i: usize = 0;
            while i < map.entries.len()
                invariant
                    0 <= i <= map.entries@.len(),
                    es == map@,
                    es.len() == map.entries@.len(),
                    forall|j: int| 0 <= j < es.len() ==> #[trigger] es[j] == (
                        map.entries@[j].0@,
                        map.entries@[j].1@,
                    ),
                    n == value@,
                    n.shape == Shape::Object(es),
                    best == entries_depth(es, i as int),
                decreases map.entries@.len() - i,
            {
                assert(es[i as int].1 == map.entries@[i as int].1@);
                assert(decreases_to!(n => es[i as int].1)) by {
                    assert(decreases_to!(n => n.shape));
                    assert(decreases_to!(n.shape => n.shape->Object_0));
                    assert(decreases_to!(es => es[i as int]));
                }
                match depth_of(&map.entries[i].1) {
                    None => {
                        proof {
                            lemma_entries_depth(es, es.len() as int, i as int);
                        }
                        return None;
                    },
                    Some(d) => {
                        if d > best {
                            best = d;
                        }
                    },
                }
                i = i + 1;
            }
            if best == usize::MAX {
                None
            } else {
                Some(best + 1)
            }
        },
        _ => Some(0),
    }
}

/// Whether the indentation needed to write `value` with `options` fits in
/// a `usize`: the condition under which `to_string_with_options` writes it.
pub fn indentation_fits(value: &Value, options: SerializeOptions) -> (b: bool)
    ensures
        b == indent_fits(0, node_depth(value@), options),
{
    match depth_of(value) {
        None => false,
        Some(d) => d.checked_mul(options.indent_size).is_some(),
    }
}

/// Serialize a value to COSY text with default options.
pub fn to_string(value: &Value) -> (s: String)
    requires
        indent_fits(0, node_depth(value@), SerializeOptions::default_spec()),
    ensures
        s@ == ser_value(value@, 0, SerializeOptions::default_spec()),
{
    let mut serializer = Serializer::new();
    serializer.serialize(value)
}

/// Serialize a value to COSY text with custom options.
pub fn to_string_with_options(value: &Value, options: SerializeOptions) -> (s: String)
    requires
        indent_fits(0, node_depth(value@), options),
    ensures
        s@ == ser_value(value@, 0, options),
{
    let mut serializer = Serializer::with_options(options);
    serializer.serialize(value)
}

impl SerializeOptions {
    /// The default options: four spaces, newlines, no trailing commas.
    pub open spec fn default_spec() -> SerializeOptions {
        SerializeOptions { indent_size: 4, use_newlines: true, trailing_commas: false }
    }
}

} // verus!
